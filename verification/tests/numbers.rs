use vector_index::bits::{
    is_finite_32, is_zero_32, is_zero_64, square_is_zero_32, total_order_32, total_order_64,
};
use vector_index::clusters::lists_from_assignments;
use vector_index::codebooks::codebook_seed;
use vector_index::dataset::Dataset;
use vector_index::hnsw::HnswConfig;
use vector_index::ivf::IvfFlatConfig;
use vector_index::levels::{climb, draw_levels, level_of};
use vector_index::nsw::NswConfig;
use vector_index::pq::IvfPqConfig;
use vector_index::ranking::{sort, MinQueue, Ranked, ScoredRow, TopK};
use vector_index::seqs::{copied, holds, larger, same_rows, smaller};
use vector_index::shuffle::shuffle;
use vector_index::types::{Metric, Neighbor, VectorError};

fn singles() -> Vec<f32> {
    vec![
        f32::NEG_INFINITY,
        f32::MIN,
        -1.5,
        -1.0,
        -f32::MIN_POSITIVE,
        -1.0e-40,
        -0.0,
        0.0,
        1.0e-40,
        f32::MIN_POSITIVE,
        0.1,
        1.0,
        1.0000001,
        f32::MAX,
        f32::INFINITY,
        f32::NAN,
        -f32::NAN,
        f32::from_bits(0x7f80_0001),
        f32::from_bits(0xffff_ffff),
    ]
}

fn doubles() -> Vec<f64> {
    vec![
        f64::NEG_INFINITY,
        f64::MIN,
        -2.0,
        -1.0e-310,
        -0.0,
        0.0,
        1.0e-310,
        f64::MIN_POSITIVE,
        3.25,
        f64::MAX,
        f64::INFINITY,
        f64::NAN,
        -f64::NAN,
    ]
}

fn neighbor(row: usize, distance: f32) -> Neighbor {
    Neighbor { row, distance: distance.to_bits() }
}

fn bit_vectors(vectors: &[Vec<f32>]) -> Vec<Vec<u32>> {
    vectors.iter().map(|vector| vector.iter().map(|x| x.to_bits()).collect()).collect()
}

#[test]
fn single_precision_order_is_the_total_order() {
    for left in singles() {
        for right in singles() {
            assert_eq!(
                total_order_32(left.to_bits()).cmp(&total_order_32(right.to_bits())),
                left.total_cmp(&right),
                "{left:?} {right:?}"
            );
        }
    }
}

#[test]
fn double_precision_order_is_the_total_order() {
    for left in doubles() {
        for right in doubles() {
            assert_eq!(
                total_order_64(left.to_bits()).cmp(&total_order_64(right.to_bits())),
                left.total_cmp(&right),
                "{left:?} {right:?}"
            );
        }
    }
}

#[test]
fn order_keys_have_exact_values() {
    assert_eq!(total_order_32(0), 0);
    assert_eq!(total_order_32(0x8000_0000), -1);
    assert_eq!(total_order_32(1.0f32.to_bits()), 0x3f80_0000);
    assert_eq!(total_order_32(0xffff_ffff), -0x8000_0000);
    assert_eq!(total_order_64(0), 0);
    assert_eq!(total_order_64(0x8000_0000_0000_0000), -1);
    assert_eq!(total_order_64(u64::MAX), i64::MIN);
}

#[test]
fn finiteness_and_zero_are_read_off_the_bits() {
    for value in singles() {
        assert_eq!(is_finite_32(value.to_bits()), value.is_finite(), "{value:?}");
        assert_eq!(is_zero_32(value.to_bits()), value == 0.0, "{value:?}");
    }
    for value in doubles() {
        assert_eq!(is_zero_64(value.to_bits()), value == 0.0, "{value:?}");
    }
}

#[test]
fn squares_underflow_up_to_a_bound() {
    let bound = 2.0f32.powi(-75);
    for value in [bound, -bound, bound / 2.0, 0.0, -0.0, 1.0e-40] {
        assert_eq!(value * value, 0.0);
        assert!(square_is_zero_32(value.to_bits()), "{value:?}");
    }
    let above = f32::from_bits(bound.to_bits() + 1);
    for value in [above, -above, 1.0, f32::MIN_POSITIVE * 1.0e20, f32::MAX] {
        assert_ne!(value * value, 0.0);
        assert!(!square_is_zero_32(value.to_bits()), "{value:?}");
    }
}

#[test]
fn neighbors_rank_by_distance_and_row() {
    assert!(neighbor(9, 1.0).before(&neighbor(0, 2.0)));
    assert!(neighbor(0, 1.0).before(&neighbor(1, 1.0)));
    assert!(!neighbor(1, 1.0).before(&neighbor(1, 1.0)));
    assert!(neighbor(5, -0.0).before(&neighbor(0, 0.0)));
    assert!(neighbor(0, f32::INFINITY).before(&neighbor(0, f32::NAN)));
    let low = ScoredRow { row: 3, score: 0.5f64.to_bits() };
    let high = ScoredRow { row: 1, score: 0.75f64.to_bits() };
    assert!(low.before(&high) && !high.before(&low));
}

#[test]
fn sorting_forgets_where_items_stood() {
    let items = vec![neighbor(2, 3.0), neighbor(7, 1.0), neighbor(4, 1.0), neighbor(0, 9.0)];
    let mut reversed = items.clone();
    reversed.reverse();
    let expected =
        vec![neighbor(4, 1.0), neighbor(7, 1.0), neighbor(2, 3.0), neighbor(0, 9.0)];
    assert_eq!(sort(items), expected);
    assert_eq!(sort(reversed), expected);
    assert_eq!(sort(Vec::<Neighbor>::new()), vec![]);
}

#[test]
fn a_selection_keeps_the_smallest() {
    let mut top: TopK<Neighbor> = TopK::new(2);
    assert_eq!(top.len(), 0);
    assert_eq!(top.worst(), None);
    top.push(neighbor(0, 5.0));
    top.push(neighbor(1, 1.0));
    assert_eq!(top.worst(), Some(neighbor(0, 5.0)));
    top.push(neighbor(2, 3.0));
    top.push(neighbor(3, 8.0));
    assert_eq!(top.len(), 2);
    assert_eq!(top.worst(), Some(neighbor(2, 3.0)));
    assert_eq!(top.into_sorted(), vec![neighbor(1, 1.0), neighbor(2, 3.0)]);
}

#[test]
fn a_selection_of_nothing_stays_empty() {
    let mut top: TopK<Neighbor> = TopK::new(0);
    top.push(neighbor(0, 1.0));
    assert_eq!(top.len(), 0);
    assert_eq!(top.into_sorted(), vec![]);
}

#[test]
fn a_queue_hands_out_the_smallest() {
    let mut queue: MinQueue<Neighbor> = MinQueue::new();
    for (row, distance) in [(0, 4.0), (1, 2.0), (2, 6.0), (3, 2.0)] {
        queue.push(neighbor(row, distance));
    }
    assert_eq!(queue.pop(), Some(neighbor(1, 2.0)));
    assert_eq!(queue.pop(), Some(neighbor(3, 2.0)));
    queue.push(neighbor(4, 5.0));
    assert_eq!(queue.pop(), Some(neighbor(0, 4.0)));
    assert_eq!(queue.pop(), Some(neighbor(4, 5.0)));
    assert_eq!(queue.pop(), Some(neighbor(2, 6.0)));
    assert_eq!(queue.pop(), None);
}

#[test]
fn small_helpers() {
    assert_eq!(copied(&[1u32, 2, 3]), vec![1, 2, 3]);
    assert!(holds(&[4, 5], 5));
    assert!(!holds(&[4, 5], 6));
    assert!(same_rows(&[1, 2], &[1, 2]));
    assert!(!same_rows(&[1, 2], &[2, 1]));
    assert!(!same_rows(&[1], &[1, 2]));
    assert_eq!((smaller(2, 9), larger(2, 9)), (2, 9));
    assert_eq!((smaller(9, 2), larger(9, 2)), (2, 9));
}

#[test]
fn shuffling_swaps_from_the_end() {
    assert_eq!(shuffle(4, &[3, 2, 1]), vec![0, 1, 2, 3]);
    assert_eq!(shuffle(4, &[0, 0, 0]), vec![1, 2, 3, 0]);
    assert_eq!(shuffle(4, &[1, 2, 0]), vec![3, 0, 2, 1]);
    assert_eq!(shuffle(1, &[]), vec![0]);
}

#[test]
fn shuffling_permutes_for_all_draws() {
    for a in 0..4 {
        for b in 0..3 {
            for c in 0..2 {
                let mut order = shuffle(4, &[a, b, c]);
                order.sort();
                assert_eq!(order, vec![0, 1, 2, 3]);
            }
        }
    }
}

#[test]
fn coin_flips_climb_to_the_highest_level() {
    assert_eq!(climb(0, true, 2), Some(1));
    assert_eq!(climb(1, true, 2), Some(2));
    assert_eq!(climb(2, true, 2), None);
    assert_eq!(climb(0, false, 2), None);
}

fn coins(text: &str) -> Vec<bool> {
    text.chars().map(|side| side == 'h').collect()
}

#[test]
fn a_level_counts_leading_heads() {
    for (flips, level) in [("", 0), ("t", 0), ("ht", 1), ("hhhth", 3), ("hhhhhhh", 4), ("hhhh", 4)] {
        assert_eq!(level_of(&coins(flips), 4), level);
        let mut climbed = 0;
        for heads in coins(flips) {
            match climb(climbed, heads, 4) {
                Some(next) => climbed = next,
                None => break,
            }
        }
        assert_eq!(climbed, level);
    }
}

#[test]
fn rows_draw_levels_from_one_run_of_flips() {
    let flips = coins("thtthhhhhhtt");
    assert_eq!(draw_levels(&flips, 2, 6), vec![0, 1, 0, 2, 2, 0]);
    assert_eq!(draw_levels(&flips, 9, 4), vec![0, 1, 0, 6]);
    assert_eq!(draw_levels(&[], 2, 0), vec![]);
}

#[test]
fn fewer_rows_draw_the_same_first_levels() {
    let flips = coins("hthhtthhhhtththtt");
    let all = draw_levels(&flips, 3, 7);
    for rows in 0..7 {
        assert_eq!(draw_levels(&flips, 3, rows), all[..rows].to_vec());
    }
}

#[test]
fn rows_are_grouped_by_cluster() {
    assert_eq!(
        lists_from_assignments(&[2, 0, 2, 2, 0], 4),
        vec![vec![1, 4], vec![], vec![0, 2, 3], vec![]]
    );
    assert_eq!(lists_from_assignments(&[], 2), vec![Vec::<usize>::new(), vec![]]);
}

#[test]
fn codebook_seeds_step_by_the_golden_ratio() {
    assert_eq!(codebook_seed(0, 0), 0x9e37_79b9_7f4a_7c15);
    assert_eq!(codebook_seed(0x5eed, 0), 0x9e37_79b9_7f4a_db02);
    assert_eq!(codebook_seed(0, 1), 0x3c6e_f372_fe94_f82a);
    assert_eq!(
        codebook_seed(u64::MAX, 6),
        u64::MAX.wrapping_add(7u64.wrapping_mul(0x9e37_79b9_7f4a_7c15))
    );
}

#[test]
fn codebook_seeds_differ() {
    let mut seeds: Vec<u64> = (0..64).map(|s| codebook_seed(0x5eed, s)).collect();
    seeds.sort();
    seeds.dedup();
    assert_eq!(seeds.len(), 64);
}

#[test]
fn default_configurations() {
    let nsw = NswConfig::default();
    assert_eq!((nsw.max_connections, nsw.ef_construction, nsw.ef_search), (12, 48, 32));
    let hnsw = HnswConfig::default();
    assert_eq!((hnsw.max_connections, hnsw.ef_construction, hnsw.ef_search), (12, 64, 40));
    assert_eq!((hnsw.max_level, hnsw.seed), (16, 0x5eed));
    let ivf = IvfFlatConfig::default();
    assert_eq!((ivf.partitions, ivf.probes, ivf.iterations, ivf.seed), (16, 4, 12, 0x5eed));
    let pq = IvfPqConfig::default();
    assert_eq!((pq.partitions, pq.probes, pq.iterations, pq.seed), (16, 4, 12, 0x5eed));
    assert_eq!((pq.subquantizers, pq.codebook_size, pq.rerank), (4, 16, 32));
}

#[test]
fn graph_configurations_are_checked() {
    let nsw = NswConfig::default();
    let check = |config: NswConfig| vector_index::nsw::validate_config(&config);
    assert_eq!(check(nsw), Ok(()));
    assert_eq!(
        check(NswConfig { max_connections: 0, ..nsw }),
        Err(VectorError::InvalidConfig("max_connections must be greater than zero"))
    );
    assert_eq!(
        check(NswConfig { ef_construction: 11, ef_search: 0, ..nsw }),
        Err(VectorError::InvalidConfig("ef_construction must be at least max_connections"))
    );
    assert_eq!(
        check(NswConfig { ef_search: 0, ..nsw }),
        Err(VectorError::InvalidConfig("ef_search must be greater than zero"))
    );
    let hnsw = HnswConfig::default();
    let check = |config: HnswConfig| vector_index::hnsw::validate_config(&config);
    assert_eq!(check(hnsw), Ok(()));
    assert_eq!(
        check(HnswConfig { max_level: 0, max_connections: 0, ..hnsw }),
        Err(VectorError::InvalidConfig("max_level must be greater than zero"))
    );
    assert_eq!(
        check(HnswConfig { max_connections: 0, ..hnsw }),
        Err(VectorError::InvalidConfig("max_connections must be greater than zero"))
    );
    assert_eq!(
        check(HnswConfig { ef_construction: 1, ..hnsw }),
        Err(VectorError::InvalidConfig("ef_construction must be at least max_connections"))
    );
    assert_eq!(
        check(HnswConfig { ef_search: 0, ..hnsw }),
        Err(VectorError::InvalidConfig("ef_search must be greater than zero"))
    );
}

#[test]
fn inverted_file_configurations_are_checked() {
    let ivf = IvfFlatConfig { partitions: 4, probes: 2, iterations: 3, seed: 1 };
    let check = |config: IvfFlatConfig, rows| vector_index::ivf::validate_config(&config, rows);
    let range = Err(VectorError::InvalidConfig(
        "probes and partitions must satisfy 1 <= probes <= partitions <= rows",
    ));
    assert_eq!(check(ivf, 4), Ok(()));
    assert_eq!(check(ivf, 3), range);
    assert_eq!(check(IvfFlatConfig { partitions: 0, ..ivf }, 4), range);
    assert_eq!(check(IvfFlatConfig { probes: 0, ..ivf }, 4), range);
    assert_eq!(check(IvfFlatConfig { probes: 5, ..ivf }, 9), range);
    assert_eq!(
        check(IvfFlatConfig { iterations: 0, probes: 0, ..ivf }, 4),
        Err(VectorError::InvalidConfig("iterations must be greater than zero"))
    );
}

#[test]
fn quantized_configurations_are_checked() {
    let dataset = Dataset::try_new(bit_vectors(&vec![vec![0.0; 6]; 5])).unwrap();
    let pq = IvfPqConfig {
        partitions: 4,
        probes: 2,
        iterations: 3,
        subquantizers: 3,
        codebook_size: 5,
        rerank: 1,
        seed: 1,
    };
    let check =
        |config: IvfPqConfig| vector_index::pq::validate_config(&dataset, Metric::Euclidean, &config);
    assert_eq!(check(pq), Ok(()));
    assert_eq!(
        vector_index::pq::validate_config(&dataset, Metric::Cosine, &pq),
        Err(VectorError::InvalidConfig("IVF-PQ accepts only Euclidean distance"))
    );
    assert_eq!(
        check(IvfPqConfig { iterations: 0, ..pq }),
        Err(VectorError::InvalidConfig("iterations must be greater than zero"))
    );
    assert_eq!(
        check(IvfPqConfig { partitions: 6, ..pq }),
        Err(VectorError::InvalidConfig(
            "probes and partitions must satisfy 1 <= probes <= partitions <= rows"
        ))
    );
    for subquantizers in [0, 4, 7] {
        assert_eq!(
            check(IvfPqConfig { subquantizers, ..pq }),
            Err(VectorError::InvalidConfig(
                "dimension must divide evenly into a positive number of subquantizers"
            ))
        );
    }
    for codebook_size in [0, 1, 6, 257] {
        assert_eq!(
            check(IvfPqConfig { codebook_size, ..pq }),
            Err(VectorError::InvalidConfig(
                "codebook_size must satisfy 2 <= codebook_size <= min(256, rows)"
            ))
        );
    }
    assert_eq!(
        check(IvfPqConfig { rerank: 0, ..pq }),
        Err(VectorError::InvalidConfig("rerank must be greater than zero"))
    );
}

#[test]
fn a_codebook_holds_at_most_256_codewords() {
    let dataset = Dataset::try_new(bit_vectors(&vec![vec![0.0]; 300])).unwrap();
    let pq = IvfPqConfig { subquantizers: 1, codebook_size: 256, ..IvfPqConfig::default() };
    let check =
        |config: IvfPqConfig| vector_index::pq::validate_config(&dataset, Metric::Euclidean, &config);
    assert_eq!(check(pq), Ok(()));
    assert!(check(IvfPqConfig { codebook_size: 257, ..pq }).is_err());
}

#[test]
fn a_dataset_holds_its_vectors() {
    let vectors = bit_vectors(&[vec![1.0, 2.0], vec![3.0, 4.0], vec![5.0, 6.0]]);
    let dataset = Dataset::try_new(vectors.clone()).unwrap();
    assert_eq!(dataset.len(), 3);
    assert!(!dataset.is_empty());
    assert_eq!(dataset.dimension(), 2);
    assert_eq!(dataset.vector(1), vectors[1].as_slice());
    assert_eq!(dataset.vectors(), vectors.as_slice());
    assert_eq!(dataset.clone().vectors(), vectors.as_slice());
}

#[test]
fn a_dataset_is_not_empty_and_of_one_dimension() {
    assert_eq!(Dataset::try_new(vec![]).err(), Some(VectorError::EmptyDataset));
    let uneven = bit_vectors(&[vec![1.0, 2.0], vec![3.0, 4.0], vec![5.0], vec![6.0, 7.0, 8.0]]);
    assert_eq!(
        Dataset::try_new(uneven).err(),
        Some(VectorError::DimensionMismatch { expected: 2, actual: 1 })
    );
    assert_eq!(Dataset::try_new(vec![vec![]]).unwrap().dimension(), 0);
}

#[test]
fn angles_need_vectors_that_are_not_zero() {
    let dataset = Dataset::try_new(bit_vectors(&[vec![1.0, 0.0], vec![0.0, -0.0]])).unwrap();
    assert_eq!(dataset.validate_for_metric(Metric::Euclidean), Ok(()));
    assert_eq!(
        dataset.validate_for_metric(Metric::Cosine),
        Err(VectorError::ZeroNorm { vector: 0 })
    );
    let dataset = Dataset::try_new(bit_vectors(&[vec![1.0, 0.0], vec![0.0, 1.0e-45]])).unwrap();
    assert_eq!(dataset.validate_for_metric(Metric::Cosine), Ok(()));
}

#[test]
fn queries_are_checked() {
    let dataset = Dataset::try_new(bit_vectors(&[vec![1.0, 2.0, 3.0]])).unwrap();
    let check = |query: &[f32], metric| {
        let bits: Vec<u32> = query.iter().map(|x| x.to_bits()).collect();
        dataset.validate_query(&bits, metric)
    };
    assert_eq!(check(&[1.0, 2.0, 3.0], Metric::Cosine), Ok(()));
    assert_eq!(
        check(&[1.0], Metric::Euclidean),
        Err(VectorError::DimensionMismatch { expected: 3, actual: 1 })
    );
    assert_eq!(
        check(&[1.0, f32::NAN, f32::INFINITY], Metric::Euclidean),
        Err(VectorError::NonFiniteValue { vector: 1, dimension: 1 })
    );
    assert_eq!(
        check(&[1.0, 0.0, f32::NEG_INFINITY], Metric::Euclidean),
        Err(VectorError::NonFiniteValue { vector: 2, dimension: 2 })
    );
    assert_eq!(check(&[0.0, 0.0, -0.0], Metric::Euclidean), Ok(()));
    assert_eq!(
        check(&[0.0, 1.0e-30, -1.0e-30], Metric::Cosine),
        Err(VectorError::ZeroNorm { vector: 0 })
    );
    assert_eq!(check(&[0.0, 1.0e-20, 0.0], Metric::Cosine), Ok(()));
}
