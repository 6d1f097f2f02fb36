use vector_index::clusters::{
    assign_rows, farthest_row, l2_normalize, nearest_centroid, normalize_or_replace,
    update_centroids,
};
use vector_index::codebooks::{
    encode_residual, finite_residual, lookup_tables, nearest_codeword, query_residual,
    train_codebook, update_codebook,
};
use vector_index::dataset::Dataset;
use vector_index::graph::{greedy_search, prune_neighbors, search_layer};
use vector_index::hnsw::{HnswConfig, HnswIndex};
use vector_index::index::{Described, VectorIndex};
use vector_index::ivf::{train_centroids, IvfFlatConfig, IvfFlatIndex};
use vector_index::links::link_row;
use vector_index::math::VectorMath;
use vector_index::nsw::{NswConfig, NswIndex};
use vector_index::pq::{IvfPqConfig, IvfPqIndex};
use vector_index::types::{Metric, Neighbor, VectorError};

struct Floats;

fn single(bits: u32) -> f32 {
    f32::from_bits(bits)
}

fn double(bits: u64) -> f64 {
    f64::from_bits(bits)
}

fn bits(vector: &[f32]) -> Vec<u32> {
    vector.iter().map(|x| x.to_bits()).collect()
}

fn floats(vector: &[u32]) -> Vec<f32> {
    vector.iter().map(|x| single(*x)).collect()
}

fn all_floats(vectors: &[Vec<u32>]) -> Vec<Vec<f32>> {
    vectors.iter().map(|vector| floats(vector)).collect()
}

fn all_bits(vectors: &[Vec<f32>]) -> Vec<Vec<u32>> {
    vectors.iter().map(|vector| bits(vector)).collect()
}

fn squared(left: &[u32], right: &[u32]) -> f64 {
    left.iter()
        .zip(right)
        .map(|(left, right)| {
            let delta = f64::from(single(*left)) - f64::from(single(*right));
            delta * delta
        })
        .sum()
}

fn dot(left: &[u32], right: &[u32]) -> f64 {
    left.iter()
        .zip(right)
        .map(|(left, right)| f64::from(single(*left)) * f64::from(single(*right)))
        .sum()
}

impl VectorMath for Floats {
    fn distance(&self, metric: Metric, left: &[u32], right: &[u32]) -> u32 {
        let distance = match metric {
            Metric::Euclidean => squared(left, right).sqrt(),
            Metric::Cosine => {
                1.0 - dot(left, right) / (dot(left, left).sqrt() * dot(right, right).sqrt())
            }
        };
        (distance as f32).to_bits()
    }

    fn mean(&self, column: &[u32]) -> u32 {
        let mut sum = 0.0f64;
        for value in column {
            sum += f64::from(single(*value));
        }
        ((sum / column.len() as f64) as f32).to_bits()
    }

    fn norm(&self, vector: &[u32]) -> u64 {
        dot(vector, vector).sqrt().to_bits()
    }

    fn divide(&self, value: u32, norm: u64) -> u32 {
        ((f64::from(single(value)) / double(norm)) as f32).to_bits()
    }

    fn subtract(&self, value: u32, center: u32) -> u32 {
        ((f64::from(single(value)) - f64::from(single(center))) as f32).to_bits()
    }

    fn subtract_wide(&self, value: u32, center: u32) -> u64 {
        (f64::from(single(value)) - f64::from(single(center))).to_bits()
    }

    fn squared_distance(&self, left: &[u32], right: &[u32]) -> u64 {
        squared(left, right).to_bits()
    }

    fn residual_distance(&self, residual: &[u64], codeword: &[u32]) -> u64 {
        let sum: f64 = residual
            .iter()
            .zip(codeword)
            .map(|(value, center)| {
                let delta = double(*value) - f64::from(single(*center));
                delta * delta
            })
            .sum();
        sum.to_bits()
    }

    fn sum(&self, terms: &[u64]) -> u64 {
        terms.iter().map(|term| double(*term)).sum::<f64>().to_bits()
    }

    fn root(&self, square: u64) -> u32 {
        (double(square).sqrt() as f32).to_bits()
    }
}

fn dataset(vectors: &[Vec<f32>]) -> Dataset {
    Dataset::try_new(all_bits(vectors)).unwrap()
}

fn line(values: &[f32]) -> Dataset {
    let vectors: Vec<Vec<f32>> = values.iter().map(|x| vec![*x]).collect();
    dataset(&vectors)
}

/// Points that look scattered.
fn scattered(rows: usize, dimension: usize) -> Vec<Vec<f32>> {
    let mut state = 0x5eed_u64;
    let mut next = || {
        state = state.wrapping_mul(6364136223846793005).wrapping_add(1442695040888963407);
        ((state >> 40) as f32) / 1000.0 - 8000.0
    };
    (0..rows).map(|_| (0..dimension).map(|_| next()).collect()).collect()
}

fn brute_force(data: &Dataset, metric: Metric, query: &[f32], k: usize) -> Vec<(usize, f32)> {
    let query = bits(query);
    let mut all: Vec<(f32, usize)> = (0..data.len())
        .map(|row| (single(Floats.distance(metric, data.vector(row), &query)), row))
        .collect();
    all.sort_by(|left, right| left.0.total_cmp(&right.0).then(left.1.cmp(&right.1)));
    all.into_iter().take(k).map(|(distance, row)| (row, distance)).collect()
}

fn pairs(found: &[Neighbor]) -> Vec<(usize, f32)> {
    found.iter().map(|neighbor| (neighbor.row, single(neighbor.distance))).collect()
}

fn rows(found: &[Neighbor]) -> Vec<usize> {
    found.iter().map(|neighbor| neighbor.row).collect()
}

/// The draws that leave `n` rows where they are.
fn still(n: usize) -> Vec<usize> {
    (1..n).rev().collect()
}

#[test]
fn search_layer_keeps_the_nearest() {
    let data = line(&[0.0, 1.0, 2.0, 3.0, 4.0]);
    let chain = vec![vec![1], vec![0, 2], vec![1, 3], vec![2, 4], vec![3]];
    let search = |from: &[usize], ef, allowed| {
        rows(&search_layer(
            &Floats,
            &data,
            Metric::Euclidean,
            &bits(&[3.2]),
            &chain,
            from,
            ef,
            allowed,
        ))
    };
    assert_eq!(search(&[0], 1, 5), vec![3]);
    assert_eq!(search(&[0], 3, 5), vec![3, 4, 2]);
    assert_eq!(search(&[0], 9, 5), vec![3, 4, 2, 1, 0]);
    assert_eq!(search(&[0], 0, 5), vec![3]);
    assert_eq!(search(&[0], 9, 3), vec![2, 1, 0]);
    assert_eq!(search(&[4, 4, 0], 2, 5), vec![3, 4]);
    assert_eq!(search(&[7], 9, 5), vec![]);
    assert_eq!(search(&[0], 9, 0), vec![]);
    assert_eq!(search(&[], 9, 5), vec![]);
}

#[test]
fn search_layer_can_stop_at_a_barrier() {
    let data = line(&[0.0, -5.0, 10.0]);
    let chain = vec![vec![1], vec![0, 2], vec![1]];
    let search = |ef| {
        rows(&search_layer(
            &Floats,
            &data,
            Metric::Euclidean,
            &bits(&[10.0]),
            &chain,
            &[0],
            ef,
            3,
        ))
    };
    assert_eq!(search(1), vec![0]);
    assert_eq!(search(2), vec![2, 0]);
}

#[test]
fn search_layer_fills_up_with_what_it_can_reach() {
    let data = line(&[0.0, 1.0, 2.0, 3.0, 4.0, 5.0]);
    let islands = vec![vec![1], vec![0, 2], vec![1], vec![4], vec![3, 5], vec![4]];
    let search = |from: &[usize], ef| {
        search_layer(&Floats, &data, Metric::Euclidean, &bits(&[5.0]), &islands, from, ef, 6).len()
    };
    for ef in 1..8 {
        assert_eq!(search(&[0], ef), ef.min(3));
        assert_eq!(search(&[0, 4], ef), ef.min(6));
    }
}

#[test]
fn search_layer_leaves_a_linked_row_out_only_for_nearer_ones() {
    let data = dataset(&scattered(40, 3));
    let index = NswIndex::try_new(&Floats, data, Metric::Euclidean, nsw(4, 8)).unwrap();
    for query in scattered(4, 3) {
        for ef in [1, 3, 9] {
            let found = index.search_with_ef(&Floats, &bits(&query), ef, ef).unwrap();
            let found = pairs(&found);
            for (row, _) in &found {
                for link in &index.adjacency()[*row] {
                    let here = Floats.distance(
                        Metric::Euclidean,
                        index.dataset().vector(*link),
                        &bits(&query),
                    );
                    let pair = (*link, single(here));
                    assert!(
                        found.contains(&pair)
                            || found.len() == ef
                                && found.iter().all(|other| (other.1, other.0) < (pair.1, pair.0))
                    );
                }
            }
        }
    }
}

#[test]
fn search_layer_is_exact_where_it_is_wide() {
    let points = scattered(40, 3);
    let data = dataset(&points);
    let ring: Vec<Vec<usize>> = (0..40).map(|row| vec![(row + 1) % 40]).collect();
    for query in scattered(5, 3) {
        let found = search_layer(
            &Floats,
            &data,
            Metric::Euclidean,
            &bits(&query),
            &ring,
            &[7],
            40,
            40,
        );
        assert_eq!(pairs(&found), brute_force(&data, Metric::Euclidean, &query, 40));
    }
}

#[test]
fn greedy_search_descends_to_a_local_minimum() {
    let data = line(&[0.0, 1.0, 2.0, 3.0, 9.0, 3.1]);
    let links = vec![vec![1], vec![0, 2], vec![1, 3], vec![2, 4], vec![3, 5], vec![4]];
    let search = |entry, allowed| {
        greedy_search(
            &Floats,
            &data,
            Metric::Euclidean,
            &bits(&[3.3]),
            &links,
            entry,
            allowed,
        )
    };
    assert_eq!(search(0, 6), 3);
    assert_eq!(search(4, 6), 5);
    assert_eq!(search(0, 2), 1);
    assert_eq!(search(3, 6), 3);
}

#[test]
fn pruning_sorts_and_cuts_back() {
    let data = line(&[0.0, 1.0, 2.0, 3.0, -1.0]);
    let prune = |owner, mut neighbors: Vec<usize>, connections| {
        prune_neighbors(
            &Floats,
            &data,
            Metric::Euclidean,
            owner,
            &mut neighbors,
            connections,
        );
        neighbors
    };
    assert_eq!(prune(0, vec![3, 1, 1, 0, 2], 9), vec![1, 2, 3]);
    assert_eq!(prune(0, vec![3, 1, 1, 0, 2], 2), vec![1, 2]);
    assert_eq!(prune(0, vec![4, 1], 1), vec![1]);
    assert_eq!(prune(2, vec![2, 2], 4), vec![]);
    assert_eq!(prune(2, vec![], 4), vec![]);
}

#[test]
fn pruning_removes_a_self_link_behind_a_twin() {
    let data = line(&[5.0, 5.0, 6.0]);
    let mut neighbors = vec![2, 1, 0];
    prune_neighbors(&Floats, &data, Metric::Euclidean, 1, &mut neighbors, 3);
    assert_eq!(neighbors, vec![0, 2]);
    let twins = line(&[0.0, 0.0]);
    let mut neighbors = vec![1, 0];
    prune_neighbors(&Floats, &twins, Metric::Euclidean, 1, &mut neighbors, 4);
    assert_eq!(neighbors, vec![0]);
}

#[test]
fn linking_drops_links_that_are_cut_back_on_one_side() {
    let data = line(&[0.0, 1.0, 2.0]);
    let mut adjacency = vec![vec![1], vec![0], vec![]];
    link_row(&Floats, &data, Metric::Euclidean, &mut adjacency, 2, vec![1], 1);
    assert_eq!(adjacency, vec![vec![1], vec![0], vec![]]);
    link_row(&Floats, &data, Metric::Euclidean, &mut adjacency, 2, vec![1, 0], 2);
    assert_eq!(adjacency, vec![vec![1, 2], vec![0, 2], vec![1, 0]]);
}

fn nsw(max_connections: usize, ef: usize) -> NswConfig {
    NswConfig { max_connections, ef_construction: ef, ef_search: ef }
}

#[test]
fn a_small_world_is_woven_row_by_row() {
    let data = line(&[0.0, 1.0, 2.0]);
    let index = NswIndex::try_new(&Floats, data.clone(), Metric::Euclidean, nsw(2, 2)).unwrap();
    assert_eq!(index.adjacency(), vec![vec![1, 2], vec![0, 2], vec![1, 0]].as_slice());
    assert_eq!(index.kind(), "nsw");
    assert_eq!(index.metric(), Metric::Euclidean);
    assert_eq!(index.dataset().len(), 3);
    let found = index.search(&Floats, &bits(&[1.75]), 2).unwrap();
    assert_eq!(pairs(&found), vec![(2, 0.25), (1, 0.75)]);
    let index = NswIndex::try_new(&Floats, data, Metric::Euclidean, nsw(1, 1)).unwrap();
    assert_eq!(index.adjacency(), vec![vec![1], vec![0], vec![]].as_slice());
    let found = index.search_with_ef(&Floats, &bits(&[2.0]), 3, 9).unwrap();
    assert_eq!(rows(&found), vec![1, 0]);
}

#[test]
fn a_small_world_stays_sound() {
    let data = dataset(&scattered(60, 4));
    let index = NswIndex::try_new(&Floats, data, Metric::Euclidean, nsw(4, 8)).unwrap();
    let adjacency = index.adjacency();
    for (row, links) in adjacency.iter().enumerate() {
        assert!(links.len() <= 4);
        for link in links {
            assert_ne!(*link, row);
            assert!(adjacency[*link].contains(&row));
        }
    }
}

fn stands_nearest_first(data: &Dataset, row: usize, links: &[usize]) -> bool {
    let far = |link: &usize| {
        (single(Floats.distance(Metric::Euclidean, data.vector(row), data.vector(*link))), *link)
    };
    links.windows(2).all(|pair| far(&pair[0]) < far(&pair[1]))
}

#[test]
fn links_stand_nearest_first() {
    let data = dataset(&scattered(60, 4));
    let index = NswIndex::try_new(&Floats, data.clone(), Metric::Euclidean, nsw(4, 8)).unwrap();
    for (row, links) in index.adjacency().iter().enumerate() {
        assert!(stands_nearest_first(&data, row, links));
    }
    let levels: Vec<usize> = (0..60).map(|row| (row % 4).min((row * 7) % 3)).collect();
    let index =
        HnswIndex::try_new(&Floats, data.clone(), Metric::Euclidean, hnsw(3, 8), &flips(&levels))
            .unwrap();
    for level in 0..=index.top_level() {
        for (row, links) in index.layer(level).unwrap().iter().enumerate() {
            assert!(stands_nearest_first(&data, row, links));
        }
    }
}

#[test]
fn a_small_world_of_few_rows_is_complete_and_exact() {
    let mut points = scattered(7, 3);
    points.push(points[2].clone());
    let data = dataset(&points);
    let index = NswIndex::try_new(&Floats, data.clone(), Metric::Euclidean, nsw(7, 7)).unwrap();
    for (row, links) in index.adjacency().iter().enumerate() {
        for other in 0..8 {
            assert_eq!(links.contains(&other), other != row);
        }
    }
    for query in scattered(4, 3) {
        for k in 0..10 {
            let found = index.search_with_ef(&Floats, &bits(&query), k, 0).unwrap();
            assert_eq!(pairs(&found), brute_force(&data, Metric::Euclidean, &query, k));
        }
    }
}

#[test]
fn a_hierarchy_of_few_rows_is_complete_and_exact() {
    let mut points = scattered(7, 3);
    points.push(points[2].clone());
    let data = dataset(&points);
    let levels = vec![0, 2, 1, 0, 3, 1, 2, 1];
    let config = hnsw(7, 7);
    let index =
        HnswIndex::try_new(&Floats, data.clone(), Metric::Euclidean, config, &flips(&levels))
            .unwrap();
    for level in 0..=3 {
        for (row, links) in index.layer(level).unwrap().iter().enumerate() {
            for other in 0..8 {
                let both = levels[row] >= level && levels[other] >= level;
                assert_eq!(links.contains(&other), other != row && both);
            }
        }
    }
    for query in scattered(4, 3) {
        for k in 0..10 {
            let found = index.search_with_ef(&Floats, &bits(&query), k, 0).unwrap();
            assert_eq!(pairs(&found), brute_force(&data, Metric::Euclidean, &query, k));
        }
    }
}

#[test]
fn a_small_world_search_finds_true_neighbors() {
    let points = scattered(60, 4);
    let data = dataset(&points);
    for metric in [Metric::Euclidean, Metric::Cosine] {
        let index = NswIndex::try_new(&Floats, data.clone(), metric, nsw(6, 60)).unwrap();
        for query in scattered(4, 4) {
            let everything = brute_force(&data, metric, &query, 60);
            let found = pairs(&index.search_with_ef(&Floats, &bits(&query), 60, 1).unwrap());
            assert!(found.len() <= 60);
            let mut last = 0;
            for pair in &found {
                let place = everything.iter().position(|other| other == pair).unwrap();
                assert!(place >= last);
                last = place;
            }
            let few = index.search_with_ef(&Floats, &bits(&query), 3, 60).unwrap();
            assert_eq!(pairs(&few), found[..3].to_vec());
        }
    }
}

#[test]
fn small_world_faults() {
    let data = dataset(&[vec![1.0, 0.0], vec![0.0, 0.0]]);
    assert_eq!(
        NswIndex::try_new(&Floats, data.clone(), Metric::Cosine, nsw(0, 2)).err(),
        Some(VectorError::ZeroNorm { vector: 0 })
    );
    assert_eq!(
        NswIndex::try_new(&Floats, data.clone(), Metric::Euclidean, nsw(0, 2)).err(),
        Some(VectorError::InvalidConfig("max_connections must be greater than zero"))
    );
    let index = NswIndex::try_new(&Floats, data, Metric::Euclidean, nsw(1, 1)).unwrap();
    assert_eq!(
        index.search(&Floats, &bits(&[1.0]), 1).err(),
        Some(VectorError::DimensionMismatch { expected: 2, actual: 1 })
    );
    assert_eq!(
        index.search(&Floats, &bits(&[1.0, f32::NAN]), 1).err(),
        Some(VectorError::NonFiniteValue { vector: 1, dimension: 1 })
    );
    assert_eq!(index.search(&Floats, &bits(&[1.0, 0.0]), 0).unwrap(), vec![]);
}

/// Coin flips that give these levels, none of which is the highest.
fn flips(levels: &[usize]) -> Vec<bool> {
    let mut flips = vec![];
    for level in levels {
        flips.extend(vec![true; *level]);
        flips.push(false);
    }
    flips
}

fn hnsw(max_connections: usize, ef: usize) -> HnswConfig {
    HnswConfig { max_connections, ef_construction: ef, ef_search: ef, max_level: 4, seed: 1 }
}

#[test]
fn layers_are_woven_row_by_row() {
    let data = line(&[0.0, 1.0, 2.0]);
    let index =
        HnswIndex::try_new(&Floats, data, Metric::Euclidean, hnsw(2, 2), &flips(&[0, 1, 0]))
            .unwrap();
    assert_eq!(index.levels(), &[0, 1, 0]);
    assert_eq!(index.top_level(), 1);
    assert_eq!(index.layer(0), Some(vec![vec![1, 2], vec![0, 2], vec![1, 0]].as_slice()));
    assert_eq!(index.layer(1), Some(vec![vec![], vec![], vec![]].as_slice()));
    assert_eq!(index.layer(2), None);
    assert_eq!(index.kind(), "hnsw");
    assert_eq!(index.metric(), Metric::Euclidean);
    assert_eq!(index.dataset().len(), 3);
    let found = index.search(&Floats, &bits(&[1.75]), 2).unwrap();
    assert_eq!(pairs(&found), vec![(2, 0.25), (1, 0.75)]);
}

#[test]
fn layers_stay_sound() {
    let count = 60;
    let data = dataset(&scattered(count, 4));
    let levels: Vec<usize> = (0..count).map(|row| (row % 4).min((row * 7) % 3)).collect();
    let index =
        HnswIndex::try_new(&Floats, data, Metric::Euclidean, hnsw(3, 8), &flips(&levels)).unwrap();
    assert_eq!(index.levels(), levels.as_slice());
    assert_eq!(index.top_level(), 2);
    for level in 0..=2 {
        let layer = index.layer(level).unwrap();
        for (row, links) in layer.iter().enumerate() {
            assert!(links.len() <= 3);
            if level > levels[row] {
                assert!(links.is_empty());
            }
            for link in links {
                assert_ne!(*link, row);
                assert!(layer[*link].contains(&row));
            }
        }
    }
}

#[test]
fn a_layered_search_finds_true_neighbors() {
    let data = dataset(&scattered(60, 4));
    let levels: Vec<usize> = (0..60).map(|row| if row % 5 == 0 { 2 } else { row % 2 }).collect();
    let config = hnsw(8, 60);
    let index =
        HnswIndex::try_new(&Floats, data.clone(), Metric::Euclidean, config, &flips(&levels))
            .unwrap();
    for query in scattered(4, 4) {
        let everything = brute_force(&data, Metric::Euclidean, &query, 60);
        let found = pairs(&index.search_with_ef(&Floats, &bits(&query), 5, 60).unwrap());
        assert_eq!(found.len(), 5);
        for pair in &found {
            assert!(everything.contains(pair));
        }
    }
}

#[test]
fn levels_depend_on_the_flips_and_the_row_alone() {
    let tosses: Vec<bool> = (0..400).map(|i: u32| i.wrapping_mul(2654435761) >> 31 == 1).collect();
    let large = dataset(&scattered(40, 4));
    let small = dataset(&scattered(13, 2));
    let large =
        HnswIndex::try_new(&Floats, large, Metric::Euclidean, hnsw(3, 8), &tosses).unwrap();
    let small = HnswIndex::try_new(&Floats, small, Metric::Cosine, hnsw(5, 6), &tosses).unwrap();
    assert_eq!(small.levels(), &large.levels()[..13]);
    assert!(large.top_level() > 0);
}

#[test]
fn layered_faults() {
    let data = dataset(&[vec![1.0, 0.0], vec![0.0, 0.0]]);
    let build = |metric, config| {
        HnswIndex::try_new(&Floats, data.clone(), metric, config, &[false, false]).err()
    };
    assert_eq!(build(Metric::Cosine, hnsw(2, 2)), Some(VectorError::ZeroNorm { vector: 0 }));
    assert_eq!(
        build(Metric::Euclidean, HnswConfig { max_level: 0, ..hnsw(2, 2) }),
        Some(VectorError::InvalidConfig("max_level must be greater than zero"))
    );
    let index =
        HnswIndex::try_new(&Floats, data.clone(), Metric::Euclidean, hnsw(2, 2), &[false, false])
            .unwrap();
    assert_eq!(
        index.search(&Floats, &bits(&[1.0]), 1).err(),
        Some(VectorError::DimensionMismatch { expected: 2, actual: 1 })
    );
}

#[test]
fn a_vector_goes_to_its_nearest_centroid() {
    let centroids = all_bits(&[vec![0.0], vec![4.0], vec![2.0]]);
    let nearest =
        |x: f32| nearest_centroid(&Floats, &bits(&[x]), &centroids, Metric::Euclidean);
    assert_eq!(nearest(-3.0), 0);
    assert_eq!(nearest(3.0), 1);
    assert_eq!(nearest(1.0), 0);
    assert_eq!(nearest(2.5), 2);
    let data = line(&[3.5, 0.5, 2.25]);
    assert_eq!(assign_rows(&Floats, &data, Metric::Euclidean, &centroids), vec![1, 0, 2]);
}

#[test]
fn vectors_are_normalized() {
    let mut vector = bits(&[3.0, 4.0]);
    assert!(l2_normalize(&Floats, &mut vector));
    assert_eq!(floats(&vector), vec![0.6, 0.8]);
    let mut zero = bits(&[0.0, -0.0]);
    assert!(!l2_normalize(&Floats, &mut zero));
    assert_eq!(zero, bits(&[0.0, -0.0]));
    normalize_or_replace(&Floats, &mut zero, &bits(&[0.0, 5.0]));
    assert_eq!(floats(&zero), vec![0.0, 1.0]);
    let mut zero = bits(&[0.0, 0.0]);
    normalize_or_replace(&Floats, &mut zero, &bits(&[-0.0, 0.0]));
    assert_eq!(zero, bits(&[-0.0, 0.0]));
}

#[test]
fn the_farthest_row_is_found() {
    let data = line(&[0.0, 7.0, -7.0, 9.0]);
    let centroids = all_bits(&[vec![0.0], vec![9.5]]);
    let farthest =
        |skip: &[usize]| farthest_row(&Floats, &data, Metric::Euclidean, &centroids, skip);
    assert_eq!(farthest(&[]), 2);
    assert_eq!(farthest(&[2]), 1);
    assert_eq!(farthest(&[2, 1]), 3);
    let twins = line(&[5.0, 5.0]);
    assert_eq!(
        farthest_row(&Floats, &twins, Metric::Euclidean, &all_bits(&[vec![0.0]]), &[]),
        0
    );
}

#[test]
fn centroids_move_to_the_mean() {
    let data = line(&[0.0, 1.0, 10.0, 11.0]);
    let mut centroids = all_bits(&[vec![3.0], vec![4.0]]);
    let lists = vec![vec![0, 1], vec![2, 3]];
    update_centroids(&Floats, &data, Metric::Euclidean, &mut centroids, &lists);
    assert_eq!(all_floats(&centroids), vec![vec![0.5], vec![10.5]]);
}

#[test]
fn no_clusters_stay_none() {
    let data = line(&[0.0, 1.0]);
    let mut centroids: Vec<Vec<u32>> = vec![];
    update_centroids(&Floats, &data, Metric::Euclidean, &mut centroids, &[]);
    assert!(centroids.is_empty());
}

#[test]
fn empty_clusters_take_far_rows() {
    let data = line(&[0.0, 1.0, 10.0, 12.0]);
    let mut centroids = all_bits(&[vec![0.0], vec![0.0], vec![0.0]]);
    let lists = vec![vec![0, 1, 2, 3], vec![], vec![]];
    update_centroids(&Floats, &data, Metric::Euclidean, &mut centroids, &lists);
    assert_eq!(all_floats(&centroids), vec![vec![5.75], vec![12.0], vec![10.0]]);
}

#[test]
fn cosine_centroids_are_normalized() {
    let data = dataset(&[vec![3.0, 4.0], vec![2.0, 0.0], vec![-2.0, 0.0]]);
    let mut centroids = all_bits(&[vec![1.0, 0.0], vec![1.0, 0.0]]);
    let lists = vec![vec![0], vec![1, 2]];
    update_centroids(&Floats, &data, Metric::Cosine, &mut centroids, &lists);
    assert_eq!(all_floats(&centroids), vec![vec![0.6, 0.8], vec![1.0, 0.0]]);
}

#[test]
fn training_ends_where_nothing_changes() {
    let data = line(&[0.0, 1.0, 10.0, 11.0]);
    let train = |iterations| {
        all_floats(&train_centroids(
            &Floats,
            &data,
            Metric::Euclidean,
            2,
            iterations,
            &still(4),
        ))
    };
    assert_eq!(train(0), vec![vec![0.0], vec![1.0]]);
    assert_eq!(train(1), vec![vec![0.0], vec![(22.0f64 / 3.0) as f32]]);
    assert_eq!(train(2), vec![vec![0.5], vec![10.5]]);
    assert_eq!(train(99), vec![vec![0.5], vec![10.5]]);
}

fn flat(partitions: usize, probes: usize) -> IvfFlatConfig {
    IvfFlatConfig { partitions, probes, iterations: 12, seed: 1 }
}

#[test]
fn an_inverted_file_groups_its_rows() {
    let data = line(&[0.0, 1.0, 10.0, 11.0]);
    let index =
        IvfFlatIndex::try_new(&Floats, data, Metric::Euclidean, flat(2, 1), &still(4)).unwrap();
    assert_eq!(all_floats(index.centroids()), vec![vec![0.5], vec![10.5]]);
    assert_eq!(index.list_sizes(), vec![2, 2]);
    assert_eq!(index.kind(), "ivf_flat");
    assert_eq!(index.metric(), Metric::Euclidean);
    assert_eq!(index.dataset().len(), 4);
    let found = index.search(&Floats, &bits(&[4.0]), 3).unwrap();
    assert_eq!(pairs(&found), vec![(1, 3.0), (0, 4.0)]);
    let found = index.search_with_probes(&Floats, &bits(&[4.0]), 3, 2).unwrap();
    assert_eq!(pairs(&found), vec![(1, 3.0), (0, 4.0), (2, 6.0)]);
}

#[test]
fn an_inverted_file_searched_whole_is_exact() {
    let data = dataset(&scattered(50, 3));
    for metric in [Metric::Euclidean, Metric::Cosine] {
        let index =
            IvfFlatIndex::try_new(&Floats, data.clone(), metric, flat(7, 2), &still(50)).unwrap();
        assert_eq!(index.list_sizes().iter().sum::<usize>(), 50);
        for query in scattered(4, 3) {
            let found = index.search_with_probes(&Floats, &bits(&query), 11, 7).unwrap();
            assert_eq!(pairs(&found), brute_force(&data, metric, &query, 11));
        }
    }
}

#[test]
fn probing_more_groups_loses_rows_only_to_nearer_ones() {
    let data = dataset(&scattered(50, 3));
    let index =
        IvfFlatIndex::try_new(&Floats, data, Metric::Euclidean, flat(7, 2), &still(50)).unwrap();
    for query in scattered(4, 3) {
        let search = |probes| {
            pairs(&index.search_with_probes(&Floats, &bits(&query), 5, probes).unwrap())
        };
        for probes in 1..7 {
            let more = search(probes + 1);
            for lost in search(probes).iter().filter(|pair| !more.contains(pair)) {
                assert_eq!(more.len(), 5);
                assert!(more.iter().all(|pair| (pair.1, pair.0) < (lost.1, lost.0)));
            }
        }
    }
}

/// The answer of any index, with what it says of itself.
fn ask<I: VectorIndex<Floats>>(index: &I, query: &[f32]) -> (&'static str, usize, Vec<usize>) {
    let found = index.search(&Floats, &bits(query), 2).unwrap();
    (index.kind(), index.dataset().len(), rows(&found))
}

#[test]
fn every_index_answers_through_the_common_interface() {
    let data = line(&[0.0, 1.0, 10.0, 11.0]);
    let metric = Metric::Euclidean;
    let nsw = NswIndex::try_new(&Floats, data.clone(), metric, nsw(3, 3)).unwrap();
    let hnsw =
        HnswIndex::try_new(&Floats, data.clone(), metric, hnsw(3, 3), &[false; 4]).unwrap();
    let ivf = IvfFlatIndex::try_new(&Floats, data.clone(), metric, flat(2, 1), &still(4)).unwrap();
    let pq = build_pq(&data, IvfPqConfig { rerank: 4, ..quantized(2, 1, 2) }).unwrap();
    assert_eq!(ask(&nsw, &[9.0]), ("nsw", 4, vec![2, 3]));
    assert_eq!(ask(&hnsw, &[9.0]), ("hnsw", 4, vec![2, 3]));
    assert_eq!(ask(&ivf, &[9.0]), ("ivf_flat", 4, vec![2, 3]));
    assert_eq!(ask(&pq, &[9.0]), ("ivf_pq", 4, vec![2, 3]));
}

#[test]
fn inverted_file_faults() {
    let data = line(&[0.0, 1.0, 10.0, 11.0]);
    let build = |metric, config| {
        IvfFlatIndex::try_new(&Floats, data.clone(), metric, config, &still(4)).err()
    };
    assert_eq!(build(Metric::Cosine, flat(9, 9)), Some(VectorError::ZeroNorm { vector: 0 }));
    assert_eq!(
        build(Metric::Euclidean, flat(5, 1)),
        Some(VectorError::InvalidConfig(
            "probes and partitions must satisfy 1 <= probes <= partitions <= rows"
        ))
    );
    let index =
        IvfFlatIndex::try_new(&Floats, data.clone(), Metric::Euclidean, flat(2, 1), &still(4))
            .unwrap();
    for probes in [0, 3] {
        assert_eq!(
            index.search_with_probes(&Floats, &bits(&[4.0]), 3, probes).err(),
            Some(VectorError::InvalidConfig("probes must satisfy 1 <= probes <= partitions"))
        );
    }
    assert_eq!(
        index.search_with_probes(&Floats, &bits(&[4.0, 5.0]), 3, 0).err(),
        Some(VectorError::DimensionMismatch { expected: 1, actual: 2 })
    );
}

#[test]
fn a_slice_gets_the_code_of_its_nearest_codeword() {
    let codebook = all_bits(&[vec![0.0, 0.0], vec![4.0, 0.0], vec![0.0, 4.0]]);
    assert_eq!(nearest_codeword(&Floats, &bits(&[3.0, 1.0]), &codebook), 1);
    assert_eq!(nearest_codeword(&Floats, &bits(&[2.0, 2.0]), &codebook), 0);
    assert_eq!(nearest_codeword(&Floats, &bits(&[1.0, 9.0]), &codebook), 2);
}

#[test]
fn codewords_move_to_the_mean() {
    let residuals = all_bits(&[vec![9.0, 1.0], vec![9.0, 2.0], vec![9.0, 6.0]]);
    let mut codebook = all_bits(&[vec![0.0], vec![7.0], vec![5.0]]);
    update_codebook(&Floats, &mut codebook, &residuals, &[0, 0, 2], 1, 1);
    assert_eq!(all_floats(&codebook), vec![vec![1.5], vec![7.0], vec![6.0]]);
}

#[test]
fn only_rows_with_a_code_move_codewords() {
    let residuals = all_bits(&[vec![9.0, 1.0], vec![9.0, 2.0], vec![]]);
    let mut codebook = all_bits(&[vec![0.0], vec![7.0]]);
    update_codebook(&Floats, &mut codebook, &residuals, &[0, 0], 1, 1);
    assert_eq!(all_floats(&codebook), vec![vec![1.5], vec![7.0]]);
    update_codebook(&Floats, &mut codebook, &residuals, &[], 1, 1);
    assert_eq!(all_floats(&codebook), vec![vec![1.5], vec![7.0]]);
}

#[test]
fn codebooks_are_trained() {
    let residuals =
        all_bits(&[vec![-1.0, -1.0], vec![-1.0, 1.0], vec![1.0, -1.0], vec![1.0, 1.0]]);
    let train = |offset, iterations| {
        all_floats(&train_codebook(
            &Floats,
            &residuals,
            offset,
            1,
            2,
            iterations,
            &still(4),
        ))
    };
    assert_eq!(train(0, 0), vec![vec![-1.0], vec![-1.0]]);
    assert_eq!(train(0, 1), vec![vec![0.0], vec![-1.0]]);
    assert_eq!(train(0, 9), vec![vec![1.0], vec![-1.0]]);
    assert_eq!(train(1, 9), vec![vec![-1.0], vec![1.0]]);
}

#[test]
fn residuals_and_codes() {
    let residual = finite_residual(&Floats, &bits(&[3.0, 1.0]), &bits(&[1.0, 4.0])).unwrap();
    assert_eq!(floats(&residual), vec![2.0, -3.0]);
    assert_eq!(
        finite_residual(&Floats, &bits(&[0.0, f32::MAX]), &bits(&[0.0, f32::MIN])).err(),
        Some(VectorError::InvalidConfig("IVF-PQ training residuals must remain finite"))
    );
    let codebooks =
        vec![all_bits(&[vec![0.0], vec![2.5]]), all_bits(&[vec![-2.0], vec![-9.0]])];
    assert_eq!(encode_residual(&Floats, &residual, &codebooks, 1), vec![1, 0]);
    let wide = query_residual(&Floats, &bits(&[3.0, 1.0]), &bits(&[1.0, 4.0]));
    assert_eq!(wide, vec![2.0f64.to_bits(), (-3.0f64).to_bits()]);
    let tables = lookup_tables(&Floats, &wide, &codebooks, 1);
    let tables: Vec<Vec<f64>> =
        tables.iter().map(|table| table.iter().map(|entry| double(*entry)).collect()).collect();
    assert_eq!(tables, vec![vec![4.0, 0.25], vec![1.0, 36.0]]);
}

fn quantized(partitions: usize, subquantizers: usize, codebook_size: usize) -> IvfPqConfig {
    IvfPqConfig {
        partitions,
        probes: 1,
        iterations: 12,
        subquantizers,
        codebook_size,
        rerank: 1,
        seed: 1,
    }
}

fn build_pq(data: &Dataset, config: IvfPqConfig) -> Result<IvfPqIndex, VectorError> {
    let draws = still(data.len());
    let codebook_draws = vec![still(data.len()); config.subquantizers];
    IvfPqIndex::try_new(
        &Floats,
        data.clone(),
        Metric::Euclidean,
        config,
        &draws,
        &codebook_draws,
    )
}

#[test]
fn a_quantized_file_codes_its_rows() {
    let data = dataset(&[vec![0.0, 0.0], vec![0.0, 2.0], vec![2.0, 0.0], vec![2.0, 2.0]]);
    let index = build_pq(&data, quantized(1, 2, 2)).unwrap();
    assert_eq!(all_floats(index.centroids()), vec![vec![1.0, 1.0]]);
    assert_eq!(index.codebooks().len(), 2);
    assert_eq!(all_floats(&index.codebooks()[0]), vec![vec![1.0], vec![-1.0]]);
    assert_eq!(all_floats(&index.codebooks()[1]), vec![vec![-1.0], vec![1.0]]);
    assert_eq!(index.list_sizes(), vec![4]);
    assert_eq!(index.encoded_bytes(), 8);
    assert_eq!(index.codebook_bytes(), 16);
    assert_eq!(index.full_precision_bytes(), 32);
    assert_eq!(index.kind(), "ivf_pq");
    assert_eq!(index.metric(), Metric::Euclidean);
    assert_eq!(index.dataset().len(), 4);
    let found = index.search(&Floats, &bits(&[0.0, 1.5]), 1).unwrap();
    assert_eq!(pairs(&found), vec![(1, 0.5)]);
    let found = index.search_with_probes(&Floats, &bits(&[0.0, 1.5]), 9, 1, 1).unwrap();
    assert_eq!(pairs(&found), vec![(1, 0.5), (0, 1.5), (3, 4.25f64.sqrt() as f32), (2, 2.5)]);
}

#[test]
fn a_quantized_file_has_its_shape() {
    let data = dataset(&scattered(30, 6));
    let index = build_pq(&data, quantized(4, 3, 5)).unwrap();
    assert_eq!(index.codebooks().len(), 3);
    for codebook in index.codebooks() {
        assert_eq!(codebook.len(), 5);
        assert!(codebook.iter().all(|codeword| codeword.len() == 2));
    }
    assert_eq!(index.list_sizes().iter().sum::<usize>(), 30);
    assert_eq!(index.encoded_bytes(), 30 * 3);
    assert_eq!(index.codebook_bytes(), 5 * 6 * 4);
    assert_eq!(index.full_precision_bytes(), 30 * 6 * 4);
    assert_eq!(index.metric(), Metric::Euclidean);
}

#[test]
fn a_shortlist_can_miss_the_nearest() {
    let data = line(&[0.0, 1.0, 2.0, 10.0]);
    let index = build_pq(&data, quantized(1, 1, 2)).unwrap();
    let search = |rerank| {
        rows(&index.search_with_probes(&Floats, &bits(&[2.0]), 1, 1, rerank).unwrap())
    };
    assert_eq!(search(1), vec![0]);
    assert_eq!(search(3), vec![2]);
}

#[test]
fn a_quantized_file_measured_whole_is_exact() {
    let data = dataset(&scattered(50, 4));
    let index = build_pq(&data, quantized(5, 2, 4)).unwrap();
    assert_eq!(index.list_sizes().iter().sum::<usize>(), 50);
    assert_eq!(index.encoded_bytes(), 100);
    assert!(index.encoded_bytes() * 4 <= index.full_precision_bytes());
    for query in scattered(4, 4) {
        let found = index.search_with_probes(&Floats, &bits(&query), 9, 5, 50).unwrap();
        assert_eq!(pairs(&found), brute_force(&data, Metric::Euclidean, &query, 9));
        let some = index.search_with_probes(&Floats, &bits(&query), 9, 2, 12).unwrap();
        let everything = brute_force(&data, Metric::Euclidean, &query, 50);
        assert!(some.len() <= 9);
        for pair in pairs(&some) {
            assert!(everything.contains(&pair));
        }
    }
}

#[test]
fn quantized_file_faults() {
    let data = dataset(&[vec![0.0, 0.0], vec![0.0, 2.0], vec![2.0, 0.0], vec![2.0, 2.0]]);
    assert_eq!(
        build_pq(&data, quantized(1, 3, 2)).err(),
        Some(VectorError::InvalidConfig(
            "dimension must divide evenly into a positive number of subquantizers"
        ))
    );
    let index = build_pq(&data, quantized(2, 2, 2)).unwrap();
    let query = bits(&[0.0, 1.0]);
    for probes in [0, 3] {
        assert_eq!(
            index.search_with_probes(&Floats, &query, 1, probes, 0).err(),
            Some(VectorError::InvalidConfig("probes must satisfy 1 <= probes <= partitions"))
        );
    }
    assert_eq!(
        index.search_with_probes(&Floats, &query, 1, 1, 0).err(),
        Some(VectorError::InvalidConfig("rerank must be greater than zero"))
    );
    assert_eq!(
        index.search_with_probes(&Floats, &bits(&[0.0]), 1, 0, 0).err(),
        Some(VectorError::DimensionMismatch { expected: 2, actual: 1 })
    );
}

#[test]
fn residuals_must_remain_finite() {
    let data = line(&[f32::MAX, f32::MAX, f32::MAX, f32::MIN]);
    assert_eq!(
        build_pq(&data, quantized(1, 1, 2)).err(),
        Some(VectorError::InvalidConfig("IVF-PQ training residuals must remain finite"))
    );
}

#[test]
fn distances_must_remain_finite() {
    let data = line(&[f32::MAX, f32::MAX, 0.0]);
    let index = build_pq(&data, quantized(1, 1, 2)).unwrap();
    let query = bits(&[f32::MIN]);
    assert_eq!(
        index.search_with_probes(&Floats, &query, 2, 1, 3).err(),
        Some(VectorError::InvalidConfig(
            "IVF-PQ result distances must remain representable as finite f32"
        ))
    );
    let found = index.search_with_probes(&Floats, &query, 1, 1, 3).unwrap();
    assert_eq!(pairs(&found), vec![(2, f32::MAX)]);
}
