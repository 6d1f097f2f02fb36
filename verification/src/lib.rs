//! Nearest-neighbour indexes over vectors.
//!
//! Four indexes answer which rows of a [`dataset`] are nearest to a query:
//!
//! * [`nsw`]: one proximity graph;
//! * [`hnsw`]: a hierarchy of proximity graphs;
//! * [`ivf`]: rows grouped around centroids;
//! * [`pq`]: the same, with the rows of a group stored as short codes.
//!
//! Numbers travel as bit patterns ([`bits`]), arithmetic on them is a
//! [`math::VectorMath`] that the caller hands in, and so are the outcomes of
//! chance: the draws of a shuffle ([`shuffle`]) and the coin flips that the rows
//! of a hierarchy draw their levels with ([`levels`]). What is left is decided
//! here.
//!
//! What each function answers stands in its contract. What follows for the
//! indexes as a whole stands in public proof functions beside the definitions
//! and in the modules whose names end in `laws`. Of these, [`graph_laws`],
//! [`beam_laws`], [`cluster_laws`], [`coding_laws`] and [`refusal_laws`], and
//! [`nsw_laws`] and [`hnsw_laws`] for whole graphs, say of calls what they answer
//! in terms of distances, rows and links alone.

pub mod beam_laws;
pub mod bits;
pub mod cluster_laws;
pub mod clusters;
pub mod codebooks;
pub mod coding_laws;
pub mod dataset;
pub mod graph;
pub mod graph_laws;
pub mod hnsw;
pub mod hnsw_laws;
pub mod index;
pub mod ivf;
pub mod ivf_laws;
pub mod levels;
pub mod links;
pub mod math;
pub mod nsw;
pub mod nsw_laws;
pub mod pq;
pub mod pq_laws;
pub mod ranking;
pub mod refusal_laws;
pub mod search_laws;
pub mod seqs;
pub mod shuffle;
pub mod types;
