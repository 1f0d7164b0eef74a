//! Verified core of a Ramsey-graph search system: packed adjacency matrices,
//! graph6 encoding, bitmask clique counting, clique histograms and the
//! algebraic graph constructions used to seed the searches.

pub mod adjacency;
pub mod beam;
pub mod bits;
pub mod cayley;
pub mod cid;
pub mod dashboard;
pub mod circulant;
pub mod clique;
pub mod construct;
pub mod crossover;
pub mod digest;
pub mod engine;
pub mod exchange;
pub mod experiments;
pub mod graph6;
pub mod goodman;
pub mod gradient;
pub mod guilty;
pub mod hexstr;
pub mod histogram;
pub mod identity;
pub mod lns;
pub mod paley;
pub mod polish;
pub mod random;
pub mod refine;
pub mod relink;
pub mod sa;
pub mod score;
pub mod search;
pub mod tabu;
pub mod seidel;
pub mod server;
pub mod submission;
pub mod template;
pub mod tree2;
pub mod types;
