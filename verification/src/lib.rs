//! Verified core of a streaming int8 IVF-PQ nearest-neighbour index.
pub mod bytes;
pub mod persist;
pub mod ibin;
pub mod fbin;
pub mod order;
pub mod simd;
pub mod pq;
pub mod table;
pub mod rerank;
pub mod fused;
pub mod graph;
pub mod router;
pub mod hier;
pub mod compress;
pub mod layout;
pub mod index;
pub mod scan;
pub mod search;
pub mod kept;
pub mod refine;
pub mod adaptive;
pub mod pacing;
pub mod stream;
pub mod append;
pub mod live;
pub mod store;
pub mod image;
pub mod archive;
pub mod sound;
pub mod revive;
pub mod text;
pub mod double;
pub mod half;
pub mod preset;
pub mod plan;
pub mod ivf;
pub mod report;
pub mod knn;
pub mod descent;
pub mod prune;
pub mod training;
pub mod sidecar;
pub mod trace;
pub mod dump;
pub mod bitcode;
pub mod batch;
pub mod truth;
pub mod agree;
pub mod alike;
pub mod built;
pub mod nearby;
pub mod reach;
pub mod thinned;
pub mod routes;
pub mod chosen;
pub mod spill;
pub mod entry;
pub mod scatter;
pub mod floatrank;
pub mod meta;
pub mod whole;
pub mod answers;
pub mod counted;
pub mod numeric;
pub mod encoding;
pub mod codes;
pub mod holdings;
pub mod ties;
pub mod written;
