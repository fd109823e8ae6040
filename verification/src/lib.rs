//! A rank-augmented skip list: the mutable, sorted, in-memory run of a
//! log-structured merge engine.
//!
//! Every forward link at every level records how many base-level entries
//! it jumps over, so the distance between two nodes is the sum of a few
//! counters rather than a walk along the base chain.
//!
//! Nodes live in one arena and refer to each other by index. All link and
//! span bookkeeping is proved against a ghost sequence that lists the
//! linked nodes in key order.

pub mod iter;
pub mod key;
pub mod level;
pub mod node;
pub mod run;
pub mod layout;
pub mod skiplist;

pub use iter::Iter;
pub use key::OrderedKey;
pub use level::{clamp_height, CyclicLevels, GeoLevelGenerator, LevelGenerator};
pub use node::Node;
pub use run::{Bound, KVpair, Run};
pub use skiplist::SkipList;
