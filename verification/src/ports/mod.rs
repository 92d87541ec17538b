//! The ports: what the search needs done, said without saying who does it.
//!
//! The domain in `search.rs` asks two questions of the world, hundreds of billions of times a
//! pass. Both are pure arithmetic over flat arrays, and neither has any business knowing whether
//! a CPU thread pool or a graphics driver answered it.

pub mod backend;

pub use backend::{
    Backend, Device, Hit, PeelRequest, PeeledSet, StemBatch, SweepRequest, Unsupported, PACKED_BYTES,
};
