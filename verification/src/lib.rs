//! A storage engine over immutable, content-addressed pages.

pub mod text;
pub mod hashing;
pub mod path;
pub mod error;
pub mod page;
pub mod pagemap;
pub mod codec;
pub mod manifest;
pub mod ordmap;
pub mod branch;
pub mod record;
pub mod vfs;
pub mod testing;
pub mod cas;
pub mod fsstore;
pub mod diff;
pub mod chain;
pub mod clock;
pub mod gc;
pub mod pager;
pub mod metrics;
pub mod scrub;
pub mod laws;
pub mod meaning;
pub mod log;
pub mod replay;
pub mod wal;
pub mod durable;
pub mod durability;
pub mod reopening;
pub mod security;
pub mod license;
pub mod keys;
pub mod crypt;
pub mod remote;
pub mod hotset;
pub mod tier;
pub mod tiered;
pub mod model;
pub mod lifecycle;
pub mod lockstep;
