//! A sell-side limit order book with price-time priority matching.
//!
//! Commands go in one at a time through [`Engine::submit`]; each returns the
//! events it produced, in order. The reference backend keeps its resting
//! orders sorted by (price, timestamp, id) and an index from id to key; its
//! state can be saved as bytes and restored. A small B-tree of integer keys
//! stands beside it, unrelated to the book.

pub mod book;
pub mod btree;
pub mod engine;
pub mod engine_v1;
pub mod engine_v2;
pub mod engine_v3;
pub mod matching;
pub mod protocol;
pub mod snapshot;
pub mod types;

pub use book::SellOrder;
pub use engine::Engine;
pub use engine_v1::EngineV1;
pub use engine_v2::EngineV2;
pub use engine_v3::EngineV3;
pub use protocol::{Command, Event};
pub use types::{AssetQty, Money, Price, Timestamp, ID};
