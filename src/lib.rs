//! Tracks a region-dependent storefront catalog: merges per-region crawls
//! into one record per item, caches image uploads, diffs two catalogs and
//! renders the change as size-bounded notification messages.

pub mod batch;
pub mod block;
pub mod config;
pub mod diff;
pub mod image;
pub mod item;
pub mod merge;
pub mod notify;
pub mod parse;
pub mod prices;
pub mod rails;
pub mod region;
pub mod render;
pub mod text;

pub use config::Config;
pub use diff::{compute_diff, ItemDiff};
pub use rails::get_rails_blob_id;
pub use item::ShopItem;
pub use region::Region;
