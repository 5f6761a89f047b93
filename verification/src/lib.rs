//! Inventory of cloud-drive file metadata: a resumable paginated crawl with
//! durable checkpoints, and offline analyses (space overview, containment tree)
//! over the accumulated pages.

pub mod codec;
pub mod crawl;
pub mod format;
pub mod index;
pub mod overview;
pub mod record;
pub mod tree;

pub use crawl::AppendDecision;
pub use crawl::CrawlState;
pub use format::format_size;
pub use record::FileRecord;
pub use record::Page;
