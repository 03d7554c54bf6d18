pub mod error;
pub mod index_info;
pub mod index_mgr;
pub mod metadata_mgr;
pub mod stat_info;
pub mod stat_mgr;
pub mod table_mgr;
pub mod view_mgr;

pub use error::MetadataError;
pub use index_info::{IndexInfo, IndexType, OpenIndex};
pub use index_mgr::IndexMgr;
pub use metadata_mgr::MetadataMgr;
pub use stat_info::StatInfo;
pub use stat_mgr::StatMgr;
pub use table_mgr::{TableMgr, MAX_NAME};
pub use view_mgr::ViewMgr;
