pub mod layout;
pub mod rid;
pub mod schema;
pub mod table_scan;

pub use layout::Layout;
pub use rid::RID;
pub use schema::Schema;
pub use table_scan::TableScan;
