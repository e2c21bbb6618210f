pub mod codec;
pub mod error;
pub mod le;
pub mod schema;
pub mod table;
pub mod page;
pub mod pager;
pub mod database;
pub mod disk_manager;
pub mod properties;

pub use crate::row::Row;
pub use crate::value::{DataType, Value};
pub use database::Database;
pub use disk_manager::DiskManager;
pub use error::DbError;
pub use page::{PageId, RecordId, Slot, PAGE_SIZE};
pub use schema::{Column, Schema};
pub use table::Table;
