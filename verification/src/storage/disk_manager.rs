use super::error::DbError;
use super::page::{PageId, PAGE_SIZE};
use vstd::prelude::*;

verus! {

/// Page-sized reads and writes by page number: what the pages of a database
/// file need from the medium that holds them.
pub trait DiskManager {
    /// The bytes of an allocated page.
    fn read_page(&mut self, page_id: PageId) -> Result<[u8; PAGE_SIZE], DbError>;

    /// Overwrites an allocated page.
    fn write_page(&mut self, page_id: PageId, data: &[u8; PAGE_SIZE]) -> Result<(), DbError>;

    /// Adds a zero-filled page at the end and returns its number.
    fn allocate_page(&mut self) -> Result<PageId, DbError>;
}

} // verus!
