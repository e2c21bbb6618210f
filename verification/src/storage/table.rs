use super::page::PageId;
use super::schema::{Schema, SpecColumn};
use vstd::prelude::*;

verus! {

/// A table: its name, its schema, and where its rows are stored.
#[derive(Debug)]
pub struct Table {
    name: String,
    schema: Schema,
    first_page: Option<PageId>,
    row_count: u64,
}

/// The content of a table description.
pub struct SpecTable {
    pub name: Seq<char>,
    pub columns: Seq<SpecColumn>,
    pub first_page: Option<PageId>,
    pub row_count: u64,
}

impl View for Table {
    type V = SpecTable;

    closed spec fn view(&self) -> SpecTable {
        SpecTable {
            name: self.name@,
            columns: self.schema@,
            first_page: self.first_page,
            row_count: self.row_count,
        }
    }
}

impl Clone for Table {
    fn clone(&self) -> (r: Self)
        ensures
            r@ == self@,
    {
        Table {
            name: self.name.clone(),
            schema: self.schema.clone(),
            first_page: self.first_page,
            row_count: self.row_count,
        }
    }
}

impl Table {
    /// A new table whose storage is still empty.
    pub fn new(name: &str, schema: Schema) -> (r: Self)
        ensures
            r@ == (SpecTable { name: name@, columns: schema@, first_page: None, row_count: 0 }),
    {
        Table { name: name.to_owned(), schema, first_page: None, row_count: 0 }
    }

    pub fn name(&self) -> (r: &str)
        ensures
            r@ == self@.name,
    {
        self.name.as_str()
    }

    pub fn schema(&self) -> (r: &Schema)
        ensures
            r@ == self@.columns,
    {
        &self.schema
    }

    /// The number of rows in the table.
    pub fn row_count(&self) -> (r: usize)
        ensures
            r == self@.row_count as usize,
    {
        self.row_count as usize
    }

    /// The stored row count.
    pub fn stored_row_count(&self) -> (r: u64)
        ensures
            r == self@.row_count,
    {
        self.row_count
    }

    pub(crate) fn first_page(&self) -> (r: Option<PageId>)
        ensures
            r == self@.first_page,
    {
        self.first_page
    }

    pub(crate) fn set_storage(&mut self, first_page: Option<PageId>, row_count: u64)
        ensures
            final(self)@ == (SpecTable { first_page, row_count, ..old(self)@ }),
    {
        self.first_page = first_page;
        self.row_count = row_count;
    }
}

} // verus!
