use super::codec::{
    decode_row, decode_table, encodable_row, encodable_table, encode_row, encode_table, is_row_encoding,
    row_bytes, table_bytes,
};
use super::error::{corrupt, corrupt_with_number, DbError, SpecDbError};
use crate::text::{decimal, push_decimal, push_str};
use super::error::db_message;
use super::page::{
    has_magic, insert_result, live_records, page_view, page_wf, spec_kind_byte, stored, wrong_kind_message,
    PageId, PageKind, RecordId, SlottedPage, SpecPage, NO_PAGE, PAGE_SIZE,
};
use super::pager::{db_magic, image_ok, join_pages, split_pages, Pager};
use super::properties::{catalog_sound, sorted_by_name};
use super::schema::{check_row, check_value, find_column, names_distinct, Schema, SpecColumn};
use super::table::{SpecTable, Table};
use crate::row::{values_view, Row};
use crate::value::{SpecValue, Value};
use vstd::prelude::*;

verus! {

/// The contents of a sequence of tables.
pub open spec fn tables_view(ts: Seq<Table>) -> Seq<SpecTable> {
    ts.map_values(|t: Table| t@)
}

/// The contents of a sequence of rows.
pub open spec fn rows_view(rs: Seq<Row>) -> Seq<Seq<SpecValue>> {
    rs.map_values(|r: Row| r@)
}

/// The position of the first table called `name`, at or after `start`.
pub open spec fn find_table_from(cat: Seq<SpecTable>, name: Seq<char>, start: int) -> Option<int>
    decreases cat.len() - start,
{
    if start < 0 || start >= cat.len() {
        None
    } else if cat[start].name == name {
        Some(start)
    } else {
        find_table_from(cat, name, start + 1)
    }
}

/// The position of the table called `name` in the catalog.
pub open spec fn find_table(cat: Seq<SpecTable>, name: Seq<char>) -> Option<int> {
    find_table_from(cat, name, 0)
}

/// What `find_table_from` returns: the first match at or after `start`.
pub proof fn lemma_find_table_from(cat: Seq<SpecTable>, name: Seq<char>, start: int)
    requires
        0 <= start <= cat.len(),
    ensures
        find_table_from(cat, name, start) is Some ==> {
            let i = find_table_from(cat, name, start)->0;
            &&& start <= i < cat.len()
            &&& cat[i].name == name
            &&& forall|k: int| start <= k < i ==> #[trigger] cat[k].name != name
        },
        find_table_from(cat, name, start) is None ==> forall|k: int|
            start <= k < cat.len() ==> #[trigger] cat[k].name != name,
    decreases cat.len() - start,
{
    if start < cat.len() && cat[start].name != name {
        lemma_find_table_from(cat, name, start + 1);
    }
}

/// No two tables share a name.
pub open spec fn names_unique(cat: Seq<SpecTable>) -> bool {
    forall|i: int, j: int|
        0 <= i < cat.len() && 0 <= j < cat.len() && i != j ==> #[trigger] cat[i].name
            != #[trigger] cat[j].name
}

/// A readable data page.
pub open spec fn is_data_page(pages: Seq<Seq<u8>>, id: u64) -> bool {
    &&& id < pages.len()
    &&& page_wf(pages[id as int])
    &&& pages[id as int][4] == spec_kind_byte(PageKind::Data)
}

/// The pages of the chain that starts at `next`, when the chain ends without
/// revisiting `visited` or any page, and every page in it is a data page.
pub open spec fn chain_from(pages: Seq<Seq<u8>>, next: Option<PageId>, visited: Seq<u64>) -> Option<
    Seq<u64>,
>
    decreases pages.len() - visited.len(),
{
    match next {
        None => Some(Seq::empty()),
        Some(id) => if visited.contains(id.0) || !is_data_page(pages, id.0) || visited.len()
            >= pages.len() {
            None
        } else {
            match chain_from(pages, page_view(pages[id.0 as int]).next, visited.push(id.0)) {
                Some(rest) => Some(seq![id.0] + rest),
                None => None,
            }
        },
    }
}

/// The live records of a page, in slot order.
pub open spec fn page_records(page: Seq<u8>) -> Seq<Seq<u8>> {
    live_records(page_view(page).slots).map_values(|r: (u16, Seq<u8>)| r.1)
}

/// The records of the pages `ids`, page after page.
pub open spec fn chain_records(pages: Seq<Seq<u8>>, ids: Seq<u64>) -> Seq<Seq<u8>>
    decreases ids.len(),
{
    if ids.len() == 0 {
        Seq::empty()
    } else {
        chain_records(pages, ids.drop_last()) + page_records(pages[ids.last() as int])
    }
}

/// The row whose stored form is `bytes`.
pub open spec fn decoded(bytes: Seq<u8>) -> Seq<SpecValue> {
    choose|vs: Seq<SpecValue>| encodable_row(vs) && #[trigger] row_bytes(vs) == bytes
}

/// The rows stored as `records`, when each is a stored row that fits table `t`.
pub open spec fn rows_of(records: Seq<Seq<u8>>, t: SpecTable) -> Option<Seq<Seq<SpecValue>>>
    decreases records.len(),
{
    if records.len() == 0 {
        Some(Seq::empty())
    } else if !is_row_encoding(records.last()) || check_row(
        t.name,
        t.columns,
        decoded(records.last()),
    ) is Some {
        None
    } else {
        match rows_of(records.drop_last(), t) {
            Some(rows) => Some(rows.push(decoded(records.last()))),
            None => None,
        }
    }
}

/// The rows of table `t` as stored in `pages`: every page of its chain is
/// read, every record decoded and checked against the schema, and the count
/// must match the catalog. Corruption is reported without a specific message.
pub open spec fn stored_rows(pages: Seq<Seq<u8>>, t: SpecTable) -> Result<Seq<Seq<SpecValue>>, SpecDbError> {
    match chain_from(pages, t.first_page, Seq::empty()) {
        None => Err(SpecDbError::Corrupt(Seq::empty())),
        Some(ids) => match rows_of(chain_records(pages, ids), t) {
            None => Err(SpecDbError::Corrupt(Seq::empty())),
            Some(rows) => if rows.len() != t.row_count as int {
                Err(SpecDbError::Corrupt(Seq::empty()))
            } else {
                Ok(rows)
            },
        },
    }
}

/// The first fault that reading table `t` meets, in reading order.
pub enum ReadFault {
    /// The chain reaches page `page` a second time.
    Cycle { page: u64 },
    /// A page of the chain is not a well-formed data page, or one of its
    /// records is not a stored row.
    Unreadable,
    /// The schema refuses a row on page `page` with `error`.
    Invalid { page: u64, error: SpecDbError },
}

/// The first fault among the records `recs` of page `page`, read in order.
pub open spec fn record_fault(recs: Seq<Seq<u8>>, t: SpecTable, page: u64) -> Option<ReadFault>
    decreases recs.len(),
{
    if recs.len() == 0 {
        None
    } else if !is_row_encoding(recs[0]) {
        Some(ReadFault::Unreadable)
    } else {
        match check_row(t.name, t.columns, decoded(recs[0])) {
            Some(error) => Some(ReadFault::Invalid { page, error }),
            None => record_fault(recs.drop_first(), t, page),
        }
    }
}

/// The first fault that reading table `t` meets on the chain that continues
/// at `next`, after the pages `visited`.
pub open spec fn first_fault(pages: Seq<Seq<u8>>, t: SpecTable, next: Option<PageId>, visited: Seq<u64>) -> Option<
    ReadFault,
>
    decreases pages.len() - visited.len(),
{
    match next {
        None => None,
        Some(id) => if visited.contains(id.0) {
            Some(ReadFault::Cycle { page: id.0 })
        } else if !is_data_page(pages, id.0) || visited.len() >= pages.len() {
            Some(ReadFault::Unreadable)
        } else {
            match record_fault(page_records(pages[id.0 as int]), t, id.0) {
                Some(f) => Some(f),
                None => first_fault(pages, t, page_view(pages[id.0 as int]).next, visited.push(id.0)),
            }
        },
    }
}

/// The message of a chain that reaches page `page` twice.
pub open spec fn cycle_message(page: u64) -> Seq<char> {
    "cycle in page chain at page "@ + decimal(page as nat)
}

/// The message of a stored row on page `page` that the schema refuses.
pub open spec fn invalid_row_message(page: u64, error: SpecDbError) -> Seq<char> {
    "row on page "@ + decimal(page as nat) + " violates its schema: "@ + db_message(error)
}

/// The message of a table whose catalog entry counts `expected` rows where
/// `found` were read.
pub open spec fn row_count_message(table: Seq<char>, expected: nat, found: nat) -> Seq<char> {
    "table '"@ + table + "' catalog says "@ + decimal(expected) + " rows, found "@ + decimal(found)
}

/// What `select_all` returns for the table called `name`.
pub open spec fn spec_select_all(cat: Seq<SpecTable>, pages: Seq<Seq<u8>>, name: Seq<char>) -> Result<
    Seq<Seq<SpecValue>>,
    SpecDbError,
> {
    match find_table(cat, name) {
        None => Err(SpecDbError::TableNotFound { table: name }),
        Some(i) => stored_rows(pages, cat[i]),
    }
}

/// An error that is `s`, where a corruption or encoding error may carry any
/// message.
pub open spec fn same_error(e: SpecDbError, s: SpecDbError) -> bool {
    if s is Corrupt {
        e is Corrupt
    } else if s is Encoding {
        e is Encoding
    } else if s is Io {
        e is Io
    } else {
        e == s
    }
}

/// A data page with no records and no successor.
pub open spec fn empty_data_page() -> SpecPage {
    SpecPage { kind: spec_kind_byte(PageKind::Data), next: None, slots: Seq::empty() }
}

/// A data page holding just `rec`.
pub open spec fn single_record_page(rec: Seq<u8>) -> SpecPage {
    SpecPage { slots: seq![stored(rec)], ..empty_data_page() }
}

/// `after` is `before` with one more page at the end, holding `p`; the
/// header page records the new count.
pub open spec fn page_added(before: Seq<Seq<u8>>, after: Seq<Seq<u8>>, p: SpecPage) -> bool {
    &&& after.len() == before.len() + 1
    &&& forall|i: int| 1 <= i < before.len() ==> #[trigger] after[i] == before[i]
    &&& page_wf(after[before.len() as int])
    &&& page_view(after[before.len() as int]) == p
}

/// Where first-fit places a record in the chain that continues at `id`:
/// the first page with room, or a new page after the last one.
pub enum AppendPlan {
    Fail(SpecDbError),
    InPage { page: u64, slot: int, slots: Seq<Option<Seq<u8>>> },
    After { last: u64 },
}

pub open spec fn append_walk(pages: Seq<Seq<u8>>, id: u64, rec: Seq<u8>, visited: Seq<u64>) -> AppendPlan
    decreases pages.len() - visited.len(),
{
    if visited.contains(id) || !is_data_page(pages, id) || visited.len() >= pages.len() {
        AppendPlan::Fail(SpecDbError::Corrupt(Seq::empty()))
    } else {
        let p = page_view(pages[id as int]);
        match insert_result(p, rec) {
            Ok((slot, slots)) => AppendPlan::InPage { page: id, slot, slots },
            Err(SpecDbError::PageFull) => match p.next {
                Some(n) => append_walk(pages, n.0, rec, visited.push(id)),
                None => AppendPlan::After { last: id },
            },
            Err(e) => AppendPlan::Fail(e),
        }
    }
}

/// What appending `rec` to the chain starting at `first` does to the pages
/// `before`, leaving `after` and returning `r`.
pub open spec fn append_done(
    before: Seq<Seq<u8>>,
    after: Seq<Seq<u8>>,
    first: Option<PageId>,
    rec: Seq<u8>,
    r: Result<(RecordId, Option<PageId>), DbError>,
) -> bool {
    let n = before.len();
    match first {
        None => if n >= NO_PAGE {
            r matches Err(e) && e is Io && after == before
        } else {
            match insert_result(empty_data_page(), rec) {
                Ok((slot, slots)) => r == Ok::<(RecordId, Option<PageId>), DbError>(
                    (
                        RecordId { page_id: PageId(n as u64), slot_id: slot as u16 },
                        Some(PageId(n as u64)),
                    ),
                ) && page_added(before, after, SpecPage { slots, ..empty_data_page() }),
                Err(e) => r matches Err(x) && x@ == e && page_added(before, after, empty_data_page()),
            }
        },
        Some(f) => match append_walk(before, f.0, rec, Seq::empty()) {
            AppendPlan::Fail(e) => r matches Err(x) && same_error(x@, e) && after == before,
            AppendPlan::InPage { page, slot, slots } => r == Ok::<(RecordId, Option<PageId>), DbError>(
                (RecordId { page_id: PageId(page), slot_id: slot as u16 }, first),
            ) && page_replaced(
                before,
                after,
                page as int,
                SpecPage { slots, ..page_view(before[page as int]) },
            ),
            AppendPlan::After { last } => if n >= NO_PAGE {
                r matches Err(e) && e is Io && after == before
            } else {
                &&& r == Ok::<(RecordId, Option<PageId>), DbError>(
                    (RecordId { page_id: PageId(n as u64), slot_id: 0 }, first),
                )
                &&& after.len() == n + 1
                &&& forall|i: int| 1 <= i < n && i != last ==> #[trigger] after[i] == before[i]
                &&& page_wf(after[n as int])
                &&& page_view(after[n as int]) == single_record_page(rec)
                &&& page_wf(after[last as int])
                &&& page_view(after[last as int]) == (SpecPage {
                    next: Some(PageId(n as u64)),
                    ..page_view(before[last as int])
                })
            },
        },
    }
}

/// `after` is `before` with page `id` now holding `p`.
pub open spec fn page_replaced(before: Seq<Seq<u8>>, after: Seq<Seq<u8>>, id: int, p: SpecPage) -> bool {
    &&& after.len() == before.len()
    &&& 0 <= id < after.len()
    &&& forall|i: int| 0 <= i < after.len() && i != id ==> #[trigger] after[i] == before[i]
    &&& page_wf(after[id])
    &&& page_view(after[id]) == p
}

/// The table described by `t`, with the name `name`, placed in sorted
/// position: before the first table whose name comes after it.
pub open spec fn insert_point_from(cat: Seq<SpecTable>, name: Seq<char>, start: int) -> int
    decreases cat.len() - start,
{
    if start < 0 || start >= cat.len() {
        cat.len() as int
    } else if crate::executor::text_lt(name, cat[start].name) {
        start
    } else {
        insert_point_from(cat, name, start + 1)
    }
}

pub open spec fn insert_point(cat: Seq<SpecTable>, name: Seq<char>) -> int {
    insert_point_from(cat, name, 0)
}

pub proof fn lemma_insert_point_from(cat: Seq<SpecTable>, name: Seq<char>, start: int)
    requires
        0 <= start <= cat.len(),
    ensures
        start <= insert_point_from(cat, name, start) <= cat.len(),
    decreases cat.len() - start,
{
    if start < cat.len() && !crate::executor::text_lt(name, cat[start].name) {
        lemma_insert_point_from(cat, name, start + 1);
    }
}

/// The catalog page that holds the entries of `cat`, in order, or the error
/// that stops it from being written.
#[verifier::opaque]
pub open spec fn catalog_page(cat: Seq<SpecTable>) -> Result<SpecPage, SpecDbError>
    decreases cat.len(),
{
    if cat.len() == 0 {
        Ok(SpecPage { kind: spec_kind_byte(PageKind::Catalog), next: None, slots: Seq::empty() })
    } else {
        match catalog_page(cat.drop_last()) {
            Err(e) => Err(e),
            Ok(p) => if !encodable_table(cat.last()) {
                Err(SpecDbError::Encoding(Seq::empty()))
            } else {
                match insert_result(p, table_bytes(cat.last())) {
                    Ok((_, slots)) => Ok(SpecPage { slots, ..p }),
                    Err(_) => Err(SpecDbError::CatalogFull),
                }
            },
        }
    }
}


/// Distinct page numbers below `n` number at most `n`.
proof fn lemma_distinct_below(s: Seq<u64>, n: nat)
    requires
        s.no_duplicates(),
        forall|k: int| 0 <= k < s.len() ==> #[trigger] s[k] < n,
    ensures
        s.len() <= n,
{
    let si = s.map_values(|x: u64| x as int);
    assert(si.no_duplicates()) by {
        assert forall|i: int, j: int| 0 <= i < si.len() && 0 <= j < si.len() && i != j implies si[i]
            != si[j] by {
            assert(s[i] != s[j]);
        }
    }
    si.unique_seq_to_set();
    vstd::set_lib::lemma_int_range(0, n as int);
    assert(si.to_set().subset_of(vstd::set_lib::set_int_range(0, n as int))) by {
        assert forall|x: int| si.to_set().contains(x) implies vstd::set_lib::set_int_range(
            0,
            n as int,
        ).contains(x) by {
            let k = choose|k: int| 0 <= k < si.len() && si[k] == x;
            assert(s[k] < n);
        }
    }
    vstd::set_lib::lemma_len_subset(si.to_set(), vstd::set_lib::set_int_range(0, n as int));
}

/// A page that was not visited yet leaves room for one more visit.
proof fn lemma_room(visited: Seq<u64>, n: nat, id: u64)
    requires
        visited.no_duplicates(),
        forall|k: int| 0 <= k < visited.len() ==> #[trigger] visited[k] < n,
        id < n,
        !visited.contains(id),
    ensures
        visited.len() < n,
        visited.push(id).no_duplicates(),
        forall|k: int| 0 <= k < visited.push(id).len() ==> #[trigger] visited.push(id)[k] < n,
{
    let s = visited.push(id);
    assert(s.no_duplicates()) by {
        assert forall|i: int, j: int| 0 <= i < s.len() && 0 <= j < s.len() && i != j implies s[i]
            != s[j] by {
            if i == visited.len() {
                assert(visited[j] == s[j]);
            } else if j == visited.len() {
                assert(visited[i] == s[i]);
            }
        }
    }
    assert forall|k: int| 0 <= k < s.len() implies #[trigger] s[k] < n by {
        if k < visited.len() {
            assert(s[k] == visited[k]);
        }
    }
    lemma_distinct_below(s, n);
}

/// The records of two runs of pages are those of the first, then those of the second.
proof fn lemma_chain_records_concat(pages: Seq<Seq<u8>>, a: Seq<u64>, b: Seq<u64>)
    ensures
        chain_records(pages, a + b) == chain_records(pages, a) + chain_records(pages, b),
    decreases b.len(),
{
    if b.len() == 0 {
        assert(a + b =~= a);
        assert(chain_records(pages, a) + chain_records(pages, b) =~= chain_records(pages, a));
    } else {
        lemma_chain_records_concat(pages, a, b.drop_last());
        assert((a + b).drop_last() =~= a + b.drop_last());
        assert((a + b).last() == b.last());
    }
}

/// Rows can be read from all records only if they can be read from a prefix.
proof fn lemma_rows_of_prefix(a: Seq<Seq<u8>>, b: Seq<Seq<u8>>, t: SpecTable)
    requires
        rows_of(a + b, t) is Some,
    ensures
        rows_of(a, t) is Some,
    decreases b.len(),
{
    if b.len() == 0 {
        assert(a + b =~= a);
    } else {
        assert((a + b).drop_last() =~= a + b.drop_last());
        lemma_rows_of_prefix(a, b.drop_last(), t);
    }
}


/// A run of records that cannot be read as rows, at the start of a page of
/// the chain, makes the whole table unreadable.
proof fn lemma_bad_records(
    pages: Seq<Seq<u8>>,
    t: SpecTable,
    visited: Seq<u64>,
    id: u64,
    bad: Seq<Seq<u8>>,
    rest_of_page: Seq<Seq<u8>>,
)
    requires
        chain_from(pages, t.first_page, Seq::empty()) == match chain_from(
            pages,
            Some(PageId(id)),
            visited,
        ) {
            Some(rest) => Some(visited + rest),
            None => None,
        },
        bad + rest_of_page == page_records(pages[id as int]),
        rows_of(chain_records(pages, visited) + bad, t) is None,
    ensures
        stored_rows(pages, t) is Err,
        stored_rows(pages, t)->Err_0 is Corrupt,
        chain_from(pages, t.first_page, Seq::empty()) matches Some(ids) ==> rows_of(
            chain_records(pages, ids),
            t,
        ) is None,
{
    match chain_from(pages, Some(PageId(id)), visited) {
        None => {},
        Some(tail) => {
            if !(visited.contains(id) || !is_data_page(pages, id) || visited.len() >= pages.len()) {
                let rest = chain_from(pages, page_view(pages[id as int]).next, visited.push(id))->0;
                assert(tail == seq![id] + rest);
                let ids = visited + tail;
                lemma_chain_records_concat(pages, visited, tail);
                lemma_chain_records_concat(pages, seq![id], rest);
                let one = seq![id];
                assert(one.drop_last() =~= Seq::<u64>::empty());
                assert(one.last() == id);
                assert(chain_records(pages, one.drop_last()) =~= Seq::<Seq<u8>>::empty());
                assert(chain_records(pages, one) =~= page_records(pages[id as int]));
                let pre = chain_records(pages, visited) + bad;
                let post = rest_of_page + chain_records(pages, rest);
                assert(chain_records(pages, ids) =~= pre + post);
                if rows_of(chain_records(pages, ids), t) is Some {
                    lemma_rows_of_prefix(pre, post, t);
                }
            }
        },
    }
}



/// One more catalog entry, stored in the page built so far.
proof fn lemma_catalog_page_step(cat: Seq<SpecTable>, n: int, p: SpecPage, k: int, slots: Seq<Option<Seq<u8>>>)
    requires
        0 <= n < cat.len(),
        catalog_page(cat.take(n)) == Ok::<SpecPage, SpecDbError>(p),
        encodable_table(cat[n]),
        insert_result(p, table_bytes(cat[n])) == Ok::<(int, Seq<Option<Seq<u8>>>), SpecDbError>((k, slots)),
    ensures
        catalog_page(cat.take(n + 1)) == Ok::<SpecPage, SpecDbError>(SpecPage { slots, ..p }),
{
    reveal(catalog_page);
    assert(cat.take(n + 1).drop_last() =~= cat.take(n));
    assert(cat.take(n + 1).last() == cat[n]);
}

/// Storing the catalog entry `n` fails with the error of `catalog_page`.
proof fn lemma_catalog_page_fail(cat: Seq<SpecTable>, n: int, p: SpecPage)
    requires
        0 <= n < cat.len(),
        catalog_page(cat.take(n)) == Ok::<SpecPage, SpecDbError>(p),
    ensures
        !encodable_table(cat[n]) ==> catalog_page(cat.take(n + 1)) == Err::<SpecPage, SpecDbError>(SpecDbError::Encoding(Seq::empty())),
        encodable_table(cat[n]) && insert_result(p, table_bytes(cat[n])) is Err ==> catalog_page(cat.take(n + 1)) == Err::<SpecPage, SpecDbError>(SpecDbError::CatalogFull),
{
    reveal(catalog_page);
    assert(cat.take(n + 1).drop_last() =~= cat.take(n));
    assert(cat.take(n + 1).last() == cat[n]);
}

/// The empty catalog is an empty catalog page.
proof fn lemma_catalog_page_empty(cat: Seq<SpecTable>)
    ensures
        catalog_page(cat.take(0)) == Ok::<SpecPage, SpecDbError>(
            SpecPage { kind: spec_kind_byte(PageKind::Catalog), next: None, slots: Seq::empty() },
        ),
{
    reveal(catalog_page);
    assert(cat.take(0) =~= Seq::<SpecTable>::empty());
}

/// A catalog can be written only if every prefix of it can.
proof fn lemma_catalog_page_prefix(cat: Seq<SpecTable>, n: int)
    requires
        0 <= n <= cat.len(),
        catalog_page(cat.take(n)) is Err,
    ensures
        catalog_page(cat) == catalog_page(cat.take(n)),
    decreases cat.len() - n,
{
    reveal(catalog_page);
    if n < cat.len() {
        assert(cat.take(n + 1).drop_last() =~= cat.take(n));
        lemma_catalog_page_prefix(cat, n + 1);
    } else {
        assert(cat.take(n) =~= cat);
    }
}


/// Rows read from a chain fit their table.
proof fn lemma_rows_of_fit(records: Seq<Seq<u8>>, t: SpecTable)
    ensures
        rows_of(records, t) matches Some(rows) ==> forall|k: int|
            0 <= k < rows.len() ==> check_row(t.name, t.columns, #[trigger] rows[k]) is None,
    decreases records.len(),
{
    if records.len() > 0 {
        lemma_rows_of_fit(records.drop_last(), t);
    }
}

/// The stored rows of a table fit it.
pub proof fn lemma_stored_rows_fit(pages: Seq<Seq<u8>>, t: SpecTable)
    ensures
        stored_rows(pages, t) matches Ok(rows) ==> forall|k: int|
            0 <= k < rows.len() ==> check_row(t.name, t.columns, #[trigger] rows[k]) is None,
{
    if let Some(ids) = chain_from(pages, t.first_page, Seq::empty()) {
        lemma_rows_of_fit(chain_records(pages, ids), t);
    }
}



/// Inserting a table whose name is new keeps the names unique.
proof fn lemma_insert_unique(cat: Seq<SpecTable>, k: int, t: SpecTable)
    requires
        names_unique(cat),
        0 <= k <= cat.len(),
        forall|j: int| 0 <= j < cat.len() ==> #[trigger] cat[j].name != t.name,
    ensures
        names_unique(cat.insert(k, t)),
{
    let c = cat.insert(k, t);
    assert forall|a: int, b: int|
        0 <= a < c.len() && 0 <= b < c.len() && a != b implies #[trigger] c[a].name
        != #[trigger] c[b].name by {
        if a == k && b != k {
            let bb = if b < k { b } else { b - 1 };
            assert(c[b] == cat[bb]);
        } else if b == k && a != k {
            let aa = if a < k { a } else { a - 1 };
            assert(c[a] == cat[aa]);
        } else if a != k && b != k {
            let aa = if a < k { a } else { a - 1 };
            let bb = if b < k { b } else { b - 1 };
            assert(c[a] == cat[aa]);
            assert(c[b] == cat[bb]);
        }
    }
}

/// One more catalog record read.
proof fn lemma_opened_catalog_step(recs: Seq<Seq<u8>>, n: int, cat: Seq<SpecTable>)
    requires
        0 <= n < recs.len(),
        opened_catalog(recs.take(n)) == Some(cat),
    ensures
        !super::codec::is_table_encoding(recs[n]) ==> opened_catalog(recs.take(n + 1)) is None,
        super::codec::is_table_encoding(recs[n]) && find_table(cat, decoded_table(recs[n]).name) is Some
            ==> opened_catalog(recs.take(n + 1)) is None,
        super::codec::is_table_encoding(recs[n]) && find_table(cat, decoded_table(recs[n]).name) is None
            ==> opened_catalog(recs.take(n + 1)) == Some(
            cat.insert(insert_point(cat, decoded_table(recs[n]).name), decoded_table(recs[n])),
        ),
{
    assert(recs.take(n + 1).drop_last() =~= recs.take(n));
    assert(recs.take(n + 1).last() == recs[n]);
}

/// A catalog can be read only if every prefix of its records can.
proof fn lemma_opened_catalog_prefix(recs: Seq<Seq<u8>>, n: int)
    requires
        0 <= n <= recs.len(),
        opened_catalog(recs.take(n)) is None,
    ensures
        opened_catalog(recs) is None,
    decreases recs.len() - n,
{
    if n < recs.len() {
        assert(recs.take(n + 1).drop_last() =~= recs.take(n));
        lemma_opened_catalog_prefix(recs, n + 1);
    } else {
        assert(recs.take(n) =~= recs);
    }
}

/// Whether `x` is one of `v`.
fn contains_id(v: &Vec<u64>, x: u64) -> (r: bool)
    ensures
        r == v@.contains(x),
{
    let mut i: usize = 0;
    while i < v.len()
        invariant
            i <= v@.len(),
            forall|k: int| 0 <= k < i ==> v@[k] != x,
        decreases v@.len() - i,
    {
        if v[i] == x {
            return true;
        }
        i += 1;
    }
    false
}



/// Appending the stored forms of `rows`, one after the other, to the chain
/// that starts at `first` takes the pages from `before` to `after` and leaves
/// the chain starting at `last`.
pub open spec fn rows_appended(
    before: Seq<Seq<u8>>,
    after: Seq<Seq<u8>>,
    first: Option<PageId>,
    rows: Seq<Seq<SpecValue>>,
    last: Option<PageId>,
) -> bool
    decreases rows.len(),
{
    if rows.len() == 0 {
        after == before && last == first
    } else {
        exists|mid: Seq<Seq<u8>>, f: Option<PageId>, rid: RecordId|
            rows_appended(before, mid, first, rows.drop_last(), f) && encodable_row(
                rows.last(),
            ) && #[trigger] append_done(
                mid,
                after,
                f,
                row_bytes(rows.last()),
                Ok::<(RecordId, Option<PageId>), DbError>((rid, last)),
            )
    }
}

/// Writing `rows` into a new chain stopped at row `k` with the error `e`.
pub open spec fn rows_failed(
    before: Seq<Seq<u8>>,
    after: Seq<Seq<u8>>,
    rows: Seq<Seq<SpecValue>>,
    e: DbError,
) -> bool {
    exists|k: int, mid: Seq<Seq<u8>>, f: Option<PageId>|
        0 <= k < rows.len() && #[trigger] rows_appended(before, mid, None, rows.take(k), f) && if encodable_row(rows[k]) {
            append_done(mid, after, f, row_bytes(rows[k]), Err::<(RecordId, Option<PageId>), DbError>(e))
        } else {
            e is Encoding && after == mid
        }
}

/// Stores `bytes` in the first page of the chain at `first` that has room,
/// or in a new page linked after the last one; a missing chain starts with a
/// new page. Returns where the record went and the chain's first page.
fn append_record(pager: &mut Pager, first: Option<PageId>, bytes: &[u8]) -> (r: Result<
    (RecordId, Option<PageId>),
    DbError,
>)
    requires
        old(pager).wf(),
    ensures
        final(pager).wf(),
        append_done(old(pager).pages(), final(pager).pages(), first, bytes@, r),
{
    proof {
        pager.lemma_wf();
    }
    let ghost before = pager.pages();
    let f = match first {
        None => {
            let (id, mut page) = match pager.allocate(PageKind::Data) {
                Ok(a) => a,
                Err(e) => {
                    return Err(e);
                },
            };
            let slot = match page.insert(bytes) {
                Ok(s) => s,
                Err(e) => {
                    return Err(e);
                },
            };
            match pager.write_page(id, &page) {
                Ok(()) => {},
                Err(e) => {
                    return Err(e);
                },
            }
            proof {
                assert(pager.pages() =~= pager.pages());
            }
            return Ok((RecordId { page_id: id, slot_id: slot }, Some(id)));
        },
        Some(f) => f,
    };
    let mut page_id = f;
    let mut visited: Vec<u64> = Vec::new();
    loop
        invariant
            pager.wf(),
            pager.pages() == before,
            before == old(pager).pages(),
            first == Some(f),
            append_walk(before, f.0, bytes@, Seq::empty()) == append_walk(before, page_id.0, bytes@, visited@),
            visited@.no_duplicates(),
            forall|k: int| 0 <= k < visited@.len() ==> #[trigger] visited@[k] < before.len(),
            visited@.len() <= before.len(),
            before.len() >= 2,
            !page_wf(before[0]),
        decreases before.len() - visited@.len(),
    {
        if contains_id(&visited, page_id.0) {
            return Err(corrupt_with_number("cycle in page chain at page ", page_id.0, ""));
        }
        let mut page = match pager.read_page(page_id, PageKind::Data) {
            Ok(p) => p,
            Err(e) => {
                return Err(e);
            },
        };
        proof {
            lemma_room(visited@, before.len(), page_id.0);
        }
        let ghost pv = page.view_page();
        assert(pv == page_view(before[page_id.0 as int]));
        match page.insert(bytes) {
            Ok(slot) => {
                match pager.write_page(page_id, &page) {
                    Ok(()) => {},
                    Err(e) => {
                        return Err(e);
                    },
                }
                assert(page.view_page() == SpecPage { slots: page.view_page().slots, ..pv });
                return Ok((RecordId { page_id, slot_id: slot }, first));
            },
            Err(DbError::PageFull) => {
                match page.next_page() {
                    Some(next) => {
                        visited.push(page_id.0);
                        page_id = next;
                    },
                    None => {
                        let (new_id, mut new_page) = match pager.allocate(PageKind::Data) {
                            Ok(a) => a,
                            Err(e) => {
                                return Err(e);
                            },
                        };
                        let ghost mid = pager.pages();
                        assert(insert_result(empty_data_page(), bytes@) == Ok::<
                            (int, Seq<Option<Seq<u8>>>),
                            SpecDbError,
                        >((0, seq![stored(bytes@)])));
                        let slot = match new_page.insert(bytes) {
                            Ok(s) => s,
                            Err(e) => {
                                return Err(e);
                            },
                        };
                        match pager.write_page(new_id, &new_page) {
                            Ok(()) => {},
                            Err(e) => {
                                return Err(e);
                            },
                        }
                        page.set_next_page(Some(new_id));
                        match pager.write_page(page_id, &page) {
                            Ok(()) => {},
                            Err(e) => {
                                return Err(e);
                            },
                        }
                        return Ok((RecordId { page_id: new_id, slot_id: slot }, first));
                    },
                }
            },
            Err(e) => {
                return Err(e);
            },
        }
    }
}



/// One more row appended after a run of appended rows.
proof fn lemma_rows_appended_step(
    before: Seq<Seq<u8>>,
    mid: Seq<Seq<u8>>,
    after: Seq<Seq<u8>>,
    first: Option<PageId>,
    rows: Seq<Seq<SpecValue>>,
    f: Option<PageId>,
    rid: RecordId,
    last: Option<PageId>,
)
    requires
        rows.len() > 0,
        rows_appended(before, mid, first, rows.drop_last(), f),
        encodable_row(rows.last()),
        append_done(mid, after, f, row_bytes(rows.last()), Ok::<(RecordId, Option<PageId>), DbError>((rid, last))),
    ensures
        rows_appended(before, after, first, rows, last),
{
}

/// Writes `rows` into a new chain of pages and returns its first page and
/// the number of rows written.
fn write_row_chain(pager: &mut Pager, rows: &[Row]) -> (r: Result<(Option<PageId>, u64), DbError>)
    requires
        old(pager).wf(),
    ensures
        final(pager).wf(),
        match r {
            Ok((first, count)) => count == rows@.len() && rows_appended(
                old(pager).pages(),
                final(pager).pages(),
                None,
                rows_view(rows@),
                first,
            ),
            Err(e) => rows_failed(old(pager).pages(), final(pager).pages(), rows_view(rows@), e),
        },
{
    let ghost before = pager.pages();
    let ghost all = rows_view(rows@);
    let mut first: Option<PageId> = None;
    let mut i: usize = 0;
    assert(all.take(0) =~= Seq::<Seq<SpecValue>>::empty());
    while i < rows.len()
        invariant
            pager.wf(),
            before == old(pager).pages(),
            all == rows_view(rows@),
            i <= rows@.len(),
            rows_appended(before, pager.pages(), None, all.take(i as int), first),
        decreases rows@.len() - i,
    {
        let ghost mid = pager.pages();
        let ghost f = first;
        assert(all.take(i + 1).drop_last() =~= all.take(i as int));
        assert(all[i as int] == rows@[i as int]@);
        let bytes = match encode_row(&rows[i]) {
            Ok(b) => b,
            Err(e) => {
                assert(rows_failed(before, pager.pages(), all, e)) by {
                    assert(rows_appended(before, mid, None, all.take(i as int), f));
                }
                return Err(e);
            },
        };
        let appended = append_record(pager, first, bytes.as_slice());
        match appended {
            Ok((rid, new_first)) => {
                first = new_first;
                proof {
                    assert(all.take(i + 1).last() == all[i as int]);
                    assert(row_bytes(all[i as int]) == bytes@);
                    lemma_rows_appended_step(before, mid, pager.pages(), None, all.take(i + 1), f, rid, first);
                }
            },
            Err(e) => {
                assert(rows_failed(before, pager.pages(), all, e)) by {
                    assert(rows_appended(before, mid, None, all.take(i as int), f));
                }
                return Err(e);
            },
        }
        i += 1;
    }
    assert(all.take(rows@.len() as int) =~= all);
    Ok((first, rows.len() as u64))
}


/// The outcome of storing the row `row` in the table called `name`: the
/// table must exist, the row must fit its schema and be encodable, and then
/// the row is appended to the table's chain and the catalog rewritten with
/// the table's new first page and row count.
pub open spec fn inserted(
    cat: Seq<SpecTable>,
    pages: Seq<Seq<u8>>,
    name: Seq<char>,
    row: Seq<SpecValue>,
    cat2: Seq<SpecTable>,
    pages2: Seq<Seq<u8>>,
    r: Result<RecordId, DbError>,
) -> bool {
    match find_table(cat, name) {
        None => r matches Err(e) && e@ == (SpecDbError::TableNotFound { table: name }) && cat2 == cat
            && pages2 == pages,
        Some(i) => {
            let t = cat[i];
            match check_row(t.name, t.columns, row) {
                Some(err) => r matches Err(e) && e@ == err && cat2 == cat && pages2 == pages,
                None => if !encodable_row(row) {
                    r matches Err(e) && e is Encoding && cat2 == cat && pages2 == pages
                } else if t.row_count == u64::MAX {
                    r matches Err(e) && e is Corrupt && cat2 == cat && pages2 == pages
                } else {
                    exists|mid: Seq<Seq<u8>>, ar: Result<(RecordId, Option<PageId>), DbError>|
                        #[trigger] append_done(pages, mid, t.first_page, row_bytes(row), ar) && match ar {
                            Err(e) => r == Err::<RecordId, DbError>(e) && cat2 == cat && pages2 == mid,
                            Ok((rid, f)) => {
                                let cat3 = cat.update(
                                    i,
                                    SpecTable { first_page: f, row_count: (t.row_count + 1) as u64, ..t },
                                );
                                &&& cat2 == cat3
                                &&& match catalog_page(cat3) {
                                    Ok(p) => r == Ok::<RecordId, DbError>(rid) && page_replaced(mid, pages2, 1, p),
                                    Err(s) => r matches Err(e) && same_error(e@, s) && pages2 == mid,
                                }
                            },
                        }
                },
            }
        },
    }
}


/// The error of the first of `rows`, from `start` on, that does not fit table `t`.
pub open spec fn first_row_error(t: SpecTable, rows: Seq<Seq<SpecValue>>, start: int) -> Option<SpecDbError>
    decreases rows.len() - start,
{
    if start < 0 || start >= rows.len() {
        None
    } else {
        match check_row(t.name, t.columns, rows[start]) {
            Some(e) => Some(e),
            None => first_row_error(t, rows, start + 1),
        }
    }
}

/// The outcome of replacing the rows of the table called `name` by `rows`:
/// every row is checked first, then the rows are written to a new chain and
/// the catalog rewritten with that chain and the new row count.
#[verifier::opaque]
pub open spec fn replaced(
    cat: Seq<SpecTable>,
    pages: Seq<Seq<u8>>,
    name: Seq<char>,
    rows: Seq<Seq<SpecValue>>,
    cat2: Seq<SpecTable>,
    pages2: Seq<Seq<u8>>,
    r: Result<(), DbError>,
) -> bool {
    match find_table(cat, name) {
        None => r matches Err(e) && e@ == (SpecDbError::TableNotFound { table: name }) && cat2 == cat
            && pages2 == pages,
        Some(i) => {
            let t = cat[i];
            match first_row_error(t, rows, 0) {
                Some(err) => r matches Err(e) && e@ == err && cat2 == cat && pages2 == pages,
                None => {
                    ||| (r matches Err(e) && rows_failed(pages, pages2, rows, e) && cat2 == cat)
                    ||| exists|mid: Seq<Seq<u8>>, first: Option<PageId>|
                        #[trigger] rows_appended(pages, mid, None, rows, first) && {
                            let cat3 = cat.update(
                                i,
                                SpecTable { first_page: first, row_count: rows.len() as u64, ..t },
                            );
                            &&& cat2 == cat3
                            &&& match catalog_page(cat3) {
                                Ok(p) => r is Ok && page_replaced(mid, pages2, 1, p),
                                Err(s) => r matches Err(e) && same_error(e@, s) && pages2 == mid,
                            }
                        }
                },
            }
        },
    }
}

/// The rows of `all` whose entry in `keep` is true, in order.
pub open spec fn kept<T>(all: Seq<T>, keep: Seq<bool>) -> Seq<T>
    decreases all.len(),
{
    if all.len() == 0 || keep.len() == 0 {
        Seq::empty()
    } else if keep.last() {
        kept(all.drop_last(), keep.drop_last()).push(all.last())
    } else {
        kept(all.drop_last(), keep.drop_last())
    }
}

/// Every entry flipped.
pub open spec fn negated(keep: Seq<bool>) -> Seq<bool> {
    keep.map_values(|b: bool| !b)
}

/// The number of true entries.
pub open spec fn count_true(keep: Seq<bool>) -> nat
    decreases keep.len(),
{
    if keep.len() == 0 {
        0
    } else {
        count_true(keep.drop_last()) + if keep.last() {
            1nat
        } else {
            0nat
        }
    }
}

/// The rows, with column `c` set to `v` in those whose entry in `keep` is true.
pub open spec fn set_where(rows: Seq<Seq<SpecValue>>, keep: Seq<bool>, c: int, v: SpecValue) -> Seq<
    Seq<SpecValue>,
> {
    Seq::new(rows.len(), |k: int| if keep[k] { rows[k].update(c, v) } else { rows[k] })
}

/// What a predicate said of each row: `keep[k]` is one of its answers for `all[k]`.
pub open spec fn answers<F: Fn(&Row) -> bool>(predicate: F, all: Seq<Row>, keep: Seq<bool>) -> bool {
    &&& keep.len() == all.len()
    &&& forall|k: int| 0 <= k < all.len() ==> #[trigger] predicate.ensures((&all[k],), keep[k])
}


/// The catalog entry whose stored form is `bytes`.
pub open spec fn decoded_table(bytes: Seq<u8>) -> SpecTable {
    choose|t: SpecTable| super::codec::canonical_table(t) && #[trigger] table_bytes(t) == bytes
}

/// The catalog read from the records of a catalog page: every record must
/// be a catalog entry and no name may repeat; each table takes its sorted
/// position.
pub open spec fn opened_catalog(records: Seq<Seq<u8>>) -> Option<Seq<SpecTable>>
    decreases records.len(),
{
    if records.len() == 0 {
        Some(Seq::empty())
    } else {
        match opened_catalog(records.drop_last()) {
            None => None,
            Some(cat) => if !super::codec::is_table_encoding(records.last()) {
                None
            } else {
                let t = decoded_table(records.last());
                if find_table(cat, t.name) is Some {
                    None
                } else {
                    Some(cat.insert(insert_point(cat, t.name), t))
                }
            },
        }
    }
}

/// Whether the pages of a file image hold a readable catalog page.
pub open spec fn catalog_readable(pages: Seq<Seq<u8>>) -> bool {
    &&& pages.len() >= 2
    &&& page_wf(pages[1])
    &&& pages[1][4] == spec_kind_byte(PageKind::Catalog)
    &&& opened_catalog(page_records(pages[1])) is Some
}


/// The outcome of creating a table called `name` with columns `cols`: the
/// name must be new; the table takes its sorted place and the catalog is
/// rewritten, or everything stays as it was when that fails.
pub open spec fn created(
    cat: Seq<SpecTable>,
    pages: Seq<Seq<u8>>,
    name: Seq<char>,
    cols: Seq<SpecColumn>,
    cat2: Seq<SpecTable>,
    pages2: Seq<Seq<u8>>,
    r: Result<(), DbError>,
) -> bool {
    match find_table(cat, name) {
        Some(_) => r matches Err(e) && e@ == (SpecDbError::TableAlreadyExists { table: name })
            && cat2 == cat && pages2 == pages,
        None => {
            let cat3 = cat.insert(
                insert_point(cat, name),
                SpecTable { name, columns: cols, first_page: None, row_count: 0 },
            );
            match catalog_page(cat3) {
                Ok(p) => r is Ok && cat2 == cat3 && page_replaced(pages, pages2, 1, p),
                Err(s) => r matches Err(e) && same_error(e@, s) && cat2 == cat && pages2 == pages,
            }
        },
    }
}

/// Page 1 of `pages` is the catalog page of `cat`.
pub open spec fn catalog_page_holds(cat: Seq<SpecTable>, pages: Seq<Seq<u8>>) -> bool {
    &&& page_wf(pages[1])
    &&& catalog_page(cat) == Ok::<SpecPage, SpecDbError>(page_view(pages[1]))
}

/// A set of tables stored in pages: a catalog of uniquely named tables on
/// page 1 and one chain of data pages per table.
pub struct Database {
    tables: Vec<Table>,
    pager: Pager,
}

impl Default for Database {
    /// A new, empty database.
    fn default() -> (r: Self)
        ensures
            r.wf(),
            r.catalog_stored(),
            r.catalog() == Seq::<SpecTable>::empty(),
            r.pages().len() == 2,
    {
        Database::new()
    }
}

impl Database {
    /// The pages are sound, the catalog page is no data page, and no two
    /// tables share a name.
    pub closed spec fn wf(&self) -> bool {
        &&& self.pager.wf()
        &&& !is_data_page(self.pager.pages(), 1)
        &&& names_unique(tables_view(self.tables@))
        &&& catalog_sound(tables_view(self.tables@))
    }

    /// The catalog page holds the catalog as it is in memory.
    pub open spec fn catalog_stored(&self) -> bool {
        catalog_page_holds(self.catalog(), self.pages())
    }

    /// The image of a sound database is a file that opening accepts, and it
    /// splits into the same pages.
    pub proof fn lemma_image(&self)
        requires
            self.wf(),
        ensures
            image_ok(join_pages(self.pages())),
            split_pages(join_pages(self.pages())) == self.pages(),
    {
        self.pager.lemma_image();
    }

    /// In a sound database the header and the catalog page are no data
    /// pages, so no table's chain runs through them.
    pub proof fn lemma_wf_pages(&self)
        requires
            self.wf(),
        ensures
            self.pages().len() >= 2,
            !is_data_page(self.pages(), 0),
            !is_data_page(self.pages(), 1),
            names_unique(self.catalog()),
            catalog_sound(self.catalog()),
    {
        self.pager.lemma_wf();
    }

    /// The tables, in catalog order.
    pub closed spec fn catalog(&self) -> Seq<SpecTable> {
        tables_view(self.tables@)
    }

    /// The contents of the pages.
    pub closed spec fn pages(&self) -> Seq<Seq<u8>> {
        self.pager.pages()
    }

    /// A new database with no tables, held in memory.
    pub fn new() -> (r: Self)
        ensures
            r.wf(),
            r.catalog_stored(),
            r.catalog() == Seq::<SpecTable>::empty(),
            r.pages().len() == 2,
    {
        let r = Database { tables: Vec::new(), pager: Pager::create() };
        assert(r.catalog() =~= Seq::<SpecTable>::empty());
        proof {
            lemma_catalog_page_empty(r.catalog());
            assert(r.catalog().take(0) =~= r.catalog());
        }
        r
    }

    /// The number of tables.
    pub fn table_count(&self) -> (r: usize)
        ensures
            r == self.catalog().len(),
    {
        self.tables.len()
    }

    /// The position of the table called `name`.
    fn position(&self, name: &str) -> (r: Option<usize>)
        ensures
            match r {
                Some(i) => i < self.catalog().len() && find_table(self.catalog(), name@) == Some(
                    i as int,
                ),
                None => find_table(self.catalog(), name@) is None,
            },
    {
        let ghost cat = self.catalog();
        let mut i: usize = 0;
        while i < self.tables.len()
            invariant
                i <= cat.len(),
                cat == self.catalog(),
                find_table(cat, name@) == find_table_from(cat, name@, i as int),
            decreases cat.len() - i,
        {
            if crate::text::str_eq(self.tables[i].name(), name) {
                return Some(i);
            }
            i += 1;
        }
        None
    }

    /// The table called `name`.
    pub fn table(&self, name: &str) -> (r: Result<&Table, DbError>)
        ensures
            match find_table(self.catalog(), name@) {
                Some(i) => r matches Ok(t) && t@ == self.catalog()[i],
                None => r matches Err(e) && e@ == SpecDbError::TableNotFound { table: name@ },
            },
    {
        match self.position(name) {
            Some(i) => Ok(&self.tables[i]),
            None => Err(DbError::TableNotFound { table: name.to_owned() }),
        }
    }

    /// Every row of the table called `table_name`, read from its page chain
    /// and checked against its schema.
    pub fn select_all(&self, table_name: &str) -> (r: Result<Vec<Row>, DbError>)
        requires
            self.wf(),
        ensures
            match spec_select_all(self.catalog(), self.pages(), table_name@) {
                Ok(rows) => r matches Ok(v) && rows_view(v@) == rows,
                Err(s) => r matches Err(e) && same_error(e@, s),
            },
            find_table(self.catalog(), table_name@) matches Some(i) ==> {
                let t = self.catalog()[i];
                &&& match first_fault(self.pages(), t, t.first_page, Seq::empty()) {
                    Some(ReadFault::Cycle { page }) => r matches Err(e) && e@ == SpecDbError::Corrupt(
                        cycle_message(page),
                    ),
                    Some(ReadFault::Invalid { page, error }) => r matches Err(e) && e@
                        == SpecDbError::Corrupt(invalid_row_message(page, error)),
                    _ => true,
                }
                &&& match chain_from(self.pages(), t.first_page, Seq::empty()) {
                    Some(ids) => match rows_of(chain_records(self.pages(), ids), t) {
                        Some(rows) => rows.len() != t.row_count ==> (r matches Err(e) && e@
                            == SpecDbError::Corrupt(row_count_message(t.name, t.row_count as nat, rows.len()))),
                        None => true,
                    },
                    None => true,
                }
            },
    {
        let i = match self.position(table_name) {
            Some(i) => i,
            None => {
                return Err(DbError::TableNotFound { table: table_name.to_owned() });
            },
        };
        let table = &self.tables[i];
        let ghost t = table@;
        let ghost pages = self.pages();
        let mut rows: Vec<Row> = Vec::new();
        let mut next = table.first_page();
        let mut visited: Vec<u64> = Vec::new();
        assert(chain_records(pages, visited@) =~= Seq::<Seq<u8>>::empty());
        assert(rows_view(rows@) =~= Seq::<Seq<SpecValue>>::empty());
        assert(visited@ + Seq::<u64>::empty() =~= visited@);
        loop
            invariant
                self.wf(),
                pages == self.pages(),
                t == self.catalog()[i as int],
                t == table@,
                find_table(self.catalog(), table_name@) == Some(i as int),
                chain_from(pages, t.first_page, Seq::empty()) == match chain_from(
                    pages,
                    next,
                    visited@,
                ) {
                    Some(rest) => Some(visited@ + rest),
                    None => None,
                },
                visited@.no_duplicates(),
                forall|k: int| 0 <= k < visited@.len() ==> #[trigger] visited@[k] < pages.len(),
                visited@.len() <= pages.len(),
                rows_of(chain_records(pages, visited@), t) == Some(rows_view(rows@)),
                first_fault(pages, t, t.first_page, Seq::empty()) == first_fault(pages, t, next, visited@),
            ensures
                next is None,
                first_fault(pages, t, t.first_page, Seq::empty()) is None,
                chain_from(pages, t.first_page, Seq::empty()) == Some(visited@),
                rows_of(chain_records(pages, visited@), t) == Some(rows_view(rows@)),
                find_table(self.catalog(), table_name@) == Some(i as int),
                t == table@,
                t == self.catalog()[i as int],
                pages == self.pages(),
            decreases pages.len() - visited@.len(),
        {
            let page_id = match next {
                Some(id) => id,
                None => {
                    assert(visited@ + Seq::<u64>::empty() =~= visited@);
                    break;
                },
            };
            if contains_id(&visited, page_id.0) {
                assert(chain_from(pages, next, visited@) is None);
                assert(chain_from(pages, t.first_page, Seq::empty()) is None);
                let mut message = String::new();
                push_str(&mut message, "cycle in page chain at page ");
                push_decimal(&mut message, page_id.0);
                assert(message@ =~= cycle_message(page_id.0));
                return Err(DbError::Corrupt(message));
            }
            let page = match self.pager.read_page(page_id, PageKind::Data) {
                Ok(p) => p,
                Err(e) => {
                    assert(chain_from(pages, next, visited@) is None);
                    return Err(e);
                },
            };
            proof {
                lemma_room(visited@, pages.len(), page_id.0);
            }
            let ghost prefix = chain_records(pages, visited@);
            let ghost here = page_records(pages[page_id.0 as int]);
            let records = match page.records() {
                Ok(r) => r,
                Err(e) => {
                    return Err(e);
                },
            };
            assert(here =~= super::page::records_view(records@).map_values(|r: (u16, Seq<u8>)| r.1));
            let mut j: usize = 0;
            assert(prefix + here.take(0) =~= prefix);
            assert(here.skip(0) =~= here);
            while j < records.len()
                invariant
                    here.len() == records@.len(),
                    forall|k: int| 0 <= k < here.len() ==> #[trigger] here[k] == records@[k].1@,
                    j <= records@.len(),
                    t == table@,
                    pages == self.pages(),
                    t == self.catalog()[i as int],
                    find_table(self.catalog(), table_name@) == Some(i as int),
                    rows_of(prefix + here.take(j as int), t) == Some(rows_view(rows@)),
                    rows_of(prefix, t) is Some,
                    prefix == chain_records(pages, visited@),
                    here == page_records(pages[page_id.0 as int]),
                    chain_from(pages, t.first_page, Seq::empty()) == match chain_from(
                        pages,
                        next,
                        visited@,
                    ) {
                        Some(rest) => Some(visited@ + rest),
                        None => None,
                    },
                    next == Some(page_id),
                    !visited@.contains(page_id.0),
                    is_data_page(pages, page_id.0),
                    visited@.len() < pages.len(),
                    first_fault(pages, t, t.first_page, Seq::empty()) == match record_fault(
                        here.skip(j as int),
                        t,
                        page_id.0,
                    ) {
                        Some(f) => Some(f),
                        None => first_fault(
                            pages,
                            t,
                            page_view(pages[page_id.0 as int]).next,
                            visited@.push(page_id.0),
                        ),
                    },
                decreases records@.len() - j,
            {
                let bytes = records[j].1;
                let ghost whole = prefix + here.take(j as int);
                assert((prefix + here.take(j + 1)).drop_last() =~= whole);
                assert((prefix + here.take(j + 1)).last() == bytes@);
                assert(here.skip(j as int)[0] == bytes@);
                let row = match decode_row(bytes) {
                    Ok(row) => row,
                    Err(e) => {
                        proof {
                            assert(here.take(j + 1) + here.skip(j + 1) =~= here);
                            lemma_bad_records(pages, t, visited@, page_id.0, here.take(j + 1), here.skip(j + 1));
                        }
                        return Err(e);
                    },
                };
                proof {
                    let w = choose|vs: Seq<SpecValue>| encodable_row(vs) && #[trigger] row_bytes(vs) == bytes@;
                    assert(encodable_row(row@) && row_bytes(row@) == bytes@);
                    super::codec::lemma_row_bytes_injective(w, row@);
                    assert(decoded(bytes@) == row@);
                    assert(is_row_encoding(bytes@));
                }
                match table.schema().validate_row(table.name(), &row) {
                    Ok(()) => {},
                    Err(e) => {
                        proof {
                            assert(here.take(j + 1) + here.skip(j + 1) =~= here);
                            lemma_bad_records(pages, t, visited@, page_id.0, here.take(j + 1), here.skip(j + 1));
                        }
                        let mut message = String::new();
                        push_str(&mut message, "row on page ");
                        push_decimal(&mut message, page_id.0);
                        push_str(&mut message, " violates its schema: ");
                        push_str(&mut message, e.message().as_str());
                        assert(message@ =~= invalid_row_message(page_id.0, e@));
                        return Err(DbError::Corrupt(message));
                    },
                }
                let ghost before = rows_view(rows@);
                let ghost rv = row@;
                rows.push(row);
                assert(rows_view(rows@) =~= before.push(rv));
                assert(here.skip(j as int).drop_first() =~= here.skip(j + 1));
                j += 1;
            }
            assert(here.take(records@.len() as int) =~= here);
            proof {
                assert(visited@.push(page_id.0).drop_last() =~= visited@);
                assert(chain_records(pages, visited@.push(page_id.0)) == prefix + here);
                match chain_from(pages, page.view_page().next, visited@.push(page_id.0)) {
                    Some(rest) => {
                        assert(visited@ + (seq![page_id.0] + rest) =~= visited@.push(page_id.0) + rest);
                    },
                    None => {},
                }
            }
            visited.push(page_id.0);
            next = page.next_page();
        }
        proof {
            assert(visited@ + Seq::<u64>::empty() =~= visited@);
        }
        if rows.len() as u64 != table.stored_row_count() {
            let mut message = String::new();
            push_str(&mut message, "table '");
            push_str(&mut message, table.name());
            push_str(&mut message, "' catalog says ");
            push_decimal(&mut message, table.stored_row_count());
            push_str(&mut message, " rows, found ");
            push_decimal(&mut message, rows.len() as u64);
            assert(message@ =~= row_count_message(t.name, t.row_count as nat, rows_view(rows@).len()));
            return Err(DbError::Corrupt(message));
        }
        Ok(rows)
    }

    /// Rewrites the catalog page from the tables, in catalog order.
    #[verifier::rlimit(30)]
    fn write_catalog(&mut self) -> (r: Result<(), DbError>)
        requires
            old(self).wf(),
        ensures
            final(self).wf(),
            r is Ok ==> final(self).catalog_stored(),
            final(self).catalog() == old(self).catalog(),
            match catalog_page(old(self).catalog()) {
                Ok(p) => r is Ok && page_replaced(old(self).pages(), final(self).pages(), 1, p),
                Err(s) => r matches Err(e) && same_error(e@, s) && final(self).pages() == old(self).pages(),
            },
    {
        proof {
            self.pager.lemma_wf();
        }
        let ghost cat = self.catalog();
        let mut catalog = SlottedPage::new(PageKind::Catalog);
        let mut i: usize = 0;
        proof {
            lemma_catalog_page_empty(cat);
        }
        while i < self.tables.len()
            invariant
                cat == self.catalog(),
                cat == old(self).catalog(),
                self.wf(),
                self.pages() == old(self).pages(),
                i <= cat.len(),
                catalog.wf(),
                catalog_page(cat.take(i as int)) == Ok::<SpecPage, SpecDbError>(catalog.view_page()),
            decreases cat.len() - i,
        {
            let ghost before = catalog.view_page();
            proof {
                lemma_catalog_page_fail(cat, i as int, before);
            }
            let encoded = match encode_table(&self.tables[i]) {
                Ok(bytes) => bytes,
                Err(e) => {
                    proof {
                        lemma_catalog_page_prefix(cat, i + 1);
                    }
                    return Err(e);
                },
            };
            assert(encoded@ == table_bytes(cat[i as int]));
            match catalog.insert(encoded.as_slice()) {
                Ok(k) => {
                    proof {
                        lemma_catalog_page_step(cat, i as int, before, k as int, catalog.view_page().slots);
                        assert(catalog.view_page() == SpecPage { slots: catalog.view_page().slots, ..before });
                    }
                },
                Err(_) => {
                    proof {
                        lemma_catalog_page_prefix(cat, i + 1);
                    }
                    return Err(DbError::CatalogFull);
                },
            }
            i += 1;
        }
        assert(cat.take(cat.len() as int) =~= cat);
        match self.pager.write_page(PageId(1), &catalog) {
            Ok(()) => {},
            Err(e) => {
                return Err(e);
            },
        }
        proof {
            super::properties::lemma_catalog_page_kind(cat);
            assert(page_view(self.pages()[1]).kind == self.pages()[1][4]);
        }
        Ok(())
    }

    /// The position at which a table called `name` keeps the catalog sorted.
    fn insert_position(&self, name: &str) -> (r: usize)
        ensures
            r == insert_point(self.catalog(), name@),
            r <= self.catalog().len(),
    {
        let ghost cat = self.catalog();
        proof {
            lemma_insert_point_from(cat, name@, 0);
        }
        let mut i: usize = 0;
        while i < self.tables.len()
            invariant
                i <= cat.len(),
                cat == self.catalog(),
                insert_point(cat, name@) == insert_point_from(cat, name@, i as int),
            decreases cat.len() - i,
        {
            if crate::executor::text_less(name, self.tables[i].name()) {
                return i;
            }
            i += 1;
        }
        i
    }

    /// Adds an empty table called `name` and rewrites the catalog; when the
    /// catalog cannot be written the table is taken out again.
    pub fn create_table(&mut self, name: &str, schema: Schema) -> (r: Result<(), DbError>)
        requires
            old(self).wf(),
        ensures
            final(self).wf(),
            r is Ok ==> final(self).catalog_stored(),
            created(
                old(self).catalog(),
                old(self).pages(),
                name@,
                schema@,
                final(self).catalog(),
                final(self).pages(),
                r,
            ),
    {
        if self.position(name).is_some() {
            return Err(DbError::TableAlreadyExists { table: name.to_owned() });
        }
        let ghost cat0 = self.catalog();
        proof {
            lemma_find_table_from(cat0, name@, 0);
            use_type_invariant(&schema);
            Schema::lemma_distinct(schema);
        }
        let k = self.insert_position(name);
        let table = Table::new(name, schema);
        let ghost tv = table@;
        self.tables.insert(k, table);
        assert(self.catalog() =~= cat0.insert(k as int, tv));
        proof {
            super::properties::lemma_sorted_insert(cat0, tv);
            let c = self.catalog();
            assert forall|x: int| 0 <= x < c.len() implies names_distinct(#[trigger] c[x].columns) && c[x].first_page
                != Some(PageId(NO_PAGE)) by {
                if x != k {
                    let xx = if x < k { x } else { x - 1 };
                    assert(c[x] == cat0[xx]);
                }
            }
        }
        assert(names_unique(self.catalog())) by {
            let c = self.catalog();
            assert forall|a: int, b: int|
                0 <= a < c.len() && 0 <= b < c.len() && a != b implies #[trigger] c[a].name
                != #[trigger] c[b].name by {
                if a == k && b != k {
                    let bb = if b < k { b } else { b - 1 };
                    assert(c[b] == cat0[bb]);
                } else if b == k && a != k {
                    let aa = if a < k { a } else { a - 1 };
                    assert(c[a] == cat0[aa]);
                } else if a != k && b != k {
                    let aa = if a < k { a } else { a - 1 };
                    let bb = if b < k { b } else { b - 1 };
                    assert(c[a] == cat0[aa]);
                    assert(c[b] == cat0[bb]);
                }
            }
        }
        match self.write_catalog() {
            Ok(()) => Ok(()),
            Err(e) => {
                let ghost c1 = self.catalog();
                assert(c1 == cat0.insert(k as int, tv));
                self.tables.remove(k);
                assert(self.catalog() =~= c1.remove(k as int));
                assert(c1.remove(k as int) =~= cat0);
                Err(e)
            },
        }
    }

    /// Removes the table called `name` and rewrites the catalog; when the
    /// catalog cannot be written the table is put back. Its data pages stay
    /// in the file, unreachable.
    pub fn drop_table(&mut self, name: &str) -> (r: Result<Table, DbError>)
        requires
            old(self).wf(),
        ensures
            final(self).wf(),
            r is Ok ==> final(self).catalog_stored(),
            match find_table(old(self).catalog(), name@) {
                None => r matches Err(e) && e@ == (SpecDbError::TableNotFound { table: name@ })
                    && final(self).catalog() == old(self).catalog() && final(self).pages() == old(self).pages(),
                Some(i) => {
                    let cat = old(self).catalog().remove(i);
                    match catalog_page(cat) {
                        Ok(p) => r matches Ok(t) && t@ == old(self).catalog()[i] && final(self).catalog()
                            == cat && page_replaced(old(self).pages(), final(self).pages(), 1, p),
                        Err(s) => r matches Err(e) && same_error(e@, s) && final(self).catalog()
                            == old(self).catalog() && final(self).pages() == old(self).pages(),
                    }
                },
            },
    {
        let i = match self.position(name) {
            Some(i) => i,
            None => {
                return Err(DbError::TableNotFound { table: name.to_owned() });
            },
        };
        let ghost cat0 = self.catalog();
        let table = self.tables.remove(i);
        assert(self.catalog() =~= cat0.remove(i as int));
        assert(names_unique(self.catalog())) by {
            let c = self.catalog();
            assert forall|a: int, b: int|
                0 <= a < c.len() && 0 <= b < c.len() && a != b implies #[trigger] c[a].name
                != #[trigger] c[b].name by {
                let aa = if a < i { a } else { a + 1 };
                let bb = if b < i { b } else { b + 1 };
                assert(c[a] == cat0[aa]);
                assert(c[b] == cat0[bb]);
            }
        }
        match self.write_catalog() {
            Ok(()) => Ok(table),
            Err(e) => {
                let ghost c1 = self.catalog();
                let ghost tv = table@;
                self.tables.insert(i, table);
                assert(self.catalog() =~= c1.insert(i as int, tv));
                assert(c1.insert(i as int, tv) =~= cat0);
                Err(e)
            },
        }
    }

    /// Stores a row of `values` in the table called `table_name`.
    pub fn insert(&mut self, table_name: &str, values: Vec<Value>) -> (r: Result<RecordId, DbError>)
        requires
            old(self).wf(),
        ensures
            final(self).wf(),
            r is Ok ==> final(self).catalog_stored(),
            inserted(
                old(self).catalog(),
                old(self).pages(),
                table_name@,
                values_view(values@),
                final(self).catalog(),
                final(self).pages(),
                r,
            ),
    {
        self.insert_row(table_name, Row::new(values))
    }

    /// Stores `row` in the table called `table_name`: checks it against the
    /// schema, appends its stored form to the table's chain, and rewrites the
    /// catalog with the new first page and row count.
    pub(crate) fn insert_row(&mut self, table_name: &str, row: Row) -> (r: Result<RecordId, DbError>)
        requires
            old(self).wf(),
        ensures
            final(self).wf(),
            r is Ok ==> final(self).catalog_stored(),
            inserted(
                old(self).catalog(),
                old(self).pages(),
                table_name@,
                row@,
                final(self).catalog(),
                final(self).pages(),
                r,
            ),
    {
        proof {
            reveal(inserted);
        }
        let i = match self.position(table_name) {
            Some(i) => i,
            None => {
                return Err(DbError::TableNotFound { table: table_name.to_owned() });
            },
        };
        let ghost cat = self.catalog();
        let ghost pages = self.pages();
        proof {
            self.lemma_wf_pages();
        }
        let ghost t = cat[i as int];
        assert(self.tables@[i as int]@ == t);
        match self.tables[i].schema().validate_row(self.tables[i].name(), &row) {
            Ok(()) => {},
            Err(e) => {
                return Err(e);
            },
        }
        let encoded = match encode_row(&row) {
            Ok(b) => b,
            Err(e) => {
                return Err(e);
            },
        };
        let count = self.tables[i].stored_row_count();
        if count == u64::MAX {
            return Err(corrupt("the table's row count is at its limit"));
        }
        let first_page = self.tables[i].first_page();
        let appended = append_record(&mut self.pager, first_page, encoded.as_slice());
        let ghost mid = self.pages();
        proof {
            super::properties::lemma_append_keeps_catalog_page(pages, mid, t.first_page, row_bytes(row@), appended);
            assert(!is_data_page(mid, 1));
        }
        let (record_id, new_first) = match appended {
            Ok(a) => a,
            Err(e) => {
                assert(append_done(pages, mid, t.first_page, row_bytes(row@), Err::<(RecordId, Option<PageId>), DbError>(e)));
                return Err(e);
            },
        };
        assert(append_done(pages, mid, t.first_page, row_bytes(row@), Ok::<(RecordId, Option<PageId>), DbError>((record_id, new_first))));
        self.tables[i].set_storage(new_first, count + 1);
        assert(self.catalog() =~= cat.update(
            i as int,
            SpecTable { first_page: new_first, row_count: (t.row_count + 1) as u64, ..t },
        ));
        assert(names_unique(self.catalog())) by {
            let c = self.catalog();
            assert forall|a: int, b: int|
                0 <= a < c.len() && 0 <= b < c.len() && a != b implies #[trigger] c[a].name
                != #[trigger] c[b].name by {
                assert(c[a].name == cat[a].name);
                assert(c[b].name == cat[b].name);
            }
        }
        match self.write_catalog() {
            Ok(()) => Ok(record_id),
            Err(e) => Err(e),
        }
    }

    /// Replaces the rows of the table called `table_name` by `rows`, written
    /// to a new chain of pages. The old pages stay in the file, unreachable.
    pub(crate) fn replace_rows(&mut self, table_name: &str, rows: Vec<Row>) -> (r: Result<(), DbError>)
        requires
            old(self).wf(),
        ensures
            final(self).wf(),
            r is Ok ==> final(self).catalog_stored(),
            replaced(
                old(self).catalog(),
                old(self).pages(),
                table_name@,
                rows_view(rows@),
                final(self).catalog(),
                final(self).pages(),
                r,
            ),
    {
        proof {
            reveal(replaced);
        }
        let i = match self.position(table_name) {
            Some(i) => i,
            None => {
                return Err(DbError::TableNotFound { table: table_name.to_owned() });
            },
        };
        let ghost cat = self.catalog();
        let ghost pages = self.pages();
        proof {
            self.lemma_wf_pages();
        }
        let ghost t = cat[i as int];
        let ghost all = rows_view(rows@);
        assert(self.tables@[i as int]@ == t);
        let mut k: usize = 0;
        while k < rows.len()
            invariant
                k <= rows@.len(),
                all == rows_view(rows@),
                t == self.tables@[i as int]@,
                i < self.tables@.len(),
                first_row_error(t, all, 0) == first_row_error(t, all, k as int),
                self.wf(),
                cat == self.catalog(),
                cat == old(self).catalog(),
                pages == self.pages(),
                pages == old(self).pages(),
                t == cat[i as int],
                find_table(cat, table_name@) == Some(i as int),
            decreases rows@.len() - k,
        {
            assert(all[k as int] == rows@[k as int]@);
            match self.tables[i].schema().validate_row(self.tables[i].name(), &rows[k]) {
                Ok(()) => {},
                Err(e) => {
                    proof {
                        reveal(replaced);
                    }
                    return Err(e);
                },
            }
            k += 1;
        }
        let written = write_row_chain(&mut self.pager, rows.as_slice());
        let ghost mid = self.pages();
        let (first, count) = match written {
            Ok(w) => w,
            Err(e) => {
                proof {
                    super::properties::lemma_rows_failed_keep_catalog_page(pages, mid, all, e);
                    assert(!is_data_page(mid, 1));
                }
                return Err(e);
            },
        };
        proof {
            super::properties::lemma_rows_appended_keep_catalog_page(pages, mid, None, all, first);
            super::properties::lemma_rows_appended_first_page(pages, mid, all, first);
            assert(!is_data_page(mid, 1));
        }
        assert(rows_appended(pages, mid, None, all, first));
        self.tables[i].set_storage(first, count);
        assert(self.catalog() =~= cat.update(
            i as int,
            SpecTable { first_page: first, row_count: all.len() as u64, ..t },
        ));
        proof {
            super::properties::lemma_sorted_update(cat, i as int, self.catalog()[i as int]);
            let c = self.catalog();
            assert forall|x: int| 0 <= x < c.len() implies names_distinct(#[trigger] c[x].columns) && c[x].first_page
                != Some(PageId(NO_PAGE)) by {
                if x != i {
                    assert(c[x] == cat[x]);
                }
            }
        }
        assert(names_unique(self.catalog())) by {
            let c = self.catalog();
            assert forall|a: int, b: int|
                0 <= a < c.len() && 0 <= b < c.len() && a != b implies #[trigger] c[a].name
                != #[trigger] c[b].name by {
                assert(c[a].name == cat[a].name);
                assert(c[b].name == cat[b].name);
            }
        }
        self.write_catalog()
    }

    /// Asks `predicate` about each row of `rows`, in order.
    fn ask<F: Fn(&Row) -> bool>(predicate: &F, rows: &Vec<Row>) -> (keep: Vec<bool>)
        requires
            forall|row: &Row| #[trigger] predicate.requires((row,)),
        ensures
            answers(*predicate, rows@, keep@),
    {
        let mut keep: Vec<bool> = Vec::new();
        let mut k: usize = 0;
        while k < rows.len()
            invariant
                k <= rows@.len(),
                keep@.len() == k,
                forall|row: &Row| #[trigger] predicate.requires((row,)),
                forall|j: int| 0 <= j < k ==> #[trigger] predicate.ensures((&rows@[j],), keep@[j]),
            decreases rows@.len() - k,
        {
            let b = predicate(&rows[k]);
            keep.push(b);
            k += 1;
        }
        keep
    }

    /// The rows of the table called `table_name` for which `predicate` holds.
    pub fn select_where<F: Fn(&Row) -> bool>(&self, table_name: &str, predicate: F) -> (r: Result<
        Vec<Row>,
        DbError,
    >)
        requires
            self.wf(),
            forall|row: &Row| #[trigger] predicate.requires((row,)),
        ensures
            match spec_select_all(self.catalog(), self.pages(), table_name@) {
                Err(s) => r matches Err(e) && same_error(e@, s),
                Ok(rows) => r matches Ok(v) && exists|all: Seq<Row>, keep: Seq<bool>|
                    rows_view(all) == rows && #[trigger] answers(predicate, all, keep) && rows_view(v@)
                        == rows_view(kept(all, keep)),
            },
    {
        let all = match self.select_all(table_name) {
            Ok(rows) => rows,
            Err(e) => {
                return Err(e);
            },
        };
        let keep = Self::ask(&predicate, &all);
        let mut out: Vec<Row> = Vec::new();
        let mut k: usize = 0;
        assert(kept(all@.take(0), keep@.take(0)) =~= Seq::<Row>::empty());
        while k < all.len()
            invariant
                k <= all@.len(),
                keep@.len() == all@.len(),
                rows_view(out@) == rows_view(kept(all@.take(k as int), keep@.take(k as int))),
            decreases all@.len() - k,
        {
            assert(all@.take(k + 1).drop_last() =~= all@.take(k as int));
            assert(keep@.take(k + 1).drop_last() =~= keep@.take(k as int));
            if keep[k] {
                let ghost before = rows_view(out@);
                let row = all[k].clone();
                out.push(row);
                assert(rows_view(out@) =~= before.push(all@[k as int]@));
                assert(rows_view(kept(all@.take(k + 1), keep@.take(k + 1))) =~= rows_view(
                    kept(all@.take(k as int), keep@.take(k as int)),
                ).push(all@[k as int]@));
            }
            k += 1;
        }
        assert(all@.take(all@.len() as int) =~= all@);
        assert(keep@.take(all@.len() as int) =~= keep@);
        Ok(out)
    }

    /// Sets column `column_name` to `new_value` in every row of the table
    /// called `table_name` for which `predicate` holds, and returns how many
    /// rows changed. The predicate sees each row as it was before the change.
    pub fn update_where<F: Fn(&Row) -> bool>(
        &mut self,
        table_name: &str,
        predicate: F,
        column_name: &str,
        new_value: Value,
    ) -> (r: Result<usize, DbError>)
        requires
            old(self).wf(),
            forall|row: &Row| #[trigger] predicate.requires((row,)),
        ensures
            final(self).wf(),
            old(self).catalog_stored() && r is Ok ==> final(self).catalog_stored(),
            match find_table(old(self).catalog(), table_name@) {
                None => r matches Err(e) && e@ == (SpecDbError::TableNotFound { table: table_name@ })
                    && final(self).catalog() == old(self).catalog() && final(self).pages()
                    == old(self).pages(),
                Some(i) => match find_column(old(self).catalog()[i].columns, column_name@) {
                    None => r matches Err(e) && e@ == (SpecDbError::ColumnNotFound {
                        table: table_name@,
                        column: column_name@,
                    }) && final(self).catalog() == old(self).catalog() && final(self).pages()
                        == old(self).pages(),
                    Some(c) => match check_value(
                        table_name@,
                        old(self).catalog()[i].columns[c],
                        new_value@,
                    ) {
                        Some(err) => r matches Err(e) && e@ == err && final(self).catalog()
                            == old(self).catalog() && final(self).pages() == old(self).pages(),
                        None => match spec_select_all(old(self).catalog(), old(self).pages(), table_name@) {
                            Err(s) => r matches Err(e) && same_error(e@, s) && final(self).catalog()
                                == old(self).catalog() && final(self).pages() == old(self).pages(),
                            Ok(rows) => exists|all: Seq<Row>, keep: Seq<bool>|
                                rows_view(all) == rows && #[trigger] answers(predicate, all, keep) && if count_true(keep) == 0 {
                                    r == Ok::<usize, DbError>(0) && final(self).catalog() == old(self).catalog()
                                        && final(self).pages() == old(self).pages()
                                } else {
                                    exists|rr: Result<(), DbError>|
                                        #[trigger] replaced(
                                            old(self).catalog(),
                                            old(self).pages(),
                                            table_name@,
                                            set_where(rows, keep, c, new_value@),
                                            final(self).catalog(),
                                            final(self).pages(),
                                            rr,
                                        ) && match rr {
                                            Ok(_) => r matches Ok(n) && n == count_true(keep),
                                            Err(e) => r == Err::<usize, DbError>(e),
                                        }
                                },
                        },
                    },
                },
            },
    {
        let i = match self.position(table_name) {
            Some(i) => i,
            None => {
                return Err(DbError::TableNotFound { table: table_name.to_owned() });
            },
        };
        let index = match self.tables[i].schema().column_index(column_name) {
            Some(index) => index,
            None => {
                return Err(
                    DbError::ColumnNotFound {
                        table: table_name.to_owned(),
                        column: column_name.to_owned(),
                    },
                );
            },
        };
        let ghost cs = self.catalog()[i as int].columns;
        assert(self.tables@[i as int]@.columns == cs);
        proof {
            super::schema::lemma_find_column_from(cs, column_name@, 0);
        }
        let columns = self.tables[i].schema().columns();
        assert(columns@[index as int]@ == cs[index as int]);
        match self.tables[i].schema().validate_value(table_name, &columns[index], &new_value) {
            Ok(()) => {},
            Err(e) => {
                return Err(e);
            },
        }
        let mut rows = match self.select_all(table_name) {
            Ok(rows) => rows,
            Err(e) => {
                return Err(e);
            },
        };
        let ghost all = rows@;
        let ghost stored = rows_view(rows@);
        proof {
            lemma_stored_rows_fit(self.pages(), self.catalog()[i as int]);
            super::schema::lemma_find_column_from(cs, column_name@, 0);
            assert forall|j: int| 0 <= j < all.len() implies #[trigger] all[j]@.len() == cs.len() by {
                assert(stored[j] == all[j]@);
                assert(check_row(self.catalog()[i as int].name, cs, stored[j]) is None);
            }
        }
        let keep = Self::ask(&predicate, &rows);
        let mut count: usize = 0;
        let mut k: usize = 0;
        while k < rows.len()
            invariant
                k <= rows@.len(),
                rows@.len() == all.len(),
                keep@.len() == all.len(),
                stored == rows_view(all),
                count == count_true(keep@.take(k as int)),
                count <= k,
                forall|j: int| 0 <= j < k ==> #[trigger] rows@[j]@ == set_where(stored, keep@, index as int, new_value@)[j],
                forall|j: int| k <= j < rows@.len() ==> #[trigger] rows@[j] == all[j],
                forall|j: int| 0 <= j < all.len() ==> #[trigger] all[j]@.len() == cs.len(),
                index < cs.len(),
            decreases rows@.len() - k,
        {
            assert(keep@.take(k + 1).drop_last() =~= keep@.take(k as int));
            if keep[k] {
                let ghost old_row = rows@[k as int]@;
                let v = new_value.clone();
                let ghost before = rows@;
                let mut row = rows.remove(k);
                let fits = row.set(index, v);
                rows.insert(k, row);
                assert forall|j: int| 0 <= j < rows@.len() && j != k implies #[trigger] rows@[j] == before[j] by {}
                count += 1;
            }
            k += 1;
        }
        assert(keep@.take(rows@.len() as int) =~= keep@);
        assert(rows_view(rows@) =~= set_where(stored, keep@, index as int, new_value@));
        let ghost new_rows = rows_view(rows@);
        let ghost cat0 = self.catalog();
        let ghost pages0 = self.pages();
        if count != 0 {
            let rr = self.replace_rows(table_name, rows);
            assert(replaced(cat0, pages0, table_name@, new_rows, self.catalog(), self.pages(), rr));
            match rr {
                Ok(()) => {},
                Err(e) => {
                    assert(replaced(cat0, pages0, table_name@, new_rows, self.catalog(), self.pages(), Err::<(), DbError>(e)));
                    assert(answers(predicate, all, keep@));
                    return Err(e);
                },
            }
        }
        assert(answers(predicate, all, keep@));
        Ok(count)
    }

    /// Removes every row of the table called `table_name` for which
    /// `predicate` holds, and returns how many were removed.
    pub fn delete_where<F: Fn(&Row) -> bool>(&mut self, table_name: &str, predicate: F) -> (r: Result<
        usize,
        DbError,
    >)
        requires
            old(self).wf(),
            forall|row: &Row| #[trigger] predicate.requires((row,)),
        ensures
            final(self).wf(),
            old(self).catalog_stored() && r is Ok ==> final(self).catalog_stored(),
            match spec_select_all(old(self).catalog(), old(self).pages(), table_name@) {
                Err(s) => r matches Err(e) && same_error(e@, s) && final(self).catalog()
                    == old(self).catalog() && final(self).pages() == old(self).pages(),
                Ok(rows) => exists|all: Seq<Row>, keep: Seq<bool>|
                    rows_view(all) == rows && #[trigger] answers(predicate, all, keep) && if count_true(keep) == 0 {
                        r == Ok::<usize, DbError>(0) && final(self).catalog() == old(self).catalog()
                            && final(self).pages() == old(self).pages()
                    } else {
                        exists|rr: Result<(), DbError>|
                            #[trigger] replaced(
                                old(self).catalog(),
                                old(self).pages(),
                                table_name@,
                                rows_view(kept(all, negated(keep))),
                                final(self).catalog(),
                                final(self).pages(),
                                rr,
                            ) && match rr {
                                Ok(_) => r matches Ok(n) && n == count_true(keep),
                                Err(e) => r == Err::<usize, DbError>(e),
                            }
                    },
            },
    {
        let rows = match self.select_all(table_name) {
            Ok(rows) => rows,
            Err(e) => {
                return Err(e);
            },
        };
        let keep = Self::ask(&predicate, &rows);
        let ghost drop = negated(keep@);
        let mut remaining: Vec<Row> = Vec::new();
        let mut deleted: usize = 0;
        let mut k: usize = 0;
        assert(kept(rows@.take(0), drop.take(0)) =~= Seq::<Row>::empty());
        while k < rows.len()
            invariant
                k <= rows@.len(),
                keep@.len() == rows@.len(),
                drop == negated(keep@),
                deleted == count_true(keep@.take(k as int)),
                deleted <= k,
                rows_view(remaining@) == rows_view(kept(rows@.take(k as int), drop.take(k as int))),
            decreases rows@.len() - k,
        {
            assert(rows@.take(k + 1).drop_last() =~= rows@.take(k as int));
            assert(drop.take(k + 1).drop_last() =~= drop.take(k as int));
            assert(keep@.take(k + 1).drop_last() =~= keep@.take(k as int));
            if keep[k] {
                deleted += 1;
            } else {
                let ghost before = rows_view(remaining@);
                remaining.push(rows[k].clone());
                assert(rows_view(remaining@) =~= before.push(rows@[k as int]@));
                assert(rows_view(kept(rows@.take(k + 1), drop.take(k + 1))) =~= rows_view(
                    kept(rows@.take(k as int), drop.take(k as int)),
                ).push(rows@[k as int]@));
            }
            k += 1;
        }
        assert(rows@.take(rows@.len() as int) =~= rows@);
        assert(drop.take(rows@.len() as int) =~= drop);
        assert(keep@.take(rows@.len() as int) =~= keep@);
        let ghost new_rows = rows_view(remaining@);
        let ghost cat0 = self.catalog();
        let ghost pages0 = self.pages();
        if deleted != 0 {
            let rr = self.replace_rows(table_name, remaining);
            assert(replaced(cat0, pages0, table_name@, new_rows, self.catalog(), self.pages(), rr));
            match rr {
                Ok(()) => {},
                Err(e) => {
                    assert(replaced(cat0, pages0, table_name@, new_rows, self.catalog(), self.pages(), Err::<(), DbError>(e)));
                    assert(answers(predicate, rows@, keep@));
                    return Err(e);
                },
            }
        }
        assert(answers(predicate, rows@, keep@));
        Ok(deleted)
    }

    /// Opens a database from the image of its file: the header is checked
    /// and the catalog read from page 1. Rows stay in their pages until they
    /// are read.
    pub fn open_image(bytes: &[u8]) -> (r: Result<Database, DbError>)
        ensures
            r is Ok <==> image_ok(bytes@) && catalog_readable(split_pages(bytes@)),
            r matches Ok(db) ==> db.wf() && db.pages() == split_pages(bytes@) && db.catalog()
                == opened_catalog(page_records(split_pages(bytes@)[1]))->0,
            r matches Err(e) ==> e is Corrupt || e is DuplicateColumn,
            !(bytes@.len() >= 2 * PAGE_SIZE && bytes@.len() % PAGE_SIZE as nat == 0) ==> (r matches Err(e)
                && e@ == SpecDbError::Corrupt("file len is not a whole number of pages"@)),
            bytes@.len() >= 2 * PAGE_SIZE && bytes@.len() % PAGE_SIZE as nat == 0 && bytes@.subrange(0, 8)
                != db_magic() ==> (r matches Err(e) && e@ == SpecDbError::Corrupt(
                "databse magic number does not match"@,
            )),
            image_ok(bytes@) && !(has_magic(split_pages(bytes@)[1]) && split_pages(bytes@)[1][4]
                == spec_kind_byte(PageKind::Catalog)) ==> (r matches Err(e) && e@ == SpecDbError::Corrupt(
                wrong_kind_message(PageKind::Catalog),
            )),
    {
        let pager = match Pager::from_image(bytes) {
            Ok(p) => p,
            Err(e) => {
                return Err(e);
            },
        };
        proof {
            pager.lemma_wf();
            assert(bytes@.subrange(0, PAGE_SIZE as int).subrange(0, 8) =~= bytes@.subrange(0, 8));
        }
        let ghost pages = pager.pages();
        let catalog = match pager.read_page(PageId(1), PageKind::Catalog) {
            Ok(p) => p,
            Err(e) => {
                return Err(e);
            },
        };
        let records = match catalog.records() {
            Ok(r) => r,
            Err(e) => {
                return Err(e);
            },
        };
        let ghost recs = page_records(pages[1]);
        assert(recs =~= super::page::records_view(records@).map_values(|r: (u16, Seq<u8>)| r.1));
        let mut db = Database { tables: Vec::new(), pager };
        assert(db.catalog() =~= Seq::<SpecTable>::empty());
        assert(recs.take(0) =~= Seq::<Seq<u8>>::empty());
        let mut k: usize = 0;
        while k < records.len()
            invariant
                k <= records@.len(),
                recs.len() == records@.len(),
                forall|j: int| 0 <= j < recs.len() ==> #[trigger] recs[j] == records@[j].1@,
                db.wf(),
                db.pages() == pages,
                pages == split_pages(bytes@),
                image_ok(bytes@),
                bytes@.subrange(0, 8) == db_magic(),
                page_wf(pages[1]),
                pages[1][4] == spec_kind_byte(PageKind::Catalog),
                recs == page_records(pages[1]),
                opened_catalog(recs.take(k as int)) == Some(db.catalog()),
            decreases records@.len() - k,
        {
            let ghost cat0 = db.catalog();
            proof {
                lemma_opened_catalog_step(recs, k as int, cat0);
            }
            let table = match decode_table(records[k].1) {
                Ok(t) => t,
                Err(e) => {
                    proof {
                        lemma_opened_catalog_prefix(recs, k + 1);
                    }
                    return Err(e);
                },
            };
            proof {
                let w = decoded_table(records@[k as int].1@);
                super::codec::lemma_table_bytes_injective(w, table@);
            }
            if db.position(table.name()).is_some() {
                proof {
                    lemma_opened_catalog_prefix(recs, k + 1);
                }
                let mut message = String::new();
                push_str(&mut message, "Duplicate catalog table '");
                push_str(&mut message, table.name());
                push_str(&mut message, "'");
                return Err(DbError::Corrupt(message));
            }
            let ghost tv = table@;
            proof {
                lemma_find_table_from(cat0, tv.name, 0);
            }
            let at = db.insert_position(table.name());
            db.tables.insert(at, table);
            assert(db.catalog() =~= cat0.insert(at as int, tv));
            proof {
                lemma_insert_unique(cat0, at as int, tv);
                super::properties::lemma_sorted_insert(cat0, tv);
                let c = db.catalog();
                assert forall|x: int| 0 <= x < c.len() implies names_distinct(#[trigger] c[x].columns)
                    && c[x].first_page != Some(PageId(NO_PAGE)) by {
                    if x != at {
                        let xx = if x < at { x } else { x - 1 };
                        assert(c[x] == cat0[xx]);
                    }
                }
            }
            k += 1;
        }
        assert(recs.take(records@.len() as int) =~= recs);
        Ok(db)
    }

    /// The image of the database file: every page, in order.
    pub fn image(&self) -> (r: Vec<u8>)
        requires
            self.wf(),
        ensures
            r@ == join_pages(self.pages()),
    {
        self.pager.image()
    }

    /// The table called `name`, for changing it in place.
    pub fn table_mut(&mut self, name: &str) -> (r: Result<&mut Table, DbError>)
        ensures
            match find_table(old(self).catalog(), name@) {
                Some(i) => r matches Ok(t) && t@ == old(self).catalog()[i] && final(self).catalog() == old(
                    self,
                ).catalog().update(i, final(t)@) && final(self).pages() == old(self).pages(),
                None => r matches Err(e) && e@ == SpecDbError::TableNotFound { table: name@ } && final(self).catalog()
                    == old(self).catalog() && final(self).pages() == old(self).pages(),
            },
    {
        match self.position(name) {
            Some(i) => Ok(&mut self.tables[i]),
            None => Err(DbError::TableNotFound { table: name.to_owned() }),
        }
    }
}

} // verus!
