use super::codec::{
    canonical_form, canonical_table, encodable_row, encodable_table, is_row_encoding, is_table_encoding,
    lemma_canonical_form, lemma_row_bytes_injective, lemma_table_roundtrip, row_bytes, table_bytes,
};
use super::schema::{check_value, first_value_error, names_distinct, SpecColumn};
use super::database::{
    Database,
    append_done, append_walk, chain_from, chain_records, decoded, empty_data_page, find_table, find_table_from,
    catalog_page, catalog_readable, created, decoded_table, first_row_error, replaced, insert_point, insert_point_from, opened_catalog, inserted, is_data_page, page_added, page_records, page_replaced, rows_appended, rows_failed, rows_of,
    single_record_page, spec_select_all, stored_rows, AppendPlan,
};
use super::error::{DbError, SpecDbError};
use super::page::{insert_result, lemma_first_deleted, page_view, page_wf, spec_kind_byte, stored, PageId, PageKind, RecordId, SpecPage, first_deleted_from};
use super::le::lemma_le_bytes_len;
use super::page::live_records;
use super::schema::check_row;
use super::table::SpecTable;
use crate::value::SpecValue;
use super::pager::{image_ok, join_pages, split_pages};
use crate::executor::{bytes_lt, text_lt};
use vstd::prelude::*;
use vstd::utf8::{encode_utf8, encode_utf8_decode_utf8};

verus! {

/// The records of a slot table, in slot order.
pub open spec fn slot_records(slots: Seq<Option<Seq<u8>>>) -> Seq<Seq<u8>> {
    live_records(slots).map_values(|r: (u16, Seq<u8>)| r.1)
}

/// The stored form of a row is a non-empty row encoding that decodes back
/// to the row.
pub proof fn lemma_decoded_row(row: Seq<SpecValue>)
    requires
        encodable_row(row),
    ensures
        is_row_encoding(row_bytes(row)),
        decoded(row_bytes(row)) == row,
        row_bytes(row).len() >= 2,
{
    assert(is_row_encoding(row_bytes(row)));
    let d = decoded(row_bytes(row));
    lemma_row_bytes_injective(d, row);
    lemma_le_bytes_len(row.len(), 2);
}

/// Adding one record at the end of the slot table adds it at the end of
/// the records.
proof fn lemma_slot_records_push(s: Seq<Option<Seq<u8>>>, rec: Seq<u8>)
    ensures
        slot_records(s.push(Some(rec))) == slot_records(s).push(rec),
{
    assert(s.push(Some(rec)).drop_last() =~= s);
    assert(slot_records(s.push(Some(rec))) =~= slot_records(s).push(rec));
}

/// Filling a deleted slot puts the record somewhere among the others.
proof fn lemma_slot_records_fill(s: Seq<Option<Seq<u8>>>, id: int, rec: Seq<u8>) -> (j: int)
    requires
        0 <= id < s.len(),
        s[id] is None,
    ensures
        0 <= j <= slot_records(s).len(),
        slot_records(s.update(id, Some(rec))) == slot_records(s).insert(j, rec),
    decreases s.len(),
{
    let u = s.update(id, Some(rec));
    if id == s.len() - 1 {
        assert(u.drop_last() =~= s.drop_last());
        assert(slot_records(s) =~= slot_records(s.drop_last()));
        assert(slot_records(u) =~= slot_records(s.drop_last()).push(rec));
        let j = slot_records(s).len() as int;
        assert(slot_records(s).insert(j, rec) =~= slot_records(s).push(rec));
        j
    } else {
        let j = lemma_slot_records_fill(s.drop_last(), id, rec);
        assert(u.drop_last() =~= s.drop_last().update(id, Some(rec)));
        assert(u.last() == s.last());
        let before = slot_records(s.drop_last());
        match s.last() {
            Some(r) => {
                assert(slot_records(s) =~= before.push(r));
                assert(slot_records(u) =~= before.insert(j, rec).push(r));
                assert(before.insert(j, rec).push(r) =~= before.push(r).insert(j, rec));
            },
            None => {
                assert(slot_records(s) =~= before);
                assert(slot_records(u) =~= before.insert(j, rec));
            },
        }
        j
    }
}

/// Every record becomes one row.
proof fn lemma_rows_of_len(recs: Seq<Seq<u8>>, t: SpecTable)
    requires
        rows_of(recs, t) is Some,
    ensures
        rows_of(recs, t)->0.len() == recs.len(),
    decreases recs.len(),
{
    if recs.len() > 0 {
        lemma_rows_of_len(recs.drop_last(), t);
    }
}

/// A record of a row that fits the table, placed among the records, places
/// its row among the rows.
proof fn lemma_rows_of_insert(recs: Seq<Seq<u8>>, t: SpecTable, j: int, rec: Seq<u8>)
    requires
        rows_of(recs, t) is Some,
        0 <= j <= recs.len(),
        is_row_encoding(rec),
        check_row(t.name, t.columns, decoded(rec)) is None,
    ensures
        rows_of(recs.insert(j, rec), t) == Some(rows_of(recs, t)->0.insert(j, decoded(rec))),
    decreases recs.len(),
{
    let rows = rows_of(recs, t)->0;
    lemma_rows_of_len(recs, t);
    if j == recs.len() {
        assert(recs.insert(j, rec) =~= recs.push(rec));
        assert(recs.push(rec).drop_last() =~= recs);
        assert(rows.insert(j, decoded(rec)) =~= rows.push(decoded(rec)));
    } else {
        let ins = recs.insert(j, rec);
        assert(ins.drop_last() =~= recs.drop_last().insert(j, rec));
        assert(ins.last() == recs.last());
        lemma_rows_of_insert(recs.drop_last(), t, j, rec);
        let front = rows_of(recs.drop_last(), t)->0;
        lemma_rows_of_len(recs.drop_last(), t);
        assert(front.insert(j, decoded(rec)).push(decoded(recs.last())) =~= front.push(
            decoded(recs.last()),
        ).insert(j, decoded(rec)));
    }
}

/// The pages of a chain are distinct data pages, none of them visited
/// before, and there are no more of them than pages.
proof fn lemma_chain_props(pages: Seq<Seq<u8>>, next: Option<PageId>, vis: Seq<u64>)
    requires
        chain_from(pages, next, vis) is Some,
    ensures
        chain_from(pages, next, vis)->0.no_duplicates(),
        forall|k: int|
            0 <= k < chain_from(pages, next, vis)->0.len() ==> is_data_page(
                pages,
                #[trigger] chain_from(pages, next, vis)->0[k],
            ) && !vis.contains(chain_from(pages, next, vis)->0[k]),
        chain_from(pages, next, vis)->0.len() > 0 ==> vis.len() + chain_from(pages, next, vis)->0.len()
            <= pages.len(),
    decreases pages.len() - vis.len(),
{
    if let Some(id) = next {
        let rest_next = page_view(pages[id.0 as int]).next;
        let v2 = vis.push(id.0);
        lemma_chain_props(pages, rest_next, v2);
        let rest = chain_from(pages, rest_next, v2)->0;
        let ids = chain_from(pages, next, vis)->0;
        assert(ids == seq![id.0] + rest);
        assert(v2[vis.len() as int] == id.0);
        assert forall|k: int| 0 <= k < ids.len() implies is_data_page(pages, #[trigger] ids[k]) && !vis.contains(
            ids[k],
        ) by {
            if k > 0 {
                assert(ids[k] == rest[k - 1]);
                assert(is_data_page(pages, rest[k - 1]));
                if vis.contains(ids[k]) {
                    let w = choose|w: int| 0 <= w < vis.len() && vis[w] == ids[k];
                    assert(v2[w] == ids[k]);
                }
            }
        }
        assert forall|a: int, b: int| 0 <= a < ids.len() && 0 <= b < ids.len() && a != b implies ids[a]
            != ids[b] by {
            if a > 0 {
                assert(ids[a] == rest[a - 1]);
                assert(is_data_page(pages, rest[a - 1]));
            }
            if b > 0 {
                assert(ids[b] == rest[b - 1]);
                assert(is_data_page(pages, rest[b - 1]));
            }
        }
    }
}

/// A chain of one data page with no successor.
proof fn lemma_chain_single(pages: Seq<Seq<u8>>, n: u64, vis: Seq<u64>)
    requires
        is_data_page(pages, n),
        page_view(pages[n as int]).next is None,
        !vis.contains(n),
        vis.len() < pages.len(),
    ensures
        chain_from(pages, Some(PageId(n)), vis) == Some(seq![n]),
{
    assert(chain_from(pages, None, vis.push(n)) == Some(Seq::<u64>::empty()));
    assert(seq![n] + Seq::<u64>::empty() =~= seq![n]);
}

/// A chain stays the same in other pages whose chain pages are still data
/// pages with the same successors.
proof fn lemma_chain_same(pages: Seq<Seq<u8>>, pages2: Seq<Seq<u8>>, next: Option<PageId>, vis: Seq<u64>)
    requires
        chain_from(pages, next, vis) is Some,
        pages2.len() >= pages.len(),
        forall|k: int|
            0 <= k < chain_from(pages, next, vis)->0.len() ==> {
                let id = #[trigger] chain_from(pages, next, vis)->0[k];
                &&& is_data_page(pages2, id)
                &&& page_view(pages2[id as int]).next == page_view(pages[id as int]).next
            },
    ensures
        chain_from(pages2, next, vis) == chain_from(pages, next, vis),
    decreases pages.len() - vis.len(),
{
    if let Some(id) = next {
        let ids = chain_from(pages, next, vis)->0;
        let rest_next = page_view(pages[id.0 as int]).next;
        let v2 = vis.push(id.0);
        let rest = chain_from(pages, rest_next, v2)->0;
        assert(ids[0] == id.0);
        assert forall|k: int| 0 <= k < rest.len() implies {
            let x = #[trigger] rest[k];
            &&& is_data_page(pages2, x)
            &&& page_view(pages2[x as int]).next == page_view(pages[x as int]).next
        } by {
            assert(ids[k + 1] == rest[k]);
        }
        lemma_chain_same(pages, pages2, rest_next, v2);
    }
}

/// A chain whose last page now points to a new data page at the end of the
/// file goes on to that page.
proof fn lemma_chain_extend(pages: Seq<Seq<u8>>, pages2: Seq<Seq<u8>>, next: Option<PageId>, vis: Seq<u64>)
    requires
        chain_from(pages, next, vis) is Some,
        chain_from(pages, next, vis)->0.len() > 0,
        pages.len() < u64::MAX,
        pages2.len() == pages.len() + 1,
        forall|w: int| 0 <= w < vis.len() ==> #[trigger] vis[w] < pages.len(),
        forall|k: int|
            0 <= k < chain_from(pages, next, vis)->0.len() - 1 ==> {
                let id = #[trigger] chain_from(pages, next, vis)->0[k];
                &&& is_data_page(pages2, id)
                &&& page_view(pages2[id as int]).next == page_view(pages[id as int]).next
            },
        is_data_page(pages2, chain_from(pages, next, vis)->0.last()),
        page_view(pages2[chain_from(pages, next, vis)->0.last() as int]).next == Some(PageId(pages.len() as u64)),
        is_data_page(pages2, pages.len() as u64),
        page_view(pages2[pages.len() as int]).next is None,
    ensures
        chain_from(pages2, next, vis) == Some(chain_from(pages, next, vis)->0.push(pages.len() as u64)),
    decreases pages.len() - vis.len(),
{
    let ids = chain_from(pages, next, vis)->0;
    let id = next->0;
    let rest_next = page_view(pages[id.0 as int]).next;
    let v2 = vis.push(id.0);
    let rest = chain_from(pages, rest_next, v2)->0;
    let n = pages.len() as u64;
    assert(ids == seq![id.0] + rest);
    assert(id.0 < pages.len());
    lemma_chain_props(pages, next, vis);
    assert(is_data_page(pages, ids[0]));
    if rest.len() == 0 {
        assert(ids.last() == id.0);
        assert(v2[vis.len() as int] == id.0);
        assert(!v2.contains(n)) by {
            if v2.contains(n) {
                let w = choose|w: int| 0 <= w < v2.len() && v2[w] == n;
                if w < vis.len() {
                    assert(v2[w] == vis[w]);
                    assert(vis[w] < pages.len());
                }
            }
        }
        lemma_chain_single(pages2, n, v2);
        assert(ids.push(n) =~= seq![id.0] + seq![n]);
    } else {
        assert(ids[0] == id.0);
        assert forall|k: int| 0 <= k < rest.len() - 1 implies {
            let x = #[trigger] rest[k];
            &&& is_data_page(pages2, x)
            &&& page_view(pages2[x as int]).next == page_view(pages[x as int]).next
        } by {
            assert(ids[k + 1] == rest[k]);
        }
        assert(rest.last() == ids.last());
        assert forall|w: int| 0 <= w < v2.len() implies #[trigger] v2[w] < pages.len() by {
            if w < vis.len() {
                assert(v2[w] == vis[w]);
            }
        }
        lemma_chain_extend(pages, pages2, rest_next, v2);
        assert(ids.push(n) =~= seq![id.0] + rest.push(n));
    }
}

/// Where first-fit puts a record in a readable chain: in one of its pages
/// that takes it, or after its last page.
proof fn lemma_append_walk(pages: Seq<Seq<u8>>, id: u64, rec: Seq<u8>, vis: Seq<u64>)
    requires
        chain_from(pages, Some(PageId(id)), vis) is Some,
    ensures
        ({
            let ids = chain_from(pages, Some(PageId(id)), vis)->0;
            match append_walk(pages, id, rec, vis) {
                AppendPlan::InPage { page, slot, slots } => ids.contains(page) && insert_result(
                    page_view(pages[page as int]),
                    rec,
                ) == Ok::<(int, Seq<Option<Seq<u8>>>), super::error::SpecDbError>((slot, slots)),
                AppendPlan::After { last } => ids.len() > 0 && last == ids.last() && page_view(
                    pages[last as int],
                ).next is None,
                AppendPlan::Fail(_) => true,
            }
        }),
    decreases pages.len() - vis.len(),
{
    let ids = chain_from(pages, Some(PageId(id)), vis)->0;
    let p = page_view(pages[id as int]);
    let v2 = vis.push(id);
    let rest = chain_from(pages, p.next, v2)->0;
    assert(ids == seq![id] + rest);
    assert(ids[0] == id);
    match insert_result(p, rec) {
        Ok(_) => {},
        Err(super::error::SpecDbError::PageFull) => match p.next {
            Some(n) => {
                lemma_append_walk(pages, n.0, rec, v2);
                match append_walk(pages, n.0, rec, v2) {
                    AppendPlan::InPage { page, .. } => {
                        let w = choose|w: int| 0 <= w < rest.len() && rest[w] == page;
                        assert(ids[w + 1] == page);
                    },
                    AppendPlan::After { last } => {
                        assert(ids.last() == rest.last());
                    },
                    AppendPlan::Fail(_) => {},
                }
            },
            None => {
                assert(rest.len() == 0);
            },
        },
        Err(_) => {},
    }
}

/// Chains whose pages hold the same records hold the same records.
proof fn lemma_chain_records_same(pages: Seq<Seq<u8>>, pages2: Seq<Seq<u8>>, ids: Seq<u64>)
    requires
        forall|k: int| 0 <= k < ids.len() ==> page_records(pages2[#[trigger] ids[k] as int]) == page_records(
            pages[ids[k] as int],
        ),
    ensures
        chain_records(pages2, ids) == chain_records(pages, ids),
    decreases ids.len(),
{
    if ids.len() > 0 {
        assert forall|k: int| 0 <= k < ids.drop_last().len() implies page_records(
            pages2[#[trigger] ids.drop_last()[k] as int],
        ) == page_records(pages[ids.drop_last()[k] as int]) by {
            assert(ids.drop_last()[k] == ids[k]);
        }
        lemma_chain_records_same(pages, pages2, ids.drop_last());
        assert(page_records(pages2[ids.last() as int]) == page_records(pages[ids.last() as int]));
    }
}

/// One page of a chain that gained a record among its records makes the
/// chain gain it among its records.
proof fn lemma_chain_records_insert(
    pages: Seq<Seq<u8>>,
    pages2: Seq<Seq<u8>>,
    ids: Seq<u64>,
    q: int,
    j: int,
    rec: Seq<u8>,
) -> (j2: int)
    requires
        0 <= q < ids.len(),
        forall|k: int|
            0 <= k < ids.len() && k != q ==> page_records(pages2[#[trigger] ids[k] as int]) == page_records(
                pages[ids[k] as int],
            ),
        0 <= j <= page_records(pages[ids[q] as int]).len(),
        page_records(pages2[ids[q] as int]) == page_records(pages[ids[q] as int]).insert(j, rec),
    ensures
        0 <= j2 <= chain_records(pages, ids).len(),
        chain_records(pages2, ids) == chain_records(pages, ids).insert(j2, rec),
    decreases ids.len(),
{
    let front = ids.drop_last();
    let last = page_records(pages[ids.last() as int]);
    if q == ids.len() - 1 {
        assert forall|k: int| 0 <= k < front.len() implies page_records(pages2[#[trigger] front[k] as int])
            == page_records(pages[front[k] as int]) by {
            assert(front[k] == ids[k]);
        }
        lemma_chain_records_same(pages, pages2, front);
        let c = chain_records(pages, front);
        assert(c + last.insert(j, rec) =~= (c + last).insert(c.len() + j, rec));
        c.len() + j
    } else {
        assert forall|k: int| 0 <= k < front.len() && k != q implies page_records(
            pages2[#[trigger] front[k] as int],
        ) == page_records(pages[front[k] as int]) by {
            assert(front[k] == ids[k]);
        }
        assert(front[q] == ids[q]);
        let j2 = lemma_chain_records_insert(pages, pages2, front, q, j, rec);
        assert(page_records(pages2[ids.last() as int]) == last);
        let c = chain_records(pages, front);
        assert(c.insert(j2, rec) + last =~= (c + last).insert(j2, rec));
        j2
    }
}

/// The records of a page are those of its slot table.
proof fn lemma_page_records(b: Seq<u8>)
    ensures
        page_records(b) == slot_records(page_view(b).slots),
{
    assert(page_records(b) =~= slot_records(page_view(b).slots));
}

/// A record that a page takes goes among its records.
proof fn lemma_insert_records(p: SpecPage, rec: Seq<u8>) -> (j: int)
    requires
        insert_result(p, rec) is Ok,
        rec.len() > 0,
    ensures
        0 <= j <= slot_records(p.slots).len(),
        match insert_result(p, rec) {
            Ok((_, slots)) => slot_records(slots) == slot_records(p.slots).insert(j, rec),
            Err(_) => false,
        },
{
    lemma_first_deleted(p.slots, 0);
    match first_deleted_from(p.slots, 0) {
        Some(id) => lemma_slot_records_fill(p.slots, id, rec),
        None => {
            lemma_slot_records_push(p.slots, rec);
            let j = slot_records(p.slots).len() as int;
            assert(slot_records(p.slots).insert(j, rec) =~= slot_records(p.slots).push(rec));
            j
        },
    }
}

/// Tables of the same names are found at the same places.
proof fn lemma_find_table_same_names(cat: Seq<SpecTable>, cat2: Seq<SpecTable>, name: Seq<char>, start: int)
    requires
        cat2.len() == cat.len(),
        forall|k: int| 0 <= k < cat.len() ==> #[trigger] cat2[k].name == cat[k].name,
    ensures
        find_table_from(cat2, name, start) == find_table_from(cat, name, start),
    decreases cat.len() - start,
{
    if 0 <= start < cat.len() {
        assert(cat2[start].name == cat[start].name);
        lemma_find_table_same_names(cat, cat2, name, start + 1);
    }
}

/// Reading rows depends only on the table's name and columns.
proof fn lemma_rows_of_same_schema(recs: Seq<Seq<u8>>, t: SpecTable, t2: SpecTable)
    requires
        t2.name == t.name,
        t2.columns == t.columns,
    ensures
        rows_of(recs, t2) == rows_of(recs, t),
    decreases recs.len(),
{
    if recs.len() > 0 {
        lemma_rows_of_same_schema(recs.drop_last(), t, t2);
    }
}

/// The records of the chain that starts at `first`.
pub open spec fn first_chain_records(pages: Seq<Seq<u8>>, first: Option<PageId>) -> Seq<Seq<u8>> {
    chain_records(pages, chain_from(pages, first, Seq::empty())->0)
}

/// A table that had no pages gets a new chain of one page holding the record.
proof fn lemma_append_new_chain(pages: Seq<Seq<u8>>, mid: Seq<Seq<u8>>, rec: Seq<u8>, rid: RecordId, f: Option<PageId>)
    requires
        append_done(pages, mid, None, rec, Ok::<(RecordId, Option<PageId>), DbError>((rid, f))),
        rec.len() > 0,
        pages.len() >= 2,
    ensures
        chain_from(mid, f, Seq::empty()) == Some(seq![pages.len() as u64]),
        pages.len() as u64 != 1,
        chain_records(mid, seq![pages.len() as u64]) == seq![rec],
{
    let n = pages.len();
    let slots = match insert_result(empty_data_page(), rec) {
        Ok((_, slots)) => slots,
        Err(_) => Seq::empty(),
    };
    assert(page_added(pages, mid, SpecPage { slots, ..empty_data_page() }));
    assert(slots =~= seq![Some(rec)]);
    assert(is_data_page(mid, n as u64));
    lemma_chain_single(mid, n as u64, Seq::empty());
    lemma_page_records(mid[n as int]);
    lemma_slot_records_push(Seq::empty(), rec);
    assert(Seq::<Option<Seq<u8>>>::empty().push(Some(rec)) =~= seq![Some(rec)]);
    assert(slot_records(Seq::<Option<Seq<u8>>>::empty()) =~= Seq::<Seq<u8>>::empty());
    assert(page_view(mid[n as int]).slots == slots);
    assert(page_records(mid[n as int]) =~= seq![rec]);
    assert(seq![n as u64].drop_last() =~= Seq::<u64>::empty());
    assert(seq![n as u64].last() == n as u64);
    assert(chain_records(mid, Seq::<u64>::empty()) == Seq::<Seq<u8>>::empty());
    assert(chain_records(mid, seq![n as u64]) =~= seq![rec]);
}

/// A record that first-fit puts in a page of the chain goes among the
/// chain's records.
proof fn lemma_append_in_page(
    pages: Seq<Seq<u8>>,
    mid: Seq<Seq<u8>>,
    fp: PageId,
    rec: Seq<u8>,
    rid: RecordId,
    f: Option<PageId>,
) -> (k: int)
    requires
        append_done(pages, mid, Some(fp), rec, Ok::<(RecordId, Option<PageId>), DbError>((rid, f))),
        append_walk(pages, fp.0, rec, Seq::empty()) is InPage,
        chain_from(pages, Some(fp), Seq::empty()) is Some,
        rec.len() > 0,
    ensures
        f == Some(fp),
        mid.len() == pages.len(),
        chain_from(mid, f, Seq::empty()) == chain_from(pages, Some(fp), Seq::empty()),
        0 <= k <= first_chain_records(pages, Some(fp)).len(),
        chain_records(mid, chain_from(pages, Some(fp), Seq::empty())->0) == first_chain_records(pages, Some(fp)).insert(k, rec),
{
    let ids = chain_from(pages, Some(fp), Seq::empty())->0;
    lemma_chain_props(pages, Some(fp), Seq::empty());
    lemma_append_walk(pages, fp.0, rec, Seq::empty());
    let (page, slots) = match append_walk(pages, fp.0, rec, Seq::empty()) {
        AppendPlan::InPage { page, slot, slots } => (page, slots),
        _ => (0, Seq::empty()),
    };
    let old_page = page_view(pages[page as int]);
    assert(page_replaced(pages, mid, page as int, SpecPage { slots, ..old_page }));
    let q = choose|q: int| 0 <= q < ids.len() && ids[q] == page;
    assert forall|x: int| 0 <= x < ids.len() implies {
        let id = #[trigger] ids[x];
        &&& is_data_page(mid, id)
        &&& page_view(mid[id as int]).next == page_view(pages[id as int]).next
    } by {
        assert(is_data_page(pages, ids[x]));
    }
    lemma_chain_same(pages, mid, Some(fp), Seq::empty());
    lemma_page_records(pages[page as int]);
    lemma_page_records(mid[page as int]);
    let j = lemma_insert_records(old_page, rec);
    assert forall|x: int| 0 <= x < ids.len() && x != q implies page_records(mid[#[trigger] ids[x] as int])
        == page_records(pages[ids[x] as int]) by {
        assert(ids[x] != ids[q]);
    }
    lemma_chain_records_insert(pages, mid, ids, q, j, rec)
}

/// A record that fits no page of the chain goes to a new page linked after
/// the last one.
proof fn lemma_append_after(
    pages: Seq<Seq<u8>>,
    mid: Seq<Seq<u8>>,
    fp: PageId,
    rec: Seq<u8>,
    rid: RecordId,
    f: Option<PageId>,
)
    requires
        append_done(pages, mid, Some(fp), rec, Ok::<(RecordId, Option<PageId>), DbError>((rid, f))),
        append_walk(pages, fp.0, rec, Seq::empty()) is After,
        chain_from(pages, Some(fp), Seq::empty()) is Some,
        rec.len() > 0,
        forall|x: int|
            0 <= x < chain_from(pages, Some(fp), Seq::empty())->0.len() ==> #[trigger] chain_from(
                pages,
                Some(fp),
                Seq::empty(),
            )->0[x] != 0,
    ensures
        f == Some(fp),
        mid.len() == pages.len() + 1,
        pages.len() < u64::MAX,
        chain_from(mid, f, Seq::empty()) == Some(chain_from(pages, Some(fp), Seq::empty())->0.push(pages.len() as u64)),
        chain_records(mid, chain_from(pages, Some(fp), Seq::empty())->0.push(pages.len() as u64))
            == first_chain_records(pages, Some(fp)).push(rec),
{
    let ids = chain_from(pages, Some(fp), Seq::empty())->0;
    let n = pages.len();
    lemma_chain_props(pages, Some(fp), Seq::empty());
    lemma_append_walk(pages, fp.0, rec, Seq::empty());
    let last = match append_walk(pages, fp.0, rec, Seq::empty()) {
        AppendPlan::After { last } => last,
        _ => 0,
    };
    assert(n < u64::MAX);
    assert(mid.len() == n + 1);
    assert forall|x: int| 0 <= x < ids.len() - 1 implies {
        let id = #[trigger] ids[x];
        &&& is_data_page(mid, id)
        &&& page_view(mid[id as int]).next == page_view(pages[id as int]).next
    } by {
        assert(ids[x] != ids[ids.len() - 1]);
        assert(is_data_page(pages, ids[x]));
        assert(mid[ids[x] as int] == pages[ids[x] as int]);
    }
    assert(is_data_page(pages, last));
    assert(is_data_page(mid, last));
    assert(is_data_page(mid, n as u64));
    lemma_chain_extend(pages, mid, Some(fp), Seq::empty());
    let ids2 = ids.push(n as u64);
    assert forall|x: int| 0 <= x < ids.len() implies page_records(mid[#[trigger] ids[x] as int])
        == page_records(pages[ids[x] as int]) by {
        if x < ids.len() - 1 {
            assert(ids[x] != ids[ids.len() - 1]);
            assert(mid[ids[x] as int] == pages[ids[x] as int]);
        } else {
            lemma_page_records(mid[last as int]);
            lemma_page_records(pages[last as int]);
        }
    }
    lemma_chain_records_same(pages, mid, ids);
    assert(ids2.drop_last() =~= ids);
    lemma_page_records(mid[n as int]);
    lemma_slot_records_push(Seq::empty(), rec);
    assert(Seq::<Option<Seq<u8>>>::empty().push(Some(rec)) =~= seq![Some(rec)]);
    assert(slot_records(Seq::<Option<Seq<u8>>>::empty()) =~= Seq::<Seq<u8>>::empty());
    assert(page_records(mid[n as int]) =~= seq![rec]);
    assert(chain_records(mid, ids2) =~= first_chain_records(pages, Some(fp)).push(rec));
}

/// Rewriting the catalog page leaves every chain that avoids it as it was.
proof fn lemma_catalog_rewrite(mid: Seq<Seq<u8>>, pages2: Seq<Seq<u8>>, p: SpecPage, f: Option<PageId>, ids: Seq<u64>)
    requires
        page_replaced(mid, pages2, 1, p),
        chain_from(mid, f, Seq::empty()) == Some(ids),
        forall|x: int| 0 <= x < ids.len() ==> #[trigger] ids[x] != 1,
    ensures
        chain_from(pages2, f, Seq::empty()) == Some(ids),
        chain_records(pages2, ids) == chain_records(mid, ids),
{
    lemma_chain_props(mid, f, Seq::empty());
    assert forall|x: int| 0 <= x < ids.len() implies {
        let id = #[trigger] ids[x];
        &&& is_data_page(pages2, id)
        &&& page_view(pages2[id as int]).next == page_view(mid[id as int]).next
    } by {
        assert(is_data_page(mid, ids[x]));
        assert(pages2[ids[x] as int] == mid[ids[x] as int]);
    }
    lemma_chain_same(mid, pages2, f, Seq::empty());
    assert forall|x: int| 0 <= x < ids.len() implies page_records(pages2[#[trigger] ids[x] as int])
        == page_records(mid[ids[x] as int]) by {
        assert(is_data_page(mid, ids[x]));
        assert(pages2[ids[x] as int] == mid[ids[x] as int]);
    }
    lemma_chain_records_same(mid, pages2, ids);
}

/// Appending the stored form of a row that fits the table, then rewriting
/// the catalog, leaves the table's rows with the new row among them.
proof fn lemma_read_after_append(
    pages: Seq<Seq<u8>>,
    mid: Seq<Seq<u8>>,
    pages2: Seq<Seq<u8>>,
    t: SpecTable,
    row: Seq<SpecValue>,
    rows: Seq<Seq<SpecValue>>,
    rid: RecordId,
    f: Option<PageId>,
    p: SpecPage,
) -> (k: int)
    requires
        append_done(pages, mid, t.first_page, row_bytes(row), Ok::<(RecordId, Option<PageId>), DbError>((rid, f))),
        page_replaced(mid, pages2, 1, p),
        stored_rows(pages, t) == Ok::<Seq<Seq<SpecValue>>, SpecDbError>(rows),
        encodable_row(row),
        check_row(t.name, t.columns, row) is None,
        t.row_count < u64::MAX,
        pages.len() >= 2,
        !is_data_page(pages, 0),
        !is_data_page(pages, 1),
    ensures
        0 <= k <= rows.len(),
        stored_rows(pages2, SpecTable { first_page: f, row_count: (t.row_count + 1) as u64, ..t })
            == Ok::<Seq<Seq<SpecValue>>, SpecDbError>(rows.insert(k, row)),
{
    lemma_decoded_row(row);
    let rec = row_bytes(row);
    let t3 = SpecTable { first_page: f, row_count: (t.row_count + 1) as u64, ..t };
    let recs = first_chain_records(pages, t.first_page);
    assert(rows_of(recs, t) == Some(rows));
    lemma_rows_of_len(recs, t);
    lemma_rows_of_same_schema(recs, t, t3);
    let (ids2, k): (Seq<u64>, int) = match t.first_page {
        None => {
            lemma_append_new_chain(pages, mid, rec, rid, f);
            assert(recs =~= Seq::<Seq<u8>>::empty());
            assert(recs.insert(0, rec) =~= seq![rec]);
            assert forall|x: int| 0 <= x < 1 implies #[trigger] seq![pages.len() as u64][x] != 1 by {}
            (seq![pages.len() as u64], 0)
        },
        Some(fp) => {
            let ids = chain_from(pages, Some(fp), Seq::empty())->0;
            lemma_chain_props(pages, Some(fp), Seq::empty());
            assert forall|x: int| 0 <= x < ids.len() implies #[trigger] ids[x] != 0 && ids[x] != 1 by {
                assert(is_data_page(pages, ids[x]));
            }
            match append_walk(pages, fp.0, rec, Seq::empty()) {
                AppendPlan::InPage { .. } => {
                    let k = lemma_append_in_page(pages, mid, fp, rec, rid, f);
                    (ids, k)
                },
                AppendPlan::After { .. } => {
                    lemma_append_after(pages, mid, fp, rec, rid, f);
                    assert(recs.insert(recs.len() as int, rec) =~= recs.push(rec));
                    let ids2 = ids.push(pages.len() as u64);
                    assert forall|x: int| 0 <= x < ids2.len() implies #[trigger] ids2[x] != 1 by {
                        if x < ids.len() {
                            assert(ids2[x] == ids[x]);
                        }
                    }
                    (ids2, recs.len() as int)
                },
                AppendPlan::Fail(_) => {
                    assert(false);
                    (Seq::empty(), 0)
                },
            }
        },
    };
    assert(chain_from(mid, f, Seq::empty()) == Some(ids2));
    assert(chain_records(mid, ids2) == recs.insert(k, rec));
    lemma_catalog_rewrite(mid, pages2, p, f, ids2);
    lemma_rows_of_insert(recs, t3, k, rec);
    k
}

/// The rows of a table after a successful insert, in terms of catalogs and
/// pages whose header and catalog pages are no data pages.
proof fn lemma_stored_row_read_back(
    cat: Seq<SpecTable>,
    pages: Seq<Seq<u8>>,
    name: Seq<char>,
    row: Seq<SpecValue>,
    cat2: Seq<SpecTable>,
    pages2: Seq<Seq<u8>>,
    rid: RecordId,
    rows: Seq<Seq<SpecValue>>,
)
    requires
        inserted(cat, pages, name, row, cat2, pages2, Ok::<RecordId, DbError>(rid)),
        spec_select_all(cat, pages, name) == Ok::<Seq<Seq<SpecValue>>, SpecDbError>(rows),
        pages.len() >= 2,
        !is_data_page(pages, 0),
        !is_data_page(pages, 1),
    ensures
        exists|k: int|
            0 <= k <= rows.len() && #[trigger] rows.insert(k, row) == spec_select_all(cat2, pages2, name)->Ok_0
                && spec_select_all(cat2, pages2, name) is Ok,
{
    reveal(inserted);
    super::database::lemma_find_table_from(cat, name, 0);
    let i = find_table(cat, name)->0;
    let t = cat[i];
    let rec = row_bytes(row);
    let (mid, ar): (Seq<Seq<u8>>, Result<(RecordId, Option<PageId>), DbError>) = choose|
        mid: Seq<Seq<u8>>,
        ar: Result<(RecordId, Option<PageId>), DbError>,
    |
        #[trigger] append_done(pages, mid, t.first_page, rec, ar) && match ar {
            Err(e) => Ok::<RecordId, DbError>(rid) == Err::<RecordId, DbError>(e) && cat2 == cat && pages2 == mid,
            Ok((rid2, f)) => {
                let cat3 = cat.update(
                    i,
                    SpecTable { first_page: f, row_count: (t.row_count + 1) as u64, ..t },
                );
                &&& cat2 == cat3
                &&& match super::database::catalog_page(cat3) {
                    Ok(p) => Ok::<RecordId, DbError>(rid) == Ok::<RecordId, DbError>(rid2) && page_replaced(mid, pages2, 1, p),
                    Err(s) => Ok::<RecordId, DbError>(rid) matches Err(e) && super::database::same_error(e@, s) && pages2 == mid,
                }
            },
        };
    let (rid2, f) = match ar {
        Ok(x) => x,
        Err(_) => (rid, None),
    };
    let t3 = SpecTable { first_page: f, row_count: (t.row_count + 1) as u64, ..t };
    assert(cat2 == cat.update(i, t3));
    let p1 = match super::database::catalog_page(cat2) {
        Ok(p) => p,
        Err(_) => empty_data_page(),
    };
    assert(page_replaced(mid, pages2, 1, p1));
    assert forall|x: int| 0 <= x < cat.len() implies #[trigger] cat2[x].name == cat[x].name by {}
    lemma_find_table_same_names(cat, cat2, name, 0);
    assert(cat2[i] == t3);
    let k = lemma_read_after_append(pages, mid, pages2, t, row, rows, rid2, f, p1);
    assert(spec_select_all(cat2, pages2, name) == Ok::<Seq<Seq<SpecValue>>, SpecDbError>(rows.insert(k, row)));
}

/// First-fit only ever chooses data pages.
proof fn lemma_append_walk_data(pages: Seq<Seq<u8>>, id: u64, rec: Seq<u8>, vis: Seq<u64>)
    ensures
        match append_walk(pages, id, rec, vis) {
            AppendPlan::InPage { page, .. } => is_data_page(pages, page),
            AppendPlan::After { last } => is_data_page(pages, last),
            AppendPlan::Fail(_) => true,
        },
    decreases pages.len() - vis.len(),
{
    if !(vis.contains(id) || !is_data_page(pages, id) || vis.len() >= pages.len()) {
        let p = page_view(pages[id as int]);
        if let Some(n) = p.next {
            lemma_append_walk_data(pages, n.0, rec, vis.push(id));
        }
    }
}

/// Appending a record leaves the header and catalog pages alone when the
/// catalog page is no data page, and never removes pages.
pub proof fn lemma_append_keeps_catalog_page(
    before: Seq<Seq<u8>>,
    after: Seq<Seq<u8>>,
    first: Option<PageId>,
    rec: Seq<u8>,
    r: Result<(RecordId, Option<PageId>), DbError>,
)
    requires
        append_done(before, after, first, rec, r),
        before.len() >= 2,
        !is_data_page(before, 1),
    ensures
        after.len() >= before.len(),
        after[1] == before[1],
{
    if let Some(f) = first {
        lemma_append_walk_data(before, f.0, rec, Seq::empty());
    }
}

/// Writing a chain of rows leaves the catalog page alone when it is no data
/// page, and never removes pages.
pub proof fn lemma_rows_appended_keep_catalog_page(
    before: Seq<Seq<u8>>,
    after: Seq<Seq<u8>>,
    first: Option<PageId>,
    rows: Seq<Seq<SpecValue>>,
    last: Option<PageId>,
)
    requires
        rows_appended(before, after, first, rows, last),
        before.len() >= 2,
        !is_data_page(before, 1),
    ensures
        after.len() >= before.len(),
        after[1] == before[1],
    decreases rows.len(),
{
    if rows.len() > 0 {
        let (mid, f, rid): (Seq<Seq<u8>>, Option<PageId>, RecordId) = choose|
            mid: Seq<Seq<u8>>,
            f: Option<PageId>,
            rid: RecordId,
        |
            rows_appended(before, mid, first, rows.drop_last(), f) && encodable_row(rows.last())
                && #[trigger] append_done(
                mid,
                after,
                f,
                row_bytes(rows.last()),
                Ok::<(RecordId, Option<PageId>), DbError>((rid, last)),
            );
        lemma_rows_appended_keep_catalog_page(before, mid, first, rows.drop_last(), f);
        assert(!is_data_page(mid, 1));
        lemma_append_keeps_catalog_page(mid, after, f, row_bytes(rows.last()), Ok::<(RecordId, Option<PageId>), DbError>((rid, last)));
    }
}

/// A chain of rows that failed part way leaves the catalog page alone too.
pub proof fn lemma_rows_failed_keep_catalog_page(
    before: Seq<Seq<u8>>,
    after: Seq<Seq<u8>>,
    rows: Seq<Seq<SpecValue>>,
    e: DbError,
)
    requires
        rows_failed(before, after, rows, e),
        before.len() >= 2,
        !is_data_page(before, 1),
    ensures
        after.len() >= before.len(),
        after[1] == before[1],
{
    let (k, mid, f): (int, Seq<Seq<u8>>, Option<PageId>) = choose|k: int, mid: Seq<Seq<u8>>, f: Option<PageId>|
        0 <= k < rows.len() && #[trigger] rows_appended(before, mid, None, rows.take(k), f) && if encodable_row(rows[k]) {
            append_done(mid, after, f, row_bytes(rows[k]), Err::<(RecordId, Option<PageId>), DbError>(e))
        } else {
            e is Encoding && after == mid
        };
    lemma_rows_appended_keep_catalog_page(before, mid, None, rows.take(k), f);
    assert(!is_data_page(mid, 1));
    if encodable_row(rows[k]) {
        lemma_append_keeps_catalog_page(mid, after, f, row_bytes(rows[k]), Err::<(RecordId, Option<PageId>), DbError>(e));
    }
}

/// A catalog page is a page of catalog kind.
pub proof fn lemma_catalog_page_kind(cat: Seq<SpecTable>)
    ensures
        super::database::catalog_page(cat) matches Ok(p) ==> p.kind == spec_kind_byte(PageKind::Catalog),
    decreases cat.len(),
{
    reveal(super::database::catalog_page);
    if cat.len() > 0 {
        lemma_catalog_page_kind(cat.drop_last());
    }
}

/// A stored row is read back: after a successful insert into a table whose
/// rows could be read, reading the table gives its earlier rows with the new
/// row among them. (First-fit may place the row in any page of the table's
/// chain that has room, so its place among the rows is not fixed.)
pub proof fn lemma_insert_then_select(
    before: Database,
    after: Database,
    name: Seq<char>,
    row: Seq<SpecValue>,
    rid: RecordId,
    rows: Seq<Seq<SpecValue>>,
)
    requires
        before.wf(),
        inserted(
            before.catalog(),
            before.pages(),
            name,
            row,
            after.catalog(),
            after.pages(),
            Ok::<RecordId, DbError>(rid),
        ),
        spec_select_all(before.catalog(), before.pages(), name) == Ok::<Seq<Seq<SpecValue>>, SpecDbError>(rows),
    ensures
        exists|k: int|
            0 <= k <= rows.len() && #[trigger] rows.insert(k, row) == spec_select_all(
                after.catalog(),
                after.pages(),
                name,
            )->Ok_0 && spec_select_all(after.catalog(), after.pages(), name) is Ok,
{
    before.lemma_wf_pages();
    lemma_stored_row_read_back(before.catalog(), before.pages(), name, row, after.catalog(), after.pages(), rid, rows);
}

/// No byte string comes before itself.
pub proof fn lemma_bytes_lt_irreflexive(a: Seq<u8>)
    ensures
        !bytes_lt(a, a),
    decreases a.len(),
{
    if a.len() > 0 {
        lemma_bytes_lt_irreflexive(a.drop_first());
    }
}

/// Byte order is asymmetric.
pub proof fn lemma_bytes_lt_asymmetric(a: Seq<u8>, b: Seq<u8>)
    requires
        bytes_lt(a, b),
    ensures
        !bytes_lt(b, a),
    decreases a.len(),
{
    if a.len() > 0 && b.len() > 0 && a[0] == b[0] {
        lemma_bytes_lt_asymmetric(a.drop_first(), b.drop_first());
    }
}

/// Byte order is transitive.
pub proof fn lemma_bytes_lt_transitive(a: Seq<u8>, b: Seq<u8>, c: Seq<u8>)
    requires
        bytes_lt(a, b),
        bytes_lt(b, c),
    ensures
        bytes_lt(a, c),
    decreases a.len(),
{
    if a.len() > 0 && b.len() > 0 && c.len() > 0 && a[0] == b[0] && b[0] == c[0] {
        lemma_bytes_lt_transitive(a.drop_first(), b.drop_first(), c.drop_first());
    }
}

/// Of two different byte strings, one comes first.
pub proof fn lemma_bytes_lt_total(a: Seq<u8>, b: Seq<u8>)
    requires
        a != b,
    ensures
        bytes_lt(a, b) || bytes_lt(b, a),
    decreases a.len(),
{
    if a.len() == 0 {
        assert(b.len() > 0) by {
            if b.len() == 0 {
                assert(a =~= b);
            }
        }
    } else if b.len() > 0 && a[0] == b[0] {
        assert(a.drop_first() != b.drop_first()) by {
            if a.drop_first() == b.drop_first() {
                assert(a =~= seq![a[0]] + a.drop_first());
                assert(b =~= seq![b[0]] + b.drop_first());
            }
        }
        lemma_bytes_lt_total(a.drop_first(), b.drop_first());
    }
}

/// Byte order puts a proper prefix first.
pub proof fn lemma_bytes_lt_prefix(x: Seq<u8>, z: Seq<u8>)
    requires
        z.len() > 0,
    ensures
        bytes_lt(x, x + z),
        !bytes_lt(x + z, x),
    decreases x.len(),
{
    if x.len() > 0 {
        assert((x + z).drop_first() =~= x.drop_first() + z);
        assert((x + z)[0] == x[0]);
        lemma_bytes_lt_prefix(x.drop_first(), z);
    } else {
        assert(x + z =~= z);
    }
}

/// Byte order is decided by the first byte at which two sequences differ.
pub proof fn lemma_bytes_lt_first_difference(x: Seq<u8>, c1: u8, y: Seq<u8>, c2: u8, w: Seq<u8>)
    requires
        c1 != c2,
    ensures
        bytes_lt(x.push(c1) + y, x.push(c2) + w) == (c1 < c2),
    decreases x.len(),
{
    let a = x.push(c1) + y;
    let b = x.push(c2) + w;
    if x.len() > 0 {
        assert(a[0] == x[0] && b[0] == x[0]);
        assert(a.drop_first() =~= x.drop_first().push(c1) + y);
        assert(b.drop_first() =~= x.drop_first().push(c2) + w);
        lemma_bytes_lt_first_difference(x.drop_first(), c1, y, c2, w);
    } else {
        assert(a[0] == c1 && b[0] == c2);
    }
}

/// Of two different texts, one comes first.
pub proof fn lemma_text_lt_total(a: Seq<char>, b: Seq<char>)
    requires
        a != b,
    ensures
        text_lt(a, b) || text_lt(b, a),
{
    encode_utf8_decode_utf8(a);
    encode_utf8_decode_utf8(b);
    lemma_bytes_lt_total(encode_utf8(a), encode_utf8(b));
}

/// The catalog entries of the tables, in order.
pub open spec fn catalog_records(cat: Seq<SpecTable>) -> Seq<Seq<u8>> {
    cat.map_values(|t: SpecTable| table_bytes(t))
}

/// The tables as reading their catalog entries back gives them.
pub open spec fn canonical_catalog(cat: Seq<SpecTable>) -> Seq<SpecTable> {
    cat.map_values(|t: SpecTable| canonical_form(t))
}

/// What every catalog of a sound database keeps: tables in order of name,
/// distinct column names in each, and no table starting at the all-ones page.
pub open spec fn catalog_sound(cat: Seq<SpecTable>) -> bool {
    &&& sorted_by_name(cat)
    &&& forall|k: int| 0 <= k < cat.len() ==> names_distinct(#[trigger] cat[k].columns)
    &&& forall|k: int| 0 <= k < cat.len() ==> (#[trigger] cat[k]).first_page != Some(PageId(super::page::NO_PAGE))
}

/// The tables are in strictly increasing order of name.
pub open spec fn sorted_by_name(cat: Seq<SpecTable>) -> bool {
    forall|i: int, j: int| 0 <= i < j < cat.len() ==> text_lt(#[trigger] cat[i].name, #[trigger] cat[j].name)
}

/// A catalog entry is never empty.
proof fn lemma_table_bytes_nonempty(t: SpecTable)
    ensures
        table_bytes(t).len() > 0,
{
    lemma_le_bytes_len(t.row_count as nat, 8);
}

/// The catalog page of a catalog holds one entry per table, in order, and
/// every table could be encoded.
proof fn lemma_catalog_page_slots(cat: Seq<SpecTable>)
    requires
        catalog_page(cat) is Ok,
    ensures
        catalog_page(cat)->Ok_0.slots.len() == cat.len(),
        forall|k: int| 0 <= k < cat.len() ==> #[trigger] catalog_page(cat)->Ok_0.slots[k] == Some(table_bytes(cat[k])),
        forall|k: int| 0 <= k < cat.len() ==> encodable_table(#[trigger] cat[k]),
    decreases cat.len(),
{
    reveal(catalog_page);
    if cat.len() > 0 {
        let front = cat.drop_last();
        lemma_catalog_page_slots(front);
        let p = catalog_page(front)->Ok_0;
        lemma_first_deleted(p.slots, 0);
        lemma_table_bytes_nonempty(cat.last());
        assert(first_deleted_from(p.slots, 0) is None) by {
            if first_deleted_from(p.slots, 0) is Some {
                let id = first_deleted_from(p.slots, 0)->0;
                assert(p.slots[id] == Some(table_bytes(front[id])));
            }
        }
        assert forall|k: int| 0 <= k < cat.len() implies encodable_table(#[trigger] cat[k]) by {
            if k < front.len() {
                assert(front[k] == cat[k]);
            }
        }
    }
}

/// The records of a slot table in which every slot holds a record.
proof fn lemma_slot_records_full(slots: Seq<Option<Seq<u8>>>, recs: Seq<Seq<u8>>)
    requires
        slots.len() == recs.len(),
        forall|k: int| 0 <= k < slots.len() ==> #[trigger] slots[k] == Some(recs[k]),
    ensures
        slot_records(slots) == recs,
    decreases slots.len(),
{
    if slots.len() > 0 {
        lemma_slot_records_full(slots.drop_last(), recs.drop_last());
        assert(slots.last() == Some(recs.last()));
        assert(slot_records(slots) =~= slot_records(slots.drop_last()).push(recs.last()));
        assert(recs =~= recs.drop_last().push(recs.last()));
    } else {
        assert(slot_records(slots) =~= recs);
    }
}

/// Where a name goes in a catalog all of whose names come before it: at the end.
proof fn lemma_insert_point_end(cat: Seq<SpecTable>, name: Seq<char>, start: int)
    requires
        0 <= start <= cat.len(),
        forall|k: int| 0 <= k < cat.len() ==> text_lt(#[trigger] cat[k].name, name),
    ensures
        insert_point_from(cat, name, start) == cat.len(),
    decreases cat.len() - start,
{
    if start < cat.len() {
        lemma_bytes_lt_asymmetric(encode_utf8(cat[start].name), encode_utf8(name));
        lemma_insert_point_end(cat, name, start + 1);
    }
}

/// Reading back the catalog entries of a sorted catalog of uniquely named
/// tables with distinct column names gives the tables in canonical form.
proof fn lemma_opened_catalog_records(cat: Seq<SpecTable>)
    requires
        sorted_by_name(cat),
        forall|k: int| 0 <= k < cat.len() ==> encodable_table(#[trigger] cat[k]),
        forall|k: int| 0 <= k < cat.len() ==> names_distinct(#[trigger] cat[k].columns),
    ensures
        opened_catalog(catalog_records(cat)) == Some(canonical_catalog(cat)),
    decreases cat.len(),
{
    if cat.len() > 0 {
        let front = cat.drop_last();
        let t = cat.last();
        assert(catalog_records(cat).drop_last() =~= catalog_records(front));
        assert(catalog_records(cat).last() == table_bytes(t));
        lemma_opened_catalog_records(front);
        let prefix = canonical_catalog(front);
        lemma_canonical_form(t);
        let d = decoded_table(table_bytes(t));
        lemma_table_roundtrip(t, d);
        assert(d == canonical_form(t));
        assert forall|k: int| 0 <= k < prefix.len() implies text_lt(#[trigger] prefix[k].name, d.name) by {
            assert(prefix[k].name == cat[k].name);
        }
        super::database::lemma_find_table_from(prefix, d.name, 0);
        if find_table(prefix, d.name) is Some {
            let i = find_table(prefix, d.name)->0;
            assert(text_lt(prefix[i].name, d.name));
            lemma_bytes_lt_irreflexive(encode_utf8(d.name));
        }
        lemma_insert_point_end(prefix, d.name, 0);
        assert(prefix.insert(prefix.len() as int, d) =~= canonical_catalog(cat));
    } else {
        assert(catalog_records(cat) =~= Seq::<Seq<u8>>::empty());
        assert(canonical_catalog(cat) =~= Seq::<SpecTable>::empty());
    }
}

/// Checking a value does not look at identity flags.
proof fn lemma_first_value_error_canonical(
    table: Seq<char>,
    columns: Seq<SpecColumn>,
    columns2: Seq<SpecColumn>,
    values: Seq<SpecValue>,
    start: int,
)
    requires
        columns2.len() == columns.len(),
        forall|k: int|
            0 <= k < columns.len() ==> (#[trigger] columns2[k]) == (SpecColumn { identity: false, ..columns[k] }),
    ensures
        first_value_error(table, columns2, values, start) == first_value_error(table, columns, values, start),
    decreases columns.len() - start,
{
    if 0 <= start < columns.len() {
        assert(check_value(table, columns2[start], values[start]) == check_value(table, columns[start], values[start]));
        lemma_first_value_error_canonical(table, columns, columns2, values, start + 1);
    }
}

/// Reading rows gives the same for a table and its canonical form.
proof fn lemma_rows_of_canonical(recs: Seq<Seq<u8>>, t: SpecTable)
    ensures
        rows_of(recs, canonical_form(t)) == rows_of(recs, t),
    decreases recs.len(),
{
    if recs.len() > 0 {
        let c = canonical_form(t);
        assert forall|k: int| 0 <= k < t.columns.len() implies (#[trigger] c.columns[k]) == (SpecColumn {
            identity: false,
            ..t.columns[k]
        }) by {}
        lemma_first_value_error_canonical(t.name, t.columns, c.columns, decoded(recs.last()), 0);
        lemma_rows_of_canonical(recs.drop_last(), t);
    }
}

/// A catalog and its canonical form read the same rows, when no table's
/// first page is the all-ones number.
proof fn lemma_select_canonical(cat: Seq<SpecTable>, pages: Seq<Seq<u8>>, name: Seq<char>)
    requires
        forall|k: int| 0 <= k < cat.len() ==> (#[trigger] cat[k]).first_page != Some(PageId(super::page::NO_PAGE)),
    ensures
        spec_select_all(canonical_catalog(cat), pages, name) == spec_select_all(cat, pages, name),
{
    let c = canonical_catalog(cat);
    assert forall|k: int| 0 <= k < cat.len() implies #[trigger] c[k].name == cat[k].name by {}
    lemma_find_table_same_names(cat, c, name, 0);
    super::database::lemma_find_table_from(cat, name, 0);
    if let Some(i) = find_table(cat, name) {
        let t = cat[i];
        assert(c[i] == canonical_form(t));
        assert(canonical_form(t).first_page == t.first_page);
        match chain_from(pages, t.first_page, Seq::empty()) {
            Some(ids) => lemma_rows_of_canonical(chain_records(pages, ids), t),
            None => {},
        }
    }
}

/// Where `insert_point_from` puts a name: after every table from `start` on
/// whose name does not come after it, before the first one whose name does.
proof fn lemma_insert_point_props(cat: Seq<SpecTable>, name: Seq<char>, start: int)
    requires
        0 <= start <= cat.len(),
    ensures
        start <= insert_point_from(cat, name, start) <= cat.len(),
        forall|j: int| start <= j < insert_point_from(cat, name, start) ==> !text_lt(name, #[trigger] cat[j].name),
        insert_point_from(cat, name, start) < cat.len() ==> text_lt(name, cat[insert_point_from(cat, name, start)].name),
    decreases cat.len() - start,
{
    if start < cat.len() && !text_lt(name, cat[start].name) {
        lemma_insert_point_props(cat, name, start + 1);
    }
}

/// A new name placed at its insertion point keeps the catalog sorted.
pub proof fn lemma_sorted_insert(cat: Seq<SpecTable>, t: SpecTable)
    requires
        sorted_by_name(cat),
        find_table(cat, t.name) is None,
    ensures
        0 <= insert_point(cat, t.name) <= cat.len(),
        sorted_by_name(cat.insert(insert_point(cat, t.name), t)),
{
    let ip = insert_point(cat, t.name);
    lemma_insert_point_props(cat, t.name, 0);
    super::database::lemma_find_table_from(cat, t.name, 0);
    let c2 = cat.insert(ip, t);
    assert forall|a: int, b: int| 0 <= a < b < c2.len() implies text_lt(#[trigger] c2[a].name, #[trigger] c2[b].name) by {
        if a < ip && b < ip {
            assert(c2[a] == cat[a] && c2[b] == cat[b]);
        } else if a < ip && b == ip {
            assert(c2[a] == cat[a]);
            assert(cat[a].name != t.name);
            assert(!text_lt(t.name, cat[a].name));
            lemma_text_lt_total(cat[a].name, t.name);
        } else if a < ip && b > ip {
            assert(c2[a] == cat[a] && c2[b] == cat[b - 1]);
            if a < b - 1 {
            } else {
                lemma_bytes_lt_irreflexive(encode_utf8(cat[a].name));
            }
        } else if a == ip {
            assert(c2[b] == cat[b - 1]);
            if b - 1 > ip {
                lemma_bytes_lt_transitive(encode_utf8(t.name), encode_utf8(cat[ip].name), encode_utf8(cat[b - 1].name));
            }
        } else {
            assert(c2[a] == cat[a - 1] && c2[b] == cat[b - 1]);
        }
    }
}

/// Changing where a table's rows are stored keeps the catalog sorted.
pub proof fn lemma_sorted_update(cat: Seq<SpecTable>, i: int, t: SpecTable)
    requires
        sorted_by_name(cat),
        0 <= i < cat.len(),
        t.name == cat[i].name,
    ensures
        sorted_by_name(cat.update(i, t)),
{
    let c2 = cat.update(i, t);
    assert forall|a: int, b: int| 0 <= a < b < c2.len() implies text_lt(#[trigger] c2[a].name, #[trigger] c2[b].name) by {
        assert(c2[a].name == cat[a].name && c2[b].name == cat[b].name);
    }
}

/// An append leaves the chain starting at a real page.
pub proof fn lemma_append_first_page(
    before: Seq<Seq<u8>>,
    after: Seq<Seq<u8>>,
    first: Option<PageId>,
    rec: Seq<u8>,
    rid: RecordId,
    last: Option<PageId>,
)
    requires
        append_done(before, after, first, rec, Ok::<(RecordId, Option<PageId>), DbError>((rid, last))),
        first != Some(PageId(super::page::NO_PAGE)),
    ensures
        last != Some(PageId(super::page::NO_PAGE)),
{
}

/// Writing rows into a new chain leaves it starting at a real page.
pub proof fn lemma_rows_appended_first_page(
    before: Seq<Seq<u8>>,
    after: Seq<Seq<u8>>,
    rows: Seq<Seq<SpecValue>>,
    last: Option<PageId>,
)
    requires
        rows_appended(before, after, None, rows, last),
    ensures
        last != Some(PageId(super::page::NO_PAGE)),
    decreases rows.len(),
{
    if rows.len() > 0 {
        let (mid, f, rid): (Seq<Seq<u8>>, Option<PageId>, RecordId) = choose|
            mid: Seq<Seq<u8>>,
            f: Option<PageId>,
            rid: RecordId,
        |
            rows_appended(before, mid, None, rows.drop_last(), f) && encodable_row(rows.last())
                && #[trigger] append_done(
                mid,
                after,
                f,
                row_bytes(rows.last()),
                Ok::<(RecordId, Option<PageId>), DbError>((rid, last)),
            );
        lemma_rows_appended_first_page(before, mid, rows.drop_last(), f);
        lemma_append_first_page(mid, after, f, row_bytes(rows.last()), rid, last);
    }
}

/// A database survives a reopen: when its catalog page holds its catalog,
/// the image of its file is accepted and splits into the same pages, and
/// its catalog page reads back as the same tables, each in canonical form
/// (the identity flags of columns are not stored), so that every table
/// reads back the same rows.
pub proof fn lemma_reopen(db: Database)
    requires
        db.wf(),
        db.catalog_stored(),
    ensures
        image_ok(join_pages(db.pages())),
        split_pages(join_pages(db.pages())) == db.pages(),
        catalog_readable(db.pages()),
        opened_catalog(page_records(db.pages()[1])) == Some(canonical_catalog(db.catalog())),
        forall|name: Seq<char>|
            #[trigger] spec_select_all(canonical_catalog(db.catalog()), db.pages(), name) == spec_select_all(
                db.catalog(),
                db.pages(),
                name,
            ),
{
    let cat = db.catalog();
    let pages = db.pages();
    db.lemma_image();
    db.lemma_wf_pages();
    lemma_catalog_page_kind(cat);
    lemma_catalog_page_slots(cat);
    lemma_page_records(pages[1]);
    let slots = page_view(pages[1]).slots;
    assert forall|k: int| 0 <= k < slots.len() implies #[trigger] slots[k] == Some(catalog_records(cat)[k]) by {}
    lemma_slot_records_full(slots, catalog_records(cat));
    lemma_opened_catalog_records(cat);
    assert forall|name: Seq<char>|
        #[trigger] spec_select_all(canonical_catalog(cat), pages, name) == spec_select_all(cat, pages, name) by {
        lemma_select_canonical(cat, pages, name);
    }
}

/// A row that does not fit the table's schema is refused with the schema's
/// error, and nothing changes.
pub proof fn lemma_invalid_insert_changes_nothing(
    cat: Seq<SpecTable>,
    pages: Seq<Seq<u8>>,
    name: Seq<char>,
    row: Seq<SpecValue>,
    cat2: Seq<SpecTable>,
    pages2: Seq<Seq<u8>>,
    r: Result<RecordId, DbError>,
)
    requires
        inserted(cat, pages, name, row, cat2, pages2, r),
        find_table(cat, name) is Some,
        check_row(name, cat[find_table(cat, name)->0].columns, row) is Some,
    ensures
        cat2 == cat,
        pages2 == pages,
        r matches Err(e) && e@ == check_row(name, cat[find_table(cat, name)->0].columns, row)->Some_0,
{
    reveal(inserted);
    super::database::lemma_find_table_from(cat, name, 0);
}

/// A table that was just created reads as empty.
pub proof fn lemma_create_then_select(
    cat: Seq<SpecTable>,
    pages: Seq<Seq<u8>>,
    name: Seq<char>,
    cols: Seq<SpecColumn>,
    cat2: Seq<SpecTable>,
    pages2: Seq<Seq<u8>>,
)
    requires
        created(cat, pages, name, cols, cat2, pages2, Ok::<(), DbError>(())),
    ensures
        find_table(cat2, name) is Some,
        cat2[find_table(cat2, name)->0].columns == cols,
        spec_select_all(cat2, pages2, name) == Ok::<Seq<Seq<SpecValue>>, SpecDbError>(Seq::empty()),
{
    super::database::lemma_find_table_from(cat, name, 0);
    let ip = insert_point(cat, name);
    super::database::lemma_insert_point_from(cat, name, 0);
    let t = SpecTable { name, columns: cols, first_page: None, row_count: 0 };
    let c2 = cat.insert(ip, t);
    assert(c2[ip] == t);
    super::database::lemma_find_table_from(c2, name, 0);
    let i = find_table(c2, name)->0;
    assert(c2[i].name == name);
    assert(i == ip) by {
        if i != ip {
            let ii = if i < ip { i } else { i - 1 };
            assert(c2[i] == cat[ii]);
        }
    }
    assert(chain_from(pages2, None, Seq::empty()) == Some(Seq::<u64>::empty()));
    assert(rows_of(chain_records(pages2, Seq::empty()), t) =~= Some(Seq::<Seq<SpecValue>>::empty()));
}

/// When no row from `start` on has an error, every such row fits the table.
proof fn lemma_first_row_error_none(t: SpecTable, rows: Seq<Seq<SpecValue>>, start: int)
    requires
        0 <= start,
        first_row_error(t, rows, start) is None,
    ensures
        forall|k: int| start <= k < rows.len() ==> check_row(t.name, t.columns, #[trigger] rows[k]) is None,
    decreases rows.len() - start,
{
    if start < rows.len() {
        lemma_first_row_error_none(t, rows, start + 1);
    }
}

/// The chain that starts at `first` consists of pages added after
/// `before`, and it reads back as `rows`, in some order.
pub open spec fn fresh_chain_holds(
    before: Seq<Seq<u8>>,
    after: Seq<Seq<u8>>,
    first: Option<PageId>,
    rows: Seq<Seq<SpecValue>>,
    t: SpecTable,
) -> bool {
    &&& after.len() >= before.len()
    &&& chain_from(after, first, Seq::empty()) is Some
    &&& forall|x: int|
        0 <= x < chain_from(after, first, Seq::empty())->0.len() ==> before.len() <= #[trigger] chain_from(
            after,
            first,
            Seq::empty(),
        )->0[x] < after.len()
    &&& rows_of(first_chain_records(after, first), t) is Some
    &&& rows_of(first_chain_records(after, first), t)->0.to_multiset() == rows.to_multiset()
}

/// The first row of a fresh chain starts it.
proof fn lemma_fresh_step_new(
    before: Seq<Seq<u8>>,
    mid: Seq<Seq<u8>>,
    after: Seq<Seq<u8>>,
    front: Seq<Seq<SpecValue>>,
    row: Seq<SpecValue>,
    f: Option<PageId>,
    first: Option<PageId>,
    rid: RecordId,
    t: SpecTable,
)
    requires
        fresh_chain_holds(before, mid, f, front, t),
        before.len() >= 2,
        encodable_row(row),
        check_row(t.name, t.columns, row) is None,
        append_done(mid, after, f, row_bytes(row), Ok::<(RecordId, Option<PageId>), DbError>((rid, first))),
        f is None,
    ensures
        fresh_chain_holds(before, after, first, front.push(row), t),
{
    lemma_decoded_row(row);
    let rec = row_bytes(row);
    let recs = first_chain_records(mid, f);
    let rs = rows_of(recs, t)->0;
    lemma_append_new_chain(mid, after, rec, rid, first);
    assert(recs =~= Seq::<Seq<u8>>::empty());
    vstd::seq_lib::to_multiset_len(front);
    vstd::seq_lib::to_multiset_len(rs);
    assert(front =~= Seq::<Seq<SpecValue>>::empty());
    assert(seq![rec].drop_last() =~= Seq::<Seq<u8>>::empty());
    assert(rows_of(seq![rec], t) == Some(seq![row]));
    assert(Seq::<Seq<SpecValue>>::empty().push(row) =~= seq![row]);
    assert(front.push(row) =~= seq![row]);
    assert(seq![mid.len() as u64][0] == mid.len() as u64);
}

/// A row that first-fit puts in a page of a fresh chain keeps it fresh.
proof fn lemma_fresh_step_in_page(
    before: Seq<Seq<u8>>,
    mid: Seq<Seq<u8>>,
    after: Seq<Seq<u8>>,
    front: Seq<Seq<SpecValue>>,
    row: Seq<SpecValue>,
    f: Option<PageId>,
    first: Option<PageId>,
    rid: RecordId,
    t: SpecTable,
)
    requires
        fresh_chain_holds(before, mid, f, front, t),
        before.len() >= 2,
        encodable_row(row),
        check_row(t.name, t.columns, row) is None,
        append_done(mid, after, f, row_bytes(row), Ok::<(RecordId, Option<PageId>), DbError>((rid, first))),
        f matches Some(fp) && append_walk(mid, fp.0, row_bytes(row), Seq::empty()) is InPage,
    ensures
        fresh_chain_holds(before, after, first, front.push(row), t),
{
    lemma_decoded_row(row);
    let rec = row_bytes(row);
    let recs = first_chain_records(mid, f);
    let rs = rows_of(recs, t)->0;
    lemma_rows_of_len(recs, t);
    let k = lemma_append_in_page(mid, after, f->0, rec, rid, first);
    lemma_rows_of_insert(recs, t, k, rec);
    vstd::seq_lib::to_multiset_insert(rs, k, row);
    vstd::seq_lib::to_multiset_build(front, row);
}

/// A row that goes to a new page after a fresh chain keeps it fresh.
proof fn lemma_fresh_step_after(
    before: Seq<Seq<u8>>,
    mid: Seq<Seq<u8>>,
    after: Seq<Seq<u8>>,
    front: Seq<Seq<SpecValue>>,
    row: Seq<SpecValue>,
    f: Option<PageId>,
    first: Option<PageId>,
    rid: RecordId,
    t: SpecTable,
)
    requires
        fresh_chain_holds(before, mid, f, front, t),
        before.len() >= 2,
        encodable_row(row),
        check_row(t.name, t.columns, row) is None,
        append_done(mid, after, f, row_bytes(row), Ok::<(RecordId, Option<PageId>), DbError>((rid, first))),
        f matches Some(fp) && append_walk(mid, fp.0, row_bytes(row), Seq::empty()) is After,
    ensures
        fresh_chain_holds(before, after, first, front.push(row), t),
{
    lemma_decoded_row(row);
    let rec = row_bytes(row);
    let ids = chain_from(mid, f, Seq::empty())->0;
    let recs = first_chain_records(mid, f);
    let rs = rows_of(recs, t)->0;
    lemma_rows_of_len(recs, t);
    assert forall|x: int| 0 <= x < ids.len() implies #[trigger] ids[x] != 0 by {}
    lemma_append_after(mid, after, f->0, rec, rid, first);
    lemma_rows_of_insert(recs, t, recs.len() as int, rec);
    assert(recs.insert(recs.len() as int, rec) =~= recs.push(rec));
    vstd::seq_lib::to_multiset_insert(rs, rs.len() as int, row);
    vstd::seq_lib::to_multiset_build(front, row);
    let ids2 = ids.push(mid.len() as u64);
    assert forall|x: int| 0 <= x < ids2.len() implies before.len() <= #[trigger] ids2[x] < after.len() by {
        if x < ids.len() {
            assert(ids2[x] == ids[x]);
        }
    }
}

/// Appending one more row that fits the table to a fresh chain keeps it fresh.
proof fn lemma_fresh_step(
    before: Seq<Seq<u8>>,
    mid: Seq<Seq<u8>>,
    after: Seq<Seq<u8>>,
    front: Seq<Seq<SpecValue>>,
    row: Seq<SpecValue>,
    f: Option<PageId>,
    first: Option<PageId>,
    rid: RecordId,
    t: SpecTable,
)
    requires
        fresh_chain_holds(before, mid, f, front, t),
        before.len() >= 2,
        encodable_row(row),
        check_row(t.name, t.columns, row) is None,
        append_done(mid, after, f, row_bytes(row), Ok::<(RecordId, Option<PageId>), DbError>((rid, first))),
    ensures
        fresh_chain_holds(before, after, first, front.push(row), t),
{
    match f {
        None => lemma_fresh_step_new(before, mid, after, front, row, f, first, rid, t),
        Some(fp) => match append_walk(mid, fp.0, row_bytes(row), Seq::empty()) {
            AppendPlan::InPage { .. } => lemma_fresh_step_in_page(before, mid, after, front, row, f, first, rid, t),
            AppendPlan::After { .. } => lemma_fresh_step_after(before, mid, after, front, row, f, first, rid, t),
            AppendPlan::Fail(_) => {},
        },
    }
}

/// Writing rows that fit a table into a new chain gives a chain of new
/// pages that reads back as the same rows, in some order.
proof fn lemma_fresh_chain(
    before: Seq<Seq<u8>>,
    after: Seq<Seq<u8>>,
    rows: Seq<Seq<SpecValue>>,
    first: Option<PageId>,
    t: SpecTable,
)
    requires
        rows_appended(before, after, None, rows, first),
        before.len() >= 2,
        forall|k: int| 0 <= k < rows.len() ==> check_row(t.name, t.columns, #[trigger] rows[k]) is None,
    ensures
        fresh_chain_holds(before, after, first, rows, t),
    decreases rows.len(),
{
    if rows.len() == 0 {
        assert(first_chain_records(after, first) =~= Seq::<Seq<u8>>::empty());
        assert(rows_of(Seq::<Seq<u8>>::empty(), t) == Some(Seq::<Seq<SpecValue>>::empty()));
        assert(rows =~= Seq::<Seq<SpecValue>>::empty());
    } else {
        let (mid, f, rid): (Seq<Seq<u8>>, Option<PageId>, RecordId) = choose|
            mid: Seq<Seq<u8>>,
            f: Option<PageId>,
            rid: RecordId,
        |
            rows_appended(before, mid, None, rows.drop_last(), f) && encodable_row(rows.last())
                && #[trigger] append_done(
                mid,
                after,
                f,
                row_bytes(rows.last()),
                Ok::<(RecordId, Option<PageId>), DbError>((rid, first)),
            );
        let front = rows.drop_last();
        let row = rows.last();
        assert forall|k: int| 0 <= k < front.len() implies check_row(t.name, t.columns, #[trigger] front[k]) is None by {
            assert(front[k] == rows[k]);
        }
        assert(check_row(t.name, t.columns, row) is None) by {
            assert(rows[rows.len() - 1] == row);
        }
        lemma_fresh_chain(before, mid, front, f, t);
        lemma_fresh_step(before, mid, after, front, row, f, first, rid, t);
        assert(front.push(row) =~= rows);
    }
}

/// What a write of whole rows gives back: after the rows of a table were
/// replaced, reading the table gives exactly the new rows, each as often as
/// it was written (first-fit may store them in another order).
pub proof fn lemma_replace_then_select(
    before: Database,
    after: Database,
    name: Seq<char>,
    rows: Seq<Seq<SpecValue>>,
)
    requires
        before.wf(),
        rows.len() <= u64::MAX,
        replaced(before.catalog(), before.pages(), name, rows, after.catalog(), after.pages(), Ok::<(), DbError>(())),
    ensures
        spec_select_all(after.catalog(), after.pages(), name) is Ok,
        spec_select_all(after.catalog(), after.pages(), name)->Ok_0.to_multiset() == rows.to_multiset(),
{
    reveal(replaced);
    let cat = before.catalog();
    let pages = before.pages();
    before.lemma_wf_pages();
    super::database::lemma_find_table_from(cat, name, 0);
    let i = find_table(cat, name)->0;
    let t = cat[i];
    lemma_first_row_error_none(t, rows, 0);
    let (mid, first): (Seq<Seq<u8>>, Option<PageId>) = choose|mid: Seq<Seq<u8>>, first: Option<PageId>|
        #[trigger] rows_appended(pages, mid, None, rows, first) && {
            let cat3 = cat.update(i, SpecTable { first_page: first, row_count: rows.len() as u64, ..t });
            &&& after.catalog() == cat3
            &&& match catalog_page(cat3) {
                Ok(p) => Ok::<(), DbError>(()) is Ok && page_replaced(mid, after.pages(), 1, p),
                Err(s) => Ok::<(), DbError>(()) matches Err(e) && super::database::same_error(e@, s) && after.pages() == mid,
            }
        };
    let t3 = SpecTable { first_page: first, row_count: rows.len() as u64, ..t };
    let cat2 = after.catalog();
    assert(cat2 == cat.update(i, t3));
    let p1 = match catalog_page(cat2) {
        Ok(p) => p,
        Err(_) => empty_data_page(),
    };
    assert(page_replaced(mid, after.pages(), 1, p1));
    lemma_fresh_chain(pages, mid, rows, first, t);
    let ids = chain_from(mid, first, Seq::empty())->0;
    assert forall|x: int| 0 <= x < ids.len() implies #[trigger] ids[x] != 1 by {}
    lemma_catalog_rewrite(mid, after.pages(), p1, first, ids);
    let recs = first_chain_records(mid, first);
    lemma_rows_of_same_schema(recs, t, t3);
    lemma_rows_of_len(recs, t);
    vstd::seq_lib::to_multiset_len(rows);
    vstd::seq_lib::to_multiset_len(rows_of(recs, t)->0);
    assert forall|x: int| 0 <= x < cat.len() implies #[trigger] cat2[x].name == cat[x].name by {}
    lemma_find_table_same_names(cat, cat2, name, 0);
    assert(cat2[i] == t3);
}

} // verus!
