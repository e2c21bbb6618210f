use super::le::{le_bytes, le_value, lemma_le_bytes_len, lemma_le_roundtrip, lemma_le_value_bound, lemma_pow256_values, push_le, read_le};
use super::error::{corrupt, DbError, SpecDbError};
use vstd::prelude::*;

verus! {

/// The size in bytes of every page.
pub const PAGE_SIZE: usize = 4096;

/// The stable address of a page in a database file.
#[derive(Debug, Clone, Copy, PartialEq, Eq, Hash, PartialOrd, Ord, Structural)]
pub struct PageId(pub u64);

/// A stable address for a row while its page is not rewritten.
#[derive(Debug, Clone, Copy, PartialEq, Eq, Hash, Structural)]
pub struct RecordId {
    pub page_id: PageId,
    pub slot_id: u16,
}

/// A slot is an indirection entry between a record ID and variable-size bytes.
#[derive(Debug, Clone, Copy, PartialEq, Eq, Structural)]
pub struct Slot {
    pub offset: u16,
    pub length: u16,
}

} // verus!

verus! {

pub const HEADER_SIZE: usize = 24;

pub const SLOT_SIZE: usize = 4;

pub const NO_PAGE: u64 = 0xffff_ffff_ffff_ffff;

/// Page 1 stores catalog records; data pages store serialized rows.
#[derive(Debug, Clone, Copy, PartialEq, Eq, Structural)]
pub enum PageKind {
    Catalog,
    Data,
}

/// The byte that marks a page of this kind.
pub open spec fn spec_kind_byte(kind: PageKind) -> u8 {
    match kind {
        PageKind::Catalog => 1,
        PageKind::Data => 2,
    }
}

pub fn kind_byte(kind: PageKind) -> (r: u8)
    ensures
        r == spec_kind_byte(kind),
{
    match kind {
        PageKind::Catalog => 1,
        PageKind::Data => 2,
    }
}

/// The 16-bit little-endian number stored at `at`.
pub open spec fn u16_at(b: Seq<u8>, at: int) -> int {
    le_value(b.subrange(at, at + 2)) as int
}

pub open spec fn slot_count(b: Seq<u8>) -> int {
    u16_at(b, 6)
}

pub open spec fn free_start(b: Seq<u8>) -> int {
    u16_at(b, 8)
}

pub open spec fn free_end(b: Seq<u8>) -> int {
    u16_at(b, 10)
}

pub open spec fn slot_offset(b: Seq<u8>, i: int) -> int {
    u16_at(b, 24 + 4 * i)
}

pub open spec fn slot_length(b: Seq<u8>, i: int) -> int {
    u16_at(b, 26 + 4 * i)
}

/// The 64-bit number naming the next page of a chain.
pub open spec fn next_raw(b: Seq<u8>) -> nat {
    le_value(b.subrange(12, 20))
}

/// The sum of the lengths recorded in the first `n` slots.
pub open spec fn live_total(b: Seq<u8>, n: int) -> int
    decreases n,
{
    if n <= 0 {
        0
    } else {
        live_total(b, n - 1) + slot_length(b, n - 1)
    }
}

/// The page starts with the magic bytes "TRPG".
pub open spec fn has_magic(b: Seq<u8>) -> bool {
    b[0] == 0x54u8 && b[1] == 0x52u8 && b[2] == 0x50u8 && b[3] == 0x47u8
}

/// A well-formed slotted page: the slot table and the record area touch the
/// free gap, and every live record lies inside the record area.
pub open spec fn page_wf(b: Seq<u8>) -> bool {
    &&& b.len() == PAGE_SIZE
    &&& has_magic(b)
    &&& (b[4] == 1u8 || b[4] == 2u8)
    &&& free_start(b) == 24 + 4 * slot_count(b)
    &&& free_start(b) <= free_end(b) <= PAGE_SIZE
    &&& forall|i: int|
        0 <= i < slot_count(b) && #[trigger] slot_length(b, i) != 0 ==> free_end(b) <= slot_offset(
            b,
            i,
        ) && slot_offset(b, i) + slot_length(b, i) <= PAGE_SIZE
    &&& live_total(b, slot_count(b)) <= PAGE_SIZE - free_end(b)
}

/// The record stored in slot `i`, if the slot exists and is not deleted.
pub open spec fn record_at(b: Seq<u8>, i: int) -> Option<Seq<u8>> {
    if 0 <= i < slot_count(b) && slot_length(b, i) != 0 {
        Some(b.subrange(slot_offset(b, i), slot_offset(b, i) + slot_length(b, i)))
    } else {
        None
    }
}

/// The next page of a chain, which the all-ones number marks as absent.
pub open spec fn next_of(b: Seq<u8>) -> Option<PageId> {
    if next_raw(b) == NO_PAGE {
        None
    } else {
        Some(PageId(next_raw(b) as u64))
    }
}

/// What a page holds: its kind, its successor, and one entry per slot.
pub struct SpecPage {
    pub kind: u8,
    pub next: Option<PageId>,
    pub slots: Seq<Option<Seq<u8>>>,
}

pub open spec fn page_view(b: Seq<u8>) -> SpecPage {
    SpecPage {
        kind: b[4],
        next: next_of(b),
        slots: Seq::new(slot_count(b) as nat, |i: int| record_at(b, i)),
    }
}

/// Two byte sequences of equal length that agree outside `[lo, hi)`.
pub open spec fn agree_except(a: Seq<u8>, b: Seq<u8>, lo: int, hi: int) -> bool {
    &&& a.len() == b.len()
    &&& forall|j: int| 0 <= j < a.len() && !(lo <= j < hi) ==> #[trigger] a[j] == b[j]
}

proof fn lemma_u16_frame(a: Seq<u8>, b: Seq<u8>, lo: int, hi: int, x: int)
    requires
        agree_except(a, b, lo, hi),
        0 <= x,
        x + 2 <= a.len(),
        x + 2 <= lo || hi <= x,
    ensures
        u16_at(a, x) == u16_at(b, x),
{
    assert(a.subrange(x, x + 2) =~= b.subrange(x, x + 2));
}

proof fn lemma_range_frame(a: Seq<u8>, b: Seq<u8>, lo: int, hi: int, x: int, y: int)
    requires
        agree_except(a, b, lo, hi),
        0 <= x <= y <= a.len(),
        y <= lo || hi <= x,
    ensures
        a.subrange(x, y) == b.subrange(x, y),
{
    assert(a.subrange(x, y) =~= b.subrange(x, y));
}


/// Header fields are unchanged by writes past the header.
proof fn lemma_header_frame(a: Seq<u8>, b: Seq<u8>, lo: int, hi: int)
    requires
        agree_except(a, b, lo, hi),
        a.len() == PAGE_SIZE,
        24 <= lo,
    ensures
        slot_count(a) == slot_count(b),
        free_start(a) == free_start(b),
        free_end(a) == free_end(b),
        next_raw(a) == next_raw(b),
        has_magic(a) == has_magic(b),
        a[4] == b[4],
{
    lemma_u16_frame(a, b, lo, hi, 6);
    lemma_u16_frame(a, b, lo, hi, 8);
    lemma_u16_frame(a, b, lo, hi, 10);
    lemma_range_frame(a, b, lo, hi, 12, 20);
}

/// The slot entry `i` is unchanged by writes that miss it.
proof fn lemma_slot_frame(a: Seq<u8>, b: Seq<u8>, lo: int, hi: int, i: int)
    requires
        agree_except(a, b, lo, hi),
        0 <= i,
        28 + 4 * i <= a.len(),
        28 + 4 * i <= lo || hi <= 24 + 4 * i,
    ensures
        slot_offset(a, i) == slot_offset(b, i),
        slot_length(a, i) == slot_length(b, i),
{
    lemma_u16_frame(a, b, lo, hi, 24 + 4 * i);
    lemma_u16_frame(a, b, lo, hi, 26 + 4 * i);
}

/// Sums of equal slot lengths are equal.
proof fn lemma_live_total_same(a: Seq<u8>, b: Seq<u8>, n: int)
    requires
        forall|i: int| 0 <= i < n ==> #[trigger] slot_length(a, i) == slot_length(b, i),
    ensures
        live_total(a, n) == live_total(b, n),
    decreases n,
{
    if n > 0 {
        lemma_live_total_same(a, b, n - 1);
    }
}

/// Changing the length of slot `k` changes the sum by the same amount.
proof fn lemma_live_total_fill(a: Seq<u8>, b: Seq<u8>, n: int, k: int, len: int)
    requires
        0 <= k < n,
        slot_length(b, k) == slot_length(a, k) + len,
        forall|i: int| 0 <= i < n && i != k ==> #[trigger] slot_length(a, i) == slot_length(b, i),
    ensures
        live_total(b, n) == live_total(a, n) + len,
    decreases n,
{
    if n - 1 == k {
        lemma_live_total_same(a, b, n - 1);
    } else {
        lemma_live_total_fill(a, b, n - 1, k, len);
    }
}

/// Lengths are never negative, so the sums grow with `n`.
proof fn lemma_live_total_monotone(b: Seq<u8>, m: int, n: int)
    requires
        m <= n,
    ensures
        live_total(b, m) <= live_total(b, n),
    decreases n - m,
{
    if m < n {
        lemma_live_total_monotone(b, m, n - 1);
        lemma_u16_nonneg(b, 26 + 4 * (n - 1));
    }
}

proof fn lemma_u16_nonneg(b: Seq<u8>, at: int)
    ensures
        0 <= u16_at(b, at),
{
}

proof fn lemma_u16_bound(b: Seq<u8>, at: int)
    requires
        0 <= at,
        at + 2 <= b.len(),
    ensures
        0 <= u16_at(b, at) < 0x1_0000,
{
    lemma_le_value_bound(b.subrange(at, at + 2));
    lemma_pow256_values();
}

/// Reads the 16-bit number at `at`.
fn read_u16(b: &Vec<u8>, at: usize) -> (r: u16)
    requires
        at + 2 <= b@.len(),
    ensures
        r as int == u16_at(b@, at as int),
{
    proof {
        lemma_u16_bound(b@, at as int);
    }
    read_le(b.as_slice(), at, 2) as u16
}

/// Stores `v` as a 16-bit little-endian number at `at`.
fn write_u16(b: &mut Vec<u8>, at: usize, v: u16)
    requires
        at + 2 <= old(b)@.len(),
    ensures
        agree_except(old(b)@, final(b)@, at as int, at + 2),
        u16_at(final(b)@, at as int) == v as int,
{
    let _n = b.len();
    b.set(at, (v % 256) as u8);
    b.set(at + 1, (v / 256) as u8);
    proof {
        let s = b@.subrange(at as int, at + 2);
        assert(s.drop_first().drop_first() =~= Seq::<u8>::empty());
        reveal_with_fuel(le_value, 3);
        assert(le_value(s.drop_first()) == s[1] as nat);
        assert(le_value(s) == s[0] as nat + 256 * (s[1] as nat));
    }
}

/// Copies `src` into `b` at `at`.
fn write_bytes(b: &mut Vec<u8>, at: usize, src: &[u8])
    requires
        at + src@.len() <= old(b)@.len(),
    ensures
        agree_except(old(b)@, final(b)@, at as int, at + src@.len()),
        final(b)@.subrange(at as int, at + src@.len()) == src@,
{
    let ghost start = b@;
    let _n = b.len();
    let mut k: usize = 0;
    while k < src.len()
        invariant
            _n == start.len(),
            k <= src@.len(),
            at + src@.len() <= start.len(),
            agree_except(start, b@, at as int, at + src@.len()),
            forall|j: int| 0 <= j < k ==> b@[at + j] == #[trigger] src@[j],
        decreases src@.len() - k,
    {
        b.set(at + k, src[k]);
        k += 1;
    }
    assert(b@.subrange(at as int, at + src@.len()) =~= src@);
}

} // verus!

verus! {

/// What a slot holds after `rec` was stored in it: an empty record reads as deleted.
pub open spec fn stored(rec: Seq<u8>) -> Option<Seq<u8>> {
    if rec.len() == 0 {
        None
    } else {
        Some(rec)
    }
}

/// The slot number of the first deleted slot among the first `n`, if any.
pub open spec fn first_deleted_from(slots: Seq<Option<Seq<u8>>>, start: int) -> Option<int>
    decreases slots.len() - start,
{
    if start < 0 || start >= slots.len() {
        None
    } else if slots[start] is None {
        Some(start)
    } else {
        first_deleted_from(slots, start + 1)
    }
}

/// The sum of the lengths of the live records.
pub open spec fn live_bytes(slots: Seq<Option<Seq<u8>>>) -> int
    decreases slots.len(),
{
    if slots.len() == 0 {
        0
    } else {
        live_bytes(slots.drop_last()) + match slots.last() {
            Some(r) => r.len() as int,
            None => 0,
        }
    }
}

/// The free bytes of a page once its live records are packed together.
pub open spec fn total_free(p: SpecPage) -> int {
    PAGE_SIZE - (24 + 4 * p.slots.len()) - live_bytes(p.slots)
}

/// The live records of `slots`, with their slot numbers, in slot order.
pub open spec fn live_records(slots: Seq<Option<Seq<u8>>>) -> Seq<(u16, Seq<u8>)>
    decreases slots.len(),
{
    if slots.len() == 0 {
        Seq::empty()
    } else {
        let rest = live_records(slots.drop_last());
        match slots.last() {
            Some(r) => rest.push(((slots.len() - 1) as u16, r)),
            None => rest,
        }
    }
}

/// Where the record area starts after a record of `len` bytes went to slot
/// `id` of page `b`: the page is compacted first when the gap between the
/// slot table and the records is too small, and the record goes just below
/// the record area.
pub open spec fn insert_free_end(b: Seq<u8>, id: int, len: int) -> int {
    let required = len + if id == slot_count(b) { 4int } else { 0int };
    let end = if free_end(b) - free_start(b) >= required {
        free_end(b)
    } else {
        PAGE_SIZE - live_total(b, slot_count(b))
    };
    end - len
}

/// The message of a page that is not a well-formed page of kind `kind`.
pub open spec fn wrong_kind_message(kind: PageKind) -> Seq<char> {
    match kind {
        PageKind::Catalog => "expected a Catalog slotted page"@,
        PageKind::Data => "expected a Data slotted page"@,
    }
}

/// A page of variable-size records addressed through a slot table.
pub struct SlottedPage {
    bytes: Vec<u8>,
}

impl SlottedPage {
    /// The bytes of the page.
    pub closed spec fn contents(&self) -> Seq<u8> {
        self.bytes@
    }

    /// The page is well formed.
    pub open spec fn wf(&self) -> bool {
        page_wf(self.contents())
    }

    /// What the page holds. Where it lies in the bytes is stated over
    /// `contents()`: the two ends of the free gap by `free_start` and
    /// `free_end`, and where each slot's record lies by `slot_offset` and
    /// `slot_length`.
    pub open spec fn view_page(&self) -> SpecPage {
        page_view(self.contents())
    }
}


/// Two pages with the same header fields and the same slots hold the same records.
proof fn lemma_same_records(a: Seq<u8>, b: Seq<u8>)
    requires
        a.len() == b.len(),
        slot_count(a) == slot_count(b),
        forall|i: int|
            0 <= i < slot_count(a) ==> #[trigger] slot_length(a, i) == slot_length(b, i),
        forall|i: int|
            0 <= i < slot_count(a) && #[trigger] slot_length(a, i) != 0 ==> a.subrange(
                slot_offset(a, i),
                slot_offset(a, i) + slot_length(a, i),
            ) == b.subrange(slot_offset(b, i), slot_offset(b, i) + slot_length(b, i)),
    ensures
        page_view(a).slots == page_view(b).slots,
        live_total(a, slot_count(a)) == live_total(b, slot_count(b)),
{
    lemma_live_total_same(a, b, slot_count(a));
    assert forall|i: int| 0 <= i < slot_count(a) implies record_at(a, i) == record_at(b, i) by {
        if slot_length(a, i) != 0 {
        }
    }
    assert(page_view(a).slots =~= page_view(b).slots);
}


/// The sum of live record lengths is the sum of the slot lengths.
proof fn lemma_live_bytes(b: Seq<u8>, n: int)
    requires
        page_wf(b),
        0 <= n <= slot_count(b),
    ensures
        live_bytes(Seq::new(n as nat, |i: int| record_at(b, i))) == live_total(b, n),
    decreases n,
{
    if n > 0 {
        lemma_live_bytes(b, n - 1);
        let s = Seq::new(n as nat, |i: int| record_at(b, i));
        assert(s.drop_last() =~= Seq::new((n - 1) as nat, |i: int| record_at(b, i)));
        if slot_length(b, n - 1) != 0 {
            lemma_u16_nonneg(b, 24 + 4 * (n - 1));
        }
    }
}

impl SlottedPage {
    /// An empty page of the given kind: no slots, no next page.
    pub fn new(kind: PageKind) -> (page: Self)
        ensures
            page.wf(),
            page.view_page() == (SpecPage { kind: spec_kind_byte(kind), next: None, slots: Seq::empty() }),
            free_start(page.contents()) == HEADER_SIZE,
            free_end(page.contents()) == PAGE_SIZE,
    {
        let mut bytes: Vec<u8> = Vec::new();
        bytes.push(0x54u8);
        bytes.push(0x52u8);
        bytes.push(0x50u8);
        bytes.push(0x47u8);
        bytes.push(kind_byte(kind));
        bytes.push(0u8);
        push_le(&mut bytes, 0, 2);
        push_le(&mut bytes, HEADER_SIZE as u64, 2);
        push_le(&mut bytes, PAGE_SIZE as u64, 2);
        push_le(&mut bytes, NO_PAGE, 8);
        let ghost header = bytes@;
        proof {
            lemma_le_bytes_len(0, 2);
            lemma_le_bytes_len(24, 2);
            lemma_le_bytes_len(4096, 2);
            lemma_le_bytes_len(NO_PAGE as nat, 8);
            assert(header.len() == 20);
        }
        while bytes.len() < PAGE_SIZE
            invariant
                20 <= bytes@.len() <= PAGE_SIZE,
                bytes@.subrange(0, 20) == header,
            decreases PAGE_SIZE - bytes@.len(),
        {
            bytes.push(0u8);
            assert(bytes@.subrange(0, 20) =~= header);
        }
        proof {
            lemma_pow256_values();
            lemma_le_roundtrip(0, 2);
            lemma_le_roundtrip(24, 2);
            lemma_le_roundtrip(4096, 2);
            lemma_le_roundtrip(NO_PAGE as nat, 8);
            let b = bytes@;
            assert(b.subrange(6, 8) =~= header.subrange(6, 8));
            assert(header.subrange(6, 8) =~= le_bytes(0, 2));
            assert(b.subrange(8, 10) =~= header.subrange(8, 10));
            assert(header.subrange(8, 10) =~= le_bytes(24, 2));
            assert(b.subrange(10, 12) =~= header.subrange(10, 12));
            assert(header.subrange(10, 12) =~= le_bytes(4096, 2));
            assert(b.subrange(12, 20) =~= header.subrange(12, 20));
            assert(header.subrange(12, 20) =~= le_bytes(NO_PAGE as nat, 8));
            assert(b[0] == header[0] && b[1] == header[1] && b[2] == header[2] && b[3] == header[3] && b[4] == header[4]);
            assert(page_view(b).slots =~= Seq::<Option<Seq<u8>>>::empty());
        }
        SlottedPage { bytes }
    }
}


/// The records of `slots` as pairs of slot number and bytes.
pub open spec fn records_view(r: Seq<(u16, &[u8])>) -> Seq<(u16, Seq<u8>)> {
    r.map_values(|p: (u16, &[u8])| (p.0, p.1@))
}

impl SlottedPage {
    /// Accepts `bytes` as a page of kind `expected` only if its header and
    /// slot table describe a well-formed page.
    pub(crate) fn from_bytes(bytes: Vec<u8>, expected: PageKind) -> (r: Result<Self, DbError>)
        ensures
            r is Ok <==> page_wf(bytes@) && bytes@[4] == spec_kind_byte(expected),
            r matches Ok(p) ==> p.contents() == bytes@,
            r matches Err(e) ==> e is Corrupt,
            bytes@.len() == PAGE_SIZE && !(has_magic(bytes@) && bytes@[4] == spec_kind_byte(expected))
                ==> (r matches Err(e) && e@ == SpecDbError::Corrupt(wrong_kind_message(expected))),
    {
        if bytes.len() != PAGE_SIZE {
            return Err(corrupt("page has the wrong size"));
        }
        if bytes[0] != 0x54u8 || bytes[1] != 0x52u8 || bytes[2] != 0x50u8 || bytes[3] != 0x47u8
            || bytes[4] != kind_byte(expected) {
            return Err(
                match expected {
                    PageKind::Catalog => corrupt("expected a Catalog slotted page"),
                    PageKind::Data => corrupt("expected a Data slotted page"),
                },
            );
        }
        let count = read_u16(&bytes, 6);
        let start = read_u16(&bytes, 8);
        let end = read_u16(&bytes, 10);
        if start as usize != HEADER_SIZE + count as usize * SLOT_SIZE || start > end || end as usize
            > PAGE_SIZE {
            return Err(corrupt("Invalid slotted-page boundaries"));
        }
        let ghost b = bytes@;
        let mut total: usize = 0;
        let mut i: u16 = 0;
        while i < count
            invariant
                b == bytes@,
                b.len() == PAGE_SIZE,
                has_magic(b) && b[4] == spec_kind_byte(expected),
                count as int == slot_count(b),
                start as int == free_start(b),
                end as int == free_end(b),
                free_start(b) == 24 + 4 * slot_count(b),
                free_start(b) <= free_end(b) <= PAGE_SIZE,
                i <= count,
                total as int == live_total(b, i as int),
                total <= PAGE_SIZE,
                forall|j: int|
                    0 <= j < i && #[trigger] slot_length(b, j) != 0 ==> free_end(b) <= slot_offset(
                        b,
                        j,
                    ) && slot_offset(b, j) + slot_length(b, j) <= PAGE_SIZE,
            decreases count - i,
        {
            let at = HEADER_SIZE + i as usize * SLOT_SIZE;
            let offset = read_u16(&bytes, at);
            let length = read_u16(&bytes, at + 2);
            if length != 0 && (offset < end || offset as usize + length as usize > PAGE_SIZE) {
                assert(slot_length(b, i as int) != 0);
                assert(!(free_end(b) <= slot_offset(b, i as int) && slot_offset(b, i as int)
                    + slot_length(b, i as int) <= PAGE_SIZE));
                return Err(corrupt("slot points outside record area"));
            }
            if total + length as usize > PAGE_SIZE {
                proof {
                    lemma_live_total_monotone(b, i + 1, count as int);
                }
                return Err(corrupt("records exceed the record area"));
            }
            total = total + length as usize;
            i = i + 1;
        }
        if total > PAGE_SIZE - end as usize {
            return Err(corrupt("records exceed the record area"));
        }
        Ok(SlottedPage { bytes })
    }

    /// The number of entries in the slot table.
    pub(crate) fn slot_count(&self) -> (r: u16)
        requires
            self.wf(),
        ensures
            r as int == slot_count(self.contents()),
            r as int == self.view_page().slots.len(),
    {
        read_u16(&self.bytes, 6)
    }

    pub fn free_start(&self) -> (r: u16)
        requires
            self.wf(),
        ensures
            r as int == free_start(self.contents()),
    {
        read_u16(&self.bytes, 8)
    }

    pub fn free_end(&self) -> (r: u16)
        requires
            self.wf(),
        ensures
            r as int == free_end(self.contents()),
    {
        read_u16(&self.bytes, 10)
    }

    /// The free gap between the slot table and the records.
    fn contiguous_free(&self) -> (r: usize)
        requires
            self.wf(),
        ensures
            r as int == free_end(self.bytes@) - free_start(self.bytes@),
    {
        (self.free_end() - self.free_start()) as usize
    }

    /// The slot entry `slot_id`, if the slot table has one.
    fn slot(&self, slot_id: u16) -> (r: Option<Slot>)
        requires
            self.wf(),
        ensures
            slot_id < slot_count(self.bytes@) ==> r == Some(
                Slot {
                    offset: slot_offset(self.bytes@, slot_id as int) as u16,
                    length: slot_length(self.bytes@, slot_id as int) as u16,
                },
            ),
            slot_id >= slot_count(self.bytes@) ==> r is None,
            r matches Some(s) ==> s.offset as int == slot_offset(self.bytes@, slot_id as int)
                && s.length as int == slot_length(self.bytes@, slot_id as int),
    {
        if slot_id >= self.slot_count() {
            return None;
        }
        let at = HEADER_SIZE + slot_id as usize * SLOT_SIZE;
        Some(Slot { offset: read_u16(&self.bytes, at), length: read_u16(&self.bytes, at + 2) })
    }

    /// The record in slot `slot_id`, or `None` for a missing or deleted slot.
    pub fn get(&self, slot_id: u16) -> (r: Result<Option<&[u8]>, DbError>)
        requires
            self.wf(),
        ensures
            r is Ok,
            r matches Ok(o) ==> match o {
                Some(s) => self.view_page().slots.len() > slot_id
                    && self.view_page().slots[slot_id as int] == Some(s@),
                None => self.view_page().slots.len() <= slot_id
                    || self.view_page().slots[slot_id as int] is None,
            },
    {
        let slot = match self.slot(slot_id) {
            Some(slot) => slot,
            None => return Ok(None),
        };
        if slot.length == 0 {
            return Ok(None);
        }
        let start = slot.offset as usize;
        let end = start + slot.length as usize;
        Ok(Some(&self.bytes.as_slice()[start..end]))
    }

    /// All live records together with their stable slot numbers.
    pub(crate) fn records(&self) -> (r: Result<Vec<(u16, &[u8])>, DbError>)
        requires
            self.wf(),
        ensures
            r matches Ok(v) && records_view(v@) == live_records(self.view_page().slots),
    {
        let ghost slots = self.view_page().slots;
        let mut out: Vec<(u16, &[u8])> = Vec::new();
        let count = self.slot_count();
        let mut slot_id: u16 = 0;
        while slot_id < count
            invariant
                self.wf(),
                slots == self.view_page().slots,
                count as int == slots.len(),
                slot_id <= count,
                records_view(out@) == live_records(slots.take(slot_id as int)),
            decreases count - slot_id,
        {
            let got = self.get(slot_id);
            assert(slots.take(slot_id + 1).drop_last() =~= slots.take(slot_id as int));
            if let Ok(Some(record)) = got {
                out.push((slot_id, record));
                assert(records_view(out@) =~= live_records(slots.take(slot_id + 1)));
            }
            slot_id = slot_id + 1;
        }
        assert(slots.take(count as int) =~= slots);
        Ok(out)
    }

    /// The page ID of the next page in a linked page chain, if present.
    pub(crate) fn next_page(&self) -> (r: Option<PageId>)
        requires
            self.wf(),
        ensures
            r == self.view_page().next,
    {
        let value = read_le(self.bytes.as_slice(), 12, 8);
        if value == NO_PAGE {
            None
        } else {
            Some(PageId(value))
        }
    }

    /// The complete page image, for writing it back to storage.
    pub(crate) fn bytes(&self) -> (r: &[u8])
        ensures
            r@ == self.contents(),
    {
        self.bytes.as_slice()
    }

    /// The bytes of the page, taken out of it.
    pub(crate) fn into_bytes(self) -> (r: Vec<u8>)
        ensures
            r@ == self.contents(),
    {
        self.bytes
    }
}


/// Rewriting the next-page field keeps the header and every record.
proof fn lemma_write_next(a: Seq<u8>, b: Seq<u8>)
    requires
        page_wf(a),
        agree_except(a, b, 12, 20),
    ensures
        page_wf(b),
        page_view(b).slots == page_view(a).slots,
        b[4] == a[4],
{
    lemma_u16_frame(a, b, 12, 20, 6);
    lemma_u16_frame(a, b, 12, 20, 8);
    lemma_u16_frame(a, b, 12, 20, 10);
    assert forall|i: int| 0 <= i < slot_count(a) implies #[trigger] slot_length(b, i)
        == slot_length(a, i) && slot_offset(a, i) == slot_offset(b, i) by {
        lemma_slot_frame(a, b, 12, 20, i);
    }
    assert forall|i: int| 0 <= i < slot_count(a) && #[trigger] slot_length(a, i) != 0 implies a.subrange(
        slot_offset(a, i),
        slot_offset(a, i) + slot_length(a, i),
    ) == b.subrange(slot_offset(b, i), slot_offset(b, i) + slot_length(b, i)) by {
        lemma_range_frame(a, b, 12, 20, slot_offset(a, i), slot_offset(a, i) + slot_length(a, i));
    }
    lemma_same_records(a, b);
}

impl SlottedPage {
    /// Stores the next page ID, or the all-ones marker when this is the last page.
    pub(crate) fn set_next_page(&mut self, page_id: Option<PageId>)
        requires
            old(self).wf(),
        ensures
            final(self).wf(),
            final(self).view_page() == (SpecPage {
                next: match page_id {
                    Some(id) => if id.0 == NO_PAGE { None } else { Some(id) },
                    None => None,
                },
                ..old(self).view_page()
            }),
    {
        let value = match page_id {
            Some(id) => id.0,
            None => NO_PAGE,
        };
        let mut digits: Vec<u8> = Vec::new();
        push_le(&mut digits, value, 8);
        proof {
            lemma_le_bytes_len(value as nat, 8);
            lemma_pow256_values();
            lemma_le_roundtrip(value as nat, 8);
        }
        let ghost before = self.bytes@;
        write_bytes(&mut self.bytes, 12, digits.as_slice());
        proof {
            lemma_write_next(before, self.bytes@);
            assert(self.bytes@.subrange(12, 20) == digits@);
        }
    }

    /// Packs the live records at the end of the page so that the free space
    /// is one contiguous gap.
    fn compact(&mut self)
        requires
            old(self).wf(),
        ensures
            final(self).wf(),
            final(self).view_page() == old(self).view_page(),
            free_start(final(self).bytes@) == free_start(old(self).bytes@),
            free_end(final(self).bytes@) == PAGE_SIZE - live_total(
                old(self).bytes@,
                slot_count(old(self).bytes@),
            ),
    {
        let original = vstd::slice::slice_to_vec(self.bytes.as_slice());
        let ghost o = original@;
        let count = self.slot_count();
        proof {
            lemma_live_total_monotone(o, 0, count as int);
        }
        let mut end: usize = PAGE_SIZE;
        let mut id: u16 = 0;
        while id < count
            invariant
                page_wf(o),
                o == original@,
                old(self).bytes@ == o,
                count as int == slot_count(o),
                id <= count,
                self.bytes@.len() == PAGE_SIZE,
                end as int == PAGE_SIZE - live_total(o, id as int),
                live_total(o, id as int) <= live_total(o, count as int),
                forall|j: int| 0 <= j < 24 ==> #[trigger] self.bytes@[j] == o[j],
                forall|j: int| 24 + 4 * id <= j < end ==> #[trigger] self.bytes@[j] == o[j],
                forall|i: int| 0 <= i < id ==> #[trigger] slot_length(self.bytes@, i) == slot_length(o, i),
                forall|i: int|
                    0 <= i < id && #[trigger] slot_length(o, i) != 0 ==> end <= slot_offset(
                        self.bytes@,
                        i,
                    ) && slot_offset(self.bytes@, i) + slot_length(o, i) <= PAGE_SIZE
                        && self.bytes@.subrange(
                        slot_offset(self.bytes@, i),
                        slot_offset(self.bytes@, i) + slot_length(o, i),
                    ) == o.subrange(slot_offset(o, i), slot_offset(o, i) + slot_length(o, i)),
            decreases count - id,
        {
            proof {
                lemma_live_total_monotone(o, id + 1, count as int);
                lemma_live_total_monotone(o, 0, id as int);
                lemma_u16_nonneg(o, 26 + 4 * id);
                assert(free_end(o) >= 24 + 4 * count);
            }
            let at = HEADER_SIZE + id as usize * SLOT_SIZE;
            let offset = read_u16(&original, at);
            let length = read_u16(&original, at + 2);
            let ghost cur = self.bytes@;
            assert(cur.subrange(at + 2, at + 4) =~= o.subrange(at + 2, at + 4));
            assert(cur.subrange(at as int, at + 2) =~= o.subrange(at as int, at + 2));
            if length != 0 {
                assert(slot_length(o, id as int) != 0);
                assert(live_total(o, id + 1) == live_total(o, id as int) + length);
                assert(end - length >= free_end(o));
                assert(offset as int + length as int <= PAGE_SIZE);
                let new_end = end - length as usize;
                let source = &original.as_slice()[offset as usize..offset as usize + length as usize];
                write_bytes(&mut self.bytes, new_end, source);
                let ghost mid = self.bytes@;
                write_u16(&mut self.bytes, at, new_end as u16);
                let ghost fin = self.bytes@;
                proof {
                    assert forall|j: int| 0 <= j < 24 implies #[trigger] fin[j] == o[j] by {
                        assert(mid[j] == cur[j]);
                    }
                    assert forall|j: int| 24 + 4 * (id + 1) <= j < new_end implies #[trigger] fin[j] == o[j] by {
                        assert(mid[j] == cur[j]);
                    }
                    assert forall|i: int| 0 <= i < id + 1 implies #[trigger] slot_length(fin, i)
                        == slot_length(o, i) by {
                        if i < id {
                            lemma_slot_frame(cur, mid, new_end as int, end as int, i);
                            lemma_slot_frame(mid, fin, at as int, at + 2, i);
                        } else {
                            lemma_u16_frame(cur, mid, new_end as int, end as int, at + 2);
                            lemma_u16_frame(mid, fin, at as int, at + 2, at + 2);
                        }
                    }
                    assert forall|i: int|
                        0 <= i < id + 1 && #[trigger] slot_length(o, i) != 0 implies new_end
                        <= slot_offset(fin, i) && slot_offset(fin, i) + slot_length(o, i)
                        <= PAGE_SIZE && fin.subrange(
                        slot_offset(fin, i),
                        slot_offset(fin, i) + slot_length(o, i),
                    ) == o.subrange(slot_offset(o, i), slot_offset(o, i) + slot_length(o, i)) by {
                        if i < id {
                            lemma_slot_frame(cur, mid, new_end as int, end as int, i);
                            lemma_slot_frame(mid, fin, at as int, at + 2, i);
                            let x = slot_offset(cur, i);
                            lemma_range_frame(cur, mid, new_end as int, end as int, x, x + slot_length(o, i));
                            lemma_range_frame(mid, fin, at as int, at + 2, x, x + slot_length(o, i));
                        } else {
                            lemma_range_frame(mid, fin, at as int, at + 2, new_end as int, end as int);
                        }
                    }
                }
                end = new_end;
            } else {
                assert(slot_length(cur, id as int) == slot_length(o, id as int));
            }
            id = id + 1;
        }
        let ghost before = self.bytes@;
        write_u16(&mut self.bytes, 10, end as u16);
        proof {
            let fin = self.bytes@;
            assert forall|j: int| 0 <= j < 10 || 12 <= j < 24 implies #[trigger] fin[j] == o[j] by {
                assert(before[j] == o[j]);
            }
            assert(fin.subrange(6, 8) =~= o.subrange(6, 8));
            assert(fin.subrange(8, 10) =~= o.subrange(8, 10));
            assert(fin.subrange(12, 20) =~= o.subrange(12, 20));
            assert forall|i: int| 0 <= i < count implies #[trigger] slot_length(fin, i)
                == slot_length(o, i) by {
                lemma_slot_frame(before, fin, 10, 12, i);
            }
            assert forall|i: int|
                0 <= i < count && #[trigger] slot_length(o, i) != 0 implies fin.subrange(
                slot_offset(fin, i),
                slot_offset(fin, i) + slot_length(fin, i),
            ) == o.subrange(slot_offset(o, i), slot_offset(o, i) + slot_length(o, i)) by {
                lemma_slot_frame(before, fin, 10, 12, i);
                let x = slot_offset(before, i);
                lemma_range_frame(before, fin, 10, 12, x, x + slot_length(o, i));
            }
            lemma_same_records(o, fin);
            assert forall|i: int|
                0 <= i < slot_count(fin) && #[trigger] slot_length(fin, i) != 0 implies free_end(fin)
                <= slot_offset(fin, i) && slot_offset(fin, i) + slot_length(fin, i) <= PAGE_SIZE by {
                lemma_slot_frame(before, fin, 10, 12, i);
            }
            assert(page_view(fin) =~= page_view(o));
        }
    }
}


/// The slot that a new record goes to and the slots afterwards, or the error.
pub open spec fn insert_result(p: SpecPage, rec: Seq<u8>) -> Result<(int, Seq<Option<Seq<u8>>>), SpecDbError> {
    if rec.len() > 0xffff || rec.len() + 28 > PAGE_SIZE {
        Err(SpecDbError::RecordTooLarge { size: rec.len() as usize, maximum: 4068 })
    } else {
        match first_deleted_from(p.slots, 0) {
            Some(id) => if total_free(p) < rec.len() {
                Err(SpecDbError::PageFull)
            } else {
                Ok((id, p.slots.update(id, stored(rec))))
            },
            None => if total_free(p) < rec.len() + 4 {
                Err(SpecDbError::PageFull)
            } else {
                Ok((p.slots.len() as int, p.slots.push(stored(rec))))
            },
        }
    }
}

/// Records are addressed by slots: a record that a page takes is found in
/// the slot it was given, which was free or new, and every other slot keeps
/// what it held.
pub proof fn lemma_insert_then_get(p: SpecPage, rec: Seq<u8>)
    requires
        insert_result(p, rec) is Ok,
        rec.len() > 0,
    ensures
        ({
            let (slot, slots) = insert_result(p, rec)->Ok_0;
            &&& 0 <= slot < slots.len()
            &&& slots[slot] == Some(rec)
            &&& slot < p.slots.len() ==> p.slots[slot] is None
            &&& slots.len() >= p.slots.len()
            &&& forall|k: int| 0 <= k < p.slots.len() && k != slot ==> #[trigger] slots[k] == p.slots[k]
        }),
{
    lemma_first_deleted(p.slots, 0);
}

pub proof fn lemma_first_deleted(slots: Seq<Option<Seq<u8>>>, start: int)
    requires
        0 <= start <= slots.len(),
    ensures
        first_deleted_from(slots, start) is Some ==> {
            let i = first_deleted_from(slots, start)->0;
            &&& start <= i < slots.len()
            &&& slots[i] is None
            &&& forall|k: int| start <= k < i ==> #[trigger] slots[k] is Some
        },
        first_deleted_from(slots, start) is None ==> forall|k: int|
            start <= k < slots.len() ==> #[trigger] slots[k] is Some,
    decreases slots.len() - start,
{
    if start < slots.len() && slots[start] is Some {
        lemma_first_deleted(slots, start + 1);
    }
}

impl SlottedPage {
    /// The first deleted slot, if any.
    fn find_deleted(&self) -> (r: Option<u16>)
        requires
            self.wf(),
        ensures
            same_slot(r, first_deleted_from(self.view_page().slots, 0)),
    {
        let ghost slots = self.view_page().slots;
        let count = self.slot_count();
        let mut id: u16 = 0;
        while id < count
            invariant
                self.wf(),
                slots == self.view_page().slots,
                count as int == slots.len(),
                id <= count,
                first_deleted_from(slots, 0) == first_deleted_from(slots, id as int),
            decreases count - id,
        {
            let at = HEADER_SIZE + id as usize * SLOT_SIZE;
            if read_u16(&self.bytes, at + 2) == 0 {
                assert(slots[id as int] is None);
                return Some(id);
            }
            assert(slots[id as int] is Some);
            id = id + 1;
        }
        None
    }

    /// Writes `record` just below the record area and points slot `id` at it.
    fn place(&mut self, id: u16, record: &[u8])
        requires
            old(self).bytes@.len() == PAGE_SIZE,
            has_magic(old(self).bytes@),
            old(self).bytes@[4] == 1u8 || old(self).bytes@[4] == 2u8,
            free_start(old(self).bytes@) == 24 + 4 * slot_count(old(self).bytes@),
            free_start(old(self).bytes@) <= free_end(old(self).bytes@) <= PAGE_SIZE,
            id < slot_count(old(self).bytes@),
            forall|i: int|
                0 <= i < slot_count(old(self).bytes@) && i != id && #[trigger] slot_length(old(self).bytes@, i) != 0
                    ==> free_end(old(self).bytes@) <= slot_offset(old(self).bytes@, i)
                    && slot_offset(old(self).bytes@, i) + slot_length(old(self).bytes@, i) <= PAGE_SIZE,
            live_total(old(self).bytes@, slot_count(old(self).bytes@)) - slot_length(old(self).bytes@, id as int)
                <= PAGE_SIZE - free_end(old(self).bytes@),
            record@.len() <= free_end(old(self).bytes@) - free_start(old(self).bytes@),
        ensures
            page_wf(final(self).bytes@),
            final(self).view_page() == (SpecPage {
                slots: Seq::new(slot_count(old(self).bytes@) as nat, |i: int| record_at(old(self).bytes@, i)).update(id as int, stored(record@)),
                ..page_view(old(self).bytes@)
            }),
            free_start(final(self).bytes@) == free_start(old(self).bytes@),
            free_end(final(self).bytes@) == free_end(old(self).bytes@) - record@.len(),
            slot_offset(final(self).bytes@, id as int) == free_end(final(self).bytes@),
            slot_length(final(self).bytes@, id as int) == record@.len(),
    {
        let ghost a = self.bytes@;
        let end = read_u16(&self.bytes, 10);
        let offset = end as usize - record.len();
        write_bytes(&mut self.bytes, offset, record);
        let ghost b1 = self.bytes@;
        write_u16(&mut self.bytes, 10, offset as u16);
        let ghost b2 = self.bytes@;
        let at = HEADER_SIZE + id as usize * SLOT_SIZE;
        write_u16(&mut self.bytes, at, offset as u16);
        let ghost b3 = self.bytes@;
        write_u16(&mut self.bytes, at + 2, record.len() as u16);
        proof {
            let b4 = self.bytes@;
            let count = slot_count(a);
            let len = record@.len() as int;
            assert forall|j: int| 0 <= j < 24 && !(10 <= j < 12) implies #[trigger] b4[j] == a[j] by {
                assert(b1[j] == a[j]);
                assert(b2[j] == b1[j]);
                assert(b3[j] == b2[j]);
            }
            assert(b4.subrange(6, 8) =~= a.subrange(6, 8));
            assert(b4.subrange(8, 10) =~= a.subrange(8, 10));
            assert(b4.subrange(12, 20) =~= a.subrange(12, 20));
            assert(b4.subrange(10, 12) =~= b2.subrange(10, 12));
            assert(free_end(b4) == offset);
            assert forall|i: int| 0 <= i < count && i != id implies #[trigger] slot_length(b4, i)
                == slot_length(a, i) && slot_offset(b4, i) == slot_offset(a, i) by {
                lemma_slot_frame(a, b1, offset as int, end as int, i);
                lemma_slot_frame(b1, b2, 10, 12, i);
                lemma_slot_frame(b2, b3, at as int, at + 2, i);
                lemma_slot_frame(b3, b4, at + 2, at + 4, i);
            }
            assert(b4.subrange(at as int, at + 2) =~= b3.subrange(at as int, at + 2));
            assert(slot_offset(b4, id as int) == offset);
            assert(slot_length(b4, id as int) == len);
            assert forall|i: int| 0 <= i < count && i != id && #[trigger] slot_length(a, i) != 0 implies
                b4.subrange(slot_offset(b4, i), slot_offset(b4, i) + slot_length(b4, i))
                == a.subrange(slot_offset(a, i), slot_offset(a, i) + slot_length(a, i)) by {
                let x = slot_offset(a, i);
                let y = x + slot_length(a, i);
                lemma_range_frame(a, b1, offset as int, end as int, x, y);
                lemma_range_frame(b1, b2, 10, 12, x, y);
                lemma_range_frame(b2, b3, at as int, at + 2, x, y);
                lemma_range_frame(b3, b4, at + 2, at + 4, x, y);
            }
            let lo = offset as int;
            let hi = end as int;
            lemma_range_frame(b1, b2, 10, 12, lo, hi);
            lemma_range_frame(b2, b3, at as int, at + 2, lo, hi);
            lemma_range_frame(b3, b4, at + 2, at + 4, lo, hi);
            assert(b4.subrange(lo, hi) == record@);
            lemma_live_total_fill(a, b4, count, id as int, len - slot_length(a, id as int));
            assert forall|i: int|
                0 <= i < slot_count(b4) && #[trigger] slot_length(b4, i) != 0 implies free_end(b4)
                <= slot_offset(b4, i) && slot_offset(b4, i) + slot_length(b4, i) <= PAGE_SIZE by {
                if i != id {
                    assert(slot_length(a, i) != 0);
                }
            }
            assert forall|i: int| 0 <= i < count implies #[trigger] record_at(b4, i) == (if i == id {
                stored(record@)
            } else {
                record_at(a, i)
            }) by {
                if i != id && slot_length(a, i) != 0 {
                    assert(slot_length(b4, i) != 0);
                }
            }
            assert(page_view(b4).slots =~= Seq::new(count as nat, |i: int| record_at(a, i)).update(
                id as int,
                stored(record@),
            ));
        }
    }
}

/// An executable slot number that stands for a mathematical one.
pub open spec fn same_slot(r: Option<u16>, s: Option<int>) -> bool {
    match r {
        Some(i) => s == Some(i as int),
        None => s is None,
    }
}


impl SlottedPage {
    /// Adds a slot for `record` at the end of the slot table.
    fn append_slot(&mut self, record: &[u8]) -> (id: u16)
        requires
            old(self).wf(),
            record@.len() + 4 <= free_end(old(self).bytes@) - free_start(old(self).bytes@),
        ensures
            final(self).wf(),
            id as int == old(self).view_page().slots.len(),
            final(self).view_page() == (SpecPage {
                slots: old(self).view_page().slots.push(stored(record@)),
                ..old(self).view_page()
            }),
            free_start(final(self).bytes@) == free_start(old(self).bytes@) + 4,
            free_end(final(self).bytes@) == free_end(old(self).bytes@) - record@.len(),
            slot_offset(final(self).bytes@, id as int) == free_end(final(self).bytes@),
            slot_length(final(self).bytes@, id as int) == record@.len(),
    {
        let ghost a = self.bytes@;
        let count = self.slot_count();
        let start = self.free_start();
        write_u16(&mut self.bytes, 6, count + 1);
        let ghost b1 = self.bytes@;
        write_u16(&mut self.bytes, 8, start + 4);
        proof {
            let b2 = self.bytes@;
            assert forall|j: int| 0 <= j < 6 || 10 <= j < 24 implies #[trigger] b2[j] == a[j] by {
                assert(b1[j] == a[j]);
            }
            assert(b2.subrange(10, 12) =~= a.subrange(10, 12));
            assert(b2.subrange(12, 20) =~= a.subrange(12, 20));
            assert(b2.subrange(6, 8) =~= b1.subrange(6, 8));
            assert forall|i: int| 0 <= i < count implies #[trigger] slot_length(b2, i)
                == slot_length(a, i) && slot_offset(b2, i) == slot_offset(a, i) by {
                lemma_slot_frame(a, b1, 6, 8, i);
                lemma_slot_frame(b1, b2, 8, 10, i);
            }
            assert forall|i: int| 0 <= i < count && #[trigger] slot_length(a, i) != 0 implies
                b2.subrange(slot_offset(b2, i), slot_offset(b2, i) + slot_length(b2, i))
                == a.subrange(slot_offset(a, i), slot_offset(a, i) + slot_length(a, i)) by {
                let x = slot_offset(a, i);
                let y = x + slot_length(a, i);
                lemma_range_frame(a, b1, 6, 8, x, y);
                lemma_range_frame(b1, b2, 8, 10, x, y);
            }
            lemma_live_total_same(a, b2, count as int);
            assert(live_total(b2, count + 1) == live_total(b2, count as int) + slot_length(b2, count as int));
            assert forall|i: int| 0 <= i < count implies #[trigger] record_at(b2, i) == record_at(a, i) by {
                if slot_length(a, i) != 0 {
                    assert(slot_length(b2, i) != 0);
                }
            }
        }
        let ghost b2 = self.bytes@;
        self.place(count, record);
        proof {
            assert(Seq::new((count + 1) as nat, |i: int| record_at(b2, i)).update(count as int, stored(record@))
                =~= page_view(a).slots.push(stored(record@)));
        }
        count
    }

    /// Adds a record to the page and returns the slot ID used to find it later.
    /// A deleted slot is reused when there is one; otherwise the slot table grows.
    pub fn insert(&mut self, record: &[u8]) -> (r: Result<u16, DbError>)
        requires
            old(self).wf(),
        ensures
            final(self).wf(),
            final(self).view_page().kind == old(self).view_page().kind,
            final(self).view_page().next == old(self).view_page().next,
            r matches Ok(id) ==> insert_result(old(self).view_page(), record@) == Ok::<
                (int, Seq<Option<Seq<u8>>>),
                SpecDbError,
            >((id as int, final(self).view_page().slots)),
            r matches Err(e) ==> insert_result(old(self).view_page(), record@) == Err::<
                (int, Seq<Option<Seq<u8>>>),
                SpecDbError,
            >(e@)
                && final(self).view_page().slots == old(self).view_page().slots,
            r matches Err(e) && e is RecordTooLarge ==> final(self).contents() == old(self).contents(),
            r matches Ok(id) ==> free_start(final(self).contents()) == 24 + 4 * final(self).view_page().slots.len()
                && free_end(final(self).contents()) == insert_free_end(old(self).contents(), id as int, record@.len() as int),
            r matches Ok(id) ==> slot_offset(final(self).contents(), id as int) == free_end(final(self).contents())
                && slot_length(final(self).contents(), id as int) == record@.len(),
    {
        if record.len() > 0xffff || record.len() + HEADER_SIZE + SLOT_SIZE > PAGE_SIZE {
            return Err(
                DbError::RecordTooLarge {
                    size: record.len(),
                    maximum: PAGE_SIZE - HEADER_SIZE - SLOT_SIZE,
                },
            );
        }
        let ghost p = self.view_page();
        let ghost a = self.bytes@;
        proof {
            lemma_live_bytes(a, slot_count(a));
            lemma_first_deleted(p.slots, 0);
        }
        let reusable = self.find_deleted();
        let required = record.len() + if reusable.is_none() {
            SLOT_SIZE
        } else {
            0
        };
        if self.contiguous_free() < required {
            self.compact();
        }
        proof {
            lemma_live_bytes(self.bytes@, slot_count(self.bytes@));
        }
        if self.contiguous_free() < required {
            return Err(DbError::PageFull);
        }
        match reusable {
            Some(id) => {
                let ghost b = self.bytes@;
                proof {
                    assert(p.slots[id as int] is None);
                    assert(slot_length(b, id as int) == 0);
                }
                self.place(id, record);
                proof {
                    assert(Seq::new(slot_count(b) as nat, |i: int| record_at(b, i)) =~= p.slots);
                }
                Ok(id)
            },
            None => {
                let id = self.append_slot(record);
                Ok(id)
            },
        }
    }
}

} // verus!
