use super::error::{corrupt, corrupt_with_number, DbError, SpecDbError};
use super::le::{le_bytes, le_value, lemma_le_bytes_len, lemma_le_roundtrip, lemma_pow256_values, push_le, read_le};
use crate::text::decimal;
use super::page::{has_magic, wrong_kind_message, page_view, page_wf, spec_kind_byte, PageId, PageKind, SlottedPage, SpecPage, NO_PAGE, PAGE_SIZE};
use vstd::prelude::*;

verus! {

/// The bytes that open every database file: "TINYREL" and a zero byte.
pub open spec fn db_magic() -> Seq<u8> {
    seq![0x54u8, 0x49u8, 0x4eu8, 0x59u8, 0x52u8, 0x45u8, 0x4cu8, 0u8]
}

/// The version of the file format.
pub const FORMAT_VERSION: u16 = 1;

/// A header page that names the format and records `count` pages.
pub open spec fn header_ok(h: Seq<u8>, count: nat) -> bool {
    &&& h.len() == PAGE_SIZE
    &&& h.subrange(0, 8) == db_magic()
    &&& le_value(h.subrange(8, 10)) == FORMAT_VERSION
    &&& le_value(h.subrange(10, 12)) == PAGE_SIZE
    &&& le_value(h.subrange(12, 20)) == count
}

/// The header page that `write_metadata` produces for `count` pages.
pub open spec fn header_bytes(count: nat) -> Seq<u8> {
    db_magic() + le_bytes(FORMAT_VERSION as nat, 2) + le_bytes(PAGE_SIZE as nat, 2) + le_bytes(count, 8)
        + Seq::new((PAGE_SIZE - 20) as nat, |i: int| 0u8)
}

/// The pages of a file image, in order.
pub open spec fn split_pages(bytes: Seq<u8>) -> Seq<Seq<u8>> {
    Seq::new(
        (bytes.len() / PAGE_SIZE as nat) as nat,
        |i: int| bytes.subrange(i * PAGE_SIZE, (i + 1) * PAGE_SIZE),
    )
}

/// The file image of some pages: the pages one after the other.
pub open spec fn join_pages(pages: Seq<Seq<u8>>) -> Seq<u8>
    decreases pages.len(),
{
    if pages.len() == 0 {
        Seq::empty()
    } else {
        join_pages(pages.drop_last()) + pages.last()
    }
}

/// Whether `bytes` is a database file that `open` accepts: whole pages, at
/// least the header and the catalog, and a header that matches the file.
pub open spec fn image_ok(bytes: Seq<u8>) -> bool {
    &&& bytes.len() >= 2 * PAGE_SIZE
    &&& bytes.len() % PAGE_SIZE as nat == 0
    &&& header_ok(bytes.subrange(0, PAGE_SIZE as int), bytes.len() / PAGE_SIZE as nat)
}

/// Joining whole pages and splitting the result gives the pages back.
pub proof fn lemma_join_split(pages: Seq<Seq<u8>>)
    requires
        forall|i: int| 0 <= i < pages.len() ==> #[trigger] pages[i].len() == PAGE_SIZE,
    ensures
        join_pages(pages).len() == pages.len() * PAGE_SIZE,
        split_pages(join_pages(pages)) == pages,
    decreases pages.len(),
{
    let b = join_pages(pages);
    if pages.len() > 0 {
        let front = pages.drop_last();
        lemma_join_split(front);
        let a = join_pages(front);
        assert(b == a + pages.last());
        assert(b.len() == pages.len() * PAGE_SIZE);
        assert forall|i: int| 0 <= i < pages.len() implies #[trigger] b.subrange(i * PAGE_SIZE, (i + 1) * PAGE_SIZE)
            == pages[i] by {
            if i < front.len() {
                assert(split_pages(a)[i] == front[i]);
                assert(b.subrange(i * PAGE_SIZE, (i + 1) * PAGE_SIZE) =~= a.subrange(i * PAGE_SIZE, (i + 1) * PAGE_SIZE));
            } else {
                assert(b.subrange(i * PAGE_SIZE, (i + 1) * PAGE_SIZE) =~= pages.last());
            }
        }
        assert(b.len() / PAGE_SIZE as nat == pages.len());
        assert(split_pages(b) =~= pages);
    } else {
        assert(split_pages(b) =~= pages);
    }
}

/// The pages of a database held in memory. Page 0 is the file header, page 1
/// the catalog; higher layers address storage only by `PageId`.
pub(crate) struct Pager {
    pages: Vec<Vec<u8>>,
}

impl Pager {
    /// At least the header and the catalog, all of full size, and a header
    /// that records the page count.
    pub(crate) closed spec fn wf(&self) -> bool {
        &&& self.pages@.len() >= 2
        &&& forall|i: int| 0 <= i < self.pages@.len() ==> #[trigger] self.pages@[i]@.len() == PAGE_SIZE
        &&& header_ok(self.pages@[0]@, self.pages@.len())
    }

    /// The contents of the pages.
    pub(crate) closed spec fn pages(&self) -> Seq<Seq<u8>> {
        self.pages@.map_values(|p: Vec<u8>| p@)
    }

    /// What a sound pager holds: the header and catalog pages, all pages of
    /// full size, and a header page that is no slotted page.
    pub(crate) proof fn lemma_wf(&self)
        requires
            self.wf(),
        ensures
            self.pages().len() >= 2,
            forall|i: int| 0 <= i < self.pages().len() ==> #[trigger] self.pages()[i].len() == PAGE_SIZE,
            !page_wf(self.pages()[0]),
    {
        let h = self.pages()[0];
        assert(h.subrange(0, 8)[1] == h[1]);
        assert forall|i: int| 0 <= i < self.pages().len() implies #[trigger] self.pages()[i].len() == PAGE_SIZE by {
            assert(self.pages()[i] == self.pages@[i]@);
        }
    }

    /// The image of a sound pager is a file that `from_image` accepts, and
    /// it holds the same pages.
    pub(crate) proof fn lemma_image(&self)
        requires
            self.wf(),
        ensures
            image_ok(join_pages(self.pages())),
            split_pages(join_pages(self.pages())) == self.pages(),
    {
        self.lemma_wf();
        let pages = self.pages();
        lemma_join_split(pages);
        let b = join_pages(pages);
        let n = pages.len();
        assert(b.len() == n * PAGE_SIZE);
        assert(b.len() % PAGE_SIZE as nat == 0);
        assert(b.len() / PAGE_SIZE as nat == n);
        assert(split_pages(b)[0] == pages[0]);
        assert(b.subrange(0, PAGE_SIZE as int) == pages[0]);
        assert(pages[0] == self.pages@[0]@);
    }

    /// A new file: the header page and an empty catalog page.
    pub(crate) fn create() -> (r: Self)
        ensures
            r.wf(),
            r.pages().len() == 2,
            page_wf(r.pages()[1]),
            page_view(r.pages()[1]) == (SpecPage { kind: spec_kind_byte(PageKind::Catalog), next: None, slots: Seq::empty() }),
    {
        let header = write_header(2);
        let catalog = SlottedPage::new(PageKind::Catalog);
        let mut pages: Vec<Vec<u8>> = Vec::new();
        pages.push(header);
        let ghost cb = catalog.contents();
        pages.push(catalog.into_bytes());
        let r = Pager { pages };
        assert(r.pages()[1] == cb);
        r
    }

    /// Accepts a file image as `open` does: it must hold whole pages, at
    /// least two, and a header whose magic, version, page size and page count
    /// match the file.
    pub(crate) fn from_image(bytes: &[u8]) -> (r: Result<Self, DbError>)
        ensures
            r is Ok <==> image_ok(bytes@),
            r matches Ok(p) ==> p.wf() && p.pages() == split_pages(bytes@),
            r matches Err(e) ==> e is Corrupt,
            !(bytes@.len() >= 2 * PAGE_SIZE && bytes@.len() % PAGE_SIZE as nat == 0) ==> (r matches Err(e)
                && e@ == SpecDbError::Corrupt("file len is not a whole number of pages"@)),
            bytes@.len() >= 2 * PAGE_SIZE && bytes@.len() % PAGE_SIZE as nat == 0 && bytes@.subrange(0, 8)
                != db_magic() ==> (r matches Err(e) && e@ == SpecDbError::Corrupt(
                "databse magic number does not match"@,
            )),
    {
        let length = bytes.len();
        if length < 2 * PAGE_SIZE || length % PAGE_SIZE != 0 {
            return Err(corrupt("file len is not a whole number of pages"));
        }
        if bytes[0] != 0x54u8 || bytes[1] != 0x49u8 || bytes[2] != 0x4eu8 || bytes[3] != 0x59u8
            || bytes[4] != 0x52u8 || bytes[5] != 0x45u8 || bytes[6] != 0x4cu8 || bytes[7] != 0u8 {
            proof {
                let h = bytes@.subrange(0, PAGE_SIZE as int);
                if h.subrange(0, 8) == db_magic() {
                    assert(h.subrange(0, 8)[0] == bytes@[0]);
                    assert(h.subrange(0, 8)[1] == bytes@[1]);
                    assert(h.subrange(0, 8)[2] == bytes@[2]);
                    assert(h.subrange(0, 8)[3] == bytes@[3]);
                    assert(h.subrange(0, 8)[4] == bytes@[4]);
                    assert(h.subrange(0, 8)[5] == bytes@[5]);
                    assert(h.subrange(0, 8)[6] == bytes@[6]);
                    assert(h.subrange(0, 8)[7] == bytes@[7]);
                }
            }
            return Err(corrupt("databse magic number does not match"));
        }
        let version = read_le(bytes, 8, 2);
        let page_size = read_le(bytes, 10, 2);
        let page_count = read_le(bytes, 12, 8);
        proof {
            let h = bytes@.subrange(0, PAGE_SIZE as int);
            assert(h.subrange(8, 10) =~= bytes@.subrange(8, 10));
            assert(h.subrange(10, 12) =~= bytes@.subrange(10, 12));
            assert(h.subrange(12, 20) =~= bytes@.subrange(12, 20));
            assert(h.subrange(0, 8) =~= db_magic());
            assert(bytes@.subrange(0, 8) =~= db_magic());
        }
        if version != FORMAT_VERSION as u64 || page_size != PAGE_SIZE as u64 || page_count
            != (length / PAGE_SIZE) as u64 {
            return Err(corrupt("unsupported or inconsistent database header"));
        }
        let count = length / PAGE_SIZE;
        let mut pages: Vec<Vec<u8>> = Vec::new();
        let mut i: usize = 0;
        while i < count
            invariant
                count == bytes@.len() / PAGE_SIZE as nat,
                bytes@.len() == count * PAGE_SIZE,
                bytes@.subrange(0, 8) == db_magic(),
                length == bytes@.len(),
                i <= count,
                pages@.len() == i,
                forall|j: int| 0 <= j < i ==> #[trigger] pages@[j]@ == bytes@.subrange(j * PAGE_SIZE, (j + 1) * PAGE_SIZE),
            decreases count - i,
        {
            proof {
                assert((i + 1) * PAGE_SIZE <= count * PAGE_SIZE) by (nonlinear_arith)
                    requires
                        i + 1 <= count,
                ;
            }
            let start = i * PAGE_SIZE;
            let end = start + PAGE_SIZE;
            let mut page: Vec<u8> = Vec::new();
            let mut k: usize = start;
            while k < end
                invariant
                    start + PAGE_SIZE == end,
                    end <= bytes@.len(),
                    start <= k <= end,
                    page@ == bytes@.subrange(start as int, k as int),
                decreases end - k,
            {
                page.push(bytes[k]);
                k += 1;
                assert(page@ =~= bytes@.subrange(start as int, k as int));
            }
            pages.push(page);
            i += 1;
        }
        let r = Pager { pages };
        assert(r.pages() =~= split_pages(bytes@));
        Ok(r)
    }

    /// The file image: every page, in order.
    pub(crate) fn image(&self) -> (r: Vec<u8>)
        requires
            self.wf(),
        ensures
            r@ == join_pages(self.pages()),
    {
        let mut out: Vec<u8> = Vec::new();
        let mut i: usize = 0;
        while i < self.pages.len()
            invariant
                i <= self.pages@.len(),
                out@ == join_pages(self.pages().take(i as int)),
            decreases self.pages@.len() - i,
        {
            let page = &self.pages[i];
            let ghost before = out@;
            let mut k: usize = 0;
            while k < page.len()
                invariant
                    k <= page@.len(),
                    out@ == before + page@.take(k as int),
                decreases page@.len() - k,
            {
                out.push(page[k]);
                k += 1;
                assert(out@ =~= before + page@.take(k as int));
            }
            assert(page@.take(page@.len() as int) =~= page@);
            assert(self.pages().take(i + 1).drop_last() =~= self.pages().take(i as int));
            i += 1;
        }
        assert(self.pages().take(self.pages@.len() as int) =~= self.pages());
        out
    }

    /// The number of pages.
    pub(crate) fn page_count(&self) -> (r: u64)
        requires
            self.wf(),
        ensures
            r == self.pages().len(),
    {
        self.pages.len() as u64
    }

    /// Appends a new empty page of `kind` and records the new page count in
    /// the header.
    pub(crate) fn allocate(&mut self, kind: PageKind) -> (r: Result<(PageId, SlottedPage), DbError>)
        requires
            old(self).wf(),
        ensures
            final(self).wf(),
            r is Ok <==> old(self).pages().len() < NO_PAGE,
            r is Err ==> final(self).pages() == old(self).pages(),
            r matches Err(e) ==> e is Io,
            r matches Ok(a) ==> {
                &&& a.0.0 == old(self).pages().len()
                &&& a.1.wf()
                &&& a.1.view_page() == (SpecPage { kind: spec_kind_byte(kind), next: None, slots: Seq::empty() })
                &&& final(self).pages().len() == old(self).pages().len() + 1
                &&& final(self).pages()[a.0.0 as int] == a.1.contents()
                &&& forall|i: int| 1 <= i < old(self).pages().len() ==> #[trigger] final(self).pages()[i] == old(self).pages()[i]
            },
    {
        let id = self.pages.len();
        if id as u64 >= NO_PAGE {
            return Err(DbError::Io("the database file has no room for another page".to_owned()));
        }
        let page = SlottedPage::new(kind);
        let copy = copy_bytes(page.bytes());
        self.pages.push(copy);
        let header = write_header(id as u64 + 1);
        self.pages.set(0, header);
        Ok((PageId(id as u64), page))
    }

    /// Stores `page` as page `id`; only pages past the header that exist can
    /// be written.
    pub(crate) fn write_page(&mut self, id: PageId, page: &SlottedPage) -> (r: Result<(), DbError>)
        requires
            old(self).wf(),
            page.wf(),
        ensures
            final(self).wf(),
            r is Ok <==> 1 <= id.0 < old(self).pages().len(),
            r is Ok ==> final(self).pages() == old(self).pages().update(id.0 as int, page.contents()),
            r is Err ==> final(self).pages() == old(self).pages(),
            r matches Err(e) ==> e@ == SpecDbError::Corrupt(
                "page "@ + decimal(id.0 as nat) + " is outside the file"@,
            ),
    {
        if id.0 == 0 || id.0 >= self.pages.len() as u64 {
            return Err(corrupt_with_number("page ", id.0, " is outside the file"));
        }
        let copy = copy_bytes(page.bytes());
        self.pages.set(id.0 as usize, copy);
        assert(self.pages() =~= old(self).pages().update(id.0 as int, page.contents()));
        Ok(())
    }

    /// Reads page `id` as a slotted page of `kind`.
    pub(crate) fn read_page(&self, id: PageId, kind: PageKind) -> (r: Result<SlottedPage, DbError>)
        requires
            self.wf(),
        ensures
            r is Ok <==> id.0 < self.pages().len() && page_wf(self.pages()[id.0 as int])
                && self.pages()[id.0 as int][4] == spec_kind_byte(kind),
            r matches Ok(p) ==> p.contents() == self.pages()[id.0 as int],
            r matches Err(e) ==> e is Corrupt,
            id.0 >= self.pages().len() ==> (r matches Err(e) && e@ == SpecDbError::Corrupt(
                "page "@ + decimal(id.0 as nat) + " is outside the file"@,
            )),
            id.0 < self.pages().len() && !(has_magic(self.pages()[id.0 as int])
                && self.pages()[id.0 as int][4] == spec_kind_byte(kind)) ==> (r matches Err(e) && e@
                == SpecDbError::Corrupt(wrong_kind_message(kind))),
    {
        if id.0 >= self.pages.len() as u64 {
            return Err(corrupt_with_number("page ", id.0, " is outside the file"));
        }
        proof {
            self.lemma_wf();
        }
        let copy = copy_bytes(self.pages[id.0 as usize].as_slice());
        SlottedPage::from_bytes(copy, kind)
    }
}

/// A copy of `bytes`.
fn copy_bytes(bytes: &[u8]) -> (r: Vec<u8>)
    ensures
        r@ == bytes@,
{
    let mut out: Vec<u8> = Vec::new();
    let mut k: usize = 0;
    while k < bytes.len()
        invariant
            k <= bytes@.len(),
            out@ == bytes@.take(k as int),
        decreases bytes@.len() - k,
    {
        out.push(bytes[k]);
        k += 1;
        assert(out@ =~= bytes@.take(k as int));
    }
    assert(bytes@.take(bytes@.len() as int) =~= bytes@);
    out
}

/// The header page for a file of `count` pages.
fn write_header(count: u64) -> (r: Vec<u8>)
    ensures
        r@ == header_bytes(count as nat),
        header_ok(r@, count as nat),
{
    let mut h: Vec<u8> = Vec::new();
    h.push(0x54u8);
    h.push(0x49u8);
    h.push(0x4eu8);
    h.push(0x59u8);
    h.push(0x52u8);
    h.push(0x45u8);
    h.push(0x4cu8);
    h.push(0u8);
    push_le(&mut h, FORMAT_VERSION as u64, 2);
    push_le(&mut h, PAGE_SIZE as u64, 2);
    push_le(&mut h, count, 8);
    let ghost prefix = h@;
    proof {
        lemma_le_bytes_len(FORMAT_VERSION as nat, 2);
        lemma_le_bytes_len(PAGE_SIZE as nat, 2);
        lemma_le_bytes_len(count as nat, 8);
    }
    while h.len() < PAGE_SIZE
        invariant
            h@.len() <= PAGE_SIZE,
            h@.len() >= 20,
            h@.subrange(0, 20) == prefix,
            forall|j: int| 20 <= j < h@.len() ==> h@[j] == 0u8,
        decreases PAGE_SIZE - h@.len(),
    {
        h.push(0u8);
        assert(h@.subrange(0, 20) =~= prefix);
    }
    proof {
        lemma_pow256_values();
        lemma_le_bytes_len(FORMAT_VERSION as nat, 2);
        lemma_le_bytes_len(PAGE_SIZE as nat, 2);
        lemma_le_bytes_len(count as nat, 8);
        lemma_le_roundtrip(FORMAT_VERSION as nat, 2);
        lemma_le_roundtrip(PAGE_SIZE as nat, 2);
        lemma_le_roundtrip(count as nat, 8);
        assert(prefix =~= db_magic() + le_bytes(FORMAT_VERSION as nat, 2) + le_bytes(PAGE_SIZE as nat, 2)
            + le_bytes(count as nat, 8));
        assert(h@ =~= header_bytes(count as nat));
        assert(h@.subrange(0, 8) =~= db_magic());
        assert(h@.subrange(8, 10) =~= le_bytes(FORMAT_VERSION as nat, 2));
        assert(h@.subrange(10, 12) =~= le_bytes(PAGE_SIZE as nat, 2));
        assert(h@.subrange(12, 20) =~= le_bytes(count as nat, 8));
    }
    h
}

} // verus!
