//! The EDT page table: 512-byte pages holding chains of payload and a
//! free-page list.

use vstd::prelude::*;

use super::bytes::{
    le_u32, le_u64, lemma_le_u32_at, lemma_le_u32_bytes, lemma_u32_le_roundtrip, lemma_u64_bytes_of_le,
    lemma_u64_split, push_all, push_u32, push_u64, read_u32, read_u64, u32_le_bytes, u64_le_bytes,
};
use super::crypto::{crypt_in_place, crypt_spec, lemma_crypt_involution, lemma_crypt_keeps_signature};
use super::database::{bytes_result, lemma_add_parts, lemma_prefix_chain, lemma_sub_of_prefix, password_view};
use super::error::Error;
use super::header::{has_magic, magic_of, starts_with_magic, MAGIC_ENCRYPTED_TABLE, VERSION_1};

verus! {

/// Length of a page.
pub const TABLE_PAGE_LEN: usize = 512;

/// Length of a page's link header.
pub const TABLE_PAGE_HEADER_LEN: usize = 12;

/// Payload bytes a page can hold.
pub const TABLE_PAGE_PAYLOAD_LEN: usize = 500;

// ---------------------------------------------------------------------------
// Types and their models.

/// The table header, held in page zero.
#[derive(Debug, Clone, Copy, PartialEq, Eq, Structural)]
pub struct TableHeader {
    pub version: u32,
    pub timestamp_bits: u64,
    pub page_count: u32,
    pub free_page_count: u32,
    pub first_free_page: u32,
    pub reserved: u32,
}

/// One data page: links to its neighbours in a chain, and payload.
#[derive(Debug, Clone, Copy, PartialEq, Eq)]
pub struct TablePage {
    pub previous: u32,
    pub next: u32,
    pub used: u32,
    pub payload: [u8; 500],
}

/// A page with its payload as a sequence.
#[verifier::ext_equal]
pub struct PageModel {
    pub previous: u32,
    pub next: u32,
    pub used: u32,
    pub payload: Seq<u8>,
}

impl View for TablePage {
    type V = PageModel;

    open spec fn view(&self) -> PageModel {
        PageModel { previous: self.previous, next: self.next, used: self.used, payload: self.payload@ }
    }
}

/// A page table opened from an EDT image.
#[derive(Debug, Clone, PartialEq, Eq)]
pub struct Table {
    pub header: TableHeader,
    pub pages: Vec<TablePage>,
    header_padding: [u8; 480],
}

/// A table as mathematics: header, pages 1.., and the rest of page zero.
#[verifier::ext_equal]
pub struct TableModel {
    pub header: TableHeader,
    pub pages: Seq<PageModel>,
    pub padding: Seq<u8>,
}

/// The models of a list of pages.
pub open spec fn page_models(pages: Seq<TablePage>) -> Seq<PageModel> {
    pages.map_values(|p: TablePage| p@)
}

impl View for Table {
    type V = TableModel;

    closed spec fn view(&self) -> TableModel {
        TableModel { header: self.header, pages: page_models(self.pages@), padding: self.header_padding@ }
    }
}

/// Pages that `read_chain` and its kin can walk without running off a
/// payload: fewer pages than `usize` counts, none claiming more than 500
/// bytes of payload.
pub open spec fn pages_ok(m: TableModel) -> bool {
    &&& m.pages.len() < usize::MAX
    &&& forall|i: int| 0 <= i < m.pages.len() ==> (#[trigger] m.pages[i]).used <= 500 && m.pages[i].payload.len() == 500
}

// ---------------------------------------------------------------------------
// Pages and chains.

/// Page `index` (page zero is the header), or why it cannot be had.
pub open spec fn spec_page(m: TableModel, index: u32) -> Result<PageModel, Error> {
    if index == 0 {
        Err(Error::InvalidLayout("page zero is the table header"))
    } else if index > m.pages.len() {
        Err(Error::IndexOutOfBounds { index: index as usize, len: (m.pages.len() + 1) as usize })
    } else {
        Ok(m.pages[index - 1])
    }
}

/// The error a chain walk reports for a page it has already visited.
pub open spec fn cycle_error(free: bool) -> Error {
    if free {
        Error::InvalidLayout("cycle in table free-page list")
    } else {
        Error::InvalidLayout("cycle in table page chain")
    }
}

/// The error a chain walk reports for a page whose back link is wrong (or,
/// on the free list, that holds payload).
pub open spec fn link_error(free: bool) -> Error {
    if free {
        Error::InvalidLayout("invalid free page")
    } else {
        Error::InvalidLayout("broken previous link in table page chain")
    }
}

/// Walks the chain from `current`, whose predecessor should be `previous`,
/// having visited `visited`: the pages of the chain in order, or the first
/// error met. On the free list, pages must also hold no payload.
pub open spec fn walk(
    pages: Seq<PageModel>,
    current: u32,
    previous: u32,
    visited: Seq<u32>,
    fuel: nat,
    free: bool,
) -> Result<Seq<u32>, Error>
    decreases fuel,
{
    if current == 0 {
        Ok(visited)
    } else if visited.contains(current) || fuel == 0 {
        Err(cycle_error(free))
    } else if current > pages.len() {
        Err(Error::IndexOutOfBounds { index: current as usize, len: (pages.len() + 1) as usize })
    } else if pages[current - 1].previous != previous || (free && pages[current - 1].used != 0) {
        Err(link_error(free))
    } else {
        walk(pages, pages[current - 1].next, current, visited.push(current), (fuel - 1) as nat, free)
    }
}

/// The pages of the chain that starts at `first`.
pub open spec fn chain_of(m: TableModel, first: u32) -> Result<Seq<u32>, Error> {
    walk(m.pages, first, 0, Seq::empty(), (m.pages.len() + 1) as nat, false)
}

/// The pages of the free list.
pub open spec fn free_list_of(m: TableModel) -> Result<Seq<u32>, Error> {
    walk(m.pages, m.header.first_free_page, 0, Seq::empty(), (m.pages.len() + 1) as nat, true)
}

/// The payload that the pages `chain` hold, one after the other.
pub open spec fn chain_data(pages: Seq<PageModel>, chain: Seq<u32>) -> Seq<u8>
    decreases chain.len(),
{
    if chain.len() == 0 {
        Seq::empty()
    } else {
        let p = pages[chain.last() - 1];
        chain_data(pages, chain.drop_last()) + p.payload.subrange(0, p.used as int)
    }
}

/// What `read_chain` returns: the payload of the chain from `first`.
pub open spec fn spec_read_chain(m: TableModel, first: u32) -> Result<Seq<u8>, Error> {
    match chain_of(m, first) {
        Ok(chain) => Ok(chain_data(m.pages, chain)),
        Err(e) => Err(e),
    }
}

/// What `free_pages` returns: the free list, which must be as long as the
/// header says.
pub open spec fn spec_free_pages(m: TableModel) -> Result<Seq<u32>, Error> {
    match free_list_of(m) {
        Ok(list) => if list.len() == m.header.free_page_count {
            Ok(list)
        } else {
            Err(Error::InvalidLayout("free-page count does not match its list"))
        },
        Err(e) => Err(e),
    }
}

/// A sequence of distinct page numbers, all between 1 and `n`, has at most
/// `n` entries.
pub proof fn lemma_distinct_pages_bound(s: Seq<u32>, n: int)
    requires
        n >= 0,
        s.no_duplicates(),
        forall|i: int| 0 <= i < s.len() ==> 1 <= #[trigger] s[i] <= n,
    ensures
        s.len() <= n,
{
    let si = s.map_values(|x: u32| x as int);
    assert(si.no_duplicates()) by {
        assert forall|i: int, j: int| 0 <= i < si.len() && 0 <= j < si.len() && i != j implies si[i] != si[j] by {
            assert(s[i] != s[j]);
        }
    }
    si.unique_seq_to_set();
    if n >= 1 {
        vstd::set_lib::lemma_int_range(1, n + 1);
        assert(si.to_set().subset_of(vstd::set_lib::set_int_range(1, n + 1))) by {
            assert forall|x: int| si.to_set().contains(x) implies vstd::set_lib::set_int_range(1, n + 1).contains(x) by {
                let i = choose|i: int| 0 <= i < si.len() && si[i] == x;
                assert(s[i] as int == x);
            }
        }
        vstd::set_lib::lemma_len_subset(si.to_set(), vstd::set_lib::set_int_range(1, n + 1));
        assert(si.len() == s.len());
        assert(si.to_set().len() <= n);
    } else {
        if s.len() > 0 {
            assert(1 <= s[0] <= n);
        }
    }
}

impl Table {
    /// Page `page_index`; page zero is the header and cannot be had.
    pub fn page(&self, page_index: u32) -> (r: Result<&TablePage, Error>)
        requires
            self@.pages.len() < usize::MAX,
        ensures
            match r {
                Ok(p) => spec_page(self@, page_index) == Ok::<PageModel, Error>(p@),
                Err(e) => spec_page(self@, page_index) == Err::<PageModel, Error>(e),
            },
    {
        if page_index == 0 {
            return Err(Error::InvalidLayout("page zero is the table header"));
        }
        if page_index as usize > self.pages.len() {
            return Err(Error::IndexOutOfBounds { index: page_index as usize, len: self.pages.len() + 1 });
        }
        Ok(&self.pages[page_index as usize - 1])
    }

    /// Walks a chain (or the free list) from `first`: the pages in order, and
    /// their payload when `collect` is set.
    fn walk_chain(&self, first: u32, free: bool, collect: bool) -> (r: Result<(Vec<u32>, Vec<u8>), Error>)
        requires
            pages_ok(self@),
        ensures
            match r {
                Ok((list, data)) => walk(self@.pages, first, 0, Seq::empty(), (self@.pages.len() + 1) as nat, free)
                    == Ok::<Seq<u32>, Error>(list@) && (collect ==> data@ == chain_data(self@.pages, list@)),
                Err(e) => walk(self@.pages, first, 0, Seq::empty(), (self@.pages.len() + 1) as nat, free)
                    == Err::<Seq<u32>, Error>(e),
            },
    {
        let n = self.pages.len();
        let ghost pages = self@.pages;
        let ghost total = walk(pages, first, 0, Seq::empty(), (n + 1) as nat, free);
        let mut visited: Vec<bool> = Vec::new();
        let mut v: usize = 0;
        while v <= n
            invariant
                v <= n + 1,
                n < usize::MAX,
                visited@.len() == v,
                forall|k: int| 0 <= k < v ==> !(#[trigger] visited@[k]),
            decreases n + 1 - v,
        {
            visited.push(false);
            v = v + 1;
        }
        let mut list: Vec<u32> = Vec::new();
        let mut output: Vec<u8> = Vec::new();
        let mut current = first;
        let mut expected_previous: u32 = 0;
        while current != 0
            invariant
                n == pages.len(),
                n < usize::MAX,
                pages == self@.pages,
                pages_ok(self@),
                visited@.len() == n + 1,
                list@.no_duplicates(),
                forall|i: int| 0 <= i < list@.len() ==> 1 <= #[trigger] list@[i] <= n,
                forall|k: int| 0 <= k <= n ==> (#[trigger] visited@[k] <==> exists|i: int| 0 <= i < list@.len() && list@[i] as int == k),
                list@.len() <= n,
                expected_previous == 0 || list@.len() > 0,
                total == walk(pages, first, 0, Seq::empty(), (n + 1) as nat, free),
                total == walk(pages, current, expected_previous, list@, (n + 1 - list@.len()) as nat, free),
                collect ==> output@ == chain_data(pages, list@),
            decreases n + 1 - list@.len(),
        {
            if current as usize <= n && visited[current as usize] {
                proof {
                    let i = choose|i: int| 0 <= i < list@.len() && list@[i] as int == current as int;
                    assert(list@.contains(current));
                }
                return Err(cycle_error_value(free));
            }
            proof {
                if list@.contains(current) {
                    let i = choose|i: int| 0 <= i < list@.len() && list@[i] == current;
                    if current as int <= n {
                        assert(visited@[current as int]);
                    }
                }
            }
            if current as usize > n {
                return Err(Error::IndexOutOfBounds { index: current as usize, len: n + 1 });
            }
            let page = &self.pages[current as usize - 1];
            assert(page@ == pages[current - 1]);
            if page.previous != expected_previous || (free && page.used != 0) {
                return Err(link_error_value(free));
            }
            if collect {
                push_all(&mut output, slice_prefix(page.payload.as_slice(), page.used as usize));
            }
            let ghost before = list@;
            visited.set(current as usize, true);
            list.push(current);
            proof {
                assert(list@.no_duplicates()) by {
                    assert forall|i: int, j: int| 0 <= i < list@.len() && 0 <= j < list@.len() && i != j implies list@[i] != list@[j] by {
                        if i < before.len() && j < before.len() {
                            assert(before[i] != before[j]);
                        } else if i == before.len() {
                            assert(!before.contains(current));
                            assert(list@[j] == before[j]);
                        } else {
                            assert(!before.contains(current));
                            assert(list@[i] == before[i]);
                        }
                    }
                }
                assert forall|k: int| 0 <= k <= n implies (#[trigger] visited@[k] <==> exists|i: int| 0 <= i < list@.len() && list@[i] as int == k) by {
                    if k == current as int {
                        assert(list@[before.len() as int] == current);
                    } else {
                        if exists|i: int| 0 <= i < before.len() && before[i] as int == k {
                            let i = choose|i: int| 0 <= i < before.len() && before[i] as int == k;
                            assert(list@[i] == before[i]);
                        }
                        if exists|i: int| 0 <= i < list@.len() && list@[i] as int == k {
                            let i = choose|i: int| 0 <= i < list@.len() && list@[i] as int == k;
                            assert(i < before.len());
                            assert(before[i] == list@[i]);
                        }
                    }
                }
                lemma_distinct_pages_bound(list@, n as int);
                if collect {
                    assert(list@.drop_last() =~= before);
                }
            }
            expected_previous = current;
            current = page.next;
        }
        Ok((list, output))
    }
}

/// The value of `cycle_error(free)`.
fn cycle_error_value(free: bool) -> (e: Error)
    ensures
        e == cycle_error(free),
{
    if free {
        Error::InvalidLayout("cycle in table free-page list")
    } else {
        Error::InvalidLayout("cycle in table page chain")
    }
}

/// The value of `link_error(free)`.
fn link_error_value(free: bool) -> (e: Error)
    ensures
        e == link_error(free),
{
    if free {
        Error::InvalidLayout("invalid free page")
    } else {
        Error::InvalidLayout("broken previous link in table page chain")
    }
}

/// `bytes[..n]`.
fn slice_prefix(bytes: &[u8], n: usize) -> (r: &[u8])
    requires
        n <= bytes@.len(),
    ensures
        r@ == bytes@.subrange(0, n as int),
{
    &bytes[0..n]
}

impl Table {
    /// The payload of the chain that starts at `first_page`; page zero
    /// starts the empty chain.
    pub fn read_chain(&self, first_page: u32) -> (r: Result<Vec<u8>, Error>)
        requires
            pages_ok(self@),
        ensures
            bytes_result(r) == spec_read_chain(self@, first_page),
    {
        if first_page == 0 {
            return Ok(Vec::new());
        }
        match self.walk_chain(first_page, false, true) {
            Ok((_, data)) => Ok(data),
            Err(e) => Err(e),
        }
    }

    /// The free-page list, which must hold as many pages as the header says.
    pub fn free_pages(&self) -> (r: Result<Vec<u32>, Error>)
        requires
            pages_ok(self@),
        ensures
            match r {
                Ok(v) => spec_free_pages(self@) == Ok::<Seq<u32>, Error>(v@),
                Err(e) => spec_free_pages(self@) == Err::<Seq<u32>, Error>(e),
            },
    {
        match self.walk_chain(self.header.first_free_page, true, false) {
            Ok((list, _)) => {
                if list.len() != self.header.free_page_count as usize {
                    return Err(Error::InvalidLayout("free-page count does not match its list"));
                }
                Ok(list)
            },
            Err(e) => Err(e),
        }
    }

    /// The pages of the chain that starts at `first_page`.
    fn chain_pages(&self, first_page: u32) -> (r: Result<Vec<u32>, Error>)
        requires
            pages_ok(self@),
        ensures
            match r {
                Ok(v) => chain_of(self@, first_page) == Ok::<Seq<u32>, Error>(v@),
                Err(e) => chain_of(self@, first_page) == Err::<Seq<u32>, Error>(e),
            },
    {
        match self.walk_chain(first_page, false, false) {
            Ok((list, _)) => Ok(list),
            Err(e) => Err(e),
        }
    }
}

// ---------------------------------------------------------------------------
// The image format.

/// Page `index` of an image, read at `512 * index`.
pub open spec fn parse_page(b: Seq<u8>, index: int) -> PageModel {
    let o = 512 * index;
    PageModel {
        previous: le_u32(b, o),
        next: le_u32(b, o + 4),
        used: le_u32(b, o + 8),
        payload: b.subrange(o + 12, o + 512),
    }
}

/// Why page `index` of an image is refused, if it is.
pub open spec fn page_error(b: Seq<u8>, index: int, page_count: int) -> Option<Error> {
    let o = 512 * index;
    if le_u32(b, o + 8) > 500 {
        Some(Error::InvalidLayout("table page payload length exceeds 500 bytes"))
    } else if le_u32(b, o) >= page_count || le_u32(b, o + 4) >= page_count {
        Some(Error::InvalidLayout("table page link is outside the file"))
    } else {
        None
    }
}

/// Pages `1..=n` of an image, or the error of the first refused one.
pub open spec fn parse_pages(b: Seq<u8>, n: nat, page_count: int) -> Result<Seq<PageModel>, Error>
    decreases n,
{
    if n == 0 {
        Ok(Seq::empty())
    } else {
        match parse_pages(b, (n - 1) as nat, page_count) {
            Err(e) => Err(e),
            Ok(ps) => match page_error(b, n as int, page_count) {
                Some(e) => Err(e),
                None => Ok(ps.push(parse_page(b, n as int))),
            },
        }
    }
}

/// The table that a well-formed image `b` with these pages holds.
pub open spec fn table_model_of(b: Seq<u8>, pages: Seq<PageModel>) -> TableModel {
    TableModel {
        header: TableHeader {
            version: VERSION_1,
            timestamp_bits: le_u64(b, 8),
            page_count: le_u32(b, 16),
            free_page_count: le_u32(b, 20),
            first_free_page: le_u32(b, 24),
            reserved: le_u32(b, 28),
        },
        pages,
        padding: b.subrange(32, 512),
    }
}

/// What `Table::from_decrypted_bytes` makes of the image `b`.
#[verifier::opaque]
pub open spec fn parse_table(b: Seq<u8>) -> Result<TableModel, Error> {
    if b.len() < 4 {
        Err(Error::Truncated { expected: 4, actual: b.len() as usize })
    } else if !has_magic(b, MAGIC_ENCRYPTED_TABLE@) {
        Err(Error::InvalidMagic(magic_of(b)))
    } else if b.len() < 8 {
        Err(Error::Truncated { expected: 8, actual: b.len() as usize })
    } else if le_u32(b, 4) != VERSION_1 {
        Err(Error::UnsupportedVersion(le_u32(b, 4)))
    } else if b.len() < 512 {
        Err(Error::Truncated { expected: 512, actual: b.len() as usize })
    } else if b.len() % 512 != 0 {
        Err(Error::InvalidLayout("table file is not page aligned"))
    } else if le_u32(b, 16) != b.len() / 512 {
        Err(Error::InvalidLayout("header page count does not match file size"))
    } else {
        match parse_pages(b, (le_u32(b, 16) - 1) as nat, le_u32(b, 16) as int) {
            Err(e) => Err(e),
            Ok(pages) => Ok(table_model_of(b, pages)),
        }
    }
}

/// Once a page is refused, every longer prefix is refused the same way.
pub proof fn lemma_parse_pages_err_stays(b: Seq<u8>, m: nat, n: nat, pc: int)
    requires
        m <= n,
        parse_pages(b, m, pc) is Err,
    ensures
        parse_pages(b, n, pc) == parse_pages(b, m, pc),
    decreases n - m,
{
    if m < n {
        lemma_parse_pages_err_stays(b, m, (n - 1) as nat, pc);
    }
}

/// Copies `dst.len()` bytes of `src` starting at `offset` into `dst`.
fn copy_from(dst: &mut [u8], src: &[u8], offset: usize)
    requires
        offset + old(dst)@.len() <= src@.len(),
    ensures
        final(dst)@ == src@.subrange(offset as int, offset + old(dst)@.len()),
{
    let n = dst.len();
    let src_len = src.len();
    let mut k: usize = 0;
    while k < n
        invariant
            k <= n,
            n == dst@.len(),
            src_len == src@.len(),
            offset + n <= src_len,
            forall|j: int| 0 <= j < k ==> dst@[j] == src@[offset + j],
        decreases n - k,
    {
        dst[k] = src[offset + k];
        k = k + 1;
    }
    assert(dst@ =~= src@.subrange(offset as int, offset + n));
}

impl Table {
    /// Parses an image that is already decrypted.
    pub fn from_decrypted_bytes(bytes: &[u8]) -> (r: Result<Table, Error>)
        ensures
            r matches Ok(t) ==> parse_table(bytes@) == Ok::<TableModel, Error>(t@),
            r matches Err(e) ==> parse_table(bytes@) == Err::<TableModel, Error>(e),
    {
        reveal(parse_table);
        let len = bytes.len();
        if len < 4 {
            return Err(Error::Truncated { expected: 4, actual: len });
        }
        if !starts_with_magic(bytes, &MAGIC_ENCRYPTED_TABLE) {
            return Err(Error::InvalidMagic([bytes[0], bytes[1], bytes[2], bytes[3]]));
        }
        let version = match read_u32(bytes, 4) {
            Ok(v) => v,
            Err(e) => return Err(e),
        };
        if version != VERSION_1 {
            return Err(Error::UnsupportedVersion(version));
        }
        if len < TABLE_PAGE_LEN {
            return Err(Error::Truncated { expected: TABLE_PAGE_LEN, actual: len });
        }
        if len % TABLE_PAGE_LEN != 0 {
            return Err(Error::InvalidLayout("table file is not page aligned"));
        }
        let page_count = match read_u32(bytes, 16) {
            Ok(v) => v as usize,
            Err(e) => return Err(e),
        };
        if page_count != len / TABLE_PAGE_LEN {
            return Err(Error::InvalidLayout("header page count does not match file size"));
        }
        let ghost expected = match parse_pages(bytes@, (page_count - 1) as nat, page_count as int) {
            Err(e) => Err(e),
            Ok(pages) => Ok(table_model_of(bytes@, pages)),
        };
        assert(parse_table(bytes@) == expected);
        let mut pages: Vec<TablePage> = Vec::new();
        assert(page_models(pages@) =~= Seq::<PageModel>::empty());
        let mut index: usize = 1;
        while index < page_count
            invariant
                1 <= index <= page_count,
                page_count == len / 512,
                page_count * 512 == len,
                len == bytes@.len(),
                page_count == le_u32(bytes@, 16),
                parse_table(bytes@) == expected,
                expected == match parse_pages(bytes@, (page_count - 1) as nat, page_count as int) {
                    Err(e) => Err(e),
                    Ok(pages) => Ok(table_model_of(bytes@, pages)),
                },
                parse_pages(bytes@, (index - 1) as nat, page_count as int) == Ok::<Seq<PageModel>, Error>(
                    page_models(pages@),
                ),
            decreases page_count - index,
        {
            assert(512 * index + 512 <= len) by (nonlinear_arith)
                requires
                    index < page_count,
                    page_count * 512 == len,
            ;
            let offset = index * TABLE_PAGE_LEN;
            let used = match read_u32(bytes, offset + 8) {
                Ok(v) => v,
                Err(e) => return Err(e),
            };
            if used as usize > TABLE_PAGE_PAYLOAD_LEN {
                proof {
                    assert(parse_pages(bytes@, index as nat, page_count as int) is Err);
                    lemma_parse_pages_err_stays(bytes@, index as nat, (page_count - 1) as nat, page_count as int);
                }
                return Err(Error::InvalidLayout("table page payload length exceeds 500 bytes"));
            }
            let previous = match read_u32(bytes, offset) {
                Ok(v) => v,
                Err(e) => return Err(e),
            };
            let next = match read_u32(bytes, offset + 4) {
                Ok(v) => v,
                Err(e) => return Err(e),
            };
            if previous as usize >= page_count || next as usize >= page_count {
                proof {
                    assert(parse_pages(bytes@, index as nat, page_count as int) is Err);
                    lemma_parse_pages_err_stays(bytes@, index as nat, (page_count - 1) as nat, page_count as int);
                }
                return Err(Error::InvalidLayout("table page link is outside the file"));
            }
            let mut payload = [0u8; 500];
            copy_from(&mut payload, bytes, offset + TABLE_PAGE_HEADER_LEN);
            let page = TablePage { previous, next, used, payload };
            let ghost before = pages@;
            pages.push(page);
            proof {
                assert(page@ == parse_page(bytes@, index as int));
                assert(page_models(pages@) =~= page_models(before).push(page@));
            }
            index = index + 1;
        }
        let timestamp_bits = match read_u64(bytes, 8) {
            Ok(v) => v,
            Err(e) => return Err(e),
        };
        let free_page_count = match read_u32(bytes, 20) {
            Ok(v) => v,
            Err(e) => return Err(e),
        };
        let first_free_page = match read_u32(bytes, 24) {
            Ok(v) => v,
            Err(e) => return Err(e),
        };
        let reserved = match read_u32(bytes, 28) {
            Ok(v) => v,
            Err(e) => return Err(e),
        };
        let mut header_padding = [0u8; 480];
        copy_from(&mut header_padding, bytes, 32);
        Ok(Table {
            header: TableHeader {
                version,
                timestamp_bits,
                page_count: page_count as u32,
                free_page_count,
                first_free_page,
                reserved,
            },
            pages,
            header_padding,
        })
    }
}

// ---------------------------------------------------------------------------
// Writing images.

/// The 512 bytes of a page.
pub open spec fn encode_page(p: PageModel) -> Seq<u8> {
    u32_le_bytes(p.previous) + u32_le_bytes(p.next) + u32_le_bytes(p.used) + p.payload
}

/// The pages one after the other.
pub open spec fn encode_pages(ps: Seq<PageModel>) -> Seq<u8>
    decreases ps.len(),
{
    if ps.len() == 0 {
        Seq::empty()
    } else {
        encode_pages(ps.drop_last()) + encode_page(ps.last())
    }
}

/// The image of a table before any encryption.
pub open spec fn encode_table(m: TableModel) -> Seq<u8> {
    MAGIC_ENCRYPTED_TABLE@ + u32_le_bytes(m.header.version) + u64_le_bytes(m.header.timestamp_bits)
        + u32_le_bytes(m.header.page_count) + u32_le_bytes(m.header.free_page_count) + u32_le_bytes(
        m.header.first_free_page,
    ) + u32_le_bytes(m.header.reserved) + m.padding + encode_pages(m.pages)
}

/// What `Table::to_bytes` writes for `m`, encrypted when a password is given.
pub open spec fn table_to_bytes(m: TableModel, password: Option<Seq<u8>>) -> Result<Seq<u8>, Error> {
    if m.pages.len() + 1 != m.header.page_count {
        Err(Error::InvalidLayout("table page count is inconsistent"))
    } else if exists|i: int| 0 <= i < m.pages.len() && #[trigger] m.pages[i].used > 500 {
        Err(Error::InvalidLayout("table page payload length exceeds 500 bytes"))
    } else {
        match password {
            None => Ok(encode_table(m)),
            Some(p) => if p.len() == 0 {
                Err(Error::EmptyPassword)
            } else {
                Ok(crypt_spec(encode_table(m), p))
            },
        }
    }
}

/// What `Table::open` makes of the image `b`: an image whose version field
/// does not read `VERSION_1` is decrypted with the password first.
pub open spec fn open_table(b: Seq<u8>, password: Option<Seq<u8>>) -> Result<TableModel, Error> {
    if b.len() < 4 {
        Err(Error::Truncated { expected: 4, actual: b.len() as usize })
    } else if !has_magic(b, MAGIC_ENCRYPTED_TABLE@) {
        Err(Error::InvalidMagic(magic_of(b)))
    } else if b.len() < 8 {
        Err(Error::Truncated { expected: 8, actual: b.len() as usize })
    } else if le_u32(b, 4) != VERSION_1 {
        match password {
            None => Err(Error::EmptyPassword),
            Some(p) => if p.len() == 0 {
                Err(Error::EmptyPassword)
            } else {
                parse_table(crypt_spec(b, p))
            },
        }
    } else {
        parse_table(b)
    }
}

impl Table {
    /// Writes the image, encrypted when a password is given.
    pub fn to_bytes(&self, password: Option<&[u8]>) -> (r: Result<Vec<u8>, Error>)
        ensures
            bytes_result(r) == table_to_bytes(self@, password_view(password)),
    {
        let ghost m = self@;
        if self.header.page_count == 0 || self.pages.len() != (self.header.page_count - 1) as usize {
            return Err(Error::InvalidLayout("table page count is inconsistent"));
        }
        let mut bytes: Vec<u8> = Vec::new();
        push_all(&mut bytes, MAGIC_ENCRYPTED_TABLE.as_slice());
        push_u32(&mut bytes, self.header.version);
        push_u64(&mut bytes, self.header.timestamp_bits);
        push_u32(&mut bytes, self.header.page_count);
        push_u32(&mut bytes, self.header.free_page_count);
        push_u32(&mut bytes, self.header.first_free_page);
        push_u32(&mut bytes, self.header.reserved);
        push_all(&mut bytes, self.header_padding.as_slice());
        let ghost prefix = bytes@;
        let mut i: usize = 0;
        while i < self.pages.len()
            invariant
                i <= self.pages@.len(),
                m == self@,
                m.pages.len() + 1 == m.header.page_count,
                bytes@ == prefix + encode_pages(m.pages.take(i as int)),
                forall|j: int| 0 <= j < i ==> (#[trigger] m.pages[j]).used <= 500,
            decreases self.pages@.len() - i,
        {
            let page = &self.pages[i];
            if page.used > 500 {
                assert(m.pages[i as int].used > 500);
                return Err(Error::InvalidLayout("table page payload length exceeds 500 bytes"));
            }
            push_u32(&mut bytes, page.previous);
            push_u32(&mut bytes, page.next);
            push_u32(&mut bytes, page.used);
            push_all(&mut bytes, page.payload.as_slice());
            proof {
                assert(m.pages.take(i + 1).drop_last() =~= m.pages.take(i as int));
                assert(m.pages[i as int] == page@);
            }
            i = i + 1;
            assert(bytes@ =~= prefix + encode_pages(m.pages.take(i as int)));
        }
        assert(m.pages.take(m.pages.len() as int) =~= m.pages);
        assert(bytes@ == encode_table(m));
        match password {
            Some(p) => match crypt_in_place(bytes.as_mut_slice(), p) {
                Ok(()) => Ok(bytes),
                Err(e) => Err(e),
            },
            None => Ok(bytes),
        }
    }

    /// Opens an image, decrypting it first unless its version field reads
    /// `VERSION_1` in the clear.
    pub fn open(bytes: Vec<u8>, password: Option<&[u8]>) -> (r: Result<Table, Error>)
        ensures
            r matches Ok(t) ==> open_table(bytes@, password_view(password)) == Ok::<TableModel, Error>(t@),
            r matches Err(e) ==> open_table(bytes@, password_view(password)) == Err::<TableModel, Error>(e),
    {
        let mut bytes = bytes;
        if bytes.len() < 4 {
            return Err(Error::Truncated { expected: 4, actual: bytes.len() });
        }
        if !starts_with_magic(bytes.as_slice(), &MAGIC_ENCRYPTED_TABLE) {
            return Err(Error::InvalidMagic([bytes[0], bytes[1], bytes[2], bytes[3]]));
        }
        let version = match read_u32(bytes.as_slice(), 4) {
            Ok(v) => v,
            Err(e) => return Err(e),
        };
        if version != VERSION_1 {
            let password = match password {
                Some(p) => p,
                None => return Err(Error::EmptyPassword),
            };
            match crypt_in_place(bytes.as_mut_slice(), password) {
                Ok(()) => {},
                Err(e) => return Err(e),
            }
        }
        Table::from_decrypted_bytes(bytes.as_slice())
    }
}

// ---------------------------------------------------------------------------
// Reading what was written, and writing what was read.

/// A table that `to_bytes` can write and `from_decrypted_bytes` reads back.
pub open spec fn table_well_formed(m: TableModel) -> bool {
    &&& m.header.version == VERSION_1
    &&& m.header.page_count == m.pages.len() + 1
    &&& m.padding.len() == 480
    &&& forall|i: int|
        0 <= i < m.pages.len() ==> {
            &&& (#[trigger] m.pages[i]).payload.len() == 500
            &&& m.pages[i].used <= 500
            &&& m.pages[i].previous < m.header.page_count
            &&& m.pages[i].next < m.header.page_count
        }
}

proof fn lemma_encode_pages_layout(ps: Seq<PageModel>)
    requires
        forall|i: int| 0 <= i < ps.len() ==> (#[trigger] ps[i]).payload.len() == 500,
    ensures
        encode_pages(ps).len() == 512 * ps.len(),
        forall|i: int| 0 <= i < ps.len() ==> #[trigger] encode_pages(ps).subrange(512 * i, 512 * i + 512) == encode_page(ps[i]),
    decreases ps.len(),
{
    if ps.len() > 0 {
        let init = ps.drop_last();
        assert forall|i: int| 0 <= i < init.len() implies (#[trigger] init[i]).payload.len() == 500 by {
            assert(init[i] == ps[i]);
        }
        lemma_encode_pages_layout(init);
        let e = encode_pages(ps);
        assert forall|i: int| 0 <= i < ps.len() implies #[trigger] e.subrange(512 * i, 512 * i + 512) == encode_page(ps[i]) by {
            if i < init.len() {
                assert(e.subrange(512 * i, 512 * i + 512) =~= encode_pages(init).subrange(512 * i, 512 * i + 512));
                assert(init[i] == ps[i]);
            } else {
                assert(e.subrange(512 * i, 512 * i + 512) =~= encode_page(ps.last()));
            }
        }
    }
}

proof fn lemma_parse_page_of(b: Seq<u8>, index: int, p: PageModel)
    requires
        1 <= index,
        512 * index + 512 <= b.len(),
        b.subrange(512 * index, 512 * index + 512) == encode_page(p),
        p.payload.len() == 500,
    ensures
        parse_page(b, index) == p,
{
    let o = 512 * index;
    let e = encode_page(p);
    assert(b.subrange(o, o + 4) =~= e.subrange(0, 4));
    assert(e.subrange(0, 4) =~= u32_le_bytes(p.previous));
    assert(b.subrange(o + 4, o + 8) =~= e.subrange(4, 8));
    assert(e.subrange(4, 8) =~= u32_le_bytes(p.next));
    assert(b.subrange(o + 8, o + 12) =~= e.subrange(8, 12));
    assert(e.subrange(8, 12) =~= u32_le_bytes(p.used));
    assert(b.subrange(o + 12, o + 512) =~= e.subrange(12, 512));
    assert(e.subrange(12, 512) =~= p.payload);
    lemma_le_u32_at(b, o, p.previous);
    lemma_le_u32_at(b, o + 4, p.next);
    lemma_le_u32_at(b, o + 8, p.used);
}

proof fn lemma_parse_pages_ok(b: Seq<u8>, n: nat, pc: int)
    requires
        parse_pages(b, n, pc) is Ok,
    ensures
        parse_pages(b, n, pc)->Ok_0.len() == n,
        forall|i: int|
            0 <= i < n ==> #[trigger] parse_pages(b, n, pc)->Ok_0[i] == parse_page(b, i + 1) && page_error(b, i + 1, pc) is None,
    decreases n,
{
    if n > 0 {
        lemma_parse_pages_ok(b, (n - 1) as nat, pc);
        let ps = parse_pages(b, (n - 1) as nat, pc)->Ok_0;
        assert(page_error(b, n as int, pc) is None);
        let full = ps.push(parse_page(b, n as int));
        assert(parse_pages(b, n, pc)->Ok_0 == full);
        assert forall|i: int| 0 <= i < n implies #[trigger] parse_pages(b, n, pc)->Ok_0[i] == parse_page(b, i + 1) && page_error(b, i + 1, pc) is None by {
            if i < n - 1 {
                assert(full[i] == ps[i]);
            }
        }
    }
}

proof fn lemma_parse_pages_of(b: Seq<u8>, n: nat, pc: int, ps: Seq<PageModel>)
    requires
        ps.len() == n,
        forall|i: int| 0 <= i < n ==> parse_page(b, i + 1) == #[trigger] ps[i] && page_error(b, i + 1, pc) is None,
    ensures
        parse_pages(b, n, pc) == Ok::<Seq<PageModel>, Error>(ps),
    decreases n,
{
    if n > 0 {
        let init = ps.drop_last();
        assert forall|i: int| 0 <= i < n - 1 implies parse_page(b, i + 1) == #[trigger] init[i] && page_error(b, i + 1, pc) is None by {
            assert(init[i] == ps[i]);
        }
        lemma_parse_pages_of(b, (n - 1) as nat, pc, init);
        assert(ps[n - 1] == parse_page(b, n as int));
        assert(init.push(ps[n - 1]) =~= ps);
    } else {
        assert(ps =~= Seq::<PageModel>::empty());
    }
}

#[verifier::spinoff_prover]
#[verifier::rlimit(40)]
proof fn lemma_encoded_table_segments(m: TableModel)
    requires
        table_well_formed(m),
    ensures
        ({
            let b = encode_table(m);
            &&& b.len() == 512 + 512 * m.pages.len()
            &&& b.subrange(0, 4) == MAGIC_ENCRYPTED_TABLE@
            &&& b.subrange(4, 8) == u32_le_bytes(m.header.version)
            &&& b.subrange(8, 12) == u32_le_bytes((m.header.timestamp_bits % 0x1_0000_0000) as u32)
            &&& b.subrange(12, 16) == u32_le_bytes((m.header.timestamp_bits / 0x1_0000_0000) as u32)
            &&& b.subrange(16, 20) == u32_le_bytes(m.header.page_count)
            &&& b.subrange(20, 24) == u32_le_bytes(m.header.free_page_count)
            &&& b.subrange(24, 28) == u32_le_bytes(m.header.first_free_page)
            &&& b.subrange(28, 32) == u32_le_bytes(m.header.reserved)
            &&& b.subrange(32, 512) == m.padding
            &&& b.subrange(512, b.len() as int) == encode_pages(m.pages)
        }),
{
    lemma_encode_pages_layout(m.pages);
    let lo = (m.header.timestamp_bits % 0x1_0000_0000) as u32;
    let hi = (m.header.timestamp_bits / 0x1_0000_0000) as u32;
    lemma_u32_le_roundtrip(m.header.version);
    lemma_u32_le_roundtrip(lo);
    lemma_u32_le_roundtrip(hi);
    lemma_u32_le_roundtrip(m.header.page_count);
    lemma_u32_le_roundtrip(m.header.free_page_count);
    lemma_u32_le_roundtrip(m.header.first_free_page);
    lemma_u32_le_roundtrip(m.header.reserved);
    let p1 = MAGIC_ENCRYPTED_TABLE@;
    let p2 = p1 + u32_le_bytes(m.header.version);
    let p3 = p2 + u64_le_bytes(m.header.timestamp_bits);
    let p4 = p3 + u32_le_bytes(m.header.page_count);
    let p5 = p4 + u32_le_bytes(m.header.free_page_count);
    let p6 = p5 + u32_le_bytes(m.header.first_free_page);
    let p7 = p6 + u32_le_bytes(m.header.reserved);
    let p8 = p7 + m.padding;
    let b = p8 + encode_pages(m.pages);
    assert(b == encode_table(m));
    lemma_add_parts(p8, encode_pages(m.pages));
    lemma_add_parts(p7, m.padding);
    lemma_prefix_chain(b, p8, p7);
    lemma_add_parts(p6, u32_le_bytes(m.header.reserved));
    lemma_prefix_chain(b, p7, p6);
    lemma_add_parts(p5, u32_le_bytes(m.header.first_free_page));
    lemma_prefix_chain(b, p6, p5);
    lemma_add_parts(p4, u32_le_bytes(m.header.free_page_count));
    lemma_prefix_chain(b, p5, p4);
    lemma_add_parts(p3, u32_le_bytes(m.header.page_count));
    lemma_prefix_chain(b, p4, p3);
    lemma_add_parts(p2, u64_le_bytes(m.header.timestamp_bits));
    lemma_prefix_chain(b, p3, p2);
    lemma_add_parts(p1, u32_le_bytes(m.header.version));
    lemma_prefix_chain(b, p2, p1);
    lemma_add_parts(u32_le_bytes(lo), u32_le_bytes(hi));
    lemma_sub_of_prefix(b, p3, 8, 16);
    lemma_sub_of_prefix(b, p3, 8, 12);
    lemma_sub_of_prefix(b, p3, 12, 16);
    assert(p3.subrange(8, 16) == u64_le_bytes(m.header.timestamp_bits));
    assert(b.subrange(8, 16).subrange(0, 4) =~= b.subrange(8, 12));
    assert(b.subrange(8, 16).subrange(4, 8) =~= b.subrange(12, 16));
    lemma_sub_of_prefix(b, p2, 4, 8);
    lemma_sub_of_prefix(b, p4, 16, 20);
    lemma_sub_of_prefix(b, p5, 20, 24);
    lemma_sub_of_prefix(b, p6, 24, 28);
    lemma_sub_of_prefix(b, p7, 28, 32);
    lemma_sub_of_prefix(b, p8, 32, 512);
}

/// Reading an image written from a well-formed table gives back that table.
#[verifier::spinoff_prover]
#[verifier::rlimit(60)]
pub proof fn lemma_parse_encoded_table(m: TableModel)
    requires
        table_well_formed(m),
    ensures
        parse_table(encode_table(m)) == Ok::<TableModel, Error>(m),
{
    reveal(parse_table);
    let b = encode_table(m);
    let n = m.pages.len();
    let pc = m.header.page_count as int;
    lemma_encoded_table_segments(m);
    lemma_encode_pages_layout(m.pages);
    lemma_le_u32_at(b, 4, m.header.version);
    lemma_le_u32_at(b, 8, (m.header.timestamp_bits % 0x1_0000_0000) as u32);
    lemma_le_u32_at(b, 12, (m.header.timestamp_bits / 0x1_0000_0000) as u32);
    lemma_u64_split(m.header.timestamp_bits);
    lemma_le_u32_at(b, 16, m.header.page_count);
    lemma_le_u32_at(b, 20, m.header.free_page_count);
    lemma_le_u32_at(b, 24, m.header.first_free_page);
    lemma_le_u32_at(b, 28, m.header.reserved);
    assert(b.len() % 512 == 0 && b.len() / 512 == pc);
    assert forall|i: int| 0 <= i < n implies parse_page(b, i + 1) == #[trigger] m.pages[i] && page_error(b, i + 1, pc) is None by {
        assert(b.subrange(512 * (i + 1), 512 * (i + 1) + 512) =~= encode_pages(m.pages).subrange(512 * i, 512 * i + 512));
        lemma_parse_page_of(b, i + 1, m.pages[i]);
    }
    lemma_parse_pages_of(b, n as nat, pc, m.pages);
    assert(table_model_of(b, m.pages).padding =~= m.padding);
}

/// How a parsed table image is laid out.
proof fn lemma_parse_table_layout(b: Seq<u8>)
    requires
        parse_table(b) is Ok,
    ensures
        ({
            let m = parse_table(b)->Ok_0;
            &&& table_well_formed(m)
            &&& b.len() == 512 + 512 * m.pages.len()
            &&& has_magic(b, MAGIC_ENCRYPTED_TABLE@)
            &&& m.header.version == le_u32(b, 4)
            &&& m.header.timestamp_bits == le_u64(b, 8)
            &&& m.header.page_count == le_u32(b, 16)
            &&& m.header.free_page_count == le_u32(b, 20)
            &&& m.header.first_free_page == le_u32(b, 24)
            &&& m.header.reserved == le_u32(b, 28)
            &&& m.padding == b.subrange(32, 512)
            &&& encode_pages(m.pages) == b.subrange(512, b.len() as int)
        }),
{
    reveal(parse_table);
    let m = parse_table(b)->Ok_0;
    let pc = le_u32(b, 16) as int;
    let n = (pc - 1) as nat;
    lemma_parse_pages_ok(b, n, pc);
    assert forall|i: int| 0 <= i < m.pages.len() implies {
        &&& (#[trigger] m.pages[i]).payload.len() == 500
        &&& m.pages[i].used <= 500
        &&& m.pages[i].previous < m.header.page_count
        &&& m.pages[i].next < m.header.page_count
    } by {
        assert(512 * (i + 1) + 512 <= b.len());
    }
    lemma_encode_parsed_pages(b, m.pages);
}

proof fn lemma_encode_parsed_pages(b: Seq<u8>, ps: Seq<PageModel>)
    requires
        512 + 512 * ps.len() <= b.len(),
        forall|i: int| 0 <= i < ps.len() ==> #[trigger] ps[i] == parse_page(b, i + 1),
    ensures
        encode_pages(ps) == b.subrange(512, 512 + 512 * (ps.len() as int)),
    decreases ps.len(),
{
    if ps.len() > 0 {
        let init = ps.drop_last();
        let n = ps.len() - 1;
        assert forall|i: int| 0 <= i < init.len() implies #[trigger] init[i] == parse_page(b, i + 1) by {
            assert(init[i] == ps[i]);
        }
        lemma_encode_parsed_pages(b, init);
        let o = 512 * (n + 1);
        lemma_le_u32_bytes(b, o);
        lemma_le_u32_bytes(b, o + 4);
        lemma_le_u32_bytes(b, o + 8);
        assert(encode_page(ps.last()) =~= b.subrange(o, o + 512));
        assert(b.subrange(512, 512 + 512 * (ps.len() as int)) =~= b.subrange(512, 512 + 512 * n) + b.subrange(o, o + 512));
    } else {
        assert(b.subrange(512, 512) =~= Seq::<u8>::empty());
    }
}

/// Writing a parsed table image gives back exactly the bytes that were read.
pub proof fn lemma_encode_parsed_table(b: Seq<u8>)
    requires
        parse_table(b) is Ok,
    ensures
        encode_table(parse_table(b)->Ok_0) == b,
{
    let m = parse_table(b)->Ok_0;
    lemma_parse_table_layout(b);
    lemma_encoded_table_segments(m);
    let e = encode_table(m);
    lemma_le_u32_bytes(b, 4);
    lemma_u64_bytes_of_le(b, 8);
    lemma_le_u32_bytes(b, 16);
    lemma_le_u32_bytes(b, 20);
    lemma_le_u32_bytes(b, 24);
    lemma_le_u32_bytes(b, 28);
    assert(b.subrange(8, 16).subrange(0, 4) =~= b.subrange(8, 12));
    assert(b.subrange(8, 16).subrange(4, 8) =~= b.subrange(12, 16));
    assert(u64_le_bytes(m.header.timestamp_bits).subrange(0, 4) =~= u32_le_bytes((m.header.timestamp_bits % 0x1_0000_0000) as u32));
    assert(u64_le_bytes(m.header.timestamp_bits).subrange(4, 8) =~= u32_le_bytes((m.header.timestamp_bits / 0x1_0000_0000) as u32));
    assert forall|i: int| 0 <= i < b.len() implies #[trigger] e[i] == b[i] by {
        if i < 4 {
            assert(e.subrange(0, 4)[i] == b.subrange(0, 4)[i]);
        } else if i < 8 {
            assert(e.subrange(4, 8)[i - 4] == b.subrange(4, 8)[i - 4]);
        } else if i < 12 {
            assert(e.subrange(8, 12)[i - 8] == b.subrange(8, 12)[i - 8]);
        } else if i < 16 {
            assert(e.subrange(12, 16)[i - 12] == b.subrange(12, 16)[i - 12]);
        } else if i < 20 {
            assert(e.subrange(16, 20)[i - 16] == b.subrange(16, 20)[i - 16]);
        } else if i < 24 {
            assert(e.subrange(20, 24)[i - 20] == b.subrange(20, 24)[i - 20]);
        } else if i < 28 {
            assert(e.subrange(24, 28)[i - 24] == b.subrange(24, 28)[i - 24]);
        } else if i < 32 {
            assert(e.subrange(28, 32)[i - 28] == b.subrange(28, 32)[i - 28]);
        } else if i < 512 {
            assert(e.subrange(32, 512)[i - 32] == b.subrange(32, 512)[i - 32]);
        } else {
            assert(e.subrange(512, e.len() as int)[i - 512] == b.subrange(512, b.len() as int)[i - 512]);
        }
    }
    assert(e =~= b);
}

/// An encrypted table image that opens with a password is written back by
/// `to_bytes` with the same password byte for byte.
pub proof fn lemma_table_open_then_write(b: Seq<u8>, p: Seq<u8>)
    requires
        b.len() >= 8,
        le_u32(b, 4) != VERSION_1,
        open_table(b, Some(p)) is Ok,
    ensures
        table_to_bytes(open_table(b, Some(p))->Ok_0, Some(p)) == Ok::<Seq<u8>, Error>(b),
{
    let d = crypt_spec(b, p);
    lemma_crypt_involution(b, p);
    lemma_encode_parsed_table(d);
    lemma_parse_table_layout(d);
}

/// A well-formed table written with a password opens with that password to
/// the same table, unless the encrypted version field happens to read
/// `VERSION_1`, in which case `open` takes the image for a clear one.
pub proof fn lemma_table_write_then_open(m: TableModel, p: Seq<u8>)
    requires
        table_well_formed(m),
        p.len() > 0,
        le_u32(crypt_spec(encode_table(m), p), 4) != VERSION_1,
    ensures
        table_to_bytes(m, Some(p)) is Ok,
        open_table(table_to_bytes(m, Some(p))->Ok_0, Some(p)) == Ok::<TableModel, Error>(m),
{
    let plain = encode_table(m);
    lemma_encoded_table_segments(m);
    lemma_crypt_keeps_signature(plain, p);
    lemma_crypt_involution(plain, p);
    let b = crypt_spec(plain, p);
    assert(b.subrange(0, 4) =~= plain.subrange(0, 4));
    lemma_parse_encoded_table(m);
}

// ---------------------------------------------------------------------------
// Allocating, freeing and rewriting chains.

/// A page holding nothing and linked to nothing.
pub open spec fn empty_page_model() -> PageModel {
    PageModel { previous: 0, next: 0, used: 0, payload: Seq::new(500, |k: int| 0u8) }
}

/// `m` with page `index` replaced by `p`.
pub open spec fn with_page(m: TableModel, index: u32, p: PageModel) -> TableModel {
    TableModel { pages: m.pages.update(index - 1, p), ..m }
}

/// `m` with the back link of page `index` set to `previous`.
pub open spec fn with_previous(m: TableModel, index: u32, previous: u32) -> TableModel {
    with_page(m, index, PageModel { previous, ..m.pages[index - 1] })
}

/// Whether `index` names a page of `m` (page zero does not).
pub open spec fn valid_page(m: TableModel, index: u32) -> bool {
    1 <= index <= m.pages.len()
}

/// The error for a page index that names no page.
pub open spec fn bad_page_error(m: TableModel, index: u32) -> Error {
    spec_page(m, index)->Err_0
}

/// What `free_page` does: pushes page `index`, emptied, on the front of the
/// free list. The state after an error holds whatever was already changed.
pub open spec fn spec_free_page(m: TableModel, index: u32) -> (TableModel, Result<(), Error>) {
    let ff = m.header.first_free_page;
    if ff != 0 && !valid_page(m, ff) {
        (m, Err(bad_page_error(m, ff)))
    } else {
        let m1 = if ff != 0 { with_previous(m, ff, index) } else { m };
        if !valid_page(m1, index) {
            (m1, Err(bad_page_error(m1, index)))
        } else {
            let m2 = with_page(m1, index, PageModel { next: ff, ..empty_page_model() });
            let m3 = TableModel { header: TableHeader { first_free_page: index, ..m2.header }, ..m2 };
            if m.header.free_page_count == u32::MAX {
                (m3, Err(Error::InvalidLayout("free-page count overflow")))
            } else {
                (
                    TableModel {
                        header: TableHeader {
                            free_page_count: (m.header.free_page_count + 1) as u32,
                            ..m3.header
                        },
                        ..m3
                    },
                    Ok(()),
                )
            }
        }
    }
}

/// What `allocate_page` does: pops the front of the free list when the
/// header counts free pages, and otherwise appends an empty page.
pub open spec fn spec_allocate_page(m: TableModel) -> (TableModel, Result<u32, Error>) {
    if m.header.free_page_count > 0 {
        let index = m.header.first_free_page;
        if index == 0 {
            (m, Err(Error::InvalidLayout("free-page count is nonzero but list is empty")))
        } else if !valid_page(m, index) {
            (m, Err(bad_page_error(m, index)))
        } else {
            let next = m.pages[index - 1].next;
            let m1 = TableModel {
                header: TableHeader {
                    first_free_page: next,
                    free_page_count: (m.header.free_page_count - 1) as u32,
                    ..m.header
                },
                ..m
            };
            let m2 = with_page(m1, index, empty_page_model());
            if next == 0 {
                (m2, Ok(index))
            } else if !valid_page(m2, next) {
                (m2, Err(bad_page_error(m2, next)))
            } else {
                (with_previous(m2, next, 0), Ok(index))
            }
        }
    } else {
        let index = m.pages.len() + 1;
        if index > u32::MAX {
            (m, Err(Error::InvalidLayout("table page index overflow")))
        } else {
            (
                TableModel {
                    header: TableHeader { page_count: (m.pages.len() + 2) as u32, ..m.header },
                    pages: m.pages.push(empty_page_model()),
                    ..m
                },
                Ok(index as u32),
            )
        }
    }
}

/// Frees the pages `list` in order, stopping at the first error.
pub open spec fn spec_free_all(m: TableModel, list: Seq<u32>) -> (TableModel, Result<(), Error>)
    decreases list.len(),
{
    if list.len() == 0 {
        (m, Ok(()))
    } else {
        let (m1, r) = spec_free_all(m, list.drop_last());
        match r {
            Err(e) => (m1, Err(e)),
            Ok(_) => spec_free_page(m1, list.last()),
        }
    }
}

/// Allocates `k` pages in order, stopping at the first error.
pub open spec fn spec_allocate_n(m: TableModel, k: nat) -> (TableModel, Result<Seq<u32>, Error>)
    decreases k,
{
    if k == 0 {
        (m, Ok(Seq::empty()))
    } else {
        let (m1, r) = spec_allocate_n(m, (k - 1) as nat);
        match r {
            Err(e) => (m1, Err(e)),
            Ok(s) => {
                let (m2, r2) = spec_allocate_page(m1);
                match r2 {
                    Err(e) => (m2, Err(e)),
                    Ok(i) => (m2, Ok(s.push(i))),
                }
            },
        }
    }
}

/// Whether taking `k` pages appends one while the table holds
/// `u32::MAX - 1` pages, where the page count no longer fits its field and
/// `allocate_page` overflows.
pub open spec fn allocation_overflows(m: TableModel, k: nat) -> bool
    decreases k,
{
    k > 0 && (allocation_overflows(m, (k - 1) as nat) || ({
        let (mt, r) = spec_allocate_n(m, (k - 1) as nat);
        r is Ok && mt.header.free_page_count == 0 && mt.pages.len() == u32::MAX - 1
    }))
}

/// Whether rewriting the chain at `first` with `data` runs into that
/// overflow while taking the pages the data needs beyond the chain.
pub open spec fn replace_overflows(m: TableModel, first: u32, data: Seq<u8>) -> bool {
    match chain_of(m, first) {
        Err(_) => false,
        Ok(existing) => data.len() > 0 && existing.len() < pages_needed(data.len() as int) && allocation_overflows(
            m,
            (pages_needed(data.len() as int) - existing.len()) as nat,
        ),
    }
}

proof fn lemma_allocation_overflows_grows(m: TableModel, k: nat, n: nat)
    requires
        k <= n,
        allocation_overflows(m, k),
    ensures
        allocation_overflows(m, n),
    decreases n - k,
{
    if k < n {
        lemma_allocation_overflows_grows(m, k, (n - 1) as nat);
    }
}

/// The number of pages `len` payload bytes need.
pub open spec fn pages_needed(len: int) -> int {
    (len + 499) / 500
}

/// The payload that position `pos` of a chain holds.
pub open spec fn chunk(data: Seq<u8>, pos: int) -> Seq<u8> {
    data.subrange(500 * pos, if 500 * pos + 500 < data.len() { 500 * pos + 500 } else { data.len() as int })
}

/// Page `pos` of the chain `selected` that holds `data`.
pub open spec fn chain_page(selected: Seq<u32>, data: Seq<u8>, pos: int) -> PageModel {
    let c = chunk(data, pos);
    PageModel {
        previous: if pos == 0 { 0 } else { selected[pos - 1] },
        next: if pos + 1 < selected.len() { selected[pos + 1] } else { 0 },
        used: c.len() as u32,
        payload: c + Seq::new((500 - c.len()) as nat, |k: int| 0u8),
    }
}

/// Writes positions `0..k` of the chain, in order.
pub open spec fn write_chain(m: TableModel, selected: Seq<u32>, data: Seq<u8>, k: nat) -> TableModel
    decreases k,
{
    if k == 0 {
        m
    } else {
        let m1 = write_chain(m, selected, data, (k - 1) as nat);
        with_page(m1, selected[k - 1], chain_page(selected, data, k - 1))
    }
}

/// What `replace_chain` does: reuses the pages of the chain at `first` in
/// order, allocates what more `data` needs or frees what it does not, then
/// writes `data` 500 bytes a page. The state after an error holds whatever
/// was already changed.
pub open spec fn spec_replace_chain(m: TableModel, first: u32, data: Seq<u8>) -> (TableModel, Result<u32, Error>) {
    match chain_of(m, first) {
        Err(e) => (m, Err(e)),
        Ok(existing) => if data.len() == 0 {
            let (m1, r) = spec_free_all(m, existing);
            match r {
                Err(e) => (m1, Err(e)),
                Ok(_) => (m1, Ok(0u32)),
            }
        } else {
            let required = pages_needed(data.len() as int);
            let keep = if existing.len() < required { existing } else { existing.take(required) };
            let (m1, r1) = spec_allocate_n(m, (required - keep.len()) as nat);
            match r1 {
                Err(e) => (m1, Err(e)),
                Ok(fresh) => {
                    let selected = keep + fresh;
                    let dropped = if existing.len() > required { existing.skip(required) } else { Seq::empty() };
                    let (m2, r2) = spec_free_all(m1, dropped);
                    match r2 {
                        Err(e) => (m2, Err(e)),
                        Ok(_) => (write_chain(m2, selected, data, required as nat), Ok(selected[0])),
                    }
                },
            }
        },
    }
}

/// Every page of a successful walk is a page of the table, with no repeats.
pub proof fn lemma_walk_valid(pages: Seq<PageModel>, current: u32, previous: u32, visited: Seq<u32>, fuel: nat, free: bool)
    requires
        walk(pages, current, previous, visited, fuel, free) is Ok,
        visited.no_duplicates(),
        forall|i: int| 0 <= i < visited.len() ==> 1 <= #[trigger] visited[i] <= pages.len(),
    ensures
        ({
            let r = walk(pages, current, previous, visited, fuel, free)->Ok_0;
            &&& r.no_duplicates()
            &&& forall|i: int| 0 <= i < r.len() ==> 1 <= #[trigger] r[i] <= pages.len()
            &&& r.len() >= visited.len()
            &&& r.subrange(0, visited.len() as int) == visited
        }),
    decreases fuel,
{
    if current != 0 {
        let v2 = visited.push(current);
        assert(v2.no_duplicates()) by {
            assert forall|i: int, j: int| 0 <= i < v2.len() && 0 <= j < v2.len() && i != j implies v2[i] != v2[j] by {
                if i < visited.len() && j < visited.len() {
                } else if i == visited.len() {
                    assert(!visited.contains(current));
                    assert(v2[j] == visited[j]);
                } else {
                    assert(!visited.contains(current));
                    assert(v2[i] == visited[i]);
                }
            }
        }
        lemma_walk_valid(pages, pages[current - 1].next, current, v2, (fuel - 1) as nat, free);
        let r = walk(pages, current, previous, visited, fuel, free)->Ok_0;
        assert(r.subrange(0, visited.len() as int) =~= r.subrange(0, v2.len() as int).subrange(0, visited.len() as int));
    } else {
        assert(visited.subrange(0, visited.len() as int) =~= visited);
    }
}

/// The page that holds nothing.
fn empty_page() -> (p: TablePage)
    ensures
        p@ == empty_page_model(),
{
    let p = TablePage { previous: 0, next: 0, used: 0, payload: [0u8; 500] };
    assert(p@.payload =~= Seq::new(500, |k: int| 0u8));
    p
}

impl Table {
    /// Frees page `page_index`: empties it and pushes it on the free list.
    fn free_page(&mut self, page_index: u32) -> (r: Result<(), Error>)
        requires
            old(self)@.pages.len() < usize::MAX,
        ensures
            (final(self)@, r) == spec_free_page(old(self)@, page_index),
    {
        let ghost m = self@;
        let first_free_page = self.header.first_free_page;
        let n = self.pages.len();
        if first_free_page != 0 {
            if first_free_page as usize > n {
                return Err(Error::IndexOutOfBounds { index: first_free_page as usize, len: n + 1 });
            }
            let mut page = self.pages[first_free_page as usize - 1];
            page.previous = page_index;
            self.pages.set(first_free_page as usize - 1, page);
            proof {
                assert(self@ =~= with_previous(m, first_free_page, page_index));
            }
        }
        let ghost m1 = self@;
        if page_index == 0 {
            return Err(Error::InvalidLayout("page zero is the table header"));
        }
        if page_index as usize > n {
            return Err(Error::IndexOutOfBounds { index: page_index as usize, len: n + 1 });
        }
        let mut page = empty_page();
        page.next = first_free_page;
        self.pages.set(page_index as usize - 1, page);
        self.header.first_free_page = page_index;
        proof {
            assert(self@ =~= TableModel {
                header: TableHeader { first_free_page: page_index, ..m1.header },
                ..with_page(m1, page_index, PageModel { next: first_free_page, ..empty_page_model() })
            });
        }
        match self.header.free_page_count.checked_add(1) {
            Some(v) => {
                self.header.free_page_count = v;
                Ok(())
            },
            None => Err(Error::InvalidLayout("free-page count overflow")),
        }
    }

    /// Takes a page for a chain: the front of the free list when the header
    /// counts free pages, otherwise a new page at the end.
    fn allocate_page(&mut self) -> (r: Result<u32, Error>)
        requires
            old(self)@.pages.len() < usize::MAX,
            !(old(self)@.header.free_page_count == 0 && old(self)@.pages.len() == u32::MAX - 1),
        ensures
            (final(self)@, r) == spec_allocate_page(old(self)@),
    {
        let ghost m = self@;
        let n = self.pages.len();
        if self.header.free_page_count > 0 {
            let page_index = self.header.first_free_page;
            if page_index == 0 {
                return Err(Error::InvalidLayout("free-page count is nonzero but list is empty"));
            }
            if page_index as usize > n {
                return Err(Error::IndexOutOfBounds { index: page_index as usize, len: n + 1 });
            }
            let next = self.pages[page_index as usize - 1].next;
            self.header.first_free_page = next;
            self.header.free_page_count = self.header.free_page_count - 1;
            self.pages.set(page_index as usize - 1, empty_page());
            let ghost m2 = self@;
            proof {
                assert(m2 =~= with_page(TableModel {
                    header: TableHeader {
                        first_free_page: next,
                        free_page_count: (m.header.free_page_count - 1) as u32,
                        ..m.header
                    },
                    ..m
                }, page_index, empty_page_model()));
            }
            if next != 0 {
                if next as usize > n {
                    return Err(Error::IndexOutOfBounds { index: next as usize, len: n + 1 });
                }
                let mut page = self.pages[next as usize - 1];
                page.previous = 0;
                self.pages.set(next as usize - 1, page);
                proof {
                    assert(self@ =~= with_previous(m2, next, 0));
                }
            }
            proof {
                assert(m2 =~= with_page(TableModel {
                    header: TableHeader {
                        first_free_page: next,
                        free_page_count: (m.header.free_page_count - 1) as u32,
                        ..m.header
                    },
                    ..m
                }, page_index, empty_page_model()));
            }
            Ok(page_index)
        } else {
            let page_index = n + 1;
            if page_index > 0xffff_ffff {
                return Err(Error::InvalidLayout("table page index overflow"));
            }
            self.pages.push(empty_page());
            self.header.page_count = self.pages.len() as u32 + 1;
            proof {
                assert(self@.pages =~= m.pages.push(empty_page_model()));
            }
            Ok(page_index as u32)
        }
    }
}

proof fn lemma_allocate_shape(m: TableModel)
    ensures
        ({
            let (m2, r) = spec_allocate_page(m);
            &&& m.pages.len() <= m2.pages.len() <= m.pages.len() + 1
            &&& r matches Ok(i) ==> 1 <= i <= m2.pages.len()
        }),
{
}

pub(crate) proof fn lemma_allocate_n_shape(m: TableModel, k: nat)
    ensures
        ({
            let (m2, r) = spec_allocate_n(m, k);
            &&& m.pages.len() <= m2.pages.len() <= m.pages.len() + k
            &&& r matches Ok(s) ==> s.len() == k && forall|i: int| 0 <= i < k ==> 1 <= #[trigger] s[i] <= m2.pages.len()
        }),
    decreases k,
{
    if k > 0 {
        lemma_allocate_n_shape(m, (k - 1) as nat);
        let (m1, r) = spec_allocate_n(m, (k - 1) as nat);
        lemma_allocate_shape(m1);
    }
}

pub(crate) proof fn lemma_free_all_shape(m: TableModel, list: Seq<u32>)
    ensures
        spec_free_all(m, list).0.pages.len() == m.pages.len(),
    decreases list.len(),
{
    if list.len() > 0 {
        lemma_free_all_shape(m, list.drop_last());
    }
}

/// Page `pos` of a chain, with `data`'s chunk as payload.
fn make_chain_page(selected: &Vec<u32>, data: &[u8], pos: usize) -> (p: TablePage)
    requires
        pos < selected@.len(),
        500 * pos < data@.len(),
    ensures
        p@ == chain_page(selected@, data@, pos as int),
{
    let _len = data.len();
    let start = 500 * pos;
    let end = if data.len() - start > 500 { start + 500 } else { data.len() };
    let mut payload = [0u8; 500];
    let mut k: usize = 0;
    while k < end - start
        invariant
            start < end <= data@.len(),
            end - start <= 500,
            k <= end - start,
            payload@.len() == 500,
            forall|j: int| 0 <= j < k ==> payload@[j] == data@[start + j],
            forall|j: int| k <= j < 500 ==> payload@[j] == 0u8,
        decreases end - start - k,
    {
        payload[k] = data[start + k];
        k = k + 1;
    }
    let previous = if pos == 0 { 0 } else { selected[pos - 1] };
    let next = if pos + 1 < selected.len() { selected[pos + 1] } else { 0 };
    let p = TablePage { previous, next, used: (end - start) as u32, payload };
    proof {
        let c = chunk(data@, pos as int);
        assert(c =~= data@.subrange(start as int, end as int));
        assert(p@.payload =~= c + Seq::new((500 - c.len()) as nat, |k: int| 0u8));
    }
    p
}

impl Table {
    /// Replaces the payload of the chain that starts at `first_page` with
    /// `data`: its pages are reused in order, further pages come from the
    /// free list or the end of the table, and pages no longer needed are
    /// freed. Returns the first page of the new chain, or page zero for no
    /// data.
    pub fn replace_chain(&mut self, first_page: u32, data: &[u8]) -> (r: Result<u32, Error>)
        requires
            pages_ok(old(self)@),
            !replace_overflows(old(self)@, first_page, data@),
        ensures
            (final(self)@, r) == spec_replace_chain(old(self)@, first_page, data@),
    {
        let ghost m = self@;
        let existing = match self.chain_pages(first_page) {
            Ok(v) => v,
            Err(e) => return Err(e),
        };
        proof {
            lemma_walk_valid(m.pages, first_page, 0, Seq::empty(), (m.pages.len() + 1) as nat, false);
        }
        if data.len() == 0 {
            let mut i: usize = 0;
            while i < existing.len()
                invariant
                    i <= existing@.len(),
                    m == old(self)@,
                    chain_of(m, first_page) == Ok::<Seq<u32>, Error>(existing@),
                    data@.len() == 0,
                    self@.pages.len() == m.pages.len(),
                    m.pages.len() < usize::MAX,
                    spec_free_all(m, existing@.take(i as int)) == (self@, Ok::<(), Error>(())),
                decreases existing@.len() - i,
            {
                proof {
                    assert(existing@.take(i + 1).drop_last() =~= existing@.take(i as int));
                    assert(existing@.take(i + 1).last() == existing@[i as int]);
                }
                match self.free_page(existing[i]) {
                    Ok(()) => {},
                    Err(e) => {
                        proof {
                            assert(spec_free_all(m, existing@.take(i + 1)) == (self@, Err::<(), Error>(e)));
                            assert(existing@.take(existing@.len() as int) =~= existing@);
                            lemma_free_all_err_stays(m, existing@, (i + 1) as nat);
                        }
                        return Err(e);
                    },
                }
                i = i + 1;
                proof {
                    lemma_free_all_shape(m, existing@.take(i as int));
                }
            }
            proof {
                assert(existing@.take(existing@.len() as int) =~= existing@);
            }
            return Ok(0);
        }
        let required = data.len() / 500 + if data.len() % 500 != 0 { 1 } else { 0 };
        assert(required == pages_needed(data@.len() as int));
        let keep_n = if existing.len() < required { existing.len() } else { required };
        let mut selected: Vec<u32> = Vec::new();
        let mut i: usize = 0;
        while i < keep_n
            invariant
                i <= keep_n <= existing@.len(),
                selected@ == existing@.take(i as int),
            decreases keep_n - i,
        {
            selected.push(existing[i]);
            i = i + 1;
            assert(selected@ =~= existing@.take(i as int));
        }
        let ghost keep = selected@;
        assert(keep =~= if existing@.len() < required { existing@ } else { existing@.take(required as int) });
        let ghost base = self@;
        assert(selected@.subrange(keep_n as int, selected@.len() as int) =~= Seq::<u32>::empty());
        assert(selected@.subrange(0, keep_n as int) =~= keep);
        while selected.len() < required
            invariant
                keep_n <= selected@.len() <= required,
                m == old(self)@,
                chain_of(m, first_page) == Ok::<Seq<u32>, Error>(existing@),
                data@.len() > 0,
                required == pages_needed(data@.len() as int),
                keep == if existing@.len() < required { existing@ } else { existing@.take(required as int) },
                keep == selected@.subrange(0, keep_n as int),
                keep.len() == keep_n,
                base == m,
                keep_n == required || keep_n == existing@.len(),
                keep_n < required ==> !allocation_overflows(base, (required - keep_n) as nat),
                self@.pages.len() < usize::MAX,
                spec_allocate_n(base, (selected@.len() - keep_n) as nat) == (
                    self@,
                    Ok::<Seq<u32>, Error>(selected@.subrange(keep_n as int, selected@.len() as int)),
                ),
                m.pages.len() <= self@.pages.len() <= m.pages.len() + (selected@.len() - keep_n),
            decreases required - selected@.len(),
        {
            let ghost k = (selected@.len() - keep_n) as nat;
            proof {
                lemma_allocate_n_shape(base, k);
                if self@.header.free_page_count == 0 && self@.pages.len() == u32::MAX - 1 {
                    assert(allocation_overflows(base, k + 1));
                    lemma_allocation_overflows_grows(base, k + 1, (required - keep_n) as nat);
                }
            }
            match self.allocate_page() {
                Ok(page) => {
                    let ghost before = selected@;
                    selected.push(page);
                    proof {
                        assert(selected@.subrange(0, keep_n as int) =~= before.subrange(0, keep_n as int));
                        assert(selected@.subrange(keep_n as int, selected@.len() as int) =~= before.subrange(
                            keep_n as int,
                            before.len() as int,
                        ).push(page));
                        lemma_allocate_n_shape(base, (k + 1) as nat);
                    }
                },
                Err(e) => {
                    proof {
                        lemma_allocate_n_err_stays(base, (k + 1) as nat, (required - keep_n) as nat);
                    }
                    return Err(e);
                },
            }
        }
        let ghost fresh = selected@.subrange(keep_n as int, selected@.len() as int);
        assert(selected@ =~= keep + fresh);
        let ghost m1 = self@;
        proof {
            lemma_allocate_n_shape(base, (required - keep_n) as nat);
        }
        let ghost dropped = if existing@.len() > required { existing@.skip(required as int) } else { Seq::<u32>::empty() };
        if existing.len() > required {
            let mut j: usize = required;
            assert(dropped.take(0) =~= Seq::<u32>::empty());
            while j < existing.len()
                invariant
                    required <= j <= existing@.len(),
                    m == old(self)@,
                    chain_of(m, first_page) == Ok::<Seq<u32>, Error>(existing@),
                    data@.len() > 0,
                    required == pages_needed(data@.len() as int),
                    keep == if existing@.len() < required { existing@ } else { existing@.take(required as int) },
                    keep_n == keep.len(),
                    spec_allocate_n(m, (required - keep_n) as nat) == (m1, Ok::<Seq<u32>, Error>(fresh)),
                    dropped == existing@.skip(required as int),
                    self@.pages.len() == m1.pages.len(),
                    m1.pages.len() < usize::MAX,
                    spec_free_all(m1, dropped.take(j - required)) == (self@, Ok::<(), Error>(())),
                decreases existing@.len() - j,
            {
                proof {
                    assert(dropped.take(j + 1 - required).drop_last() =~= dropped.take(j - required));
                    assert(dropped.take(j + 1 - required).last() == existing@[j as int]);
                }
                match self.free_page(existing[j]) {
                    Ok(()) => {},
                    Err(e) => {
                        proof {
                            assert(spec_free_all(m1, dropped.take(j + 1 - required)) == (self@, Err::<(), Error>(e)));
                            lemma_free_all_err_stays(m1, dropped, (j + 1 - required) as nat);
                        }
                        return Err(e);
                    },
                }
                j = j + 1;
                proof {
                    lemma_free_all_shape(m1, dropped.take(j - required));
                }
            }
            proof {
                assert(dropped.take(existing@.len() - required) =~= dropped);
            }
        }
        let ghost m2 = self@;
        let mut pos: usize = 0;
        while pos < required
            invariant
                pos <= required,
                required == selected@.len(),
                required == pages_needed(data@.len() as int),
                data@.len() > 0,
                self@ == write_chain(m2, selected@, data@, pos as nat),
                self@.pages.len() == m2.pages.len(),
                forall|q: int| 0 <= q < selected@.len() ==> 1 <= #[trigger] selected@[q] <= m2.pages.len(),
            decreases required - pos,
        {
            let page = make_chain_page(&selected, data, pos);
            let index = selected[pos];
            self.pages.set(index as usize - 1, page);
            pos = pos + 1;
            proof {
                assert(self@ =~= with_page(write_chain(m2, selected@, data@, (pos - 1) as nat), index, page@));
            }
        }
        Ok(selected[0])
    }
}

proof fn lemma_free_all_err_stays(m: TableModel, list: Seq<u32>, k: nat)
    requires
        k <= list.len(),
        spec_free_all(m, list.take(k as int)).1 is Err,
    ensures
        spec_free_all(m, list) == spec_free_all(m, list.take(k as int)),
    decreases list.len() - k,
{
    if k < list.len() {
        assert(list.take(k as int) =~= list.drop_last().take(k as int));
        lemma_free_all_err_stays(m, list.drop_last(), k);
    } else {
        assert(list.take(k as int) =~= list);
    }
}

proof fn lemma_allocate_n_err_stays(m: TableModel, k: nat, n: nat)
    requires
        k <= n,
        spec_allocate_n(m, k).1 is Err,
    ensures
        spec_allocate_n(m, n) == spec_allocate_n(m, k),
    decreases n - k,
{
    if k < n {
        lemma_allocate_n_err_stays(m, k, (n - 1) as nat);
    }
}

// ---------------------------------------------------------------------------
// Reading a chain back after rewriting it.

/// What a successful walk says about the links of the pages it visits.
pub(crate) proof fn lemma_walk_links(pages: Seq<PageModel>, current: u32, previous: u32, visited: Seq<u32>, fuel: nat, free: bool)
    requires
        walk(pages, current, previous, visited, fuel, free) is Ok,
    ensures
        ({
            let r = walk(pages, current, previous, visited, fuel, free)->Ok_0;
            &&& r.len() >= visited.len()
            &&& r.subrange(0, visited.len() as int) == visited
            &&& (current == 0 <==> r.len() == visited.len())
            &&& current != 0 ==> r[visited.len() as int] == current
            &&& forall|k: int| visited.len() <= k < r.len() ==> {
                &&& 1 <= #[trigger] r[k] <= pages.len()
                &&& pages[r[k] - 1].next == if k + 1 < r.len() { r[k + 1] } else { 0 }
            }
        }),
    decreases fuel,
{
    if current != 0 {
        let v2 = visited.push(current);
        lemma_walk_links(pages, pages[current - 1].next, current, v2, (fuel - 1) as nat, free);
        let r = walk(pages, current, previous, visited, fuel, free)->Ok_0;
        assert(r.subrange(0, visited.len() as int) =~= r.subrange(0, v2.len() as int).subrange(0, visited.len() as int));
        assert(r[visited.len() as int] == r.subrange(0, v2.len() as int)[visited.len() as int]);
    } else {
        assert(visited.subrange(0, visited.len() as int) =~= visited);
    }
}

/// Every page a walk visits links back to the one visited before it.
proof fn lemma_walk_back_links(pages: Seq<PageModel>, current: u32, previous: u32, visited: Seq<u32>, fuel: nat, free: bool)
    requires
        walk(pages, current, previous, visited, fuel, free) is Ok,
    ensures
        ({
            let r = walk(pages, current, previous, visited, fuel, free)->Ok_0;
            forall|k: int|
                visited.len() <= k < r.len() ==> pages[#[trigger] r[k] - 1].previous == if k == visited.len() {
                    previous
                } else {
                    r[k - 1]
                }
        }),
    decreases fuel,
{
    if current != 0 {
        let v2 = visited.push(current);
        lemma_walk_back_links(pages, pages[current - 1].next, current, v2, (fuel - 1) as nat, free);
        lemma_walk_links(pages, pages[current - 1].next, current, v2, (fuel - 1) as nat, free);
        let r = walk(pages, current, previous, visited, fuel, free)->Ok_0;
        assert(r[visited.len() as int] == r.subrange(0, v2.len() as int)[visited.len() as int]);
        if r.len() > v2.len() {
            assert(r[v2.len() - 1] == r.subrange(0, v2.len() as int)[v2.len() - 1]);
        }
    }
}

/// The pages `c` are pages of the table, the first linking back to page
/// zero and each other to the one before it.
spec fn back_linked(pages: Seq<PageModel>, c: Seq<u32>) -> bool {
    forall|k: int|
        0 <= k < c.len() ==> 1 <= #[trigger] c[k] <= pages.len() && pages[c[k] - 1].previous == if k == 0 {
            0
        } else {
            c[k - 1]
        }
}

proof fn lemma_back_linked_apart(pages: Seq<PageModel>, c1: Seq<u32>, c2: Seq<u32>, i: int, j: int)
    requires
        back_linked(pages, c1),
        back_linked(pages, c2),
        c1.len() > 0 && c2.len() > 0 ==> c1[0] != c2[0],
        0 <= i < c1.len(),
        0 <= j < c2.len(),
    ensures
        c1[i] != c2[j],
    decreases i,
{
    if c1[i] == c2[j] && i > 0 && j > 0 {
        lemma_back_linked_apart(pages, c1, c2, i - 1, j - 1);
        assert(pages[c1[i] - 1].previous == c1[i - 1]);
        assert(pages[c2[j] - 1].previous == c2[j - 1]);
    } else if c1[i] == c2[j] && i > 0 {
        assert(pages[c1[i] - 1].previous == c1[i - 1]);
        assert(1 <= c1[i - 1]);
        assert(pages[c2[j] - 1].previous == 0);
    } else if c1[i] == c2[j] && j > 0 {
        assert(pages[c2[j] - 1].previous == c2[j - 1]);
        assert(1 <= c2[j - 1]);
        assert(pages[c1[i] - 1].previous == 0);
    }
}

/// Two walks from different first pages share no page: a page links back
/// to one page only, so a shared page would lead back to a shared first
/// page. Chains and the free list alike are such walks.
pub(crate) proof fn lemma_walks_apart(pages: Seq<PageModel>, h1: u32, free1: bool, h2: u32, free2: bool)
    requires
        walk(pages, h1, 0, Seq::empty(), (pages.len() + 1) as nat, free1) is Ok,
        walk(pages, h2, 0, Seq::empty(), (pages.len() + 1) as nat, free2) is Ok,
        h1 != h2,
    ensures
        forall|i: int, j: int|
            0 <= i < walk(pages, h1, 0, Seq::empty(), (pages.len() + 1) as nat, free1)->Ok_0.len() && 0 <= j < walk(
                pages,
                h2,
                0,
                Seq::empty(),
                (pages.len() + 1) as nat,
                free2,
            )->Ok_0.len() ==> #[trigger] walk(pages, h1, 0, Seq::empty(), (pages.len() + 1) as nat, free1)->Ok_0[i]
                != #[trigger] walk(pages, h2, 0, Seq::empty(), (pages.len() + 1) as nat, free2)->Ok_0[j],
{
    let f = (pages.len() + 1) as nat;
    let c1 = walk(pages, h1, 0, Seq::empty(), f, free1)->Ok_0;
    let c2 = walk(pages, h2, 0, Seq::empty(), f, free2)->Ok_0;
    lemma_walk_links(pages, h1, 0, Seq::empty(), f, free1);
    lemma_walk_links(pages, h2, 0, Seq::empty(), f, free2);
    lemma_walk_back_links(pages, h1, 0, Seq::empty(), f, free1);
    lemma_walk_back_links(pages, h2, 0, Seq::empty(), f, free2);
    assert(back_linked(pages, c1));
    assert(back_linked(pages, c2));
    assert forall|i: int, j: int| 0 <= i < c1.len() && 0 <= j < c2.len() implies #[trigger] c1[i] != #[trigger] c2[j] by {
        lemma_back_linked_apart(pages, c1, c2, i, j);
    }
}

/// The state of a table after `t` pages were allocated from a table whose
/// free list is `free`: the free pages come first, in list order, then
/// new pages at the end.
pub open spec fn allocated_after(m: TableModel, free: Seq<u32>, mt: TableModel, st: Seq<u32>, t: nat) -> bool {
    let f = free.len();
    let n = m.pages.len();
    let popped = if t < f { t } else { f };
    &&& st.len() == t
    &&& forall|k: int| 0 <= k < popped ==> #[trigger] st[k] == free[k]
    &&& forall|k: int| popped <= k < t ==> #[trigger] st[k] == n + 1 + (k - popped)
    &&& mt.pages.len() == n + (t - popped)
    &&& mt.header.free_page_count == f - popped
    &&& mt.header.first_free_page == if t < f { free[t as int] } else { 0 }
    &&& forall|k: int| t <= k < f ==> #[trigger] mt.pages[free[k] - 1].next == m.pages[free[k] - 1].next
}

#[verifier::spinoff_prover]
#[verifier::rlimit(60)]
pub(crate) proof fn lemma_allocate_from_free_list(m: TableModel, free: Seq<u32>, k: nat)
    requires
        pages_ok(m),
        free_list_of(m) == Ok::<Seq<u32>, Error>(free),
        free.len() == m.header.free_page_count,
        m.pages.len() + k + 1 < u32::MAX,
    ensures
        spec_allocate_n(m, k).1 is Ok,
        allocated_after(m, free, spec_allocate_n(m, k).0, spec_allocate_n(m, k).1->Ok_0, k),
    decreases k,
{
    lemma_walk_links(m.pages, m.header.first_free_page, 0, Seq::empty(), (m.pages.len() + 1) as nat, true);
    lemma_walk_valid(m.pages, m.header.first_free_page, 0, Seq::empty(), (m.pages.len() + 1) as nat, true);
    let f = free.len();
    let n = m.pages.len();
    if k == 0 {
        assert(free.len() > 0 ==> m.header.first_free_page == free[0]);
    } else {
        let t = (k - 1) as nat;
        lemma_allocate_from_free_list(m, free, t);
        let (mt, r) = spec_allocate_n(m, t);
        let st = r->Ok_0;
        let (m2, r2) = spec_allocate_page(mt);
        if t < f {
            let index = free[t as int];
            assert(mt.header.free_page_count > 0);
            assert(1 <= index <= n);
            let next = mt.pages[index - 1].next;
            assert(next == if t + 1 < f { free[t + 1 as int] } else { 0 });
            if next != 0 {
                assert(1 <= next <= n);
            }
            assert(r2 == Ok::<u32, Error>(index));
            let st2 = st.push(index);
            assert forall|j: int| k <= j < f implies #[trigger] m2.pages[free[j] - 1].next == m.pages[free[j] - 1].next by {
                assert(free[j] != free[t as int]);
                assert(mt.pages[free[j] - 1].next == m.pages[free[j] - 1].next);
            }
            assert forall|j: int| 0 <= j < (if k < f { k } else { f }) implies #[trigger] st2[j] == free[j] by {
                if j < t {
                    assert(st2[j] == st[j]);
                }
            }
        } else {
            assert(mt.header.free_page_count == 0);
            let st2 = st.push((n + 1 + (t - f)) as u32);
            assert forall|j: int| f <= j < k implies #[trigger] st2[j] == n + 1 + (j - f) by {
                if j < t {
                    assert(st2[j] == st[j]);
                }
            }
            assert forall|j: int| 0 <= j < f implies #[trigger] st2[j] == free[j] by {
                assert(st2[j] == st[j]);
            }
        }
    }
}

/// Freeing pages of the table one by one never fails while the free list
/// head is a page and the count does not overflow.
pub(crate) proof fn lemma_free_all_ok(m: TableModel, list: Seq<u32>)
    requires
        m.header.first_free_page == 0 || valid_page(m, m.header.first_free_page),
        forall|i: int| 0 <= i < list.len() ==> valid_page(m, #[trigger] list[i]),
        m.header.free_page_count + list.len() <= u32::MAX,
    ensures
        spec_free_all(m, list).1 is Ok,
        spec_free_all(m, list).0.pages.len() == m.pages.len(),
        spec_free_all(m, list).0.header.free_page_count == m.header.free_page_count + list.len(),
        ({
            let ff = spec_free_all(m, list).0.header.first_free_page;
            ff == 0 || valid_page(spec_free_all(m, list).0, ff)
        }),
    decreases list.len(),
{
    if list.len() > 0 {
        let init = list.drop_last();
        assert forall|i: int| 0 <= i < init.len() implies valid_page(m, #[trigger] init[i]) by {
            assert(init[i] == list[i]);
        }
        lemma_free_all_ok(m, init);
    }
}

/// Writing the chain leaves page `s[q]` holding position `q`, for each `q`
/// written so far, when the pages `s` are distinct pages of the table.
proof fn lemma_write_chain_pages(m: TableModel, s: Seq<u32>, data: Seq<u8>, k: nat)
    requires
        k <= s.len(),
        s.no_duplicates(),
        forall|q: int| 0 <= q < s.len() ==> valid_page(m, #[trigger] s[q]),
    ensures
        write_chain(m, s, data, k).pages.len() == m.pages.len(),
        forall|q: int| 0 <= q < k ==> #[trigger] write_chain(m, s, data, k).pages[s[q] - 1] == chain_page(s, data, q),
    decreases k,
{
    if k > 0 {
        lemma_write_chain_pages(m, s, data, (k - 1) as nat);
        let w = write_chain(m, s, data, k);
        assert forall|q: int| 0 <= q < k implies #[trigger] w.pages[s[q] - 1] == chain_page(s, data, q) by {
            if q < k - 1 {
                assert(s[q] != s[k - 1]);
            }
        }
    }
}

/// Walking pages that hold a written chain visits exactly that chain.
proof fn lemma_walk_written(pages: Seq<PageModel>, s: Seq<u32>, data: Seq<u8>, q: nat)
    requires
        q <= s.len(),
        s.len() > 0,
        s.no_duplicates(),
        forall|i: int| 0 <= i < s.len() ==> 1 <= #[trigger] s[i] <= pages.len(),
        forall|i: int| 0 <= i < s.len() ==> #[trigger] pages[s[i] - 1] == chain_page(s, data, i),
    ensures
        walk(
            pages,
            if q < s.len() { s[q as int] } else { 0 },
            if q == 0 { 0 } else { s[q - 1] },
            s.take(q as int),
            (pages.len() + 1 - q) as nat,
            false,
        ) == Ok::<Seq<u32>, Error>(s),
    decreases s.len() - q,
{
    lemma_distinct_pages_bound(s, pages.len() as int);
    if q < s.len() {
        let cur = s[q as int];
        assert(!s.take(q as int).contains(cur)) by {
            if s.take(q as int).contains(cur) {
                let i = choose|i: int| 0 <= i < q && s.take(q as int)[i] == cur;
                assert(s[i] == s[q as int]);
            }
        }
        assert(s.take(q as int).push(cur) =~= s.take(q as int + 1));
        lemma_walk_written(pages, s, data, q + 1);
    } else {
        assert(s.take(q as int) =~= s);
    }
}

/// The payload of a written chain is the data it was written with.
proof fn lemma_chain_data_written(pages: Seq<PageModel>, s: Seq<u32>, data: Seq<u8>, q: nat)
    requires
        q <= s.len(),
        s.len() == pages_needed(data.len() as int),
        forall|i: int| 0 <= i < s.len() ==> 1 <= #[trigger] s[i] <= pages.len(),
        forall|i: int| 0 <= i < s.len() ==> #[trigger] pages[s[i] - 1] == chain_page(s, data, i),
    ensures
        chain_data(pages, s.take(q as int)) == data.subrange(0, if 500 * (q as int) < data.len() { 500 * (q as int) } else { data.len() as int }),
    decreases q,
{
    if q == 0 {
        assert(s.take(0) =~= Seq::<u32>::empty());
        assert(data.subrange(0, 0) =~= Seq::<u8>::empty());
    } else {
        let p = (q - 1) as nat;
        lemma_chain_data_written(pages, s, data, p);
        assert(s.take(q as int).drop_last() =~= s.take(p as int));
        let page = pages[s[p as int] - 1];
        let c = chunk(data, p as int);
        assert(500 * p < data.len());
        assert(page.payload.subrange(0, page.used as int) =~= c);
        assert(data.subrange(0, 500 * (p as int)) + c =~= data.subrange(0, if 500 * (q as int) < data.len() { 500 * (q as int) } else { data.len() as int }));
    }
}

/// A chain whose first page is not the head of the free list shares no
/// page with the free list.
pub(crate) proof fn lemma_chain_apart_from_free(m: TableModel, first: u32)
    requires
        chain_of(m, first) is Ok,
        spec_free_pages(m) is Ok,
        first == 0 || first != m.header.first_free_page,
    ensures
        forall|i: int, j: int|
            0 <= i < chain_of(m, first)->Ok_0.len() && 0 <= j < spec_free_pages(m)->Ok_0.len()
                ==> #[trigger] chain_of(m, first)->Ok_0[i] != #[trigger] spec_free_pages(m)->Ok_0[j],
{
    let ff = m.header.first_free_page;
    if first != 0 && ff != 0 {
        lemma_walks_apart(m.pages, first, false, ff, true);
    }
}

/// Chains with different first pages share no page.
pub(crate) proof fn lemma_chains_apart(m: TableModel, a: u32, b: u32)
    requires
        chain_of(m, a) is Ok,
        chain_of(m, b) is Ok,
        a == 0 || a != b,
    ensures
        forall|i: int, j: int|
            0 <= i < chain_of(m, a)->Ok_0.len() && 0 <= j < chain_of(m, b)->Ok_0.len()
                ==> #[trigger] chain_of(m, a)->Ok_0[i] != #[trigger] chain_of(m, b)->Ok_0[j],
{
    if a != 0 && b != 0 {
        lemma_walks_apart(m.pages, a, false, b, false);
    }
}

/// Rewriting a chain and reading it back gives the data written. This holds
/// of a table whose chain and free list walk cleanly, where the chain is
/// not the free list, and which leaves room for the pages the data needs.
pub proof fn lemma_replace_then_read(m: TableModel, first: u32, data: Seq<u8>)
    requires
        pages_ok(m),
        m.pages.len() + data.len() / 500 + 2 < u32::MAX,
        chain_of(m, first) is Ok,
        spec_free_pages(m) is Ok,
        first == 0 || first != m.header.first_free_page,
        m.header.free_page_count + chain_of(m, first)->Ok_0.len() <= u32::MAX,
    ensures
        spec_replace_chain(m, first, data).1 is Ok,
        spec_read_chain(spec_replace_chain(m, first, data).0, spec_replace_chain(m, first, data).1->Ok_0)
            == Ok::<Seq<u8>, Error>(data),
{
    lemma_chain_apart_from_free(m, first);
    lemma_replace_then_read_apart(m, first, data);
}

#[verifier::spinoff_prover]
#[verifier::rlimit(60)]
pub(crate) proof fn lemma_replace_then_read_apart(m: TableModel, first: u32, data: Seq<u8>)
    requires
        pages_ok(m),
        m.pages.len() + data.len() / 500 + 2 < u32::MAX,
        chain_of(m, first) is Ok,
        spec_free_pages(m) is Ok,
        forall|i: int, j: int|
            0 <= i < chain_of(m, first)->Ok_0.len() && 0 <= j < spec_free_pages(m)->Ok_0.len()
                ==> #[trigger] chain_of(m, first)->Ok_0[i] != #[trigger] spec_free_pages(m)->Ok_0[j],
        m.header.free_page_count + chain_of(m, first)->Ok_0.len() <= u32::MAX,
    ensures
        spec_replace_chain(m, first, data).1 is Ok,
        spec_read_chain(spec_replace_chain(m, first, data).0, spec_replace_chain(m, first, data).1->Ok_0)
            == Ok::<Seq<u8>, Error>(data),
{
    let existing = chain_of(m, first)->Ok_0;
    let free = spec_free_pages(m)->Ok_0;
    let n = m.pages.len();
    lemma_walk_valid(m.pages, first, 0, Seq::empty(), (n + 1) as nat, false);
    lemma_walk_valid(m.pages, m.header.first_free_page, 0, Seq::empty(), (n + 1) as nat, true);
    lemma_walk_links(m.pages, m.header.first_free_page, 0, Seq::empty(), (n + 1) as nat, true);
    assert(free_list_of(m) == Ok::<Seq<u32>, Error>(free));
    assert(m.header.first_free_page == 0 || valid_page(m, m.header.first_free_page)) by {
        if m.header.first_free_page != 0 {
            assert(free[0] == m.header.first_free_page);
        }
    }
    if data.len() == 0 {
        assert forall|i: int| 0 <= i < existing.len() implies valid_page(m, #[trigger] existing[i]) by {}
        lemma_free_all_ok(m, existing);
        let (m1, r) = spec_replace_chain(m, first, data);
        assert(r == Ok::<u32, Error>(0));
        assert(walk(m1.pages, 0, 0, Seq::empty(), (m1.pages.len() + 1) as nat, false) == Ok::<Seq<u32>, Error>(Seq::empty()));
        assert(data =~= Seq::<u8>::empty());
    } else {
        let required = pages_needed(data.len() as int);
        let keep = if existing.len() < required { existing } else { existing.take(required) };
        let need = (required - keep.len()) as nat;
        lemma_allocate_from_free_list(m, free, need);
        let (m1, r1) = spec_allocate_n(m, need);
        let fresh = r1->Ok_0;
        let selected = keep + fresh;
        let dropped = if existing.len() > required { existing.skip(required) } else { Seq::<u32>::empty() };
        if need > 0 {
            assert(dropped =~= Seq::<u32>::empty());
        } else {
            assert(fresh =~= Seq::<u32>::empty());
            assert(m1 == m);
            assert forall|i: int| 0 <= i < dropped.len() implies valid_page(m, #[trigger] dropped[i]) by {
                assert(dropped[i] == existing[i + required]);
            }
        }
        lemma_free_all_ok(m1, dropped);
        let (m2, r2) = spec_free_all(m1, dropped);
        assert(selected.len() == required);
        assert forall|i: int| 0 <= i < selected.len() implies valid_page(m2, #[trigger] selected[i]) by {
            if i < keep.len() {
                assert(selected[i] == existing[i]);
            } else {
                assert(selected[i] == fresh[i - keep.len()]);
            }
        }
        assert(selected.no_duplicates()) by {
            assert forall|i: int, j: int| 0 <= i < selected.len() && 0 <= j < selected.len() && i != j implies selected[i] != selected[j] by {
                let popped = if need < free.len() { need as int } else { free.len() as int };
                if i < keep.len() && j < keep.len() {
                    assert(selected[i] == existing[i] && selected[j] == existing[j]);
                } else if i >= keep.len() && j >= keep.len() {
                    let a = i - keep.len();
                    let b = j - keep.len();
                    if a < popped && b < popped {
                        assert(fresh[a] == free[a] && fresh[b] == free[b]);
                    } else if a < popped {
                        assert(fresh[a] == free[a]);
                    } else if b < popped {
                        assert(fresh[b] == free[b]);
                    }
                } else if i < keep.len() {
                    let b = j - keep.len();
                    assert(selected[i] == existing[i]);
                    if b < popped {
                        assert(fresh[b] == free[b]);
                    }
                } else {
                    let a = i - keep.len();
                    assert(selected[j] == existing[j]);
                    if a < popped {
                        assert(fresh[a] == free[a]);
                    }
                }
            }
        }
        lemma_write_chain_pages(m2, selected, data, required as nat);
        let w = write_chain(m2, selected, data, required as nat);
        let (mf, rf) = spec_replace_chain(m, first, data);
        assert(mf == w);
        assert(rf == Ok::<u32, Error>(selected[0]));
        assert forall|i: int| 0 <= i < selected.len() implies 1 <= #[trigger] selected[i] <= w.pages.len() by {
            assert(valid_page(m2, selected[i]));
        }
        lemma_walk_written(w.pages, selected, data, 0);
        assert(selected.take(0) =~= Seq::<u32>::empty());
        lemma_chain_data_written(w.pages, selected, data, required as nat);
        assert(selected.take(required as int) =~= selected);
        assert(data.subrange(0, data.len() as int) =~= data);
    }
}

/// A table that opens is well-formed, so it can be written back and its
/// chains rewritten, and can be walked: fewer pages than `usize` counts,
/// each with a full payload and at most 500 bytes of it in use.
pub proof fn lemma_open_table_pages_ok(b: Seq<u8>, password: Option<Seq<u8>>)
    requires
        b.len() <= usize::MAX,
        open_table(b, password) is Ok,
    ensures
        pages_ok(open_table(b, password)->Ok_0),
        table_well_formed(open_table(b, password)->Ok_0),
{
    let d = if le_u32(b, 4) != VERSION_1 { crypt_spec(b, password->Some_0) } else { b };
    assert(d.len() == b.len());
    lemma_parse_table_layout(d);
}

// ---------------------------------------------------------------------------
// What rewriting a chain leaves alone.

/// Page `i`, if a page of `m`, is a page of `m2` and the same there.
pub open spec fn page_kept(m: TableModel, m2: TableModel, i: u32) -> bool {
    valid_page(m, i) ==> valid_page(m2, i) && m2.pages[i - 1] == m.pages[i - 1]
}

proof fn lemma_free_page_frame(m: TableModel, index: u32, i: u32)
    requires
        i != index,
        i != m.header.first_free_page,
    ensures
        page_kept(m, spec_free_page(m, index).0, i),
        spec_free_page(m, index).0.pages.len() == m.pages.len(),
        spec_free_page(m, index).0.header.first_free_page == m.header.first_free_page
            || spec_free_page(m, index).0.header.first_free_page == index,
{
}

pub(crate) proof fn lemma_free_all_frame(m: TableModel, list: Seq<u32>, i: u32)
    requires
        !list.contains(i),
        i != m.header.first_free_page,
    ensures
        page_kept(m, spec_free_all(m, list).0, i),
        spec_free_all(m, list).0.pages.len() == m.pages.len(),
        spec_free_all(m, list).0.header.first_free_page == m.header.first_free_page || list.contains(
            spec_free_all(m, list).0.header.first_free_page,
        ),
    decreases list.len(),
{
    if list.len() > 0 {
        let init = list.drop_last();
        assert(!init.contains(i)) by {
            if init.contains(i) {
                let k = choose|k: int| 0 <= k < init.len() && init[k] == i;
                assert(list[k] == i);
            }
        }
        lemma_free_all_frame(m, init, i);
        let (m1, r) = spec_free_all(m, init);
        let x = list.last();
        assert(list.contains(x)) by {
            assert(list[list.len() - 1] == x);
        }
        if init.contains(m1.header.first_free_page) {
            let k = choose|k: int| 0 <= k < init.len() && init[k] == m1.header.first_free_page;
            assert(list[k] == m1.header.first_free_page);
        }
        match r {
            Err(_) => {},
            Ok(_) => {
                assert(x != i);
                lemma_free_page_frame(m1, x, i);
            },
        }
    }
}

proof fn lemma_allocate_page_frame(m: TableModel, i: u32)
    requires
        valid_page(m, i),
        i != m.header.first_free_page,
        valid_page(m, m.header.first_free_page) ==> i != m.pages[m.header.first_free_page - 1].next,
    ensures
        page_kept(m, spec_allocate_page(m).0, i),
        spec_allocate_page(m).0.pages.len() >= m.pages.len(),
{
}

#[verifier::spinoff_prover]
#[verifier::rlimit(60)]
pub(crate) proof fn lemma_allocate_n_frame(m: TableModel, free: Seq<u32>, k: nat, i: u32)
    requires
        pages_ok(m),
        free_list_of(m) == Ok::<Seq<u32>, Error>(free),
        free.len() == m.header.free_page_count,
        m.pages.len() + k + 1 < u32::MAX,
        valid_page(m, i),
        !free.contains(i),
    ensures
        page_kept(m, spec_allocate_n(m, k).0, i),
        spec_allocate_n(m, k).0.pages.len() >= m.pages.len(),
    decreases k,
{
    if k > 0 {
        let t = (k - 1) as nat;
        lemma_allocate_n_frame(m, free, t, i);
        lemma_allocate_from_free_list(m, free, t);
        let (mt, r) = spec_allocate_n(m, t);
        lemma_walk_links(m.pages, m.header.first_free_page, 0, Seq::empty(), (m.pages.len() + 1) as nat, true);
        let f = free.len();
        let head = mt.header.first_free_page;
        if t < f {
            assert(head == free[t as int]);
            assert(head != i) by {
                assert(free[t as int] == head);
            }
            if valid_page(mt, head) {
                let next = mt.pages[head - 1].next;
                assert(next == m.pages[free[t as int] - 1].next);
                assert(next == if t + 1 < f { free[t + 1 as int] } else { 0 });
                if t + 1 < f {
                    assert(next != i) by {
                        assert(free[t + 1 as int] == next);
                    }
                }
            }
        } else {
            assert(head == 0);
        }
        assert(valid_page(mt, i));
        lemma_allocate_page_frame(mt, i);
    }
}

pub(crate) proof fn lemma_write_chain_frame(m: TableModel, selected: Seq<u32>, data: Seq<u8>, k: nat, i: u32)
    requires
        k <= selected.len(),
        !selected.contains(i),
        forall|q: int| 0 <= q < selected.len() ==> valid_page(m, #[trigger] selected[q]),
    ensures
        page_kept(m, write_chain(m, selected, data, k), i),
        write_chain(m, selected, data, k).pages.len() == m.pages.len(),
    decreases k,
{
    if k > 0 {
        lemma_write_chain_frame(m, selected, data, (k - 1) as nat, i);
        lemma_write_chain_len(m, selected, data, (k - 1) as nat);
        assert(selected[k - 1] != i) by {
            if selected[k - 1] == i {
                assert(selected.contains(i));
            }
        }
    }
}

/// A walk sees only the pages it visits: on pages that agree there, with
/// as much fuel or more, it goes the same way.
proof fn lemma_walk_frame(
    pages: Seq<PageModel>,
    pages2: Seq<PageModel>,
    current: u32,
    previous: u32,
    visited: Seq<u32>,
    fuel: nat,
    fuel2: nat,
    free: bool,
)
    requires
        walk(pages, current, previous, visited, fuel, free) is Ok,
        fuel <= fuel2,
        pages.len() <= pages2.len(),
        forall|k: int|
            visited.len() <= k < walk(pages, current, previous, visited, fuel, free)->Ok_0.len() ==> pages2[walk(
                pages,
                current,
                previous,
                visited,
                fuel,
                free,
            )->Ok_0[k] - 1] == pages[#[trigger] walk(pages, current, previous, visited, fuel, free)->Ok_0[k] - 1],
    ensures
        walk(pages2, current, previous, visited, fuel2, free) == walk(pages, current, previous, visited, fuel, free),
    decreases fuel,
{
    if current != 0 {
        lemma_walk_links(pages, current, previous, visited, fuel, free);
        let r = walk(pages, current, previous, visited, fuel, free)->Ok_0;
        assert(r[visited.len() as int] == current);
        assert(pages2[current - 1] == pages[current - 1]);
        let v2 = visited.push(current);
        lemma_walk_frame(pages, pages2, pages[current - 1].next, current, v2, (fuel - 1) as nat, (fuel2 - 1) as nat, free);
    }
}

proof fn lemma_chain_data_frame(pages: Seq<PageModel>, pages2: Seq<PageModel>, chain: Seq<u32>)
    requires
        forall|k: int| 0 <= k < chain.len() ==> pages2[chain[k] - 1] == pages[#[trigger] chain[k] - 1],
    ensures
        chain_data(pages2, chain) == chain_data(pages, chain),
    decreases chain.len(),
{
    if chain.len() > 0 {
        let init = chain.drop_last();
        assert forall|k: int| 0 <= k < init.len() implies pages2[init[k] - 1] == pages[#[trigger] init[k] - 1] by {
            assert(init[k] == chain[k]);
        }
        lemma_chain_data_frame(pages, pages2, init);
        assert(chain.last() == chain[chain.len() - 1]);
    }
}

/// Rewriting one chain leaves every other chain reading as before: one
/// that starts at another page than the rewritten chain and the free list.
/// This holds of a table whose chains and free list walk cleanly, where the
/// rewritten chain is not the free list, and which leaves room for the
/// pages the data needs.
pub proof fn lemma_replace_keeps_other_chains(m: TableModel, first: u32, data: Seq<u8>, other: u32)
    requires
        pages_ok(m),
        m.pages.len() + data.len() / 500 + 2 < u32::MAX,
        chain_of(m, first) is Ok,
        spec_free_pages(m) is Ok,
        first == 0 || first != m.header.first_free_page,
        m.header.free_page_count + chain_of(m, first)->Ok_0.len() <= u32::MAX,
        chain_of(m, other) is Ok,
        other == 0 || (other != first && other != m.header.first_free_page),
    ensures
        spec_read_chain(spec_replace_chain(m, first, data).0, other) == spec_read_chain(m, other),
{
    lemma_chain_apart_from_free(m, first);
    lemma_chain_apart_from_free(m, other);
    lemma_chains_apart(m, other, first);
    lemma_replace_keeps_other_chains_apart(m, first, data, other);
}

#[verifier::spinoff_prover]
#[verifier::rlimit(60)]
proof fn lemma_replace_keeps_other_chains_apart(m: TableModel, first: u32, data: Seq<u8>, other: u32)
    requires
        pages_ok(m),
        m.pages.len() + data.len() / 500 + 2 < u32::MAX,
        chain_of(m, first) is Ok,
        spec_free_pages(m) is Ok,
        forall|i: int, j: int|
            0 <= i < chain_of(m, first)->Ok_0.len() && 0 <= j < spec_free_pages(m)->Ok_0.len()
                ==> #[trigger] chain_of(m, first)->Ok_0[i] != #[trigger] spec_free_pages(m)->Ok_0[j],
        m.header.free_page_count + chain_of(m, first)->Ok_0.len() <= u32::MAX,
        chain_of(m, other) is Ok,
        forall|i: int, j: int|
            0 <= i < chain_of(m, other)->Ok_0.len() && 0 <= j < chain_of(m, first)->Ok_0.len()
                ==> #[trigger] chain_of(m, other)->Ok_0[i] != #[trigger] chain_of(m, first)->Ok_0[j],
        forall|i: int, j: int|
            0 <= i < chain_of(m, other)->Ok_0.len() && 0 <= j < spec_free_pages(m)->Ok_0.len()
                ==> #[trigger] chain_of(m, other)->Ok_0[i] != #[trigger] spec_free_pages(m)->Ok_0[j],
    ensures
        spec_read_chain(spec_replace_chain(m, first, data).0, other) == spec_read_chain(m, other),
{
    let existing = chain_of(m, first)->Ok_0;
    let free = spec_free_pages(m)->Ok_0;
    let chain = chain_of(m, other)->Ok_0;
    let n = m.pages.len();
    lemma_replace_then_read_apart(m, first, data);
    lemma_walk_valid(m.pages, other, 0, Seq::empty(), (n + 1) as nat, false);
    lemma_walk_valid(m.pages, first, 0, Seq::empty(), (n + 1) as nat, false);
    lemma_walk_valid(m.pages, m.header.first_free_page, 0, Seq::empty(), (n + 1) as nat, true);
    lemma_walk_links(m.pages, m.header.first_free_page, 0, Seq::empty(), (n + 1) as nat, true);
    assert(free_list_of(m) == Ok::<Seq<u32>, Error>(free));
    let m_new = spec_replace_chain(m, first, data).0;
    // Every page of `other` is kept.
    assert forall|q: int| 0 <= q < chain.len() implies page_kept(m, m_new, #[trigger] chain[q]) by {
        let i = chain[q];
        assert(valid_page(m, i));
        assert(!existing.contains(i)) by {
            if existing.contains(i) {
                let j = choose|j: int| 0 <= j < existing.len() && existing[j] == i;
                assert(chain[q] != existing[j]);
            }
        }
        assert(!free.contains(i)) by {
            if free.contains(i) {
                let j = choose|j: int| 0 <= j < free.len() && free[j] == i;
                assert(chain[q] != free[j]);
            }
        }
        assert(i != m.header.first_free_page) by {
            if free.len() > 0 {
                assert(free[0] == m.header.first_free_page);
            }
        }
        if data.len() == 0 {
            lemma_free_all_frame(m, existing, i);
        } else {
            let required = pages_needed(data.len() as int);
            let keep = if existing.len() < required { existing } else { existing.take(required) };
            let need = (required - keep.len()) as nat;
            lemma_allocate_n_frame(m, free, need, i);
            lemma_allocate_from_free_list(m, free, need);
            let (m1, r1) = spec_allocate_n(m, need);
            let fresh = r1->Ok_0;
            let dropped = if existing.len() > required { existing.skip(required) } else { Seq::<u32>::empty() };
            assert(!dropped.contains(i)) by {
                if dropped.contains(i) {
                    let j = choose|j: int| 0 <= j < dropped.len() && dropped[j] == i;
                    assert(dropped[j] == existing[j + required]);
                }
            }
            assert(i != m1.header.first_free_page) by {
                if need < free.len() {
                    assert(m1.header.first_free_page == free[need as int]);
                }
            }
            lemma_free_all_frame(m1, dropped, i);
            let (m2, r2) = spec_free_all(m1, dropped);
            let selected = keep + fresh;
            assert(!selected.contains(i)) by {
                if selected.contains(i) {
                    let j = choose|j: int| 0 <= j < selected.len() && selected[j] == i;
                    let popped = if need < free.len() { need as int } else { free.len() as int };
                    if j < keep.len() {
                        assert(selected[j] == existing[j]);
                    } else {
                        let a = j - keep.len();
                        assert(selected[j] == fresh[a]);
                        if a < popped {
                            assert(fresh[a] == free[a]);
                        } else {
                            assert(fresh[a] == n + 1 + (a - popped));
                        }
                    }
                }
            }
            lemma_replace_len(m, first, data);
            lemma_write_chain_frame(m2, selected, data, required as nat, i);
            assert(page_kept(m, m1, i));
            assert(page_kept(m1, m2, i));
            assert(page_kept(m2, m_new, i));
        }
    }
    lemma_replace_len(m, first, data);
    assert forall|k: int| 0 <= k < chain.len() implies m_new.pages[chain[k] - 1] == m.pages[#[trigger] chain[k] - 1] by {
        assert(page_kept(m, m_new, chain[k]));
    }
    lemma_walk_frame(m.pages, m_new.pages, other, 0, Seq::empty(), (n + 1) as nat, (m_new.pages.len() + 1) as nat, false);
    lemma_chain_data_frame(m.pages, m_new.pages, chain);
}

/// Rewriting a chain never removes pages, and the pages it writes are
/// pages of the table by then.
#[verifier::spinoff_prover]
#[verifier::rlimit(60)]
pub(crate) proof fn lemma_replace_len(m: TableModel, first: u32, data: Seq<u8>)
    requires
        pages_ok(m),
        m.pages.len() + data.len() / 500 + 2 < u32::MAX,
        chain_of(m, first) is Ok,
        spec_free_pages(m) is Ok,
    ensures
        spec_replace_chain(m, first, data).0.pages.len() >= m.pages.len(),
        data.len() > 0 ==> ({
            let existing = chain_of(m, first)->Ok_0;
            let required = pages_needed(data.len() as int);
            let keep = if existing.len() < required { existing } else { existing.take(required) };
            let need = (required - keep.len()) as nat;
            let (m1, r1) = spec_allocate_n(m, need);
            let dropped = if existing.len() > required { existing.skip(required) } else { Seq::<u32>::empty() };
            let m2 = spec_free_all(m1, dropped).0;
            forall|q: int| 0 <= q < (keep + r1->Ok_0).len() ==> valid_page(m2, #[trigger] (keep + r1->Ok_0)[q])
        }),
{
    let existing = chain_of(m, first)->Ok_0;
    let free = spec_free_pages(m)->Ok_0;
    let n = m.pages.len();
    lemma_walk_valid(m.pages, first, 0, Seq::empty(), (n + 1) as nat, false);
    lemma_walk_valid(m.pages, m.header.first_free_page, 0, Seq::empty(), (n + 1) as nat, true);
    lemma_walk_links(m.pages, m.header.first_free_page, 0, Seq::empty(), (n + 1) as nat, true);
    assert(free_list_of(m) == Ok::<Seq<u32>, Error>(free));
    if data.len() == 0 {
        lemma_free_all_shape(m, existing);
    } else {
        let required = pages_needed(data.len() as int);
        let keep = if existing.len() < required { existing } else { existing.take(required) };
        let need = (required - keep.len()) as nat;
        lemma_allocate_from_free_list(m, free, need);
        let (m1, r1) = spec_allocate_n(m, need);
        let fresh = r1->Ok_0;
        let dropped = if existing.len() > required { existing.skip(required) } else { Seq::<u32>::empty() };
        lemma_free_all_shape(m1, dropped);
        let (m2, r2) = spec_free_all(m1, dropped);
        let selected = keep + fresh;
        let popped = if need < free.len() { need as int } else { free.len() as int };
        assert forall|q: int| 0 <= q < selected.len() implies valid_page(m2, #[trigger] selected[q]) by {
            if q < keep.len() {
                assert(selected[q] == existing[q]);
            } else {
                let a = q - keep.len();
                assert(selected[q] == fresh[a]);
                if a < popped {
                    assert(fresh[a] == free[a]);
                }
            }
        }
        if r2 is Ok {
            lemma_write_chain_len(m2, selected, data, required as nat);
        }
    }
}

pub(crate) proof fn lemma_write_chain_len(m: TableModel, selected: Seq<u32>, data: Seq<u8>, k: nat)
    requires
        k <= selected.len(),
        forall|q: int| 0 <= q < selected.len() ==> valid_page(m, #[trigger] selected[q]),
    ensures
        write_chain(m, selected, data, k).pages.len() == m.pages.len(),
    decreases k,
{
    if k > 0 {
        lemma_write_chain_len(m, selected, data, (k - 1) as nat);
        assert(valid_page(m, selected[k - 1]));
    }
}

// ---------------------------------------------------------------------------
// What rewriting a chain keeps well-formed.

/// Freeing a page, when it succeeds, keeps the table well-formed.
proof fn lemma_free_page_well_formed(m: TableModel, index: u32)
    requires
        table_well_formed(m),
        spec_free_page(m, index).1 is Ok,
    ensures
        table_well_formed(spec_free_page(m, index).0),
{
    let m2 = spec_free_page(m, index).0;
    assert forall|i: int| 0 <= i < m2.pages.len() implies {
        &&& (#[trigger] m2.pages[i]).payload.len() == 500
        &&& m2.pages[i].used <= 500
        &&& m2.pages[i].previous < m2.header.page_count
        &&& m2.pages[i].next < m2.header.page_count
    } by {
        assert(m.pages[i].payload.len() == 500);
    }
}

/// Freeing pages, when it succeeds, keeps the table well-formed.
proof fn lemma_free_all_well_formed(m: TableModel, list: Seq<u32>)
    requires
        table_well_formed(m),
        spec_free_all(m, list).1 is Ok,
    ensures
        table_well_formed(spec_free_all(m, list).0),
    decreases list.len(),
{
    if list.len() > 0 {
        let (m1, r) = spec_free_all(m, list.drop_last());
        lemma_free_all_well_formed(m, list.drop_last());
        lemma_free_page_well_formed(m1, list.last());
    }
}

/// Taking a page, when it succeeds, keeps the table well-formed.
proof fn lemma_allocate_well_formed(m: TableModel)
    requires
        table_well_formed(m),
        m.pages.len() + 2 <= u32::MAX,
        spec_allocate_page(m).1 is Ok,
    ensures
        table_well_formed(spec_allocate_page(m).0),
{
    let m2 = spec_allocate_page(m).0;
    if m.header.free_page_count > 0 {
        let index = m.header.first_free_page;
        let next = m.pages[index - 1].next;
        assert forall|i: int| 0 <= i < m2.pages.len() implies {
            &&& (#[trigger] m2.pages[i]).payload.len() == 500
            &&& m2.pages[i].used <= 500
            &&& m2.pages[i].previous < m2.header.page_count
            &&& m2.pages[i].next < m2.header.page_count
        } by {
            assert(m.pages[i].payload.len() == 500);
            assert(m.pages[i].previous < m.header.page_count);
            assert(m.pages[i].next < m.header.page_count);
        }
    } else {
        assert(m2.pages =~= m.pages.push(empty_page_model()));
        assert(m2.header.page_count == m.pages.len() + 2);
        assert forall|i: int| 0 <= i < m2.pages.len() implies {
            &&& (#[trigger] m2.pages[i]).payload.len() == 500
            &&& m2.pages[i].used <= 500
            &&& m2.pages[i].previous < m2.header.page_count
            &&& m2.pages[i].next < m2.header.page_count
        } by {
            if i < m.pages.len() {
                assert(m2.pages[i] == m.pages[i]);
                assert(m.pages[i].payload.len() == 500);
            }
        }
    }
}

/// Taking pages, when it succeeds, keeps the table well-formed.
proof fn lemma_allocate_n_well_formed(m: TableModel, k: nat)
    requires
        table_well_formed(m),
        m.pages.len() + k + 1 <= u32::MAX,
        spec_allocate_n(m, k).1 is Ok,
    ensures
        table_well_formed(spec_allocate_n(m, k).0),
    decreases k,
{
    if k > 0 {
        let (m1, r) = spec_allocate_n(m, (k - 1) as nat);
        lemma_allocate_n_well_formed(m, (k - 1) as nat);
        lemma_allocate_n_shape(m, (k - 1) as nat);
        lemma_allocate_well_formed(m1);
    }
}

/// Writing a chain of pages of the table, each holding at most a page of
/// data, keeps the table well-formed.
proof fn lemma_write_chain_well_formed(m: TableModel, selected: Seq<u32>, data: Seq<u8>, k: nat)
    requires
        table_well_formed(m),
        k <= selected.len(),
        selected.len() == pages_needed(data.len() as int),
        forall|q: int| 0 <= q < selected.len() ==> valid_page(m, #[trigger] selected[q]),
    ensures
        table_well_formed(write_chain(m, selected, data, k)),
        write_chain(m, selected, data, k).pages.len() == m.pages.len(),
        write_chain(m, selected, data, k).header == m.header,
    decreases k,
{
    if k > 0 {
        let m1 = write_chain(m, selected, data, (k - 1) as nat);
        lemma_write_chain_well_formed(m, selected, data, (k - 1) as nat);
        let pos = k - 1;
        assert(500 * pos < data.len()) by (nonlinear_arith)
            requires
                pos < selected.len(),
                selected.len() == (data.len() + 499) / 500,
        ;
        let c = chunk(data, pos);
        assert(c.len() <= 500);
        let p = chain_page(selected, data, pos);
        assert(p.payload.len() == 500);
        if pos > 0 {
            assert(valid_page(m, selected[pos - 1]));
        }
        if pos + 1 < selected.len() {
            assert(valid_page(m, selected[pos + 1]));
        }
        assert(valid_page(m, selected[pos]));
        let m2 = write_chain(m, selected, data, k);
        assert forall|i: int| 0 <= i < m2.pages.len() implies {
            &&& (#[trigger] m2.pages[i]).payload.len() == 500
            &&& m2.pages[i].used <= 500
            &&& m2.pages[i].previous < m2.header.page_count
            &&& m2.pages[i].next < m2.header.page_count
        } by {
            assert(m1.pages[i].payload.len() == 500);
        }
    }
}

/// Rewriting a chain of a well-formed table, when it succeeds, leaves the
/// table well-formed: the header counts one page more than the table has
/// pages, and every page holds a full payload, at most 500 bytes of it in
/// use, and links only to pages of the table.
pub proof fn lemma_replace_keeps_well_formed(m: TableModel, first: u32, data: Seq<u8>)
    requires
        table_well_formed(m),
        m.pages.len() + data.len() / 500 + 2 < u32::MAX,
        spec_replace_chain(m, first, data).1 is Ok,
    ensures
        table_well_formed(spec_replace_chain(m, first, data).0),
        spec_replace_chain(m, first, data).0.header.page_count == spec_replace_chain(m, first, data).0.pages.len() + 1,
{
    let existing = chain_of(m, first)->Ok_0;
    let n = m.pages.len();
    lemma_walk_valid(m.pages, first, 0, Seq::empty(), (n + 1) as nat, false);
    if data.len() == 0 {
        lemma_free_all_well_formed(m, existing);
    } else {
        let required = pages_needed(data.len() as int);
        let keep = if existing.len() < required { existing } else { existing.take(required) };
        let need = (required - keep.len()) as nat;
        let (m1, r1) = spec_allocate_n(m, need);
        lemma_allocate_n_shape(m, need);
        lemma_allocate_n_well_formed(m, need);
        let fresh = r1->Ok_0;
        let dropped = if existing.len() > required { existing.skip(required) } else { Seq::<u32>::empty() };
        let (m2, r2) = spec_free_all(m1, dropped);
        lemma_free_all_well_formed(m1, dropped);
        lemma_free_all_shape(m1, dropped);
        let selected = keep + fresh;
        assert forall|q: int| 0 <= q < selected.len() implies valid_page(m2, #[trigger] selected[q]) by {
            if q < keep.len() {
                assert(selected[q] == existing[q]);
            } else {
                assert(selected[q] == fresh[q - keep.len()]);
            }
        }
        lemma_write_chain_well_formed(m2, selected, data, required as nat);
    }
}

// ---------------------------------------------------------------------------
// The layout of a written image.

/// The byte arrays of a table have their fixed lengths: 480 bytes of header
/// padding and 500 bytes of payload a page.
pub open spec fn table_layout_ok(m: TableModel) -> bool {
    &&& m.padding.len() == 480
    &&& forall|i: int| 0 <= i < m.pages.len() ==> (#[trigger] m.pages[i]).payload.len() == 500
}

/// Every table has the fixed layout: 480 bytes of padding and 500 bytes of
/// payload a page.
pub proof fn lemma_table_layout(t: &Table)
    ensures
        table_layout_ok(t@),
{
}

/// An image that `to_bytes` writes has 512 bytes for the header page and
/// for each page, as many as the header counts, and starts with the table
/// signature, encrypted or not.
pub proof fn lemma_table_bytes_layout(m: TableModel, password: Option<Seq<u8>>)
    requires
        table_layout_ok(m),
        table_to_bytes(m, password) is Ok,
    ensures
        table_to_bytes(m, password)->Ok_0.len() == 512 * m.header.page_count,
        table_to_bytes(m, password)->Ok_0.subrange(0, 4) == MAGIC_ENCRYPTED_TABLE@,
{
    let b = encode_table(m);
    lemma_encode_pages_layout(m.pages);
    assert(b.subrange(0, 4) =~= MAGIC_ENCRYPTED_TABLE@);
    if let Some(p) = password {
        lemma_crypt_keeps_signature(b, p);
        assert(crypt_spec(b, p).subrange(0, 4) =~= b.subrange(0, 4));
    }
}

} // verus!
