//! What rewriting a chain does to the free list: it stays a list that
//! `free_pages` walks, as long as the header says.

use vstd::prelude::*;

use super::error::Error;
use super::table::{
    chain_of, free_list_of, lemma_allocate_from_free_list, lemma_allocate_n_shape, lemma_chain_apart_from_free,
    lemma_distinct_pages_bound, lemma_free_all_shape, lemma_replace_len, lemma_walk_links, lemma_walk_valid,
    lemma_write_chain_frame, lemma_write_chain_len, pages_needed, pages_ok, spec_allocate_n, spec_allocate_page,
    spec_free_all, spec_free_page, spec_free_pages, spec_replace_chain, valid_page, walk, write_chain, PageModel,
    TableModel,
};

verus! {

/// The pages `list` form a free list that walks cleanly: distinct pages of
/// the table, each holding no payload, each linked back to the one before
/// and on to the one after.
spec fn free_linked(pages: Seq<PageModel>, list: Seq<u32>) -> bool {
    &&& list.no_duplicates()
    &&& forall|i: int|
        0 <= i < list.len() ==> {
            &&& 1 <= #[trigger] list[i] <= pages.len()
            &&& pages[list[i] - 1].previous == if i == 0 { 0u32 } else { list[i - 1] }
            &&& pages[list[i] - 1].next == if i + 1 < list.len() { list[i + 1] } else { 0u32 }
            &&& pages[list[i] - 1].used == 0
        }
}

/// The first page of `list`, or page zero for none.
spec fn list_head(list: Seq<u32>) -> u32 {
    if list.len() == 0 { 0 } else { list[0] }
}

/// Walking a well-linked free list from position `q` visits exactly the
/// list.
#[verifier::spinoff_prover]
proof fn lemma_walk_linked(pages: Seq<PageModel>, list: Seq<u32>, q: nat)
    requires
        free_linked(pages, list),
        q <= list.len(),
    ensures
        walk(
            pages,
            if q < list.len() { list[q as int] } else { 0 },
            if q == 0 { 0 } else { list[q - 1] },
            list.take(q as int),
            (pages.len() + 1 - q) as nat,
            true,
        ) == Ok::<Seq<u32>, Error>(list),
    decreases list.len() - q,
{
    lemma_distinct_pages_bound(list, pages.len() as int);
    if q < list.len() {
        let cur = list[q as int];
        assert(!list.take(q as int).contains(cur)) by {
            if list.take(q as int).contains(cur) {
                let i = choose|i: int| 0 <= i < q && list.take(q as int)[i] == cur;
                assert(list[i] == list[q as int]);
            }
        }
        assert(list.take(q as int).push(cur) =~= list.take(q as int + 1));
        lemma_walk_linked(pages, list, q + 1);
    } else {
        assert(list.take(q as int) =~= list);
    }
}

/// On the free list, every page visited links back to the one before it
/// and holds no payload.
proof fn lemma_walk_free_back_links(pages: Seq<PageModel>, current: u32, previous: u32, visited: Seq<u32>, fuel: nat)
    requires
        walk(pages, current, previous, visited, fuel, true) is Ok,
    ensures
        ({
            let r = walk(pages, current, previous, visited, fuel, true)->Ok_0;
            forall|k: int|
                visited.len() <= k < r.len() ==> {
                    &&& pages[#[trigger] r[k] - 1].previous == if k == visited.len() { previous } else { r[k - 1] }
                    &&& pages[r[k] - 1].used == 0
                }
        }),
    decreases fuel,
{
    if current != 0 {
        let v2 = visited.push(current);
        lemma_walk_free_back_links(pages, pages[current - 1].next, current, v2, (fuel - 1) as nat);
        lemma_walk_links(pages, pages[current - 1].next, current, v2, (fuel - 1) as nat, true);
        let r = walk(pages, current, previous, visited, fuel, true)->Ok_0;
        assert(r[visited.len() as int] == r.subrange(0, v2.len() as int)[visited.len() as int]);
        assert(r[visited.len() as int] == current);
        if r.len() > v2.len() {
            assert(r[v2.len() - 1] == r.subrange(0, v2.len() as int)[v2.len() - 1]);
        }
    }
}

/// A free list that walks is well linked, and starts at the header's head.
proof fn lemma_linked_of_walk(m: TableModel)
    requires
        free_list_of(m) is Ok,
    ensures
        free_linked(m.pages, free_list_of(m)->Ok_0),
        m.header.first_free_page == list_head(free_list_of(m)->Ok_0),
{
    let n = m.pages.len();
    let head = m.header.first_free_page;
    lemma_walk_links(m.pages, head, 0, Seq::empty(), (n + 1) as nat, true);
    lemma_walk_valid(m.pages, head, 0, Seq::empty(), (n + 1) as nat, true);
    lemma_walk_free_back_links(m.pages, head, 0, Seq::empty(), (n + 1) as nat);
    let list = free_list_of(m)->Ok_0;
    assert forall|i: int| 0 <= i < list.len() implies {
        &&& 1 <= #[trigger] list[i] <= m.pages.len()
        &&& m.pages[list[i] - 1].previous == if i == 0 { 0u32 } else { list[i - 1] }
        &&& m.pages[list[i] - 1].next == if i + 1 < list.len() { list[i + 1] } else { 0u32 }
        &&& m.pages[list[i] - 1].used == 0
    } by {}
}

/// Freeing a page that is not on a well-linked free list puts it at the
/// front, and the list stays well linked.
proof fn lemma_free_page_linked(m: TableModel, list: Seq<u32>, index: u32)
    requires
        free_linked(m.pages, list),
        m.header.first_free_page == list_head(list),
        m.header.free_page_count == list.len(),
        valid_page(m, index),
        !list.contains(index),
        list.len() < u32::MAX,
    ensures
        spec_free_page(m, index).1 is Ok,
        free_linked(spec_free_page(m, index).0.pages, seq![index] + list),
        spec_free_page(m, index).0.header.first_free_page == index,
        spec_free_page(m, index).0.header.free_page_count == list.len() + 1,
        spec_free_page(m, index).0.pages.len() == m.pages.len(),
{
    let m2 = spec_free_page(m, index).0;
    let l2 = seq![index] + list;
    assert(l2.no_duplicates()) by {
        assert forall|i: int, j: int| 0 <= i < l2.len() && 0 <= j < l2.len() && i != j implies l2[i] != l2[j] by {
            if i == 0 {
                assert(list.contains(l2[j]) ==> l2[j] != index);
                assert(list[j - 1] == l2[j]);
            } else if j == 0 {
                assert(list[i - 1] == l2[i]);
            } else {
                assert(list[i - 1] != list[j - 1]);
            }
        }
    }
    assert forall|i: int| 0 <= i < l2.len() implies {
        &&& 1 <= #[trigger] l2[i] <= m2.pages.len()
        &&& m2.pages[l2[i] - 1].previous == if i == 0 { 0u32 } else { l2[i - 1] }
        &&& m2.pages[l2[i] - 1].next == if i + 1 < l2.len() { l2[i + 1] } else { 0u32 }
        &&& m2.pages[l2[i] - 1].used == 0
    } by {
        if i > 0 {
            assert(l2[i] == list[i - 1]);
            assert(list[i - 1] != index) by {
                assert(list.contains(list[i - 1]));
            }
            if i > 1 {
                assert(list[i - 1] != list[0]);
            }
        }
    }
}

/// Freeing, in order, pages that are on no well-linked free list keeps the
/// list well linked; the list that results holds the pages freed and those
/// it held before.
proof fn lemma_free_all_linked(m: TableModel, list: Seq<u32>, dropped: Seq<u32>) -> (l2: Seq<u32>)
    requires
        free_linked(m.pages, list),
        m.header.first_free_page == list_head(list),
        m.header.free_page_count == list.len(),
        dropped.no_duplicates(),
        forall|i: int| 0 <= i < dropped.len() ==> valid_page(m, #[trigger] dropped[i]),
        forall|i: int| 0 <= i < dropped.len() ==> !list.contains(#[trigger] dropped[i]),
        list.len() + dropped.len() <= u32::MAX,
    ensures
        spec_free_all(m, dropped).1 is Ok,
        free_linked(spec_free_all(m, dropped).0.pages, l2),
        spec_free_all(m, dropped).0.header.first_free_page == list_head(l2),
        spec_free_all(m, dropped).0.header.free_page_count == l2.len(),
        spec_free_all(m, dropped).0.pages.len() == m.pages.len(),
        l2.len() == list.len() + dropped.len(),
        forall|x: u32| #[trigger] l2.contains(x) ==> list.contains(x) || dropped.contains(x),
    decreases dropped.len(),
{
    if dropped.len() == 0 {
        list
    } else {
        let init = dropped.drop_last();
        let x = dropped.last();
        assert forall|i: int| 0 <= i < init.len() implies valid_page(m, #[trigger] init[i]) by {
            assert(init[i] == dropped[i]);
        }
        assert forall|i: int| 0 <= i < init.len() implies !list.contains(#[trigger] init[i]) by {
            assert(init[i] == dropped[i]);
        }
        let l1 = lemma_free_all_linked(m, list, init);
        let m1 = spec_free_all(m, init).0;
        assert(x == dropped[dropped.len() - 1]);
        assert(!list.contains(x));
        assert(!init.contains(x)) by {
            if init.contains(x) {
                let k = choose|k: int| 0 <= k < init.len() && init[k] == x;
                assert(dropped[k] == dropped[dropped.len() - 1]);
            }
        }
        assert(!l1.contains(x));
        lemma_free_page_linked(m1, l1, x);
        let l2 = seq![x] + l1;
        assert forall|y: u32| #[trigger] l2.contains(y) implies list.contains(y) || dropped.contains(y) by {
            let k = choose|k: int| 0 <= k < l2.len() && l2[k] == y;
            if k == 0 {
                assert(dropped[dropped.len() - 1] == y);
            } else {
                assert(l1[k - 1] == y);
                assert(l1.contains(y));
                if init.contains(y) {
                    let j = choose|j: int| 0 <= j < init.len() && init[j] == y;
                    assert(dropped[j] == y);
                }
            }
        }
        l2
    }
}

/// Taking a page from a well-linked free list takes its front; from an
/// empty one, a new page at the end. Either way the list stays well linked.
proof fn lemma_allocate_linked(m: TableModel, list: Seq<u32>)
    requires
        free_linked(m.pages, list),
        m.header.first_free_page == list_head(list),
        m.header.free_page_count == list.len(),
        m.pages.len() + 1 < u32::MAX,
    ensures
        spec_allocate_page(m).1 is Ok,
        free_linked(spec_allocate_page(m).0.pages, if list.len() == 0 { list } else { list.drop_first() }),
        spec_allocate_page(m).0.header.first_free_page == list_head(
            if list.len() == 0 { list } else { list.drop_first() },
        ),
        spec_allocate_page(m).0.header.free_page_count == if list.len() == 0 { 0 } else { list.len() - 1 },
{
    let m2 = spec_allocate_page(m).0;
    if list.len() > 0 {
        let l2 = list.drop_first();
        assert(1 <= list[0] <= m.pages.len());
        if list.len() > 1 {
            assert(1 <= list[1] <= m.pages.len());
        }
        assert(l2.no_duplicates()) by {
            assert forall|i: int, j: int| 0 <= i < l2.len() && 0 <= j < l2.len() && i != j implies l2[i] != l2[j] by {
                assert(list[i + 1] != list[j + 1]);
            }
        }
        assert forall|i: int| 0 <= i < l2.len() implies {
            &&& 1 <= #[trigger] l2[i] <= m2.pages.len()
            &&& m2.pages[l2[i] - 1].previous == if i == 0 { 0u32 } else { l2[i - 1] }
            &&& m2.pages[l2[i] - 1].next == if i + 1 < l2.len() { l2[i + 1] } else { 0u32 }
            &&& m2.pages[l2[i] - 1].used == 0
        } by {
            assert(l2[i] == list[i + 1]);
            assert(list[i + 1] != list[0]);
            assert(1 <= list[i + 1] <= m.pages.len());
            if i > 0 {
                assert(list[i + 1] != list[1]);
            }
        }
    } else {
        assert(free_linked(m2.pages, list));
    }
}

/// Taking `k` pages from a well-linked free list takes its first pages,
/// then new ones at the end; what is left stays well linked.
proof fn lemma_allocate_n_linked(m: TableModel, list: Seq<u32>, k: nat)
    requires
        free_linked(m.pages, list),
        m.header.first_free_page == list_head(list),
        m.header.free_page_count == list.len(),
        m.pages.len() + k + 1 < u32::MAX,
    ensures
        spec_allocate_n(m, k).1 is Ok,
        free_linked(spec_allocate_n(m, k).0.pages, list.skip(if k < list.len() { k as int } else { list.len() as int })),
        spec_allocate_n(m, k).0.header.first_free_page == list_head(
            list.skip(if k < list.len() { k as int } else { list.len() as int }),
        ),
        spec_allocate_n(m, k).0.header.free_page_count == list.len() - (if k < list.len() { k as int } else { list.len() as int }),
    decreases k,
{
    if k > 0 {
        let t = (k - 1) as nat;
        lemma_allocate_n_linked(m, list, t);
        lemma_allocate_n_shape(m, t);
        let m1 = spec_allocate_n(m, t).0;
        let p1 = if t < list.len() { t as int } else { list.len() as int };
        let l1 = list.skip(p1);
        lemma_allocate_linked(m1, l1);
        if l1.len() > 0 {
            assert(l1.drop_first() =~= list.skip(p1 + 1));
        } else {
            assert(list.skip(list.len() as int) =~= l1);
        }
    } else {
        assert(list.skip(0) =~= list);
    }
}

/// Writing a chain changes only the pages of the table, not its header.
proof fn lemma_write_chain_header(m: TableModel, selected: Seq<u32>, data: Seq<u8>, k: nat)
    ensures
        write_chain(m, selected, data, k).header == m.header,
    decreases k,
{
    if k > 0 {
        lemma_write_chain_header(m, selected, data, (k - 1) as nat);
    }
}

/// A well-linked list stays so on pages that agree with the old ones at
/// each of its pages.
proof fn lemma_linked_frame(pages: Seq<PageModel>, pages2: Seq<PageModel>, list: Seq<u32>)
    requires
        free_linked(pages, list),
        pages2.len() == pages.len(),
        forall|i: int| 0 <= i < list.len() ==> pages2[#[trigger] list[i] - 1] == pages[list[i] - 1],
    ensures
        free_linked(pages2, list),
{
    assert forall|i: int| 0 <= i < list.len() implies {
        &&& 1 <= #[trigger] list[i] <= pages2.len()
        &&& pages2[list[i] - 1].previous == if i == 0 { 0u32 } else { list[i - 1] }
        &&& pages2[list[i] - 1].next == if i + 1 < list.len() { list[i + 1] } else { 0u32 }
        &&& pages2[list[i] - 1].used == 0
    } by {
        assert(pages2[list[i] - 1] == pages[list[i] - 1]);
    }
}

/// The free list a table ends with, well linked, is one that `free_pages`
/// returns.
proof fn lemma_free_pages_of_linked(m: TableModel, list: Seq<u32>)
    requires
        free_linked(m.pages, list),
        m.header.first_free_page == list_head(list),
        m.header.free_page_count == list.len(),
    ensures
        spec_free_pages(m) == Ok::<Seq<u32>, Error>(list),
{
    lemma_walk_linked(m.pages, list, 0);
    assert(list.take(0) =~= Seq::<u32>::empty());
}

/// The number of free pages after rewriting, with `data_len` bytes, a chain
/// of `chain_len` pages in a table with `free_count` free pages: freed
/// pages join the list, and pages the data needs beyond the chain's come
/// off it while it lasts.
pub open spec fn free_count_after(free_count: int, chain_len: int, data_len: int) -> int {
    let required = pages_needed(data_len);
    if data_len == 0 {
        free_count + chain_len
    } else if chain_len >= required {
        free_count + chain_len - required
    } else if required - chain_len <= free_count {
        free_count - (required - chain_len)
    } else {
        0
    }
}

/// The number of pages the table grows by when rewriting, with `data_len`
/// bytes, a chain of `chain_len` pages in a table with `free_count` free
/// pages: only what the data needs beyond the chain and the free list.
pub open spec fn pages_added_after(free_count: int, chain_len: int, data_len: int) -> int {
    let required = pages_needed(data_len);
    if data_len == 0 || chain_len >= required || required - chain_len <= free_count {
        0
    } else {
        required - chain_len - free_count
    }
}

/// Rewriting a chain keeps the free list one that `free_pages` walks, as
/// long as the header counts, with the pages the chain gave up added and
/// those the data took taken off; the table grows only by the pages the data
/// needs beyond the chain and the free list. This holds of a table whose
/// chain and free list walk cleanly, where the chain is not the free list,
/// and which leaves room for the pages the data needs.
pub proof fn lemma_replace_keeps_free_list(m: TableModel, first: u32, data: Seq<u8>)
    requires
        pages_ok(m),
        m.pages.len() + data.len() / 500 + 2 < u32::MAX,
        chain_of(m, first) is Ok,
        spec_free_pages(m) is Ok,
        first == 0 || first != m.header.first_free_page,
        m.header.free_page_count + chain_of(m, first)->Ok_0.len() <= u32::MAX,
    ensures
        spec_free_pages(spec_replace_chain(m, first, data).0) is Ok,
        spec_free_pages(spec_replace_chain(m, first, data).0)->Ok_0.len() == free_count_after(
            m.header.free_page_count as int,
            chain_of(m, first)->Ok_0.len() as int,
            data.len() as int,
        ),
        spec_replace_chain(m, first, data).0.pages.len() == m.pages.len() + pages_added_after(
            m.header.free_page_count as int,
            chain_of(m, first)->Ok_0.len() as int,
            data.len() as int,
        ),
{
    lemma_chain_apart_from_free(m, first);
    lemma_replace_keeps_free_list_apart(m, first, data);
}

#[verifier::spinoff_prover]
#[verifier::rlimit(60)]
proof fn lemma_replace_keeps_free_list_apart(m: TableModel, first: u32, data: Seq<u8>)
    requires
        pages_ok(m),
        m.pages.len() + data.len() / 500 + 2 < u32::MAX,
        chain_of(m, first) is Ok,
        spec_free_pages(m) is Ok,
        forall|i: int, j: int|
            0 <= i < chain_of(m, first)->Ok_0.len() && 0 <= j < spec_free_pages(m)->Ok_0.len()
                ==> #[trigger] chain_of(m, first)->Ok_0[i] != #[trigger] spec_free_pages(m)->Ok_0[j],
        m.header.free_page_count + chain_of(m, first)->Ok_0.len() <= u32::MAX,
    ensures
        spec_free_pages(spec_replace_chain(m, first, data).0) is Ok,
        spec_free_pages(spec_replace_chain(m, first, data).0)->Ok_0.len() == free_count_after(
            m.header.free_page_count as int,
            chain_of(m, first)->Ok_0.len() as int,
            data.len() as int,
        ),
        spec_replace_chain(m, first, data).0.pages.len() == m.pages.len() + pages_added_after(
            m.header.free_page_count as int,
            chain_of(m, first)->Ok_0.len() as int,
            data.len() as int,
        ),
{
    let existing = chain_of(m, first)->Ok_0;
    let free = spec_free_pages(m)->Ok_0;
    let n = m.pages.len();
    lemma_walk_valid(m.pages, first, 0, Seq::empty(), (n + 1) as nat, false);
    lemma_linked_of_walk(m);
    assert(free_list_of(m) == Ok::<Seq<u32>, Error>(free));
    assert forall|i: int| 0 <= i < existing.len() implies !free.contains(#[trigger] existing[i]) by {
        if free.contains(existing[i]) {
            let j = choose|j: int| 0 <= j < free.len() && free[j] == existing[i];
            assert(existing[i] != free[j]);
        }
    }
    if data.len() == 0 {
        assert forall|i: int| 0 <= i < existing.len() implies valid_page(m, #[trigger] existing[i]) by {}
        let l2 = lemma_free_all_linked(m, free, existing);
        lemma_free_pages_of_linked(spec_free_all(m, existing).0, l2);
        lemma_free_all_shape(m, existing);
    } else {
        let required = pages_needed(data.len() as int);
        let keep = if existing.len() < required { existing } else { existing.take(required) };
        let need = (required - keep.len()) as nat;
        let popped = if need < free.len() { need as int } else { free.len() as int };
        lemma_allocate_n_linked(m, free, need);
        lemma_allocate_from_free_list(m, free, need);
        lemma_allocate_n_shape(m, need);
        let (m1, r1) = spec_allocate_n(m, need);
        let fresh = r1->Ok_0;
        let rest = free.skip(popped);
        let dropped = if existing.len() > required { existing.skip(required) } else { Seq::<u32>::empty() };
        assert(dropped.no_duplicates()) by {
            assert forall|i: int, j: int| 0 <= i < dropped.len() && 0 <= j < dropped.len() && i != j implies dropped[i] != dropped[j] by {
                assert(dropped[i] == existing[i + required]);
                assert(dropped[j] == existing[j + required]);
            }
        }
        if need > 0 {
            assert(dropped =~= Seq::<u32>::empty());
        } else {
            assert(m1 == m);
            assert(rest =~= free);
            assert forall|i: int| 0 <= i < dropped.len() implies valid_page(m1, #[trigger] dropped[i]) && !rest.contains(dropped[i]) by {
                assert(dropped[i] == existing[i + required]);
            }
        }
        let l2 = lemma_free_all_linked(m1, rest, dropped);
        let (m2, r2) = spec_free_all(m1, dropped);
        let selected = keep + fresh;
        lemma_replace_len(m, first, data);
        // No page of the new chain is on the free list.
        assert forall|x: u32| #[trigger] l2.contains(x) implies !selected.contains(x) by {
            assert(rest.contains(x) || dropped.contains(x));
            if selected.contains(x) {
                let j = choose|j: int| 0 <= j < selected.len() && selected[j] == x;
                if rest.contains(x) {
                    let b = choose|b: int| 0 <= b < rest.len() && rest[b] == x;
                    assert(free[b + popped] == x);
                    assert(1 <= x <= n);
                    if j < keep.len() {
                        assert(selected[j] == existing[j]);
                        assert(free.contains(existing[j]));
                    } else {
                        let a = j - keep.len();
                        assert(selected[j] == fresh[a]);
                        if a < popped {
                            assert(fresh[a] == free[a]);
                        } else {
                            assert(fresh[a] == n + 1 + (a - popped));
                        }
                    }
                } else {
                    let b = choose|b: int| 0 <= b < dropped.len() && dropped[b] == x;
                    assert(need == 0);
                    assert(fresh.len() == 0);
                    assert(selected[j] == existing[j]);
                    assert(dropped[b] == existing[b + required]);
                }
            }
        }
        assert forall|i: int| 0 <= i < l2.len() implies write_chain(m2, selected, data, required as nat).pages[#[trigger] l2[i] - 1]
            == m2.pages[l2[i] - 1] by {
            let x = l2[i];
            assert(l2.contains(x));
            lemma_write_chain_frame(m2, selected, data, required as nat, x);
        }
        let w = write_chain(m2, selected, data, required as nat);
        lemma_write_chain_len(m2, selected, data, required as nat);
        lemma_write_chain_header(m2, selected, data, required as nat);
        lemma_linked_frame(m2.pages, w.pages, l2);
        lemma_free_pages_of_linked(w, l2);
        assert(spec_replace_chain(m, first, data).0 == w);
    }
}

} // verus!
