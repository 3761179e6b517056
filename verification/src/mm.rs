use vstd::prelude::*;

verus! {

/// Size of a page in bytes.
pub const PAGE_SIZE: usize = 4096;

/// Permission bit: the page is readable.
pub const MAP_PERM_R: u8 = 2;

/// Permission bit: the page is writable.
pub const MAP_PERM_W: u8 = 4;

/// Permission bit: the page is executable.
pub const MAP_PERM_X: u8 = 8;

/// Permission bit: the page is accessible from user mode.
pub const MAP_PERM_U: u8 = 16;

/// A mapped virtual page: its page number and its permission bits.
pub type MappedPage = (usize, u8);

/// The number of the page that holds virtual address `va`.
pub open spec fn vpn_floor(va: int) -> int {
    va / (PAGE_SIZE as int)
}

/// The number of the first page that starts at or after virtual address `va`.
pub open spec fn vpn_ceil(va: int) -> int {
    va / (PAGE_SIZE as int) + if va % (PAGE_SIZE as int) == 0 {
        0int
    } else {
        1int
    }
}

/// The pages `s`, `s + 1`, ..., `e - 1`, each with permission `perm`.
pub open spec fn page_run(s: int, e: int, perm: u8) -> Seq<MappedPage> {
    Seq::new((e - s) as nat, |i: int| ((s + i) as usize, perm))
}

/// Whether page `vpn` is in `pages`.
pub open spec fn is_mapped(pages: Seq<MappedPage>, vpn: int) -> bool {
    exists|i: int| 0 <= i < pages.len() && #[trigger] pages[i].0 == vpn
}

/// Whether no page of `pages` lies in `[s, e)`.
pub open spec fn range_free(pages: Seq<MappedPage>, s: int, e: int) -> bool {
    forall|i: int| 0 <= i < pages.len() ==> !(s <= #[trigger] pages[i].0 < e)
}

/// Whether every page of `[s, e)` is in `pages`.
pub open spec fn range_full(pages: Seq<MappedPage>, s: int, e: int) -> bool {
    forall|vpn: int| s <= vpn < e ==> #[trigger] is_mapped(pages, vpn)
}

/// Whether a mapped page lies outside `[s, e)`.
pub open spec fn outside(s: int, e: int) -> spec_fn(MappedPage) -> bool {
    |p: MappedPage| !(s <= p.0 < e)
}

/// The pages after mapping `[start_va, end_va)` with `perm`, or `None` when a
/// page of the range is mapped already.
pub open spec fn map_result(pages: Seq<MappedPage>, start_va: int, end_va: int, perm: u8) -> Option<
    Seq<MappedPage>,
> {
    let s = vpn_floor(start_va);
    let e = vpn_ceil(end_va);
    if range_free(pages, s, e) {
        Some(pages + page_run(s, e, perm))
    } else {
        None
    }
}

/// The pages after unmapping `[start_va, end_va)`, or `None` when a page of
/// the range is not mapped.
pub open spec fn unmap_result(pages: Seq<MappedPage>, start_va: int, end_va: int) -> Option<
    Seq<MappedPage>,
> {
    let s = vpn_floor(start_va);
    let e = vpn_ceil(end_va);
    if range_full(pages, s, e) {
        Some(pages.filter(outside(s, e)))
    } else {
        None
    }
}

/// The part of a process's address space that the process mapped itself:
/// the mapped pages with their permissions, in the order they were mapped.
pub struct MemorySet {
    pages: Vec<MappedPage>,
}

impl View for MemorySet {
    type V = Seq<MappedPage>;

    closed spec fn view(&self) -> Seq<MappedPage> {
        self.pages@
    }
}

impl MemorySet {
    /// An address space with nothing mapped.
    pub fn new_bare() -> (ms: MemorySet)
        ensures
            ms@ == Seq::<MappedPage>::empty(),
    {
        MemorySet { pages: Vec::new() }
    }

    /// A copy of another address space, as a forked process gets it.
    pub fn from_existed_user(user_space: &MemorySet) -> (ms: MemorySet)
        ensures
            ms@ == user_space@,
    {
        let mut pages: Vec<MappedPage> = Vec::new();
        let mut i: usize = 0;
        while i < user_space.pages.len()
            invariant
                i <= user_space.pages@.len(),
                pages@ == user_space.pages@.take(i as int),
            decreases user_space.pages@.len() - i,
        {
            pages.push(user_space.pages[i]);
            i += 1;
            assert(pages@ =~= user_space.pages@.take(i as int));
        }
        assert(pages@ =~= user_space.pages@);
        MemorySet { pages }
    }

    /// Unmaps everything, as when a process exits.
    pub fn recycle_data_pages(&mut self)
        ensures
            final(self)@ == Seq::<MappedPage>::empty(),
    {
        self.pages.clear();
    }

    /// Whether page `vpn` is mapped.
    pub fn is_mapped(&self, vpn: usize) -> (r: bool)
        ensures
            r == is_mapped(self@, vpn as int),
    {
        let mut i: usize = 0;
        while i < self.pages.len()
            invariant
                i <= self.pages@.len(),
                forall|j: int| 0 <= j < i ==> #[trigger] self.pages@[j].0 != vpn,
            decreases self.pages@.len() - i,
        {
            if self.pages[i].0 == vpn {
                assert(self.pages@[i as int].0 == vpn);
                return true;
            }
            i += 1;
        }
        false
    }

    /// Maps every page that meets `[start_va, end_va)` with permission `perm`;
    /// returns 0, or -1 with nothing changed when one of those pages is
    /// mapped already.
    pub fn map_dynamic(&mut self, start_va: usize, end_va: usize, perm: u8) -> (r: isize)
        requires
            start_va <= end_va,
        ensures
            match map_result(old(self)@, start_va as int, end_va as int, perm) {
                Some(pages) => r == 0 && final(self)@ == pages,
                None => r == -1 && final(self)@ == old(self)@,
            },
    {
        let ghost old_pages = self.pages@;
        let s = start_va / PAGE_SIZE;
        let e = end_va / PAGE_SIZE + if end_va % PAGE_SIZE == 0 {
            0
        } else {
            1
        };
        let mut i: usize = 0;
        while i < self.pages.len()
            invariant
                i <= self.pages@.len(),
                s == vpn_floor(start_va as int),
                e == vpn_ceil(end_va as int),
                self.pages@ == old_pages,
                forall|j: int| 0 <= j < i ==> !(s <= #[trigger] self.pages@[j].0 < e),
            decreases self.pages@.len() - i,
        {
            let vpn = self.pages[i].0;
            if s <= vpn && vpn < e {
                assert(!range_free(self.pages@, s as int, e as int));
                assert(map_result(old_pages, start_va as int, end_va as int, perm) is None);
                return -1;
            }
            i += 1;
        }
        let mut vpn = s;
        while vpn < e
            invariant
                s <= vpn <= e,
                e <= usize::MAX,
                self.pages@ == old_pages + page_run(s as int, vpn as int, perm),
            decreases e - vpn,
        {
            self.pages.push((vpn, perm));
            vpn += 1;
            assert(self.pages@ =~= old_pages + page_run(s as int, vpn as int, perm));
        }
        0
    }

    /// Unmaps every page that meets `[start_va, end_va)`; returns 0, or -1
    /// with nothing changed when one of those pages is not mapped.
    pub fn unmap_dynamic(&mut self, start_va: usize, end_va: usize) -> (r: isize)
        requires
            start_va <= end_va,
        ensures
            match unmap_result(old(self)@, start_va as int, end_va as int) {
                Some(pages) => r == 0 && final(self)@ == pages,
                None => r == -1 && final(self)@ == old(self)@,
            },
    {
        let ghost old_pages = self.pages@;
        let s = start_va / PAGE_SIZE;
        let e = end_va / PAGE_SIZE + if end_va % PAGE_SIZE == 0 {
            0
        } else {
            1
        };
        let mut vpn = s;
        while vpn < e
            invariant
                s <= vpn <= e,
                s == vpn_floor(start_va as int),
                e == vpn_ceil(end_va as int),
                self.pages@ == old_pages,
                forall|v: int| s <= v < vpn ==> #[trigger] is_mapped(self.pages@, v),
            decreases e - vpn,
        {
            if !self.is_mapped(vpn) {
                return -1;
            }
            vpn += 1;
        }
        let ghost keep = outside(s as int, e as int);
        let mut kept: Vec<MappedPage> = Vec::new();
        let mut i: usize = 0;
        while i < self.pages.len()
            invariant
                i <= self.pages@.len(),
                keep == outside(s as int, e as int),
                kept@ == self.pages@.take(i as int).filter(keep),
            decreases self.pages@.len() - i,
        {
            let p = self.pages[i];
            proof {
                self.pages@.take(i as int).lemma_filter_push(p, keep);
                assert(self.pages@.take(i as int + 1) =~= self.pages@.take(i as int).push(p));
            }
            if !(s <= p.0 && p.0 < e) {
                kept.push(p);
            }
            i += 1;
        }
        assert(self.pages@.take(i as int) =~= self.pages@);
        self.pages = kept;
        0
    }
}

/// Mapping a free range and then unmapping the same range gives back the
/// address space as it was.
pub proof fn lemma_map_then_unmap(pages: Seq<MappedPage>, start_va: int, end_va: int, perm: u8)
    requires
        0 <= start_va <= end_va <= usize::MAX,
        map_result(pages, start_va, end_va, perm) is Some,
    ensures
        unmap_result(map_result(pages, start_va, end_va, perm)->0, start_va, end_va) == Some(pages),
{
    let s = vpn_floor(start_va);
    let e = vpn_ceil(end_va);
    let run = page_run(s, e, perm);
    let mapped = pages + run;
    assert forall|vpn: int| s <= vpn < e implies #[trigger] is_mapped(mapped, vpn) by {
        assert(mapped[pages.len() + (vpn - s)].0 == vpn);
    }
    Seq::filter_distributes_over_add(pages, run, outside(s, e));
    assert(pages.filter(outside(s, e)) =~= pages) by {
        assert forall|i: int| 0 <= i < pages.len() implies #[trigger] outside(s, e)(pages[i]) by {}
        lemma_filter_all(pages, outside(s, e));
    }
    assert(run.filter(outside(s, e)) =~= Seq::<MappedPage>::empty()) by {
        lemma_filter_none(run, outside(s, e));
    }
}

/// Filtering by a predicate that every element meets keeps the sequence.
proof fn lemma_filter_all(xs: Seq<MappedPage>, p: spec_fn(MappedPage) -> bool)
    requires
        forall|i: int| 0 <= i < xs.len() ==> #[trigger] p(xs[i]),
    ensures
        xs.filter(p) == xs,
    decreases xs.len(),
{
    reveal(Seq::filter);
    if xs.len() > 0 {
        lemma_filter_all(xs.drop_last(), p);
        assert(xs.drop_last().push(xs.last()) =~= xs);
    }
}

/// Filtering by a predicate that no element meets gives the empty sequence.
proof fn lemma_filter_none(xs: Seq<MappedPage>, p: spec_fn(MappedPage) -> bool)
    requires
        forall|i: int| 0 <= i < xs.len() ==> !#[trigger] p(xs[i]),
    ensures
        xs.filter(p) == Seq::<MappedPage>::empty(),
    decreases xs.len(),
{
    reveal(Seq::filter);
    if xs.len() > 0 {
        lemma_filter_none(xs.drop_last(), p);
    }
}

/// Mapping a range that meets an already mapped page fails.
pub proof fn lemma_map_twice_fails(pages: Seq<MappedPage>, start_va: int, end_va: int, perm: u8, perm2: u8)
    requires
        0 <= start_va <= end_va <= usize::MAX,
        vpn_floor(start_va) < vpn_ceil(end_va),
        map_result(pages, start_va, end_va, perm) is Some,
    ensures
        map_result(map_result(pages, start_va, end_va, perm)->0, start_va, end_va, perm2) is None,
{
    let s = vpn_floor(start_va);
    let mapped = map_result(pages, start_va, end_va, perm)->0;
    assert(mapped[pages.len() as int].0 == s);
}

/// Unmapping `[start_va, end_va)` succeeds exactly when every page that
/// meets the range, from page `start_va / PAGE_SIZE` up to the page holding
/// `end_va - 1`, is mapped: if one of them is not, the result is `None` (the
/// call returns -1 and changes nothing). When all are mapped, exactly the
/// pages in the range are removed and every other page stays.
pub proof fn lemma_unmap_needs_every_page(pages: Seq<MappedPage>, start_va: int, end_va: int)
    requires
        0 <= start_va <= end_va,
    ensures
        ({
            let s = start_va / 4096;
            let e = if end_va % 4096 == 0 {
                end_va / 4096
            } else {
                end_va / 4096 + 1
            };
            &&& unmap_result(pages, start_va, end_va) is Some <==> (forall|vpn: int|
                s <= vpn < e ==> #[trigger] is_mapped(pages, vpn))
            &&& unmap_result(pages, start_va, end_va) matches Some(rest) ==> {
                &&& forall|i: int| 0 <= i < rest.len() ==> !(s <= #[trigger] rest[i].0 < e) && pages.contains(rest[i])
                &&& forall|i: int| 0 <= i < pages.len() && !(s <= #[trigger] pages[i].0 < e) ==> rest.contains(pages[i])
            }
        }),
{
    let s = vpn_floor(start_va);
    let e = vpn_ceil(end_va);
    if unmap_result(pages, start_va, end_va) is Some {
        let rest = pages.filter(outside(s, e));
        assert forall|i: int| 0 <= i < rest.len() implies !(s <= #[trigger] rest[i].0 < e) && pages.contains(rest[i]) by {
            pages.lemma_filter_pred(outside(s, e), i);
            assert(rest.contains(rest[i]));
            pages.lemma_filter_contains_rev(outside(s, e), rest[i]);
        }
        assert forall|i: int| 0 <= i < pages.len() && !(s <= #[trigger] pages[i].0 < e) implies rest.contains(pages[i]) by {
            pages.lemma_filter_contains(outside(s, e), i);
        }
    }
}

/// Mapping `[start_va, end_va)` fails when a page that meets the range is
/// mapped already. Otherwise every page from `start_va / PAGE_SIZE` up to
/// the page holding `end_va - 1` is added, each with permission `perm`, after
/// the pages there were.
pub proof fn lemma_map_adds_every_page(pages: Seq<MappedPage>, start_va: int, end_va: int, perm: u8)
    requires
        0 <= start_va <= end_va <= usize::MAX,
    ensures
        ({
            let s = start_va / 4096;
            let e = if end_va % 4096 == 0 {
                end_va / 4096
            } else {
                end_va / 4096 + 1
            };
            &&& (exists|i: int| 0 <= i < pages.len() && s <= #[trigger] pages[i].0 < e) ==> map_result(
                pages,
                start_va,
                end_va,
                perm,
            ) is None
            &&& (forall|i: int| 0 <= i < pages.len() ==> !(s <= #[trigger] pages[i].0 < e))
                ==> map_result(pages, start_va, end_va, perm) is Some
            &&& map_result(pages, start_va, end_va, perm) matches Some(all) ==> {
                &&& all.len() == pages.len() + (e - s)
                &&& all.take(pages.len() as int) == pages
                &&& forall|vpn: int| s <= vpn < e ==> #[trigger] all[pages.len() + (vpn - s)] == (vpn as usize, perm)
                &&& forall|i: int| pages.len() <= i < all.len() ==> #[trigger] all[i].1 == perm
            }
        }),
{
    let s = vpn_floor(start_va);
    let e = vpn_ceil(end_va);
    if map_result(pages, start_va, end_va, perm) is Some {
        let all = pages + page_run(s, e, perm);
        assert(all.take(pages.len() as int) =~= pages);
    }
}

} // verus!
