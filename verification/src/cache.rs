//! DirectoryCache: materialized child-entry lists keyed by a directory's
//! identifier, with offset-resuming paged retrieval.

use vstd::prelude::*;

use crate::attr::EntryKind;
use crate::listing::DirectoryEntry;

verus! {

/// One child of a cached directory: its identifier and its listing entry.
#[derive(Debug)]
pub struct ChildEntry {
    pub id: u64,
    pub entry: DirectoryEntry,
}

/// Mathematical model of a cached child.
pub struct ChildModel {
    pub id: u64,
    pub name: Seq<char>,
    pub kind: EntryKind,
}

impl View for ChildEntry {
    type V = ChildModel;

    open spec fn view(&self) -> ChildModel {
        ChildModel { id: self.id, name: self.entry.name@, kind: self.entry.kind }
    }
}

impl Clone for ChildEntry {
    fn clone(&self) -> (r: Self)
        ensures
            r@ == self@,
    {
        ChildEntry { id: self.id, entry: self.entry.clone() }
    }
}

/// The children of a cached directory, in listing order.
pub open spec fn children_model(v: Seq<ChildEntry>) -> Seq<ChildModel> {
    v.map_values(|c: ChildEntry| c@)
}

/// The page of a listing that a caller resuming at `offset` receives: the
/// entries from `offset` on, and the empty page, never an error, for an
/// offset at or beyond the end.
pub open spec fn page_of(s: Seq<ChildModel>, offset: int) -> Seq<ChildModel>
    recommends
        0 <= offset,
{
    if offset >= s.len() {
        Seq::<ChildModel>::empty()
    } else {
        s.skip(offset)
    }
}

/// The page at offset 0 is the whole listing.
pub proof fn lemma_page_zero(s: Seq<ChildModel>)
    ensures
        page_of(s, 0) == s,
{
    if s.len() == 0 {
        assert(page_of(s, 0) =~= s);
    } else {
        assert(s.skip(0) =~= s);
    }
}

/// One resume step loses nothing: the page at `i` is the entries `i..j`
/// followed by the page at `j`.
pub proof fn lemma_page_resume(s: Seq<ChildModel>, i: int, j: int)
    requires
        0 <= i <= j <= s.len(),
    ensures
        page_of(s, i) == s.subrange(i, j).add(page_of(s, j)),
{
    if i == s.len() {
        assert(s.subrange(i, j) =~= Seq::<ChildModel>::empty());
        assert(page_of(s, i) =~= s.subrange(i, j).add(page_of(s, j)));
    } else if j == s.len() {
        assert(page_of(s, i) =~= s.subrange(i, j).add(page_of(s, j)));
    } else {
        assert(page_of(s, i) =~= s.subrange(i, j).add(page_of(s, j)));
    }
}

/// What a caller accumulates who starts at offset `o`, consumes up to
/// `sizes[0]` entries of each page it is handed, resumes at the offset after
/// the last consumed entry, and finally drains the rest.
pub open spec fn delivered_pages(s: Seq<ChildModel>, sizes: Seq<int>, o: int) -> Seq<ChildModel>
    recommends
        0 <= o <= s.len(),
    decreases sizes.len(),
{
    if sizes.len() == 0 {
        page_of(s, o)
    } else {
        let take = if sizes[0] < page_of(s, o).len() {
            sizes[0]
        } else {
            page_of(s, o).len() as int
        };
        let take = if take < 0 {
            0
        } else {
            take
        };
        page_of(s, o).take(take).add(delivered_pages(s, sizes.drop_first(), o + take))
    }
}

/// Law: paging is lossless and order-preserving: however a caller chops the
/// listing into successive pages, the concatenation of what it is handed is
/// the page at its starting offset — from offset 0, the whole listing.
pub proof fn lemma_paging_lossless(s: Seq<ChildModel>, sizes: Seq<int>, o: int)
    requires
        0 <= o <= s.len(),
    ensures
        delivered_pages(s, sizes, o) == page_of(s, o),
    decreases sizes.len(),
{
    if sizes.len() == 0 {
    } else {
        let p = page_of(s, o);
        let take = if sizes[0] < p.len() {
            sizes[0]
        } else {
            p.len() as int
        };
        let take = if take < 0 {
            0
        } else {
            take
        };
        lemma_paging_lossless(s, sizes.drop_first(), o + take);
        lemma_page_resume(s, o, o + take);
        assert(p.take(take) =~= s.subrange(o, o + take));
        if o + take >= s.len() {
            assert(delivered_pages(s, sizes.drop_first(), o + take) =~= Seq::<
                ChildModel,
            >::empty());
        }
        assert(delivered_pages(s, sizes, o) == p.take(take).add(
            delivered_pages(s, sizes.drop_first(), o + take),
        ));
    }
}

/// Law: from offset 0, a caller's successive pages concatenate to the whole
/// listing, whatever page sizes it chooses.
pub proof fn lemma_paging_lossless_full(s: Seq<ChildModel>, sizes: Seq<int>)
    ensures
        delivered_pages(s, sizes, 0) == s,
{
    lemma_paging_lossless(s, sizes, 0);
    lemma_page_zero(s);
}

struct CacheSlot {
    dir: u64,
    children: Vec<ChildEntry>,
}

/// The cache of materialized listings, keyed by the identifier of the
/// directory each listing belongs to. A listing, once filled, is immutable;
/// entries are never invalidated for the life of the process.
pub struct DirectoryCache {
    slots: Vec<CacheSlot>,
}

impl View for DirectoryCache {
    type V = Map<u64, Seq<ChildModel>>;

    closed spec fn view(&self) -> Map<u64, Seq<ChildModel>> {
        Map::new(
            |d: u64| exists|i: int| 0 <= i < self.slots@.len() && self.slots@[i].dir == d,
            |d: u64|
                children_model(
                    self.slots@[choose|i: int|
                        0 <= i < self.slots@.len() && self.slots@[i].dir == d].children@,
                ),
        )
    }
}

impl DirectoryCache {
    /// Well-formedness: no directory is cached twice.
    pub closed spec fn inv(&self) -> bool {
        forall|i: int, j: int|
            0 <= i < j < self.slots@.len() ==> self.slots@[i].dir != self.slots@[j].dir
    }

    proof fn lemma_slot_value(&self, i: int)
        requires
            self.inv(),
            0 <= i < self.slots@.len(),
        ensures
            self@.contains_key(self.slots@[i].dir),
            self@[self.slots@[i].dir] == children_model(self.slots@[i].children@),
    {
        let d = self.slots@[i].dir;
        assert(0 <= i < self.slots@.len() && self.slots@[i].dir == d);
        let j = choose|j: int| 0 <= j < self.slots@.len() && self.slots@[j].dir == d;
        if i < j {
            assert(self.slots@[i].dir != self.slots@[j].dir);
        }
        if j < i {
            assert(self.slots@[j].dir != self.slots@[i].dir);
        }
    }

    /// A fresh, empty cache.
    pub fn new() -> (r: DirectoryCache)
        ensures
            r.inv(),
            r@ == Map::<u64, Seq<ChildModel>>::empty(),
    {
        let r = DirectoryCache { slots: Vec::new() };
        proof {
            assert(r@ =~= Map::<u64, Seq<ChildModel>>::empty());
        }
        r
    }

    fn find_slot(&self, dir: u64) -> (r: Option<usize>)
        requires
            self.inv(),
        ensures
            match r {
                Some(i) => i < self.slots@.len() && self.slots@[i as int].dir == dir
                    && self@.contains_key(dir) && self@[dir] == children_model(
                    self.slots@[i as int].children@,
                ),
                None => !self@.contains_key(dir),
            },
    {
        let mut i: usize = 0;
        while i < self.slots.len()
            invariant
                self.inv(),
                i <= self.slots@.len(),
                forall|k: int| 0 <= k < i ==> self.slots@[k].dir != dir,
            decreases self.slots@.len() - i,
        {
            if self.slots[i].dir == dir {
                proof {
                    self.lemma_slot_value(i as int);
                }
                return Some(i);
            }
            i = i + 1;
        }
        proof {
            if self@.contains_key(dir) {
                let k = choose|k: int| 0 <= k < self.slots@.len() && self.slots@[k].dir == dir;
                assert(self.slots@[k].dir != dir);
            }
        }
        None
    }

    /// True when the directory's listing is already cached.
    pub fn contains_dir(&self, dir: u64) -> (r: bool)
        requires
            self.inv(),
        ensures
            r == self@.contains_key(dir),
    {
        match self.find_slot(dir) {
            Some(_) => true,
            None => false,
        }
    }

    /// The cached page of a directory's listing from `offset` on, cloned
    /// for the caller; `None` where the directory has no cached listing.
    pub fn page(&self, dir: u64, offset: usize) -> (r: Option<Vec<ChildEntry>>)
        requires
            self.inv(),
        ensures
            match r {
                Some(v) => self@.contains_key(dir) && children_model(v@) == page_of(
                    self@[dir],
                    offset as int,
                ),
                None => !self@.contains_key(dir),
            },
    {
        match self.find_slot(dir) {
            None => None,
            Some(i) => {
                let slot_children: &Vec<ChildEntry> = &self.slots[i].children;
                let mut out: Vec<ChildEntry> = Vec::new();
                let mut k: usize = if offset <= slot_children.len() {
                    offset
                } else {
                    slot_children.len()
                };
                let ghost cs = children_model(slot_children@);
                proof {
                    assert(children_model(out@) =~= cs.subrange(offset as int, k as int).add(
                        Seq::<ChildModel>::empty(),
                    ).take(0));
                }
                while k < slot_children.len()
                    invariant
                        offset <= k || (offset > slot_children@.len() && k
                            == slot_children@.len()),
                        k <= slot_children@.len(),
                        cs == children_model(slot_children@),
                        cs.len() == slot_children@.len(),
                        children_model(out@) == page_of(cs, offset as int).take(
                            out@.len() as int,
                        ),
                        out@.len() == (if k >= offset {
                            k - offset
                        } else {
                            0
                        }),
                    decreases slot_children@.len() - k,
                {
                    out.push(slot_children[k].clone());
                    proof {
                        assert(cs[k as int] == slot_children@[k as int]@);
                        assert(children_model(out@) =~= page_of(cs, offset as int).take(
                            out@.len() as int,
                        ));
                    }
                    k = k + 1;
                }
                proof {
                    assert(children_model(out@) =~= page_of(cs, offset as int));
                }
                Some(out)
            },
        }
    }

    /// Records a directory's freshly materialized listing. Each listing is
    /// built exactly once: the directory must not be cached yet.
    pub fn insert(&mut self, dir: u64, children: Vec<ChildEntry>)
        requires
            old(self).inv(),
            !old(self)@.contains_key(dir),
        ensures
            final(self).inv(),
            final(self)@ == old(self)@.insert(dir, children_model(children@)),
    {
        let ghost cm = children_model(children@);
        self.slots.push(CacheSlot { dir, children });
        proof {
            let n = old(self).slots@.len() as int;
            assert(self.slots@.len() == n + 1);
            assert(forall|k: int| 0 <= k < n ==> self.slots@[k] == old(self).slots@[k]);
            assert(self.slots@[n].dir == dir);
            assert forall|i: int, j: int|
                0 <= i < j < self.slots@.len() implies self.slots@[i].dir
                != self.slots@[j].dir by {
                if j < n {
                } else {
                    assert(j == n);
                    if self.slots@[i].dir == dir {
                        old(self).lemma_slot_value(i);
                    }
                }
            }
            assert forall|d: u64| true implies (self@.contains_key(d) <==> old(
                self,
            )@.insert(dir, cm).contains_key(d)) && (self@.contains_key(d) ==> self@[d] == old(
                self,
            )@.insert(dir, cm)[d]) by {
                if d == dir {
                    assert(self.slots@[n].dir == d);
                    self.lemma_slot_value(n);
                } else {
                    if exists|i: int| 0 <= i < self.slots@.len() && self.slots@[i].dir == d {
                        let i = choose|i: int|
                            0 <= i < self.slots@.len() && self.slots@[i].dir == d;
                        assert(i < n);
                        assert(old(self).slots@[i].dir == d);
                        old(self).lemma_slot_value(i);
                        self.lemma_slot_value(i);
                    } else {
                        if old(self)@.contains_key(d) {
                            let i = choose|i: int|
                                0 <= i < old(self).slots@.len() && old(self).slots@[i].dir == d;
                            assert(self.slots@[i].dir == d);
                        }
                    }
                }
            }
            assert(self@ =~= old(self)@.insert(dir, cm));
        }
    }
}

} // verus!
