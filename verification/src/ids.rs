//! IdentifierTable: a stable numeric identifier for every hierarchy
//! position ever observed, with the reverse mapping from identifier back to
//! position.

use vstd::prelude::*;

use crate::path::PathModel;
use crate::path::PlayPath;
use crate::path::depth_of;
use crate::path::parent_model;

verus! {

struct IdEntry {
    position: PlayPath,
    parent: u64,
}

/// The table of observed positions. An identifier is the index at which a
/// position stands; identifier 0 always denotes the root. The table only
/// grows, append-only, for the life of the process, so an identifier never
/// changes or gets reused once assigned.
pub struct IdentifierTable {
    entries: Vec<IdEntry>,
}

/// True when no two entries of `t` are the same position.
pub open spec fn distinct_positions(t: Seq<PathModel>) -> bool {
    forall|i: int, j: int| 0 <= i < j < t.len() ==> t[i] != t[j]
}

/// The identifier of a position: the index at which it stands in the table.
pub open spec fn spec_id_of(t: Seq<PathModel>, p: PathModel) -> int {
    choose|i: int| 0 <= i < t.len() && t[i] == p
}

/// In a duplicate-free table the identifier of a position standing at `i`
/// is `i` itself.
pub proof fn lemma_id_of_unique(t: Seq<PathModel>, p: PathModel, i: int)
    requires
        distinct_positions(t),
        0 <= i < t.len(),
        t[i] == p,
    ensures
        spec_id_of(t, p) == i,
{
    assert(0 <= i < t.len() && t[i] == p);
    let j = spec_id_of(t, p);
    assert(0 <= j < t.len() && t[j] == p);
    if i < j {
        assert(t[i] != t[j]);
    }
    if j < i {
        assert(t[j] != t[i]);
    }
}

/// Law: an observed position resolves back to itself: its identifier is in
/// range and the table holds the position there.
pub proof fn lemma_resolve_after_assign(t: Seq<PathModel>, p: PathModel)
    requires
        distinct_positions(t),
        t.contains(p),
    ensures
        0 <= spec_id_of(t, p) < t.len(),
        t[spec_id_of(t, p)] == p,
{
    let i = choose|i: int| 0 <= i < t.len() && t[i] == p;
    lemma_id_of_unique(t, p, i);
}

/// Law: distinct positions never share an identifier.
pub proof fn lemma_identifier_injective(t: Seq<PathModel>, p1: PathModel, p2: PathModel)
    requires
        distinct_positions(t),
        t.contains(p1),
        t.contains(p2),
        p1 != p2,
    ensures
        spec_id_of(t, p1) != spec_id_of(t, p2),
{
    let i1 = spec_id_of(t, p1);
    let i2 = spec_id_of(t, p2);
    assert(0 <= i1 < t.len() && t[i1] == p1);
    assert(0 <= i2 < t.len() && t[i2] == p2);
}

/// Law: identifiers are referentially stable: however the table grows, a
/// position already observed keeps the identifier it had.
pub proof fn lemma_identifier_stable(t1: Seq<PathModel>, t2: Seq<PathModel>, p: PathModel)
    requires
        distinct_positions(t2),
        t1.len() <= t2.len(),
        t2.take(t1.len() as int) == t1,
        t1.contains(p),
    ensures
        t2.contains(p),
        spec_id_of(t2, p) == spec_id_of(t1, p),
{
    let i = choose|i: int| 0 <= i < t1.len() && t1[i] == p;
    assert(t2.take(t1.len() as int)[i] == t1[i]);
    assert(t2[i] == p);
    assert(t2.contains(p));
    assert(forall|k: int, l: int|
        0 <= k < l < t1.len() ==> t2.take(t1.len() as int)[k] == t1[k] && t2.take(
            t1.len() as int,
        )[l] == t1[l]);
    assert(distinct_positions(t1));
    lemma_id_of_unique(t1, p, i);
    lemma_id_of_unique(t2, p, i);
}

impl View for IdentifierTable {
    type V = Seq<PathModel>;

    closed spec fn view(&self) -> Seq<PathModel> {
        self.entries@.map_values(|e: IdEntry| e.position@)
    }
}

impl IdentifierTable {
    /// The recorded parent identifier of the entry at `i`.
    pub closed spec fn spec_parent_of(&self, i: int) -> u64 {
        self.entries@[i].parent
    }

    /// Well-formedness: the root stands at identifier 0, no position stands
    /// twice, and every other entry records its parent position's smaller
    /// identifier.
    pub closed spec fn inv(&self) -> bool {
        &&& self@.len() >= 1
        &&& self@[0] == PathModel::Root
        &&& distinct_positions(self@)
        &&& forall|i: int|
            1 <= i < self@.len() ==> #[trigger] self.spec_parent_of(i) < i && self@[self
                .spec_parent_of(i) as int] == parent_model(self@[i])
    }

    /// What well-formedness guarantees about the table's positions.
    pub proof fn lemma_inv_facts(&self)
        requires
            self.inv(),
        ensures
            self@.len() >= 1,
            self@[0] == PathModel::Root,
            distinct_positions(self@),
    {
    }

    /// A fresh table, knowing only the root.
    pub fn new() -> (r: IdentifierTable)
        ensures
            r.inv(),
            r@ == seq![PathModel::Root],
    {
        let mut entries: Vec<IdEntry> = Vec::new();
        entries.push(IdEntry { position: PlayPath::Root, parent: 0 });
        let t = IdentifierTable { entries };
        proof {
            assert(t@ =~= seq![PathModel::Root]);
        }
        t
    }

    fn find(&self, p: &PlayPath) -> (r: Option<usize>)
        ensures
            match r {
                Some(i) => i < self@.len() && self@[i as int] == p@,
                None => !self@.contains(p@),
            },
    {
        let mut i: usize = 0;
        while i < self.entries.len()
            invariant
                i <= self.entries@.len(),
                self@.len() == self.entries@.len(),
                forall|k: int| 0 <= k < i ==> self@[k] != p@,
                forall|k: int|
                    0 <= k < self.entries@.len() ==> self@[k] == #[trigger] self.entries@[k]
                        .position@,
            decreases self.entries@.len() - i,
        {
            if self.entries[i].position.same_position(p) {
                return Some(i);
            }
            i = i + 1;
        }
        proof {
            if self@.contains(p@) {
                let k = choose|k: int| 0 <= k < self@.len() && self@[k] == p@;
                assert(self@[k] != p@);
            }
        }
        None
    }

    fn parent_position(p: &PlayPath) -> (r: PlayPath)
        ensures
            r@ == parent_model(p@),
    {
        match p {
            PlayPath::Root => PlayPath::Root,
            PlayPath::Artist(_) => PlayPath::Root,
            PlayPath::Album { artist, .. } => PlayPath::Artist(artist.clone()),
            PlayPath::Song { artist, album, .. } => PlayPath::Album {
                artist: artist.clone(),
                album: album.clone(),
            },
        }
    }

    /// Returns the identifier of `p`, allocating the next unused identifier
    /// for it, and for any of its ancestors not yet observed, on first
    /// sight. Observed positions keep their identifier: assigning twice
    /// yields the same identifier, and the table grows append-only.
    pub fn assign(&mut self, p: &PlayPath) -> (r: u64)
        requires
            old(self).inv(),
        ensures
            final(self).inv(),
            old(self)@.len() <= final(self)@.len(),
            final(self)@.take(old(self)@.len() as int) == old(self)@,
            forall|i: int|
                old(self)@.len() <= i < final(self)@.len() ==> depth_of(
                    #[trigger] final(self)@[i],
                ) <= depth_of(p@),
            final(self)@.contains(p@),
            r < final(self)@.len(),
            final(self)@[r as int] == p@,
            r == spec_id_of(final(self)@, p@),
            old(self)@.contains(p@) ==> final(self)@ == old(self)@,
        decreases depth_of(p@),
    {
        let found = self.find(p);
        match found {
            Some(i) => {
                proof {
                    assert(self@.take(self@.len() as int) =~= self@);
                    lemma_id_of_unique(self@, p@, i as int);
                }
                i as u64
            },
            None => {
                proof {
                    assert(self@[0] == PathModel::Root);
                    assert(self@.contains(PathModel::Root));
                    assert(p@ != PathModel::Root);
                    assert(depth_of(parent_model(p@)) < depth_of(p@));
                }
                let parent = Self::parent_position(p);
                let parent_id = self.assign(&parent);
                let ghost mid = self@;
                proof {
                    assert(forall|k: int| 0 <= k < old(self)@.len() ==> mid[k] == old(self)@[k]);
                    assert(forall|k: int| 0 <= k < old(self)@.len() ==> old(self)@[k] != p@);
                    assert(forall|k: int|
                        old(self)@.len() <= k < mid.len() ==> depth_of(#[trigger] mid[k])
                            <= depth_of(parent_model(p@)));
                    if mid.contains(p@) {
                        let k = choose|k: int| 0 <= k < mid.len() && mid[k] == p@;
                        assert(mid[k] != p@);
                    }
                }
                let ghost midt = *self;
                let id = self.entries.len();
                self.entries.push(IdEntry { position: p.clone(), parent: parent_id });
                proof {
                    assert(self@ =~= mid.push(p@));
                    assert(self@.take(old(self)@.len() as int) =~= old(self)@);
                    assert forall|i: int, j: int|
                        0 <= i < j < self@.len() implies self@[i] != self@[j] by {
                        if j < mid.len() {
                            assert(mid[i] != mid[j]);
                        } else {
                            assert(self@[j] == p@);
                            assert(!mid.contains(p@));
                            assert(self@[i] == mid[i]);
                        }
                    }
                    assert forall|i: int|
                        1 <= i < self@.len() implies #[trigger] self.spec_parent_of(i) < i
                        && self@[self.spec_parent_of(i) as int] == parent_model(self@[i]) by {
                        if i < mid.len() {
                            assert(midt.inv());
                            assert(self.spec_parent_of(i) == midt.spec_parent_of(i));
                            assert(midt.spec_parent_of(i) < i && midt@[midt.spec_parent_of(i) as int]
                                == parent_model(midt@[i]));
                            assert(self@[i] == mid[i] && mid == midt@);
                        } else {
                            assert(self.spec_parent_of(i) == parent_id);
                            assert(mid[parent_id as int] == parent_model(p@));
                        }
                    }
                    lemma_id_of_unique(self@, p@, mid.len() as int);
                }
                id as u64
            },
        }
    }

    /// The position an identifier denotes, or `None` for an identifier the
    /// table never assigned.
    pub fn resolve(&self, id: u64) -> (r: Option<PlayPath>)
        requires
            self.inv(),
        ensures
            match r {
                Some(p) => id < self@.len() && p@ == self@[id as int],
                None => id >= self@.len(),
            },
    {
        if id < self.entries.len() as u64 {
            let i = id as usize;
            proof {
                assert(self@[id as int] == self.entries@[id as int].position@);
            }
            Some(self.entries[i].position.clone())
        } else {
            None
        }
    }

    /// The identifier of an entry's parent; the root has none, and an
    /// unknown identifier yields none either.
    pub fn parent_of(&self, id: u64) -> (r: Option<u64>)
        requires
            self.inv(),
        ensures
            match r {
                Some(pid) => 1 <= id < self@.len() && pid < id && self@[pid as int]
                    == parent_model(self@[id as int]),
                None => id == 0 || id >= self@.len(),
            },
    {
        if id >= 1 && id < self.entries.len() as u64 {
            let i = id as usize;
            proof {
                assert(self.spec_parent_of(id as int) < id as int && self@[self.spec_parent_of(
                    id as int,
                ) as int] == parent_model(self@[id as int]));
            }
            Some(self.entries[i].parent)
        } else {
            None
        }
    }
}

} // verus!
