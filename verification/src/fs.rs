//! The core engine: a memoizing read-through query layer over the backing
//! store. Requests enter by path or by identifier, resolve to a typed
//! hierarchy position, consult the directory cache — filling it from the
//! store gateway and assigning identifiers on a miss — and are answered
//! with POSIX-style attributes and listings.

use vstd::prelude::*;

use crate::attr::EntryKind;
use crate::attr::FileAttributes;
use crate::attr::attributes_for_kind;
use crate::attr::attributes_of;
use crate::attr::kind_of_position;
use crate::attr::spec_attributes;
use crate::cache::ChildEntry;
use crate::cache::ChildModel;
use crate::cache::DirectoryCache;
use crate::cache::children_model;
use crate::cache::lemma_page_zero;
use crate::cache::page_of;
use crate::error::FsError;
use crate::ids::IdentifierTable;
use crate::ids::distinct_positions;
use crate::listing::separator_free;
use crate::path::PathModel;
use crate::path::PlayPath;
use crate::path::child_model;
use crate::path::decompose_path;
use crate::path::depth_of;
use crate::path::parse_path;
use crate::store::StoreGateway;
use crate::store::child_kind;

verus! {

/// What holds of a cached listing `cs` for directory identifier `d` against
/// the table of positions `t`: the directory is a known non-terminal
/// position, every child's identifier is known and resolves to the child
/// position the entry names, names are separator-free and pairwise
/// distinct, and every entry carries the directory's child kind.
pub open spec fn cache_ok(t: Seq<PathModel>, d: u64, cs: Seq<ChildModel>) -> bool {
    &&& d < t.len()
    &&& depth_of(t[d as int]) < 3
    &&& forall|k: int|
        0 <= k < cs.len() ==> {
            &&& (#[trigger] cs[k]).kind == child_kind(t[d as int])
            &&& separator_free(cs[k].name)
            &&& cs[k].id < t.len()
            &&& t[cs[k].id as int] == child_model(t[d as int], cs[k].name)
        }
    &&& forall|k1: int, k2: int| 0 <= k1 < k2 < cs.len() ==> cs[k1].name != cs[k2].name
}

/// A cached listing stays consistent however the table grows, as long as
/// the growth is append-only.
proof fn lemma_cache_ok_extend(t1: Seq<PathModel>, t2: Seq<PathModel>, d: u64, cs: Seq<ChildModel>)
    requires
        cache_ok(t1, d, cs),
        t1.len() <= t2.len(),
        t2.take(t1.len() as int) == t1,
    ensures
        cache_ok(t2, d, cs),
{
    assert(forall|i: int| 0 <= i < t1.len() ==> t1[i] == #[trigger] t2.take(t1.len() as int)[i]);
    assert(forall|i: int| 0 <= i < t1.len() ==> t1[i] == t2[i]);
}

/// True when the listing carries a child named `name` with identifier `id`
/// whose kind yields attributes `a`.
pub open spec fn listing_has_child(cs: Seq<ChildModel>, name: Seq<char>, id: u64, a: FileAttributes) -> bool {
    exists|k: int|
        0 <= k < cs.len() && (#[trigger] cs[k]).name == name && cs[k].id == id && a
            == spec_attributes(cs[k].kind)
}

/// True when no entry of the listing is named `name`.
pub open spec fn listing_lacks_name(cs: Seq<ChildModel>, name: Seq<char>) -> bool {
    forall|k: int| 0 <= k < cs.len() ==> (#[trigger] cs[k]).name != name
}

/// One mount's worth of core state: the store gateway, the identifier
/// table and the directory cache.
pub struct Filesystem {
    gateway: StoreGateway,
    table: IdentifierTable,
    cache: DirectoryCache,
}

impl Filesystem {
    /// The positions the table has observed, indexed by identifier.
    pub closed spec fn positions(&self) -> Seq<PathModel> {
        self.table@
    }

    /// The cached listings, keyed by directory identifier.
    pub closed spec fn listings(&self) -> Map<u64, Seq<ChildModel>> {
        self.cache@
    }

    /// Well-formedness of the whole core: table and cache are each well
    /// formed, and every cached listing is consistent with the table.
    pub closed spec fn inv(&self) -> bool {
        &&& self.table.inv()
        &&& self.cache.inv()
        &&& forall|d: u64|
            self.listings().contains_key(d) ==> cache_ok(
                self.positions(),
                d,
                #[trigger] self.listings()[d],
            )
    }

    /// What well-formedness guarantees, for reasoning outside this module.
    pub proof fn lemma_inv_facts(&self)
        requires
            self.inv(),
        ensures
            self.positions().len() >= 1,
            self.positions()[0] == PathModel::Root,
            distinct_positions(self.positions()),
            forall|d: u64|
                self.listings().contains_key(d) ==> cache_ok(
                    self.positions(),
                    d,
                    #[trigger] self.listings()[d],
                ),
    {
        self.table.lemma_inv_facts();
    }

    /// Opens the backing store and starts a fresh mount: a new identifier
    /// table knowing only the root, and an empty cache. Nothing persists
    /// from any earlier mount.
    pub fn new(db: &str) -> (r: Result<Filesystem, FsError>)
        ensures
            r matches Ok(fs) ==> fs.inv() && fs.positions() == seq![PathModel::Root]
                && fs.listings() == Map::<u64, Seq<ChildModel>>::empty(),
            r matches Err(e) ==> e == FsError::BackingStore,
    {
        let gateway = match StoreGateway::open(db) {
            Ok(g) => g,
            Err(e) => {
                return Err(e);
            },
        };
        let fs = Filesystem { gateway, table: IdentifierTable::new(), cache: DirectoryCache::new() };
        Ok(fs)
    }
}

/// True when `post` is `pre` evolved by some operations: positions only
/// appended, so every identifier keeps its position, and cached listings
/// only added, never changed — the spec-level statement of referential
/// stability.
pub open spec fn evolves(pre: Filesystem, post: Filesystem) -> bool {
    &&& pre.positions().len() <= post.positions().len()
    &&& forall|i: int|
        0 <= i < pre.positions().len() ==> #[trigger] post.positions()[i] == pre.positions()[i]
    &&& forall|d: u64|
        #[trigger] pre.listings().contains_key(d) ==> post.listings().contains_key(d)
            && post.listings()[d] == pre.listings()[d]
}

/// Evolution is transitive: two evolved steps are one.
pub proof fn lemma_evolves_trans(a: Filesystem, b: Filesystem, c: Filesystem)
    requires
        evolves(a, b),
        evolves(b, c),
    ensures
        evolves(a, c),
{
    assert forall|d: u64| #[trigger] a.listings().contains_key(d) implies c.listings().contains_key(
        d,
    ) && c.listings()[d] == a.listings()[d] by {
        assert(b.listings().contains_key(d));
        assert(c.listings().contains_key(d));
    }
    assert forall|i: int|
        0 <= i < a.positions().len() implies #[trigger] c.positions()[i] == a.positions()[i] by {
        assert(b.positions()[i] == a.positions()[i]);
        assert(c.positions()[i] == b.positions()[i]);
    }
    assert(a.positions().len() <= b.positions().len() <= c.positions().len());
}

/// True when two states hold the same positions and listings.
pub open spec fn same_state(pre: Filesystem, post: Filesystem) -> bool {
    post.positions() == pre.positions() && post.listings() == pre.listings()
}

/// The entry of the listing named `name`; meaningful where the listing
/// carries the name and its names are pairwise distinct.
pub open spec fn listing_child_entry(cs: Seq<ChildModel>, name: Seq<char>) -> ChildModel {
    cs[choose|k: int| 0 <= k < cs.len() && cs[k].name == name]
}

/// In a listing with pairwise distinct names, the entry named `name` is
/// the one at any index that carries it.
pub proof fn lemma_listing_child_unique(cs: Seq<ChildModel>, name: Seq<char>, k: int)
    requires
        forall|k1: int, k2: int| 0 <= k1 < k2 < cs.len() ==> cs[k1].name != cs[k2].name,
        0 <= k < cs.len(),
        cs[k].name == name,
    ensures
        listing_child_entry(cs, name) == cs[k],
{
    assert(0 <= k < cs.len() && cs[k].name == name);
    let j = choose|j: int| 0 <= j < cs.len() && cs[j].name == name;
    if k < j {
        assert(cs[k].name != cs[j].name);
    }
    if j < k {
        assert(cs[j].name != cs[k].name);
    }
}

/// The component names a position's path walks through, root first.
pub open spec fn name_chain(p: PathModel) -> Seq<Seq<char>> {
    match p {
        PathModel::Root => Seq::<Seq<char>>::empty(),
        PathModel::Artist(a) => seq![a],
        PathModel::Album(a, b) => seq![a, b],
        PathModel::Song(a, b, t) => seq![a, b, t],
    }
}

/// What the cached listings of `pre` alone decide of a walk for the chain
/// of names under directory `dir`: wherever every listing the walk reaches
/// is already cached, the state stays unchanged and the result is pinned —
/// a name some listing lacks is `NotFound`, a chain every listing carries
/// reports the final entry's kind.
pub open spec fn cached_walk_outcome(
    pre: Filesystem,
    post: Filesystem,
    dir: u64,
    names: Seq<Seq<char>>,
    r: Result<FileAttributes, FsError>,
) -> bool
    decreases names.len(),
{
    names.len() == 0 || (pre.listings().contains_key(dir) ==> {
        let cs = pre.listings()[dir];
        if listing_lacks_name(cs, names[0]) {
            r == Err::<FileAttributes, FsError>(FsError::NotFound) && same_state(pre, post)
        } else if names.len() == 1 {
            r == Ok::<FileAttributes, FsError>(
                spec_attributes(listing_child_entry(cs, names[0]).kind),
            ) && same_state(pre, post)
        } else {
            cached_walk_outcome(
                pre,
                post,
                listing_child_entry(cs, names[0]).id,
                names.drop_first(),
                r,
            )
        }
    })
}

impl Filesystem {
    /// Builds one child position in executable code.
    fn child_position(p: &PlayPath, name: &String) -> (r: PlayPath)
        ensures
            r@ == child_model(p@, name@),
    {
        match p {
            PlayPath::Root => PlayPath::Artist(name.clone()),
            PlayPath::Artist(a) => PlayPath::Album { artist: a.clone(), album: name.clone() },
            PlayPath::Album { artist, album } => PlayPath::Song {
                artist: artist.clone(),
                album: album.clone(),
                song: name.clone(),
            },
            PlayPath::Song { artist, album, song } => PlayPath::Song {
                artist: artist.clone(),
                album: album.clone(),
                song: song.clone(),
            },
        }
    }

    /// The directory's listing, built exactly once: an already cached
    /// listing is returned as it is; otherwise the store is queried, every
    /// child is given an identifier, and the listing is cached.
    fn ensure_children(&mut self, dir_id: u64) -> (r: Result<Vec<ChildEntry>, FsError>)
        requires
            old(self).inv(),
            dir_id < old(self).positions().len(),
            depth_of(old(self).positions()[dir_id as int]) < 3,
        ensures
            final(self).inv(),
            evolves(*old(self), *final(self)),
            match r {
                Ok(v) => final(self).listings().contains_key(dir_id) && children_model(v@)
                    == final(self).listings()[dir_id],
                Err(e) => e == FsError::BackingStore && same_state(*old(self), *final(self))
                    && !old(self).listings().contains_key(dir_id),
            },
            old(self).listings().contains_key(dir_id) ==> r is Ok && same_state(
                *old(self),
                *final(self),
            ),
    {
        let cached = self.cache.page(dir_id, 0);
        match cached {
            Some(v) => {
                proof {
                    lemma_page_zero(self.cache@[dir_id]);
                }
                Ok(v)
            },
            None => {
                let pos = match self.table.resolve(dir_id) {
                    Some(p) => p,
                    None => {
                        proof {
                            assert(false);
                        }
                        return Err(FsError::BackingStore);
                    },
                };
                let entries = match self.gateway.list_children(&pos) {
                    Ok(es) => es,
                    Err(e) => {
                        return Err(e);
                    },
                };
                let ghost t0 = self.table@;
                let ghost cache0 = self.cache;
                let ghost gw0 = self.gateway;
                proof {
                    self.table.lemma_inv_facts();
                }
                let mut children: Vec<ChildEntry> = Vec::new();
                let mut i: usize = 0;
                while i < entries.len()
                    invariant
                        self.table.inv(),
                        self.cache == cache0,
                        self.gateway == gw0,
                        t0.len() >= 1,
                        distinct_positions(t0),
                        dir_id < t0.len(),
                        pos@ == t0[dir_id as int],
                        depth_of(pos@) < 3,
                        t0.len() <= self.table@.len(),
                        self.table@.take(t0.len() as int) == t0,
                        i <= entries@.len(),
                        crate::store::well_formed_listing(entries@, pos@),
                        children@.len() == i,
                        forall|k: int|
                            0 <= k < i ==> (#[trigger] children@[k])@.name == entries@[k].name@
                                && children@[k]@.kind == entries@[k].kind,
                        forall|k: int|
                            0 <= k < i ==> (#[trigger] children@[k])@.id < self.table@.len()
                                && self.table@[children@[k]@.id as int] == child_model(
                                pos@,
                                entries@[k].name@,
                            ),
                    decreases entries@.len() - i,
                {
                    let ghost tpre = self.table@;
                    let e_name: String = entries[i].name.clone();
                    let e_kind: EntryKind = entries[i].kind;
                    let child_pos = Self::child_position(&pos, &e_name);
                    let cid = self.table.assign(&child_pos);
                    children.push(ChildEntry { id: cid, entry: crate::listing::DirectoryEntry { name: e_name, kind: e_kind } });
                    proof {
                        assert(self.table@.take(t0.len() as int) =~= t0);
                        assert(forall|k: int|
                            0 <= k < tpre.len() ==> tpre[k] == #[trigger] self.table@.take(
                                tpre.len() as int,
                            )[k]);
                        assert(forall|k: int| 0 <= k < tpre.len() ==> tpre[k] == self.table@[k]);
                        assert(forall|k: int|
                            0 <= k < i ==> (#[trigger] children@[k])@.id < tpre.len());
                    }
                    i = i + 1;
                }
                let ghost tnew = self.table@;
                proof {
                    assert(!cache0@.contains_key(dir_id));
                    assert(self.table@[dir_id as int] == t0[dir_id as int]) by {
                        assert(self.table@.take(t0.len() as int)[dir_id as int] == t0[dir_id as int]);
                    }
                    assert(cache_ok(tnew, dir_id, children_model(children@))) by {
                        assert(forall|k: int|
                            0 <= k < children@.len() ==> children_model(children@)[k]
                                == (#[trigger] children@[k])@);
                        assert forall|k1: int, k2: int|
                            0 <= k1 < k2 < children@.len() implies children_model(
                            children@,
                        )[k1].name != children_model(children@)[k2].name by {
                            assert(crate::listing::entry_names(entries@)[k1] == entries@[k1].name@);
                            assert(crate::listing::entry_names(entries@)[k2] == entries@[k2].name@);
                        }
                    }
                }
                self.cache.insert(dir_id, children);
                let paged = self.cache.page(dir_id, 0);
                match paged {
                    Some(v) => {
                        proof {
                            lemma_page_zero(self.cache@[dir_id]);
                            assert forall|d: u64|
                                self.listings().contains_key(d) implies cache_ok(
                                self.positions(),
                                d,
                                #[trigger] self.listings()[d],
                            ) by {
                                if d != dir_id {
                                    assert(cache0@.contains_key(d));
                                    assert(old(self).listings().contains_key(d));
                                    assert(cache_ok(
                                        old(self).positions(),
                                        d,
                                        old(self).listings()[d],
                                    ));
                                    assert(t0 == old(self).positions());
                                    assert(cache0@[d] == old(self).listings()[d]);
                                    lemma_cache_ok_extend(t0, tnew, d, cache0@[d]);
                                }
                            }
                        }
                        Ok(v)
                    },
                    None => {
                        proof {
                            assert(false);
                        }
                        Err(FsError::BackingStore)
                    },
                }
            },
        }
    }

    /// Answers a `readdir` request: the page, from `offset` on, of the
    /// identified directory's listing, with each entry's own identifier.
    /// An unknown identifier or a song yields `NotFound`; an offset at or
    /// beyond the end yields the empty page, never an error; a cached
    /// listing is served without touching the store.
    pub fn readdir(&mut self, dir_id: u64, offset: usize) -> (r: Result<Vec<ChildEntry>, FsError>)
        requires
            old(self).inv(),
        ensures
            final(self).inv(),
            evolves(*old(self), *final(self)),
            dir_id >= old(self).positions().len() ==> r == Err::<Vec<ChildEntry>, FsError>(
                FsError::NotFound,
            ) && same_state(*old(self), *final(self)),
            dir_id < old(self).positions().len() && depth_of(
                old(self).positions()[dir_id as int],
            ) == 3 ==> r == Err::<Vec<ChildEntry>, FsError>(FsError::NotFound) && same_state(
                *old(self),
                *final(self),
            ),
            dir_id < old(self).positions().len() && depth_of(old(self).positions()[dir_id as int])
                < 3 ==> match r {
                Ok(v) => final(self).listings().contains_key(dir_id) && children_model(v@)
                    == page_of(final(self).listings()[dir_id], offset as int),
                Err(e) => e == FsError::BackingStore && same_state(*old(self), *final(self))
                    && !old(self).listings().contains_key(dir_id),
            },
            dir_id < old(self).positions().len() && depth_of(old(self).positions()[dir_id as int])
                < 3 && old(self).listings().contains_key(dir_id) ==> r is Ok && same_state(
                *old(self),
                *final(self),
            ),
    {
        let pos = match self.table.resolve(dir_id) {
            Some(p) => p,
            None => {
                return Err(FsError::NotFound);
            },
        };
        match pos {
            PlayPath::Song { .. } => {
                return Err(FsError::NotFound);
            },
            _ => {},
        }
        let mut full = match self.ensure_children(dir_id) {
            Ok(v) => v,
            Err(e) => {
                return Err(e);
            },
        };
        let ghost fullm = children_model(full@);
        if offset >= full.len() {
            let empty: Vec<ChildEntry> = Vec::new();
            proof {
                assert(children_model(empty@) =~= page_of(fullm, offset as int));
            }
            Ok(empty)
        } else {
            let page = full.split_off(offset);
            proof {
                assert(children_model(page@) =~= page_of(fullm, offset as int));
            }
            Ok(page)
        }
    }

    /// Answers a `lookup` request: the identifier and attributes of the
    /// named child of the identified directory. An unknown identifier, a
    /// song parent, or a name the listing does not carry yields `NotFound`.
    pub fn lookup(&mut self, parent: u64, name: &str) -> (r: Result<(u64, FileAttributes), FsError>)
        requires
            old(self).inv(),
        ensures
            final(self).inv(),
            evolves(*old(self), *final(self)),
            r matches Err(e) ==> e == FsError::NotFound || e == FsError::BackingStore,
            parent >= old(self).positions().len() ==> r == Err::<(u64, FileAttributes), FsError>(
                FsError::NotFound,
            ) && same_state(*old(self), *final(self)),
            parent < old(self).positions().len() && depth_of(old(self).positions()[parent as int])
                == 3 ==> r == Err::<(u64, FileAttributes), FsError>(FsError::NotFound)
                && same_state(*old(self), *final(self)),
            parent < old(self).positions().len() && depth_of(old(self).positions()[parent as int])
                < 3 ==> match r {
                Ok((id, a)) => {
                    &&& final(self).listings().contains_key(parent)
                    &&& listing_has_child(final(self).listings()[parent], name@, id, a)
                    &&& id < final(self).positions().len()
                    &&& final(self).positions()[id as int] == child_model(
                        final(self).positions()[parent as int],
                        name@,
                    )
                    &&& a == spec_attributes(child_kind(final(self).positions()[parent as int]))
                },
                Err(e) => {
                    &&& (e == FsError::NotFound ==> final(self).listings().contains_key(parent)
                        && listing_lacks_name(final(self).listings()[parent], name@))
                    &&& (e == FsError::BackingStore ==> same_state(*old(self), *final(self))
                        && !old(self).listings().contains_key(parent))
                },
            },
            parent < old(self).positions().len() && depth_of(old(self).positions()[parent as int])
                < 3 && old(self).listings().contains_key(parent) ==> same_state(
                *old(self),
                *final(self),
            ) && r !== Err::<(u64, FileAttributes), FsError>(FsError::BackingStore),
    {
        let pos = match self.table.resolve(parent) {
            Some(p) => p,
            None => {
                return Err(FsError::NotFound);
            },
        };
        match pos {
            PlayPath::Song { .. } => {
                return Err(FsError::NotFound);
            },
            _ => {},
        }
        let children = match self.ensure_children(parent) {
            Ok(v) => v,
            Err(e) => {
                return Err(e);
            },
        };
        let name_owned: String = name.to_owned();
        let ghost cs = children_model(children@);
        let mut k: usize = 0;
        while k < children.len()
            invariant
                self.inv(),
                evolves(*old(self), *self),
                old(self).listings().contains_key(parent) ==> same_state(*old(self), *self),
                parent < old(self).positions().len(),
                depth_of(old(self).positions()[parent as int]) < 3,
                self.listings().contains_key(parent),
                self.listings()[parent] == cs,
                parent < self.positions().len(),
                k <= children@.len(),
                cs == children_model(children@),
                cs.len() == children@.len(),
                forall|j: int| 0 <= j < k ==> (#[trigger] cs[j]).name != name_owned@,
                name_owned@ == name@,
            decreases children@.len() - k,
        {
            if children[k].entry.name == name_owned {
                let id = children[k].id;
                let attrs = attributes_for_kind(children[k].entry.kind);
                proof {
                    assert(cs[k as int] == children@[k as int]@);
                    assert(cs[k as int].name == name@);
                    assert(self.listings()[parent] == cs);
                }
                return Ok((id, attrs));
            }
            k = k + 1;
        }
        proof {
            assert(forall|j: int| 0 <= j < cs.len() ==> (#[trigger] cs[j]).name != name@);
        }
        Err(FsError::NotFound)
    }

    /// Answers a `getattr` request by identifier: the attributes of the
    /// position the identifier denotes, `NotFound` for an identifier the
    /// table never assigned.
    pub fn getattr_id(&self, id: u64) -> (r: Result<FileAttributes, FsError>)
        requires
            self.inv(),
        ensures
            id < self.positions().len() ==> r == Ok::<FileAttributes, FsError>(
                spec_attributes(kind_of_position(self.positions()[id as int])),
            ),
            id >= self.positions().len() ==> r == Err::<FileAttributes, FsError>(FsError::NotFound),
    {
        match self.table.resolve(id) {
            Some(pos) => Ok(attributes_of(&pos)),
            None => Err(FsError::NotFound),
        }
    }

    /// Answers a `getattr` request by path: resolves the path, walks the
    /// cached listings — filling them from the store as needed — and
    /// reports the attributes of the entry the path names. A malformed
    /// path yields `MalformedPath`; a well-formed path whose entry the
    /// listings do not carry yields `NotFound`.
    #[verifier::rlimit(100)]
    pub fn getattr_path(&mut self, path: &str) -> (r: Result<FileAttributes, FsError>)
        requires
            old(self).inv(),
        ensures
            final(self).inv(),
            evolves(*old(self), *final(self)),
            (r == Err::<FileAttributes, FsError>(FsError::MalformedPath)) <==> parse_path(path@)
                is None,
            r matches Ok(a) ==> parse_path(path@) matches Some(p) && a == spec_attributes(
                kind_of_position(p),
            ),
            parse_path(path@) == Some(PathModel::Root) ==> r == Ok::<FileAttributes, FsError>(
                spec_attributes(EntryKind::Directory),
            ) && same_state(*old(self), *final(self)),
            parse_path(path@) matches Some(p) ==> cached_walk_outcome(
                *old(self),
                *final(self),
                0,
                name_chain(p),
                r,
            ),
    {
        proof {
            old(self).lemma_inv_facts();
        }
        let pos = match decompose_path(path) {
            Ok(p) => p,
            Err(e) => {
                return Err(e);
            },
        };
        match pos {
            PlayPath::Root => Ok(attributes_for_kind(EntryKind::Directory)),
            PlayPath::Artist(artist) => {
                let r1 = self.lookup(0, artist.as_str());
                proof {
                    self.lemma_inv_facts();
                    let pre = *old(self);
                    if pre.listings().contains_key(0) {
                        let cs = pre.listings()[0];
                        assert(cache_ok(pre.positions(), 0, cs));
                        assert(same_state(pre, *self));
                        match r1 {
                            Ok((id, a)) => {
                                assert(listing_has_child(self.listings()[0], artist@, id, a));
                                let k = choose|k: int|
                                    0 <= k < cs.len() && cs[k].name == artist@ && cs[k].id == id
                                        && a == spec_attributes(cs[k].kind);
                                lemma_listing_child_unique(cs, artist@, k);
                                assert(!listing_lacks_name(cs, artist@));
                                assert(a == spec_attributes(listing_child_entry(cs, artist@).kind));
                            },
                            Err(e) => {
                                assert(e == FsError::NotFound);
                                assert(listing_lacks_name(cs, artist@));
                            },
                        }
                    }
                }
                match r1 {
                    Ok((_, attrs)) => Ok(attrs),
                    Err(e) => Err(e),
                }
            },
            PlayPath::Album { artist, album } => {
                let ghost chain = seq![artist@, album@];
                let r1 = self.lookup(0, artist.as_str());
                proof {
                    let pre = *old(self);
                    if pre.listings().contains_key(0) {
                        let cs = pre.listings()[0];
                        assert(cache_ok(pre.positions(), 0, cs));
                        assert(same_state(pre, *self));
                        match r1 {
                            Ok((id, a)) => {
                                assert(listing_has_child(self.listings()[0], artist@, id, a));
                                let k = choose|k: int|
                                    0 <= k < cs.len() && cs[k].name == artist@ && cs[k].id == id
                                        && a == spec_attributes(cs[k].kind);
                                lemma_listing_child_unique(cs, artist@, k);
                                assert(!listing_lacks_name(cs, artist@));
                                assert(listing_child_entry(cs, artist@).id == id);
                            },
                            Err(e) => {
                                assert(e == FsError::NotFound);
                                assert(listing_lacks_name(cs, artist@));
                            },
                        }
                    }
                }
                let aid = match r1 {
                    Ok((id, _)) => id,
                    Err(e) => {
                        return Err(e);
                    },
                };
                let ghost mid = *self;
                proof {
                    mid.lemma_inv_facts();
                }
                let r2 = self.lookup(aid, album.as_str());
                proof {
                    lemma_evolves_trans(*old(self), mid, *self);
                    self.lemma_inv_facts();
                    let pre = *old(self);
                    if pre.listings().contains_key(0) {
                        let cs = pre.listings()[0];
                        let ca = listing_child_entry(cs, artist@);
                        assert(ca.id == aid);
                        assert(chain.drop_first() =~~= seq![album@]);
                        if pre.listings().contains_key(aid) {
                            let cs1 = pre.listings()[aid];
                            assert(cache_ok(pre.positions(), aid, cs1));
                            assert(mid.listings()[aid] == cs1);
                            assert(same_state(mid, *self));
                            match r2 {
                                Ok((id2, a2)) => {
                                    assert(listing_has_child(
                                        self.listings()[aid],
                                        album@,
                                        id2,
                                        a2,
                                    ));
                                    let k2 = choose|k: int|
                                        0 <= k < cs1.len() && cs1[k].name == album@ && cs1[k].id
                                            == id2 && a2 == spec_attributes(cs1[k].kind);
                                    lemma_listing_child_unique(cs1, album@, k2);
                                    assert(!listing_lacks_name(cs1, album@));
                                    assert(a2 == spec_attributes(
                                        listing_child_entry(cs1, album@).kind,
                                    ));
                                },
                                Err(e2) => {
                                    assert(e2 == FsError::NotFound);
                                    assert(listing_lacks_name(cs1, album@));
                                },
                            }
                            assert(same_state(pre, *self));
                        }
                    }
                }
                match r2 {
                    Ok((_, attrs)) => {
                        let ghost rv = Ok::<FileAttributes, FsError>(attrs);
                        proof {
                            let pre = *old(self);
                            if pre.listings().contains_key(0) && !listing_lacks_name(
                                pre.listings()[0],
                                artist@,
                            ) {
                                assert(cached_walk_outcome(
                                    pre,
                                    *self,
                                    listing_child_entry(pre.listings()[0], artist@).id,
                                    chain.drop_first(),
                                    rv,
                                ));
                            }
                            assert(cached_walk_outcome(pre, *self, 0, chain, rv));
                        }
                        Ok(attrs)
                    },
                    Err(e) => {
                        let ghost rv = Err::<FileAttributes, FsError>(e);
                        proof {
                            let pre = *old(self);
                            if pre.listings().contains_key(0) && !listing_lacks_name(
                                pre.listings()[0],
                                artist@,
                            ) {
                                assert(cached_walk_outcome(
                                    pre,
                                    *self,
                                    listing_child_entry(pre.listings()[0], artist@).id,
                                    chain.drop_first(),
                                    rv,
                                ));
                            }
                            assert(cached_walk_outcome(pre, *self, 0, chain, rv));
                        }
                        Err(e)
                    },
                }
            },
            PlayPath::Song { artist, album, song } => {
                let ghost chain = seq![artist@, album@, song@];
                let ghost tail1 = chain.drop_first();
                let ghost tail2 = tail1.drop_first();
                proof {
                    assert(tail1 =~~= seq![album@, song@]);
                    assert(tail2 =~~= seq![song@]);
                }
                let r1 = self.lookup(0, artist.as_str());
                proof {
                    let pre = *old(self);
                    if pre.listings().contains_key(0) {
                        let cs = pre.listings()[0];
                        assert(cache_ok(pre.positions(), 0, cs));
                        assert(same_state(pre, *self));
                        match r1 {
                            Ok((id, a)) => {
                                assert(listing_has_child(self.listings()[0], artist@, id, a));
                                let k = choose|k: int|
                                    0 <= k < cs.len() && cs[k].name == artist@ && cs[k].id == id
                                        && a == spec_attributes(cs[k].kind);
                                lemma_listing_child_unique(cs, artist@, k);
                                assert(!listing_lacks_name(cs, artist@));
                                assert(listing_child_entry(cs, artist@).id == id);
                            },
                            Err(e) => {
                                assert(e == FsError::NotFound);
                                assert(listing_lacks_name(cs, artist@));
                            },
                        }
                    }
                }
                let aid = match r1 {
                    Ok((id, _)) => id,
                    Err(e) => {
                        return Err(e);
                    },
                };
                let ghost mid1 = *self;
                proof {
                    mid1.lemma_inv_facts();
                }
                let r2 = self.lookup(aid, album.as_str());
                proof {
                    lemma_evolves_trans(*old(self), mid1, *self);
                    let pre = *old(self);
                    if pre.listings().contains_key(0) {
                        let cs = pre.listings()[0];
                        let ca = listing_child_entry(cs, artist@);
                        assert(ca.id == aid);
                        if pre.listings().contains_key(aid) {
                            let cs1 = pre.listings()[aid];
                            assert(cache_ok(pre.positions(), aid, cs1));
                            assert(mid1.listings()[aid] == cs1);
                            assert(same_state(mid1, *self));
                            match r2 {
                                Ok((id2, a2)) => {
                                    assert(listing_has_child(
                                        self.listings()[aid],
                                        album@,
                                        id2,
                                        a2,
                                    ));
                                    let k2 = choose|k: int|
                                        0 <= k < cs1.len() && cs1[k].name == album@ && cs1[k].id
                                            == id2 && a2 == spec_attributes(cs1[k].kind);
                                    lemma_listing_child_unique(cs1, album@, k2);
                                    assert(!listing_lacks_name(cs1, album@));
                                    assert(listing_child_entry(cs1, album@).id == id2);
                                },
                                Err(e2) => {
                                    assert(e2 == FsError::NotFound);
                                    assert(listing_lacks_name(cs1, album@));
                                },
                            }
                            assert(same_state(pre, *self));
                        }
                    }
                }
                let bid = match r2 {
                    Ok((id, _)) => id,
                    Err(e) => {
                        let ghost rv = Err::<FileAttributes, FsError>(e);
                        proof {
                            let pre = *old(self);
                            if pre.listings().contains_key(0) && !listing_lacks_name(
                                pre.listings()[0],
                                artist@,
                            ) {
                                assert(cached_walk_outcome(
                                    pre,
                                    *self,
                                    listing_child_entry(pre.listings()[0], artist@).id,
                                    tail1,
                                    rv,
                                ));
                            }
                            assert(cached_walk_outcome(pre, *self, 0, chain, rv));
                        }
                        return Err(e);
                    },
                };
                let ghost mid2 = *self;
                proof {
                    mid2.lemma_inv_facts();
                }
                let r3 = self.lookup(bid, song.as_str());
                proof {
                    lemma_evolves_trans(*old(self), mid2, *self);
                    self.lemma_inv_facts();
                    let pre = *old(self);
                    if pre.listings().contains_key(0) {
                        let cs = pre.listings()[0];
                        if !listing_lacks_name(cs, artist@) && pre.listings().contains_key(aid) {
                            let cs1 = pre.listings()[aid];
                            let cb = listing_child_entry(cs1, album@);
                            assert(cb.id == bid);
                            if pre.listings().contains_key(bid) {
                                let cs2 = pre.listings()[bid];
                                assert(cache_ok(pre.positions(), bid, cs2));
                                assert(mid2.listings()[bid] == cs2);
                                assert(same_state(mid2, *self));
                                match r3 {
                                    Ok((id3, a3)) => {
                                        assert(listing_has_child(
                                            self.listings()[bid],
                                            song@,
                                            id3,
                                            a3,
                                        ));
                                        let k3 = choose|k: int|
                                            0 <= k < cs2.len() && cs2[k].name == song@ && cs2[k].id
                                                == id3 && a3 == spec_attributes(cs2[k].kind);
                                        lemma_listing_child_unique(cs2, song@, k3);
                                        assert(!listing_lacks_name(cs2, song@));
                                        assert(a3 == spec_attributes(
                                            listing_child_entry(cs2, song@).kind,
                                        ));
                                    },
                                    Err(e3) => {
                                        assert(e3 == FsError::NotFound);
                                        assert(listing_lacks_name(cs2, song@));
                                    },
                                }
                                assert(same_state(pre, *self));
                            }
                        }
                    }
                }
                match r3 {
                    Ok((_, attrs)) => {
                        let ghost rv = Ok::<FileAttributes, FsError>(attrs);
                        proof {
                            let pre = *old(self);
                            if pre.listings().contains_key(0) && !listing_lacks_name(
                                pre.listings()[0],
                                artist@,
                            ) {
                                let ca = listing_child_entry(pre.listings()[0], artist@);
                                if pre.listings().contains_key(ca.id) && !listing_lacks_name(
                                    pre.listings()[ca.id],
                                    album@,
                                ) {
                                    assert(cached_walk_outcome(
                                        pre,
                                        *self,
                                        listing_child_entry(pre.listings()[ca.id], album@).id,
                                        tail2,
                                        rv,
                                    ));
                                }
                                assert(cached_walk_outcome(pre, *self, ca.id, tail1, rv));
                            }
                            assert(cached_walk_outcome(pre, *self, 0, chain, rv));
                        }
                        Ok(attrs)
                    },
                    Err(e) => {
                        let ghost rv = Err::<FileAttributes, FsError>(e);
                        proof {
                            let pre = *old(self);
                            if pre.listings().contains_key(0) && !listing_lacks_name(
                                pre.listings()[0],
                                artist@,
                            ) {
                                let ca = listing_child_entry(pre.listings()[0], artist@);
                                if pre.listings().contains_key(ca.id) && !listing_lacks_name(
                                    pre.listings()[ca.id],
                                    album@,
                                ) {
                                    assert(cached_walk_outcome(
                                        pre,
                                        *self,
                                        listing_child_entry(pre.listings()[ca.id], album@).id,
                                        tail2,
                                        rv,
                                    ));
                                }
                                assert(cached_walk_outcome(pre, *self, ca.id, tail1, rv));
                            }
                            assert(cached_walk_outcome(pre, *self, 0, chain, rv));
                        }
                        Err(e)
                    },
                }
            },
        }
    }

    /// Answers an `opendir` request: validates the path and, for an artist
    /// or album, its existence against the store, and hands back the
    /// position's identifier as the directory handle. A malformed path
    /// yields `MalformedPath`; a song, or a directory the store does not
    /// know, yields `NotFound`.
    /// Decides a directory-open request from the store's existence answer:
    /// a position the store confirms is registered in the table and handed
    /// back as its identifier; one it denies is `NotFound`, with nothing
    /// recorded.
    fn register_open(table: &mut IdentifierTable, pos: &PlayPath, present: bool) -> (r: Result<
        u64,
        FsError,
    >)
        requires
            old(table).inv(),
        ensures
            final(table).inv(),
            old(table)@.len() <= final(table)@.len(),
            final(table)@.take(old(table)@.len() as int) == old(table)@,
            present ==> (r matches Ok(h) && h < final(table)@.len() && final(table)@[h as int]
                == pos@),
            !present ==> r == Err::<u64, FsError>(FsError::NotFound) && final(table)@ == old(
                table,
            )@,
    {
        if present {
            Ok(table.assign(pos))
        } else {
            proof {
                assert(old(table)@.take(old(table)@.len() as int) =~= old(table)@);
            }
            Err(FsError::NotFound)
        }
    }

    /// Answers an `opendir` request: validates the path and, for an artist
    /// or album, its existence against the store, and hands back the
    /// position's identifier as the directory handle. A malformed path
    /// yields `MalformedPath`; a song, or a directory the store does not
    /// know, yields `NotFound`; `register_open` carries the proof that the
    /// store's yes/no decides between the two non-failing outcomes.
    pub fn opendir(&mut self, path: &str) -> (r: Result<u64, FsError>)
        requires
            old(self).inv(),
        ensures
            final(self).inv(),
            evolves(*old(self), *final(self)),
            final(self).listings() == old(self).listings(),
            (r == Err::<u64, FsError>(FsError::MalformedPath)) <==> parse_path(path@) is None,
            parse_path(path@) == Some(PathModel::Root) ==> r == Ok::<u64, FsError>(0)
                && same_state(*old(self), *final(self)),
            parse_path(path@) matches Some(p) && depth_of(p) == 3 ==> r == Err::<u64, FsError>(
                FsError::NotFound,
            ) && same_state(*old(self), *final(self)),
            r matches Ok(h) ==> parse_path(path@) matches Some(p) && depth_of(p) < 3
                && h < final(self).positions().len() && final(self).positions()[h as int] == p,
            parse_path(path@) matches Some(p) && depth_of(p) < 3 && (r == Err::<u64, FsError>(
                FsError::NotFound,
            ) || r == Err::<u64, FsError>(FsError::BackingStore)) ==> same_state(
                *old(self),
                *final(self),
            ),
    {
        let pos = match decompose_path(path) {
            Ok(p) => p,
            Err(e) => {
                return Err(e);
            },
        };
        match &pos {
            PlayPath::Root => {
                proof {
                    self.table.lemma_inv_facts();
                }
                Ok(0)
            },
            PlayPath::Song { .. } => Err(FsError::NotFound),
            _ => {
                let present = match self.gateway.has_position(&pos) {
                    Ok(b) => b,
                    Err(e) => {
                        return Err(e);
                    },
                };
                let ghost t0 = self.table@;
                let r = Self::register_open(&mut self.table, &pos, present);
                proof {
                    assert forall|d: u64|
                        self.listings().contains_key(d) implies cache_ok(
                        self.positions(),
                        d,
                        #[trigger] self.listings()[d],
                    ) by {
                        assert(old(self).listings().contains_key(d));
                        assert(cache_ok(old(self).positions(), d, old(self).listings()[d]));
                        assert(t0 == old(self).positions());
                        lemma_cache_ok_extend(t0, self.table@, d, self.cache@[d]);
                    }
                }
                r
            },
        }
    }
}

} // verus!
