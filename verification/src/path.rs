//! Path resolution: parsing a POSIX path into a typed hierarchy position.

use vstd::prelude::*;
use vstd::string::*;

use crate::error::FsError;

verus! {

/// A typed position in the music hierarchy, at depth 0 to 3.
pub enum PlayPath {
    Root,
    Artist(String),
    Album { artist: String, album: String },
    Song { artist: String, album: String, song: String },
}

/// Mathematical model of a hierarchy position: names as character sequences.
pub enum PathModel {
    Root,
    Artist(Seq<char>),
    Album(Seq<char>, Seq<char>),
    Song(Seq<char>, Seq<char>, Seq<char>),
}

impl View for PlayPath {
    type V = PathModel;

    open spec fn view(&self) -> PathModel {
        match self {
            PlayPath::Root => PathModel::Root,
            PlayPath::Artist(a) => PathModel::Artist(a@),
            PlayPath::Album { artist, album } => PathModel::Album(artist@, album@),
            PlayPath::Song { artist, album, song } => PathModel::Song(
                artist@,
                album@,
                song@,
            ),
        }
    }
}

impl Clone for PlayPath {
    fn clone(&self) -> (r: Self)
        ensures
            r@ == self@,
    {
        match self {
            PlayPath::Root => PlayPath::Root,
            PlayPath::Artist(a) => PlayPath::Artist(a.clone()),
            PlayPath::Album { artist, album } => PlayPath::Album {
                artist: artist.clone(),
                album: album.clone(),
            },
            PlayPath::Song { artist, album, song } => PlayPath::Song {
                artist: artist.clone(),
                album: album.clone(),
                song: song.clone(),
            },
        }
    }
}

impl PlayPath {
    /// True exactly when the two positions are the same entry, name for name.
    pub fn same_position(&self, other: &PlayPath) -> (r: bool)
        ensures
            r == (self@ == other@),
    {
        match self {
            PlayPath::Root => match other {
                PlayPath::Root => true,
                _ => false,
            },
            PlayPath::Artist(a1) => match other {
                PlayPath::Artist(a2) => *a1 == *a2,
                _ => false,
            },
            PlayPath::Album { artist: a1, album: b1 } => match other {
                PlayPath::Album { artist: a2, album: b2 } => *a1 == *a2 && *b1 == *b2,
                _ => false,
            },
            PlayPath::Song { artist: a1, album: b1, song: s1 } => match other {
                PlayPath::Song { artist: a2, album: b2, song: s2 } => *a1 == *a2 && *b1 == *b2
                    && *s1 == *s2,
                _ => false,
            },
        }
    }
}

/// The child position of a directory position under a given entry name.
pub open spec fn child_model(p: PathModel, name: Seq<char>) -> PathModel
    recommends
        depth_of(p) < 3,
{
    match p {
        PathModel::Root => PathModel::Artist(name),
        PathModel::Artist(a) => PathModel::Album(a, name),
        PathModel::Album(a, b) => PathModel::Song(a, b, name),
        PathModel::Song(a, b, t) => PathModel::Song(a, b, t),
    }
}

/// The parent of a non-root position.
pub open spec fn parent_model(p: PathModel) -> PathModel
    recommends
        depth_of(p) > 0,
{
    match p {
        PathModel::Root => PathModel::Root,
        PathModel::Artist(_) => PathModel::Root,
        PathModel::Album(a, _) => PathModel::Artist(a),
        PathModel::Song(a, b, _) => PathModel::Album(a, b),
    }
}

/// Depth of a position: its nesting level in the tree.
pub open spec fn depth_of(p: PathModel) -> nat {
    match p {
        PathModel::Root => 0,
        PathModel::Artist(_) => 1,
        PathModel::Album(_, _) => 2,
        PathModel::Song(_, _, _) => 3,
    }
}

/// The pieces of `s` split on the separator, empty pieces kept:
/// "a/b" gives ["a", "b"], "" gives [""], "a//" gives ["a", "", ""].
pub open spec fn split_sep(s: Seq<char>) -> Seq<Seq<char>>
    decreases s.len(),
{
    if s.len() == 0 {
        seq![Seq::<char>::empty()]
    } else if s[0] == '/' {
        seq![Seq::<char>::empty()].add(split_sep(s.drop_first()))
    } else {
        let rest = split_sep(s.drop_first());
        seq![seq![s[0]].add(rest[0])].add(rest.drop_first())
    }
}

pub proof fn lemma_split_sep_len(s: Seq<char>)
    ensures
        split_sep(s).len() >= 1,
    decreases s.len(),
{
    if s.len() == 0 {
    } else {
        lemma_split_sep_len(s.drop_first());
    }
}

/// Splitting a string whose first separator stands at `j` yields the prefix
/// before `j` followed by the split of what stands after `j`.
pub proof fn lemma_split_sep_first(s: Seq<char>, j: int)
    requires
        0 <= j <= s.len(),
        forall|k: int| 0 <= k < j ==> s[k] != '/',
        j < s.len() ==> s[j] == '/',
    ensures
        j == s.len() ==> split_sep(s) == seq![s],
        j < s.len() ==> split_sep(s) == seq![s.take(j)].add(split_sep(s.skip(j + 1))),
    decreases j,
{
    if j == 0 {
        if s.len() == 0 {
            assert(s =~= Seq::<char>::empty());
            assert(split_sep(s) =~~= seq![s]);
        } else {
            assert(s[0] == '/');
            assert(s.take(0) =~= Seq::<char>::empty());
            assert(s.drop_first() =~= s.skip(1));
            assert(split_sep(s) =~~= seq![s.take(0)].add(split_sep(s.skip(1))));
        }
    } else {
        assert(s.len() > 0 && s[0] != '/');
        let t = s.drop_first();
        assert(forall|k: int| 0 <= k < j - 1 ==> t[k] == s[k + 1] && t[k] != '/');
        lemma_split_sep_first(t, j - 1);
        lemma_split_sep_len(t);
        let rest = split_sep(t);
        if j == s.len() {
            assert(rest == seq![t]);
            assert(rest[0] == t);
            assert(seq![s[0]].add(t) =~= s);
            assert(rest.drop_first() =~= Seq::<Seq<char>>::empty());
            assert(split_sep(s) =~~= seq![s]);
        } else {
            assert(rest == seq![t.take(j - 1)].add(split_sep(t.skip(j))));
            assert(rest[0] == t.take(j - 1));
            assert(seq![s[0]].add(t.take(j - 1)) =~= s.take(j));
            assert(t.skip(j) =~= s.skip(j + 1));
            assert(rest.drop_first() =~= split_sep(t.skip(j)));
            assert(split_sep(s) =~~= seq![s.take(j)].add(split_sep(s.skip(j + 1))));
        }
    }
}

/// True of a path component that names an entry: non-empty and neither of the
/// two reserved dot components.
pub open spec fn normal_component(c: Seq<char>) -> bool {
    c.len() > 0 && c != seq!['.'] && c != seq!['.', '.']
}

/// True of an absolute path: non-empty and rooted at the separator.
pub open spec fn is_abs(s: Seq<char>) -> bool {
    s.len() > 0 && s[0] == '/'
}

/// The components of an absolute path, the implicit root discarded.
pub open spec fn path_components(s: Seq<char>) -> Seq<Seq<char>>
    recommends
        is_abs(s),
{
    if s.len() == 1 {
        Seq::<Seq<char>>::empty()
    } else {
        split_sep(s.skip(1))
    }
}

/// The position an absolute path denotes, or `None` where the path is
/// relative, has a component that is empty or a dot component, or is deeper
/// than the hierarchy.
pub open spec fn parse_path(s: Seq<char>) -> Option<PathModel> {
    if !is_abs(s) {
        None
    } else {
        let cs = path_components(s);
        if !(forall|i: int| 0 <= i < cs.len() ==> normal_component(cs[i])) {
            None
        } else if cs.len() == 0 {
            Some(PathModel::Root)
        } else if cs.len() == 1 {
            Some(PathModel::Artist(cs[0]))
        } else if cs.len() == 2 {
            Some(PathModel::Album(cs[0], cs[1]))
        } else if cs.len() == 3 {
            Some(PathModel::Song(cs[0], cs[1], cs[2]))
        } else {
            None
        }
    }
}

/// Law: resolution is total on well-formed paths of depth 0 to 3, and the
/// resolved position's depth equals the path's component count; every other
/// shape resolves to no position at all.
pub proof fn lemma_resolved_depth(s: Seq<char>)
    ensures
        parse_path(s) matches Some(p) ==> depth_of(p) == path_components(s).len(),
        parse_path(s) is None <==> !(is_abs(s) && path_components(s).len() <= 3 && forall|i: int|
            0 <= i < path_components(s).len() ==> normal_component(path_components(s)[i])),
{
}

/// Splitting distributes over joining two pieces with a separator.
pub proof fn lemma_split_sep_join(a: Seq<char>, b: Seq<char>)
    ensures
        split_sep(a.add(seq!['/']).add(b)) == split_sep(a).add(split_sep(b)),
    decreases a.len(),
{
    let s = a.add(seq!['/']).add(b);
    if a.len() == 0 {
        assert(s[0] == '/');
        assert(s.drop_first() =~= b);
        assert(split_sep(s) =~~= split_sep(a).add(split_sep(b)));
    } else if a[0] == '/' {
        assert(s[0] == '/');
        assert(s.drop_first() =~= a.drop_first().add(seq!['/']).add(b));
        lemma_split_sep_join(a.drop_first(), b);
        assert(split_sep(s) =~~= split_sep(a).add(split_sep(b)));
    } else {
        assert(s[0] == a[0]);
        assert(s.len() > 0 && s[0] != '/');
        assert(s.drop_first() =~= a.drop_first().add(seq!['/']).add(b));
        lemma_split_sep_join(a.drop_first(), b);
        let ra = split_sep(a.drop_first());
        let rest = split_sep(s.drop_first());
        lemma_split_sep_len(a.drop_first());
        assert(rest == ra.add(split_sep(b)));
        assert(rest[0] == ra[0]);
        assert(rest.drop_first() =~= ra.drop_first().add(split_sep(b)));
        assert(split_sep(s) =~~= split_sep(a).add(split_sep(b)));
    }
}

/// The path of the child named `name` under the directory path `s`: the
/// separator and the name appended, except under the root, which already
/// ends in the separator.
pub open spec fn join_path(s: Seq<char>, name: Seq<char>) -> Seq<char> {
    if s.len() == 1 {
        s.add(name)
    } else {
        s.add(seq!['/']).add(name)
    }
}

/// Law: a listing entry's name round-trips through path resolution: the
/// path built from a directory's path and a separator-free normal entry
/// name resolves to exactly the child position it names, at every level of
/// the hierarchy.
pub proof fn lemma_join_resolves(s: Seq<char>, name: Seq<char>)
    requires
        parse_path(s) is Some,
        depth_of(parse_path(s).unwrap()) < 3,
        forall|i: int| 0 <= i < name.len() ==> name[i] != '/',
        normal_component(name),
    ensures
        parse_path(join_path(s, name)) == Some(child_model(parse_path(s).unwrap(), name)),
{
    let j = join_path(s, name);
    if s.len() == 1 {
        assert(s[0] == '/');
        assert(j == s.add(name));
        assert(j.len() == 1 + name.len());
        assert(j[0] == '/');
        assert(j.skip(1) =~= name);
        lemma_split_sep_first(name, name.len() as int);
        let cs = path_components(j);
        assert(cs =~~= seq![name]);
        assert(forall|i: int| 0 <= i < cs.len() ==> normal_component(cs[i]));
        assert(parse_path(s).unwrap() == PathModel::Root);
    } else {
        assert(is_abs(s));
        assert(j[0] == s[0]);
        assert(j.len() > 1);
        assert(j.skip(1) =~= s.skip(1).add(seq!['/']).add(name));
        lemma_split_sep_join(s.skip(1), name);
        lemma_split_sep_first(name, name.len() as int);
        let cs = path_components(s);
        let csj = path_components(j);
        assert(csj == cs.add(seq![name]));
        assert(forall|i: int| 0 <= i < cs.len() ==> normal_component(cs[i]));
        assert forall|i: int| 0 <= i < csj.len() implies normal_component(csj[i]) by {
            if i < cs.len() {
                assert(csj[i] == cs[i]);
            } else {
                assert(csj[i] == name);
            }
        }
        assert(csj.len() == cs.len() + 1);
    }
}

/// Index of the first separator in `s` at or after `from`, or the character
/// count where there is none.
fn find_sep(s: &str, from: usize) -> (r: usize)
    requires
        from <= s@.len(),
    ensures
        from <= r <= s@.len(),
        forall|k: int| from <= k < r ==> s@[k] != '/',
        r < s@.len() ==> s@[r as int] == '/',
{
    let n: usize = s.unicode_len();
    let mut i: usize = from;
    while i < n
        invariant
            from <= i <= n,
            n == s@.len(),
            forall|k: int| from <= k < i ==> s@[k] != '/',
        decreases n - i,
    {
        if s.get_char(i) == '/' {
            return i;
        }
        i = i + 1;
    }
    i
}

/// The pieces of `s` from character `from` on, split on the separator;
/// matches `split_sep` of the remaining characters.
fn split_from(s: &str, from: usize) -> (r: Vec<String>)
    requires
        from <= s@.len(),
    ensures
        r.deep_view() == split_sep(s@.skip(from as int)),
    decreases s@.len() - from,
{
    let n: usize = s.unicode_len();
    let j: usize = find_sep(s, from);
    let comp: String = s.substring_char(from, j).to_owned();
    proof {
        assert(comp@ =~= s@.skip(from as int).take(j - from));
        lemma_split_sep_first(s@.skip(from as int), j - from);
    }
    if j == n {
        let mut v: Vec<String> = Vec::new();
        v.push(comp);
        proof {
            assert(comp@ =~= s@.skip(from as int));
            assert(v.deep_view() =~~= split_sep(s@.skip(from as int)));
        }
        v
    } else {
        let mut rest: Vec<String> = split_from(s, j + 1);
        rest.insert(0, comp);
        proof {
            assert(s@.skip(from as int).skip(j - from + 1) =~= s@.skip(j + 1));
            assert(rest.deep_view() =~~= split_sep(s@.skip(from as int)));
        }
        rest
    }
}

/// Checks that a path component is usable as an entry name: rejects the
/// empty component and the two dot components.
pub fn component_to_string(component: &str) -> (r: Result<String, FsError>)
    ensures
        r is Ok <==> normal_component(component@),
        r matches Ok(c) ==> c@ == component@,
        r matches Err(e) ==> e == FsError::MalformedPath,
{
    let n: usize = component.unicode_len();
    if n == 0 {
        return Err(FsError::MalformedPath);
    }
    if n == 1 && component.get_char(0) == '.' {
        proof {
            assert(component@ =~= seq!['.']);
        }
        return Err(FsError::MalformedPath);
    }
    if n == 2 && component.get_char(0) == '.' && component.get_char(1) == '.' {
        proof {
            assert(component@ =~= seq!['.', '.']);
        }
        return Err(FsError::MalformedPath);
    }
    proof {
        if component@ == seq!['.'] {
            assert(component@.len() == 1 && component@[0] == '.');
        }
        if component@ == seq!['.', '.'] {
            assert(component@.len() == 2 && component@[0] == '.' && component@[1] == '.');
        }
    }
    Ok(component.to_owned())
}

/// Resolves an absolute path into its hierarchy position: 0 components give
/// `Root`, 1 `Artist`, 2 `Album`, 3 `Song`; any other count, a relative
/// path, or an empty or dot component is malformed.
pub fn decompose_path(path: &str) -> (r: Result<PlayPath, FsError>)
    ensures
        r is Ok <==> parse_path(path@) is Some,
        r matches Ok(p) ==> parse_path(path@) == Some(p@),
        r matches Err(e) ==> e == FsError::MalformedPath,
{
    let n: usize = path.unicode_len();
    if n == 0 || path.get_char(0) != '/' {
        return Err(FsError::MalformedPath);
    }
    if n == 1 {
        return Ok(PlayPath::Root);
    }
    let comps: Vec<String> = split_from(path, 1);
    proof {
        lemma_split_sep_len(path@.skip(1));
        assert(comps.deep_view() == path_components(path@));
        assert(comps.deep_view().len() == comps@.len());
    }
    let ghost cs = path_components(path@);
    if comps.len() > 3 {
        return Err(FsError::MalformedPath);
    }
    let c0: String = match component_to_string(comps[0].as_str()) {
        Ok(c) => c,
        Err(e) => {
            proof {
                assert(!normal_component(cs[0]));
            }
            return Err(e);
        },
    };
    if comps.len() == 1 {
        proof {
            assert(forall|i: int| 0 <= i < cs.len() ==> normal_component(cs[i]));
        }
        return Ok(PlayPath::Artist(c0));
    }
    let c1: String = match component_to_string(comps[1].as_str()) {
        Ok(c) => c,
        Err(e) => {
            proof {
                assert(!normal_component(cs[1]));
            }
            return Err(e);
        },
    };
    if comps.len() == 2 {
        proof {
            assert(forall|i: int| 0 <= i < cs.len() ==> normal_component(cs[i]));
        }
        return Ok(PlayPath::Album { artist: c0, album: c1 });
    }
    let c2: String = match component_to_string(comps[2].as_str()) {
        Ok(c) => c,
        Err(e) => {
            proof {
                assert(!normal_component(cs[2]));
            }
            return Err(e);
        },
    };
    proof {
        assert(forall|i: int| 0 <= i < cs.len() ==> normal_component(cs[i]));
    }
    Ok(PlayPath::Song { artist: c0, album: c1, song: c2 })
}


} // verus!

