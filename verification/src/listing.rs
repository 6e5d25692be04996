//! Directory listings: canonicalization of store-returned names and
//! materialization of ordered, deduplicated child-entry lists.

use vstd::prelude::*;
use vstd::string::*;

use crate::attr::EntryKind;
use crate::path::normal_component;
use crate::path::parse_path;

verus! {

/// One child of a hierarchy position, as listings present it.
#[derive(Debug)]
pub struct DirectoryEntry {
    pub name: String,
    pub kind: EntryKind,
}

/// Mathematical model of a listing entry.
pub struct EntryModel {
    pub name: Seq<char>,
    pub kind: EntryKind,
}

impl View for DirectoryEntry {
    type V = EntryModel;

    open spec fn view(&self) -> EntryModel {
        EntryModel { name: self.name@, kind: self.kind }
    }
}

impl Clone for DirectoryEntry {
    fn clone(&self) -> (r: Self)
        ensures
            r@ == self@,
    {
        DirectoryEntry { name: self.name.clone(), kind: self.kind }
    }
}

/// The canonical form of a store-returned name: every path separator
/// replaced by an underscore, since a POSIX path component cannot contain
/// the separator.
pub open spec fn canon_seq(s: Seq<char>) -> Seq<char> {
    s.map_values(|c: char| if c == '/' { '_' } else { c })
}

/// All the rows of a query result, canonicalized, in store order.
pub open spec fn canon_all(raw: Seq<Seq<char>>) -> Seq<Seq<char>> {
    raw.map_values(|n: Seq<char>| canon_seq(n))
}

/// The names kept by first-seen deduplication: one occurrence of each name,
/// in the order each was first seen.
pub open spec fn dedup_first(s: Seq<Seq<char>>) -> Seq<Seq<char>>
    decreases s.len(),
{
    if s.len() == 0 {
        Seq::<Seq<char>>::empty()
    } else {
        let d = dedup_first(s.drop_last());
        if d.contains(s.last()) {
            d
        } else {
            d.push(s.last())
        }
    }
}

/// The listing a directory position presents, given the raw store rows:
/// canonicalized names, first-seen-deduplicated, in store order.
pub open spec fn listing_names(raw: Seq<Seq<char>>) -> Seq<Seq<char>> {
    dedup_first(canon_all(raw))
}

/// True when no two entries of `s` are the same sequence.
pub open spec fn distinct_seqs(s: Seq<Seq<char>>) -> bool {
    forall|i: int, j: int| 0 <= i < j < s.len() ==> s[i] != s[j]
}

pub proof fn lemma_dedup_first_contains(s: Seq<Seq<char>>, x: Seq<char>)
    ensures
        dedup_first(s).contains(x) <==> s.contains(x),
    decreases s.len(),
{
    if s.len() == 0 {
    } else {
        lemma_dedup_first_contains(s.drop_last(), x);
        assert(s.contains(x) <==> (s.drop_last().contains(x) || s.last() == x)) by {
            if s.contains(x) {
                let i = choose|i: int| 0 <= i < s.len() && s[i] == x;
                if i < s.len() - 1 {
                    assert(s.drop_last()[i] == x);
                }
            }
            if s.drop_last().contains(x) {
                let i = choose|i: int| 0 <= i < s.drop_last().len() && s.drop_last()[i] == x;
                assert(s[i] == x);
            }
            if s.last() == x {
                assert(s[s.len() - 1] == x);
            }
        }
        let d = dedup_first(s.drop_last());
        assert(d.push(s.last()).contains(x) <==> (d.contains(x) || s.last() == x)) by {
            if d.contains(x) {
                let i = choose|i: int| 0 <= i < d.len() && d[i] == x;
                assert(d.push(s.last())[i] == x);
            }
            assert(d.push(s.last())[d.len() as int] == s.last());
            if d.push(s.last()).contains(x) {
                let i = choose|i: int| 0 <= i < d.push(s.last()).len() && d.push(s.last())[i]
                    == x;
                if i < d.len() {
                    assert(d[i] == x);
                }
            }
        }
    }
}

pub proof fn lemma_dedup_first_distinct(s: Seq<Seq<char>>)
    ensures
        distinct_seqs(dedup_first(s)),
    decreases s.len(),
{
    if s.len() == 0 {
    } else {
        lemma_dedup_first_distinct(s.drop_last());
        let d = dedup_first(s.drop_last());
        if !d.contains(s.last()) {
            assert forall|i: int, j: int|
                0 <= i < j < d.push(s.last()).len() implies d.push(s.last())[i] != d.push(
                s.last(),
            )[j] by {
                if j == d.len() {
                    assert(d.push(s.last())[i] == d[i]);
                    assert(!d.contains(s.last()));
                    assert(d[i] != s.last());
                }
            }
        }
    }
}

/// Law: name canonicalization never lets a separator through: no canonical
/// name, hence no listing entry, contains the separator character.
pub proof fn lemma_canon_no_separator(s: Seq<char>)
    ensures
        forall|i: int| 0 <= i < canon_seq(s).len() ==> canon_seq(s)[i] != '/',
{
    assert forall|i: int| 0 <= i < canon_seq(s).len() implies canon_seq(s)[i] != '/' by {
        assert(canon_seq(s)[i] == (if s[i] == '/' {
            '_'
        } else {
            s[i]
        }));
    }
}

/// True when no character of `s` is the separator.
pub open spec fn separator_free(s: Seq<char>) -> bool {
    forall|i: int| 0 <= i < s.len() ==> s[i] != '/'
}

pub proof fn lemma_listing_names_separator_free(raw: Seq<Seq<char>>)
    ensures
        forall|k: int| 0 <= k < listing_names(raw).len() ==> separator_free(
            #[trigger] listing_names(raw)[k],
        ),
{
    assert forall|k: int| 0 <= k < listing_names(raw).len() implies separator_free(
        listing_names(raw)[k],
    ) by {
        let x = listing_names(raw)[k];
        assert(dedup_first(canon_all(raw)).contains(x));
        lemma_dedup_first_contains(canon_all(raw), x);
        let i = choose|i: int| 0 <= i < canon_all(raw).len() && canon_all(raw)[i] == x;
        assert(canon_all(raw)[i] == canon_seq(raw[i]));
        lemma_canon_no_separator(raw[i]);
    }
}

/// Law: a store-returned name, canonicalized, round-trips through path
/// resolution: the path built from any directory's path and the canonical
/// name resolves to exactly the child position it names. The canonical name
/// must still be a normal component; a store row whose canonical form is
/// empty or a dot component does not round-trip.
pub proof fn lemma_listing_roundtrip(s: Seq<char>, raw_name: Seq<char>)
    requires
        parse_path(s) is Some,
        crate::path::depth_of(parse_path(s).unwrap()) < 3,
        normal_component(canon_seq(raw_name)),
    ensures
        parse_path(crate::path::join_path(s, canon_seq(raw_name))) == Some(
            crate::path::child_model(parse_path(s).unwrap(), canon_seq(raw_name)),
        ),
{
    lemma_canon_no_separator(raw_name);
    crate::path::lemma_join_resolves(s, canon_seq(raw_name));
}

/// Relies on str::replace: with the one-character pattern "/" and the
/// one-character replacement "_", the result keeps every character except
/// that each separator becomes an underscore.
#[verifier::external_body]
fn replace_separators(s: &str) -> (r: String)
    ensures
        r@ == canon_seq(s@),
{
    s.replace("/", "_")
}

/// Canonicalizes one store-returned name for use as a path component.
pub fn canonicalize_name(s: &str) -> (r: String)
    ensures
        r@ == canon_seq(s@),
{
    replace_separators(s)
}

/// True when some entry of `v` is named `n`.
fn contains_name(v: &Vec<DirectoryEntry>, n: &String) -> (r: bool)
    ensures
        r == entry_names(v@).contains(n@),
{
    let mut i: usize = 0;
    while i < v.len()
        invariant
            i <= v@.len(),
            forall|k: int| 0 <= k < i ==> entry_names(v@)[k] != n@,
        decreases v@.len() - i,
    {
        if v[i].name == *n {
            assert(entry_names(v@)[i as int] == n@);
            return true;
        }
        i = i + 1;
    }
    false
}

/// The names of a listing, in order.
pub open spec fn entry_names(v: Seq<DirectoryEntry>) -> Seq<Seq<char>> {
    v.map_values(|e: DirectoryEntry| e.name@)
}

/// Builds the listing from the raw store rows: canonicalizes each name,
/// keeps the first row of each canonical name in store order, and tags
/// every entry with the given kind.
pub fn materialize_children(names: &Vec<String>, kind: EntryKind) -> (r: Vec<DirectoryEntry>)
    ensures
        entry_names(r@) == listing_names(names.deep_view()),
        forall|k: int| 0 <= k < r@.len() ==> r@[k].kind == kind,
{
    let mut out: Vec<DirectoryEntry> = Vec::new();
    let mut i: usize = 0;
    proof {
        assert(names.deep_view().take(0) =~= Seq::<Seq<char>>::empty());
        assert(entry_names(out@) =~= listing_names(names.deep_view().take(0)));
    }
    while i < names.len()
        invariant
            i <= names@.len(),
            names.deep_view().len() == names@.len(),
            entry_names(out@) == listing_names(names.deep_view().take(i as int)),
            forall|k: int| 0 <= k < out@.len() ==> out@[k].kind == kind,
        decreases names@.len() - i,
    {
        let c: String = canonicalize_name(names[i].as_str());
        let ghost prefix = names.deep_view().take(i as int);
        let ghost next = names.deep_view().take(i + 1);
        proof {
            assert(names.deep_view()[i as int] == names@[i as int]@);
            assert(next.drop_last() =~= prefix);
            assert(next.last() == names.deep_view()[i as int]);
            assert(canon_all(next).drop_last() =~= canon_all(prefix));
            assert(canon_all(next).last() == canon_seq(names@[i as int]@));
        }
        if !contains_name(&out, &c) {
            out.push(DirectoryEntry { name: c, kind });
            proof {
                assert(entry_names(out@) =~~= listing_names(next));
            }
        } else {
            proof {
                assert(entry_names(out@) =~~= listing_names(next));
            }
        }
        i = i + 1;
    }
    proof {
        assert(names.deep_view().take(names@.len() as int) =~= names.deep_view());
    }
    out
}

/// Law: a materialized listing has pairwise distinct names.
pub proof fn lemma_listing_distinct(raw: Seq<Seq<char>>)
    ensures
        distinct_seqs(listing_names(raw)),
{
    lemma_dedup_first_distinct(canon_all(raw));
}

} // verus!
