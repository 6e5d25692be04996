//! AttributeResolver: POSIX metadata for resolved hierarchy positions.

use vstd::prelude::*;

use crate::path::PathModel;
use crate::path::PlayPath;

verus! {

/// What kind of directory entry a position presents as.
#[derive(Clone, Copy, PartialEq, Eq, Structural, Debug)]
pub enum EntryKind {
    Directory,
    RegularFile,
}

/// POSIX metadata for one entry: kind, size, permission bits and sentinel
/// timestamps. Songs carry no content, so every size is zero; the store has
/// no modification times worth propagating, so every timestamp is the fixed
/// sentinel second.
#[derive(Clone, Copy, PartialEq, Eq, Structural, Debug)]
pub struct FileAttributes {
    pub kind: EntryKind,
    pub size: u64,
    pub perm: u16,
    pub nlink: u32,
    pub uid: u32,
    pub gid: u32,
    pub atime_secs: i64,
    pub mtime_secs: i64,
    pub ctime_secs: i64,
    pub crtime_secs: i64,
}

/// The kind a position reports: the three inner levels are directories,
/// songs are regular files.
pub open spec fn kind_of_position(p: PathModel) -> EntryKind {
    match p {
        PathModel::Song(_, _, _) => EntryKind::RegularFile,
        _ => EntryKind::Directory,
    }
}

/// The permission bits an entry of the given kind reports: directories are
/// traversable and readable, regular files readable.
pub open spec fn spec_perm(kind: EntryKind) -> u16 {
    if kind == EntryKind::Directory {
        0o755
    } else {
        0o644
    }
}

/// The fixed metadata of an entry of the given kind.
pub open spec fn spec_attributes(kind: EntryKind) -> FileAttributes {
    FileAttributes {
        kind,
        size: 0,
        perm: spec_perm(kind),
        nlink: 0,
        uid: 1000,
        gid: 1000,
        atime_secs: 1,
        mtime_secs: 1,
        ctime_secs: 1,
        crtime_secs: 1,
    }
}

/// Builds the metadata reported for an entry of the given kind.
pub fn attributes_for_kind(kind: EntryKind) -> (r: FileAttributes)
    ensures
        r == spec_attributes(kind),
{
    let perm: u16 = match kind {
        EntryKind::Directory => 0o755,
        EntryKind::RegularFile => 0o644,
    };
    FileAttributes {
        kind,
        size: 0,
        perm,
        nlink: 0,
        uid: 1000,
        gid: 1000,
        atime_secs: 1,
        mtime_secs: 1,
        ctime_secs: 1,
        crtime_secs: 1,
    }
}

/// Produces the POSIX metadata for a resolved position.
pub fn attributes_of(position: &PlayPath) -> (r: FileAttributes)
    ensures
        r == spec_attributes(kind_of_position(position@)),
{
    match position {
        PlayPath::Song { .. } => attributes_for_kind(EntryKind::RegularFile),
        _ => attributes_for_kind(EntryKind::Directory),
    }
}

} // verus!
