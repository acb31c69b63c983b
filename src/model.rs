use vstd::prelude::*;

use crate::error::FsError;
use crate::path::{is_prefix_of, normalize_spec, Name, Path};

verus! {

/// The contents of a store: each directory with the set of its children's
/// names, and each file with its bytes.
pub struct FsModel {
    pub dirs: Map<Path, Set<Name>>,
    pub files: Map<Path, Seq<u8>>,
}

/// What `stat` reports of a path.
pub struct StatModel {
    pub is_dir: bool,
    pub is_file: bool,
    pub size: nat,
}

/// Adds the last segment of `p` to the children of its parent.
pub open spec fn link_name(d: Map<Path, Set<Name>>, p: Path) -> Map<Path, Set<Name>> {
    d.insert(p.drop_last(), d[p.drop_last()].insert(p.last()))
}

/// Takes the last segment of `p` out of the children of its parent, if that parent is there.
pub open spec fn unlink_name(d: Map<Path, Set<Name>>, p: Path) -> Map<Path, Set<Name>> {
    if d.contains_key(p.drop_last()) {
        d.insert(p.drop_last(), d[p.drop_last()].remove(p.last()))
    } else {
        d
    }
}

/// Where a directory move from `from` to `to` takes the path `k`.
pub open spec fn moved_path(k: Path, from: Path, to: Path) -> Path {
    if is_prefix_of(from, k) {
        to + k.skip(from.len() as int)
    } else {
        k
    }
}

/// The entries of `m` with every key at or under `from` taken to the same
/// place under `to`.
pub open spec fn relocated<V>(m: Map<Path, V>, from: Path, to: Path) -> Map<Path, V> {
    Map::new(
        |k: Path|
            (m.contains_key(k) && !is_prefix_of(from, k)) || (is_prefix_of(to, k) && m.contains_key(
                from + k.skip(to.len() as int),
            )),
        |k: Path|
            if is_prefix_of(to, k) && m.contains_key(from + k.skip(to.len() as int)) {
                m[from + k.skip(to.len() as int)]
            } else {
                m[k]
            },
    )
}

impl FsModel {
    /// The store that holds the root directory alone.
    pub open spec fn fresh() -> FsModel {
        FsModel { dirs: Map::empty().insert(Seq::empty(), Set::empty()), files: Map::empty() }
    }

    /// Some directory or file lies at `p` or under it.
    pub open spec fn occupied_under(self, p: Path) -> bool {
        exists|k: Path|
            (self.dirs.contains_key(k) || self.files.contains_key(k)) && #[trigger] is_prefix_of(p, k)
    }

    pub open spec fn mkdir(self, path: Seq<char>) -> (Result<(), FsError>, FsModel) {
        match normalize_spec(path) {
            None => (Err(FsError::InvalidPath), self),
            Some(p) => if p.len() == 0 {
                (Err(FsError::RootHasNoParent), self)
            } else if self.dirs.contains_key(p) {
                (Ok(()), self)
            } else if self.files.contains_key(p) {
                (Err(FsError::DestinationExists), self)
            } else if !self.dirs.contains_key(p.drop_last()) {
                (Err(FsError::ParentMissing), self)
            } else {
                (
                    Ok(()),
                    FsModel {
                        dirs: link_name(self.dirs.insert(p, Set::empty()), p),
                        files: self.files,
                    },
                )
            },
        }
    }

    pub open spec fn write_file(self, path: Seq<char>, data: Seq<u8>) -> (
        Result<(), FsError>,
        FsModel,
    ) {
        match normalize_spec(path) {
            None => (Err(FsError::InvalidPath), self),
            Some(p) => if p.len() == 0 {
                (Err(FsError::RootHasNoParent), self)
            } else if self.dirs.contains_key(p) {
                (Err(FsError::IsADirectory), self)
            } else if !self.dirs.contains_key(p.drop_last()) {
                (Err(FsError::ParentMissing), self)
            } else {
                (
                    Ok(()),
                    FsModel { dirs: link_name(self.dirs, p), files: self.files.insert(p, data) },
                )
            },
        }
    }

    pub open spec fn read_file(self, path: Seq<char>) -> Result<Seq<u8>, FsError> {
        match normalize_spec(path) {
            None => Err(FsError::InvalidPath),
            Some(p) => if self.files.contains_key(p) {
                Ok(self.files[p])
            } else {
                Err(FsError::NotFound)
            },
        }
    }

    pub open spec fn read_dir(self, path: Seq<char>) -> Result<Set<Name>, FsError> {
        match normalize_spec(path) {
            None => Err(FsError::InvalidPath),
            Some(p) => if self.dirs.contains_key(p) {
                Ok(self.dirs[p])
            } else {
                Err(FsError::NotFound)
            },
        }
    }

    pub open spec fn stat(self, path: Seq<char>) -> Result<StatModel, FsError> {
        match normalize_spec(path) {
            None => Err(FsError::InvalidPath),
            Some(p) => if self.dirs.contains_key(p) {
                Ok(StatModel { is_dir: true, is_file: false, size: 0 })
            } else if self.files.contains_key(p) {
                Ok(StatModel { is_dir: false, is_file: true, size: self.files[p].len() })
            } else {
                Err(FsError::NotFound)
            },
        }
    }

    pub open spec fn remove(self, path: Seq<char>) -> (Result<(), FsError>, FsModel) {
        match normalize_spec(path) {
            None => (Err(FsError::InvalidPath), self),
            Some(p) => if self.dirs.contains_key(p) {
                (Err(FsError::IsADirectory), self)
            } else if p.len() == 0 || !self.files.contains_key(p) {
                (Err(FsError::NotFound), self)
            } else {
                (Ok(()), FsModel { dirs: unlink_name(self.dirs, p), files: self.files.remove(p) })
            },
        }
    }

    pub open spec fn remove_dir(self, path: Seq<char>) -> (Result<(), FsError>, FsModel) {
        match normalize_spec(path) {
            None => (Err(FsError::InvalidPath), self),
            Some(p) => if p.len() == 0 {
                (Err(FsError::RootUndeletable), self)
            } else if self.files.contains_key(p) {
                (Err(FsError::NotADirectory), self)
            } else if !self.dirs.contains_key(p) {
                (Err(FsError::NotFound), self)
            } else if !self.dirs[p].is_empty() {
                (Err(FsError::NotEmpty), self)
            } else {
                (Ok(()), FsModel { dirs: unlink_name(self.dirs.remove(p), p), files: self.files })
            },
        }
    }

    pub open spec fn copy(self, from: Seq<char>, to: Seq<char>) -> (Result<(), FsError>, FsModel) {
        match (normalize_spec(from), normalize_spec(to)) {
            (Some(f), Some(t)) => if t.len() == 0 {
                (Err(FsError::RootHasNoParent), self)
            } else if !self.dirs.contains_key(t.drop_last()) {
                (Err(FsError::ParentMissing), self)
            } else if self.dirs.contains_key(f) {
                (Err(FsError::Unsupported), self)
            } else if !self.files.contains_key(f) {
                (Err(FsError::NotFound), self)
            } else if self.dirs.contains_key(t) {
                (Err(FsError::IsADirectory), self)
            } else {
                (
                    Ok(()),
                    FsModel {
                        dirs: link_name(self.dirs, t),
                        files: self.files.insert(t, self.files[f]),
                    },
                )
            },
            _ => (Err(FsError::InvalidPath), self),
        }
    }

    pub open spec fn rename(self, from: Seq<char>, to: Seq<char>) -> (Result<(), FsError>, FsModel) {
        match (normalize_spec(from), normalize_spec(to)) {
            (Some(f), Some(t)) => if f == t {
                (Ok(()), self)
            } else if t.len() == 0 || f.len() == 0 {
                (Err(FsError::RootHasNoParent), self)
            } else if !self.dirs.contains_key(t.drop_last()) {
                (Err(FsError::ParentMissing), self)
            } else if self.files.contains_key(f) {
                if self.dirs.contains_key(t) {
                    (Err(FsError::IsADirectory), self)
                } else {
                    (
                        Ok(()),
                        FsModel {
                            dirs: link_name(unlink_name(self.dirs, f), t),
                            files: self.files.remove(f).insert(t, self.files[f]),
                        },
                    )
                }
            } else if self.dirs.contains_key(f) {
                if self.occupied_under(t) {
                    (Err(FsError::DestinationExists), self)
                } else if is_prefix_of(f, t) {
                    (Err(FsError::Unsupported), self)
                } else {
                    (
                        Ok(()),
                        FsModel {
                            dirs: link_name(unlink_name(relocated(self.dirs, f, t), f), t),
                            files: relocated(self.files, f, t),
                        },
                    )
                }
            } else {
                (Err(FsError::NotFound), self)
            },
            _ => (Err(FsError::InvalidPath), self),
        }
    }
}


/// The store is a tree: the root is a directory; every other directory and
/// every file has a parent directory; no path is both a directory and a file;
/// and each directory's children are exactly the names of the entries
/// directly under it.
pub open spec fn tree_ok(m: FsModel) -> bool {
    &&& m.dirs.contains_key(Seq::empty())
    &&& forall|k: Path| #[trigger] m.dirs.contains_key(k) && k.len() > 0 ==> m.dirs.contains_key(k.drop_last())
    &&& forall|k: Path| #[trigger] m.files.contains_key(k) ==> k.len() > 0 && m.dirs.contains_key(k.drop_last())
    &&& forall|k: Path| !(#[trigger] m.dirs.contains_key(k) && m.files.contains_key(k))
    &&& forall|d: Path, n: Name|
        #[trigger] m.dirs.contains_key(d) ==> (#[trigger] m.dirs[d].contains(n) <==> (m.dirs.contains_key(d.push(n))
            || m.files.contains_key(d.push(n))))
}

pub proof fn lemma_path_push_facts()
    ensures
        forall|k: Path, n: Name| #[trigger] k.push(n).drop_last() == k,
        forall|p: Path| p.len() > 0 ==> #[trigger] p.drop_last().push(p.last()) == p,
{
    assert forall|k: Path, n: Name| #[trigger] k.push(n).drop_last() == k by {
        assert(k.push(n).drop_last() =~= k);
    }
    assert forall|p: Path| p.len() > 0 implies #[trigger] p.drop_last().push(p.last()) == p by {
        assert(p.drop_last().push(p.last()) =~= p);
    }
}

} // verus!
