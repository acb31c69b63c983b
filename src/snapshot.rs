use vstd::prelude::*;

use crate::error::FsError;
use crate::keyed::unique_keys;
use crate::model::FsModel;
use crate::path::{lemma_name_lt_transitive, name_less, same_path, sorted_names, Name, Path};
use crate::store::Vfs;

verus! {

/// The bytes that bincode writes for the four tables of a store.
pub uninterp spec fn snapshot_bytes(
    dir_paths: Seq<Path>,
    dir_children: Seq<Seq<Name>>,
    file_paths: Seq<Path>,
    file_data: Seq<Seq<u8>>,
) -> Seq<u8>;

/// Relies on `bincode::serialize`: it encodes the four tables, and the bytes
/// depend on their contents alone. With no size limit, and with every
/// sequence of known length, it does not fail; each table starts with its
/// length in 8 bytes.
#[verifier::external_body]
pub(crate) fn encode_tables(
    dir_paths: &Vec<Vec<String>>,
    dir_children: &Vec<Vec<String>>,
    file_paths: &Vec<Vec<String>>,
    file_data: &Vec<Vec<u8>>,
) -> (r: Option<Vec<u8>>)
    ensures
        r is Some,
        r matches Some(b) ==> b@.len() >= 32,
        r matches Some(b) ==> b@ == snapshot_bytes(
            dir_paths.deep_view(),
            dir_children.deep_view(),
            file_paths.deep_view(),
            file_data.deep_view(),
        ),
{
    bincode::serialize(&(dir_paths, dir_children, file_paths, file_data)).ok()
}

/// Relies on `bincode::deserialize`: bytes that `bincode::serialize` wrote
/// for four tables of these types are read back as the same tables.
#[verifier::external_body]
fn decode_tables(bytes: &[u8]) -> (r: Option<
    (Vec<Vec<String>>, Vec<Vec<String>>, Vec<Vec<String>>, Vec<Vec<u8>>),
>)
    ensures
        r matches Some(t) ==> forall|dp: Seq<Path>, dc: Seq<Seq<Name>>, fp: Seq<Path>, fd: Seq<Seq<u8>>|
            bytes@ == #[trigger] snapshot_bytes(dp, dc, fp, fd) ==> t.0.deep_view() == dp
                && t.1.deep_view() == dc && t.2.deep_view() == fp && t.3.deep_view() == fd,
        r is None ==> forall|dp: Seq<Path>, dc: Seq<Seq<Name>>, fp: Seq<Path>, fd: Seq<Seq<u8>>|
            bytes@ != #[trigger] snapshot_bytes(dp, dc, fp, fd),
{
    bincode::deserialize(bytes).ok()
}

/// Tables that make a well-formed store: one entry per key, each list of
/// child names sorted.
pub open spec fn tables_ok(
    dir_paths: Seq<Path>,
    dir_children: Seq<Seq<Name>>,
    file_paths: Seq<Path>,
    file_data: Seq<Seq<u8>>,
) -> bool {
    &&& dir_paths.len() == dir_children.len()
    &&& file_paths.len() == file_data.len()
    &&& unique_keys(dir_paths)
    &&& unique_keys(file_paths)
    &&& forall|i: int| 0 <= i < dir_children.len() ==> sorted_names(#[trigger] dir_children[i])
}

impl Vfs {
    /// `bytes` is the snapshot of this store.
    pub open spec fn snapshot_is(&self, bytes: Seq<u8>) -> bool {
        bytes == snapshot_bytes(
            self.dir_paths_view(),
            self.dir_children_view(),
            self.file_paths_view(),
            self.file_data_view(),
        )
    }

    /// This store holds the tables that `bytes` encodes, whatever tables those are.
    pub open spec fn restored_from(&self, bytes: Seq<u8>) -> bool {
        forall|dp: Seq<Path>, dc: Seq<Seq<Name>>, fp: Seq<Path>, fd: Seq<Seq<u8>>|
            bytes == #[trigger] snapshot_bytes(dp, dc, fp, fd) ==> self.dir_paths_view() == dp
                && self.dir_children_view() == dc && self.file_paths_view() == fp
                && self.file_data_view() == fd
    }
}

fn keys_unique(keys: &Vec<Vec<String>>) -> (r: bool)
    ensures
        r == unique_keys(keys.deep_view()),
{
    let ghost k = keys.deep_view();
    let mut i: usize = 0;
    while i < keys.len()
        invariant
            i <= keys@.len(),
            k == keys.deep_view(),
            forall|a: int, b: int| 0 <= a < i && 0 <= b < k.len() && #[trigger] k[a] == #[trigger] k[b] ==> a == b,
        decreases keys.len() - i,
    {
        let mut j: usize = 0;
        while j < keys.len()
            invariant
                i < keys@.len(),
                j <= keys@.len(),
                k == keys.deep_view(),
                forall|a: int, b: int| 0 <= a < i && 0 <= b < k.len() && #[trigger] k[a] == #[trigger] k[b] ==> a == b,
                forall|b: int| 0 <= b < j && #[trigger] k[b] == k[i as int] ==> b == i,
            decreases keys.len() - j,
        {
            if j != i && same_path(&keys[i], &keys[j]) {
                assert(k[i as int] == k[j as int]);
                return false;
            }
            j = j + 1;
        }
        i = i + 1;
    }
    true
}

fn names_sorted(names: &Vec<String>) -> (r: bool)
    ensures
        r == sorted_names(names.deep_view()),
{
    let ghost s = names.deep_view();
    if names.len() == 0 {
        return true;
    }
    let mut i: usize = 1;
    while i < names.len()
        invariant
            1 <= i <= names@.len(),
            s == names.deep_view(),
            sorted_names(s.take(i as int)),
        decreases names.len() - i,
    {
        if !name_less(&names[i - 1], &names[i]) {
            assert(!sorted_names(s)) by {
                assert(!crate::path::name_lt(s[i - 1], s[i as int]));
            }
            return false;
        }
        assert forall|a: int, b: int| 0 <= a < b < i + 1 implies crate::path::name_lt(
            #[trigger] s.take(i + 1)[a],
            #[trigger] s.take(i + 1)[b],
        ) by {
            if b == i && a < i - 1 {
                assert(crate::path::name_lt(s.take(i as int)[a], s.take(i as int)[i - 1]));
                lemma_name_lt_transitive(s[a], s[i - 1], s[b]);
            } else if b < i {
                assert(crate::path::name_lt(s.take(i as int)[a], s.take(i as int)[b]));
            }
        }
        i = i + 1;
    }
    assert(s.take(i as int) =~= s);
    true
}

fn children_sorted(dc: &Vec<Vec<String>>) -> (r: bool)
    ensures
        r == forall|i: int| 0 <= i < dc.deep_view().len() ==> sorted_names(#[trigger] dc.deep_view()[i]),
{
    let mut i: usize = 0;
    while i < dc.len()
        invariant
            i <= dc@.len(),
            forall|j: int| 0 <= j < i ==> sorted_names(#[trigger] dc.deep_view()[j]),
        decreases dc.len() - i,
    {
        if !names_sorted(&dc[i]) {
            assert(!sorted_names(dc.deep_view()[i as int]));
            return false;
        }
        i = i + 1;
    }
    true
}

/// Serializes the whole store.
pub fn fs_dump_state(fs: &Vfs) -> (r: Result<Vec<u8>, FsError>)
    requires
        fs.wf(),
    ensures
        r matches Ok(b) && fs.snapshot_is(b@) && b@.len() > 0,
{
    Ok(fs.encode())
}

/// Makes a store from a snapshot; no bytes, or none at all, give a store that
/// holds the root alone. Fails `CorruptState` on bytes that are not exactly
/// the snapshot of a well-formed store that is a tree.
pub fn fs_init_from_bytes(bytes: Option<Vec<u8>>) -> (r: Result<Vfs, FsError>)
    ensures
        r matches Ok(v) ==> v.valid(),
        r matches Err(e) ==> e == FsError::CorruptState,
        match bytes {
            None => r matches Ok(v) && v@ == FsModel::fresh(),
            Some(b) => if b@.len() == 0 {
                r matches Ok(v) && v@ == FsModel::fresh()
            } else {
                &&& r matches Ok(v) ==> v.restored_from(b@) && v.snapshot_is(b@)
                &&& forall|src: Vfs|
                    src.valid() && #[trigger] src.snapshot_is(b@) ==> (r matches Ok(v) && v@ == src@)
            },
        },
{
    let b = match bytes {
        None => return Ok(Vfs::new()),
        Some(b) => b,
    };
    if b.len() == 0 {
        return Ok(Vfs::new());
    }
    let (dp, dc, fp, fd) = match decode_tables(b.as_slice()) {
        Some(t) => t,
        None => {
            assert forall|src: Vfs| src.valid() && #[trigger] src.snapshot_is(b@) implies false by {
                src.lemma_wf_tables();
            }
            return Err(FsError::CorruptState);
        },
    };
    assert(dp.deep_view().len() == dp@.len());
    assert(dc.deep_view().len() == dc@.len());
    assert(fp.deep_view().len() == fp@.len());
    assert(fd.deep_view().len() == fd@.len());
    if dp.len() != dc.len() || fp.len() != fd.len() || !keys_unique(&dp) || !keys_unique(&fp)
        || !children_sorted(&dc) {
        assert forall|src: Vfs| src.valid() && #[trigger] src.snapshot_is(b@) implies false by {
            src.lemma_wf_tables();
        }
        return Err(FsError::CorruptState);
    }
    let v = Vfs::from_tables(dp, dc, fp, fd);
    if !v.is_tree() {
        assert forall|src: Vfs| src.valid() && #[trigger] src.snapshot_is(b@) implies false by {
            src.lemma_wf_tables();
            v.lemma_same_tables(&src);
        }
        return Err(FsError::CorruptState);
    }
    let again = v.encode();
    if !same_bytes(&again, &b) {
        assert forall|src: Vfs| src.valid() && #[trigger] src.snapshot_is(b@) implies false by {
            src.lemma_wf_tables();
        }
        return Err(FsError::CorruptState);
    }
    assert forall|src: Vfs| src.valid() && #[trigger] src.snapshot_is(b@) implies v@ == src@ by {
        v.lemma_same_tables(&src);
    }
    Ok(v)
}

fn same_bytes(a: &Vec<u8>, b: &Vec<u8>) -> (r: bool)
    ensures
        r == (a@ == b@),
{
    if a.len() != b.len() {
        return false;
    }
    let mut i: usize = 0;
    while i < a.len()
        invariant
            i <= a@.len() == b@.len(),
            forall|j: int| 0 <= j < i ==> a@[j] == b@[j],
        decreases a.len() - i,
    {
        if a[i] != b[i] {
            return false;
        }
        i = i + 1;
    }
    assert(a@ =~= b@);
    true
}

} // verus!
