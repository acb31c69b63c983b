use vstd::prelude::*;

use crate::error::FsError;
use crate::model::StatModel;
use crate::path::{
    copy_strings, is_prefix_of, normalize_segments, parent_and_name, path_has_prefix,
    same_path,
};
use crate::store::{copy_bytes, Vfs};

verus! {

/// What `fs_stat` reports of a path: its kind, and its size in bytes (0 for a
/// directory).
pub struct StatResult {
    pub is_dir: bool,
    pub is_file: bool,
    pub size: usize,
}

impl StatResult {
    pub open spec fn model(&self) -> StatModel {
        StatModel { is_dir: self.is_dir, is_file: self.is_file, size: self.size as nat }
    }
}

/// Creates a directory whose parent exists; does nothing where the directory
/// is already there.
pub fn fs_mkdir(fs: &mut Vfs, path: &str) -> (r: Result<(), FsError>)
    requires
        old(fs).valid(),
    ensures
        final(fs).valid(),
        (r, final(fs)@) == old(fs)@.mkdir(path@),
{
    proof {
        crate::laws::lemma_mkdir_keeps_tree(old(fs)@, path@);
    }
    let p = match normalize_segments(path) {
        Ok(p) => p,
        Err(e) => return Err(e),
    };
    assert(p.deep_view().len() == p@.len());
    if p.len() == 0 {
        return Err(FsError::RootHasNoParent);
    }
    if fs.find_dir(&p).is_some() {
        return Ok(());
    }
    if fs.find_file(&p).is_some() {
        return Err(FsError::DestinationExists);
    }
    let (parent, _name) = match parent_and_name(&p) {
        Ok(pn) => pn,
        Err(e) => return Err(e),
    };
    if fs.find_dir(&parent).is_none() {
        return Err(FsError::ParentMissing);
    }
    let created = copy_strings(&p);
    fs.add_dir(created);
    assert(p.deep_view().drop_last() != p.deep_view());
    fs.link(&p);
    Ok(())
}

/// Writes the whole content of a file whose parent directory exists,
/// creating the file or replacing what it held.
pub fn fs_write_file(fs: &mut Vfs, path: &str, data: Vec<u8>) -> (r: Result<(), FsError>)
    requires
        old(fs).valid(),
    ensures
        final(fs).valid(),
        (r, final(fs)@) == old(fs)@.write_file(path@, data@),
{
    proof {
        crate::laws::lemma_write_keeps_tree(old(fs)@, path@, data@);
    }
    let p = match normalize_segments(path) {
        Ok(p) => p,
        Err(e) => return Err(e),
    };
    assert(p.deep_view().len() == p@.len());
    if p.len() == 0 {
        return Err(FsError::RootHasNoParent);
    }
    if fs.find_dir(&p).is_some() {
        return Err(FsError::IsADirectory);
    }
    let (parent, _name) = match parent_and_name(&p) {
        Ok(pn) => pn,
        Err(e) => return Err(e),
    };
    if fs.find_dir(&parent).is_none() {
        return Err(FsError::ParentMissing);
    }
    let key = copy_strings(&p);
    fs.put_file(key, data);
    fs.link(&p);
    Ok(())
}

/// Returns a copy of the bytes of a file.
pub fn fs_read_file(fs: &Vfs, path: &str) -> (r: Result<Vec<u8>, FsError>)
    requires
        fs.wf(),
    ensures
        match fs@.read_file(path@) {
            Ok(b) => r matches Ok(v) && v@ == b,
            Err(e) => r == Err::<Vec<u8>, FsError>(e),
        },
{
    let p = match normalize_segments(path) {
        Ok(p) => p,
        Err(e) => return Err(e),
    };
    match fs.find_file(&p) {
        Some(i) => Ok(copy_bytes(&fs.file_data[i])),
        None => Err(FsError::NotFound),
    }
}

/// Returns the names of the children of a directory, in increasing order.
pub fn fs_readdir(fs: &Vfs, path: &str) -> (r: Result<Vec<String>, FsError>)
    requires
        fs.wf(),
    ensures
        match fs@.read_dir(path@) {
            Ok(names) => r matches Ok(v) && crate::path::sorted_names(v.deep_view())
                && v.deep_view().to_set() == names,
            Err(e) => r == Err::<Vec<String>, FsError>(e),
        },
{
    let p = match normalize_segments(path) {
        Ok(p) => p,
        Err(e) => return Err(e),
    };
    match fs.find_dir(&p) {
        Some(i) => {
            proof {
                fs.lemma_children_sorted(i as int);
            }
            Ok(copy_strings(&fs.dir_children[i]))
        },
        None => Err(FsError::NotFound),
    }
}

/// Tells whether a path is a directory or a file, and the size of a file.
pub fn fs_stat(fs: &Vfs, path: &str) -> (r: Result<StatResult, FsError>)
    requires
        fs.wf(),
    ensures
        match fs@.stat(path@) {
            Ok(s) => r matches Ok(v) && v.model() == s,
            Err(e) => r == Err::<StatResult, FsError>(e),
        },
{
    let p = match normalize_segments(path) {
        Ok(p) => p,
        Err(e) => return Err(e),
    };
    if fs.find_dir(&p).is_some() {
        return Ok(StatResult { is_dir: true, is_file: false, size: 0 });
    }
    match fs.find_file(&p) {
        Some(i) => Ok(StatResult { is_dir: false, is_file: true, size: fs.file_data[i].len() }),
        None => Err(FsError::NotFound),
    }
}

/// Deletes a file.
pub fn fs_rm(fs: &mut Vfs, path: &str) -> (r: Result<(), FsError>)
    requires
        old(fs).valid(),
    ensures
        final(fs).valid(),
        (r, final(fs)@) == old(fs)@.remove(path@),
{
    proof {
        crate::laws::lemma_remove_keeps_tree(old(fs)@, path@);
    }
    let p = match normalize_segments(path) {
        Ok(p) => p,
        Err(e) => return Err(e),
    };
    assert(p.deep_view().len() == p@.len());
    if fs.find_dir(&p).is_some() {
        return Err(FsError::IsADirectory);
    }
    if p.len() == 0 {
        return Err(FsError::NotFound);
    }
    match fs.find_file(&p) {
        Some(i) => {
            fs.drop_file(i);
            fs.unlink(&p);
            Ok(())
        },
        None => Err(FsError::NotFound),
    }
}

/// Deletes an empty directory other than the root.
pub fn fs_rmdir(fs: &mut Vfs, path: &str) -> (r: Result<(), FsError>)
    requires
        old(fs).valid(),
    ensures
        final(fs).valid(),
        (r, final(fs)@) == old(fs)@.remove_dir(path@),
{
    proof {
        crate::laws::lemma_remove_dir_keeps_tree(old(fs)@, path@);
    }
    let p = match normalize_segments(path) {
        Ok(p) => p,
        Err(e) => return Err(e),
    };
    assert(p.deep_view().len() == p@.len());
    if p.len() == 0 {
        return Err(FsError::RootUndeletable);
    }
    if fs.find_file(&p).is_some() {
        return Err(FsError::NotADirectory);
    }
    match fs.find_dir(&p) {
        Some(i) => {
            if fs.dir_children[i].len() > 0 {
                proof {
                    fs.lemma_children_nonempty(i as int);
                }
                return Err(FsError::NotEmpty);
            }
            proof {
                fs.lemma_children_nonempty(i as int);
            }
            fs.drop_dir(i);
            fs.unlink(&p);
            Ok(())
        },
        None => Err(FsError::NotFound),
    }
}

/// Copies a file to a new path whose parent directory exists.
pub fn fs_cp(fs: &mut Vfs, from: &str, to: &str) -> (r: Result<(), FsError>)
    requires
        old(fs).valid(),
    ensures
        final(fs).valid(),
        (r, final(fs)@) == old(fs)@.copy(from@, to@),
{
    proof {
        crate::laws::lemma_copy_keeps_tree(old(fs)@, from@, to@);
    }
    let f = match normalize_segments(from) {
        Ok(p) => p,
        Err(e) => return Err(e),
    };
    let t = match normalize_segments(to) {
        Ok(p) => p,
        Err(e) => return Err(e),
    };
    let (parent, _name) = match parent_and_name(&t) {
        Ok(pn) => pn,
        Err(e) => return Err(e),
    };
    if fs.find_dir(&parent).is_none() {
        return Err(FsError::ParentMissing);
    }
    if fs.find_dir(&f).is_some() {
        return Err(FsError::Unsupported);
    }
    let data = match fs.find_file(&f) {
        Some(i) => copy_bytes(&fs.file_data[i]),
        None => return Err(FsError::NotFound),
    };
    if fs.find_dir(&t).is_some() {
        return Err(FsError::IsADirectory);
    }
    let key = copy_strings(&t);
    fs.put_file(key, data);
    fs.link(&t);
    Ok(())
}


/// Moves a file, or a directory with everything under it, to a new path
/// whose parent directory exists.
pub fn fs_mv(fs: &mut Vfs, from: &str, to: &str) -> (r: Result<(), FsError>)
    requires
        old(fs).valid(),
    ensures
        final(fs).valid(),
        (r, final(fs)@) == old(fs)@.rename(from@, to@),
{
    proof {
        crate::laws::lemma_rename_keeps_tree(old(fs)@, from@, to@);
    }
    let f = match normalize_segments(from) {
        Ok(p) => p,
        Err(e) => return Err(e),
    };
    let t = match normalize_segments(to) {
        Ok(p) => p,
        Err(e) => return Err(e),
    };
    if same_path(&f, &t) {
        return Ok(());
    }
    assert(t.deep_view().len() == t@.len());
    assert(f.deep_view().len() == f@.len());
    if t.len() == 0 || f.len() == 0 {
        return Err(FsError::RootHasNoParent);
    }
    let (parent, _name) = match parent_and_name(&t) {
        Ok(pn) => pn,
        Err(e) => return Err(e),
    };
    if fs.find_dir(&parent).is_none() {
        return Err(FsError::ParentMissing);
    }
    match fs.find_file(&f) {
        Some(i) => {
            if fs.find_dir(&t).is_some() {
                return Err(FsError::IsADirectory);
            }
            let data = copy_bytes(&fs.file_data[i]);
            fs.drop_file(i);
            fs.unlink(&f);
            let key = copy_strings(&t);
            fs.put_file(key, data);
            fs.link(&t);
            return Ok(());
        },
        None => {},
    }
    if fs.find_dir(&f).is_none() {
        return Err(FsError::NotFound);
    }
    if fs.occupied_under(&t) {
        return Err(FsError::DestinationExists);
    }
    if path_has_prefix(&f, &t) {
        return Err(FsError::Unsupported);
    }
    let ghost tp = t.deep_view().drop_last();
    assert(!is_prefix_of(f.deep_view(), tp)) by {
        if is_prefix_of(f.deep_view(), tp) {
            assert(t.deep_view().take(f.deep_view().len() as int) =~= tp.take(f.deep_view().len() as int));
        }
    }
    fs.relocate(&f, &t);
    fs.unlink(&f);
    fs.link(&t);
    Ok(())
}

} // verus!
