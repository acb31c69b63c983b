use kernel::{
    fs_cp, fs_dump_state, fs_init_from_bytes, fs_mkdir, fs_mv, fs_read_file, fs_readdir, fs_rm,
    fs_rmdir, fs_stat, fs_write_file, normalize, FsError, Vfs,
};

fn names(v: &[&str]) -> Vec<String> {
    v.iter().map(|s| s.to_string()).collect()
}

#[test]
fn normalize_resolves_dots() {
    assert_eq!(normalize("/a/./b/../c"), Ok("/a/c".to_string()));
    assert_eq!(normalize("relative"), Err(FsError::InvalidPath));
    assert_eq!(normalize("/../.."), Ok("/".to_string()));
}

#[test]
fn normalize_edge_cases() {
    assert_eq!(normalize(""), Err(FsError::InvalidPath));
    assert_eq!(normalize("/"), Ok("/".to_string()));
    assert_eq!(normalize("//a///b/"), Ok("/a/b".to_string()));
    assert_eq!(normalize("/a/b/.."), Ok("/a".to_string()));
    assert_eq!(normalize("/..a/.b"), Ok("/..a/.b".to_string()));
    assert_eq!(normalize("/é/ü"), Ok("/é/ü".to_string()));
}

#[test]
fn mkdir_twice_one_entry() {
    let mut fs = Vfs::new();
    assert_eq!(fs_mkdir(&mut fs, "/a"), Ok(()));
    assert_eq!(fs_mkdir(&mut fs, "/a"), Ok(()));
    assert_eq!(fs_readdir(&fs, "/"), Ok(names(&["a"])));
}

#[test]
fn mkdir_errors() {
    let mut fs = Vfs::new();
    assert_eq!(fs_mkdir(&mut fs, "/x/y"), Err(FsError::ParentMissing));
    assert_eq!(fs_mkdir(&mut fs, "/"), Err(FsError::RootHasNoParent));
    assert_eq!(fs_mkdir(&mut fs, "x"), Err(FsError::InvalidPath));
    assert_eq!(fs_write_file(&mut fs, "/f", vec![1]), Ok(()));
    assert_eq!(fs_mkdir(&mut fs, "/f"), Err(FsError::DestinationExists));
}

#[test]
fn write_then_read() {
    let mut fs = Vfs::new();
    fs_mkdir(&mut fs, "/a").unwrap();
    let bytes = vec![0u8, 1, 2, 255];
    assert_eq!(fs_write_file(&mut fs, "/a/f", bytes.clone()), Ok(()));
    assert_eq!(fs_read_file(&fs, "/a/f"), Ok(bytes));
    assert_eq!(fs_write_file(&mut fs, "/a/f", vec![9]), Ok(()));
    assert_eq!(fs_read_file(&fs, "/a/./f"), Ok(vec![9]));
    assert_eq!(fs_readdir(&fs, "/a"), Ok(names(&["f"])));
}

#[test]
fn write_errors() {
    let mut fs = Vfs::new();
    assert_eq!(fs_write_file(&mut fs, "/no/f", vec![1]), Err(FsError::ParentMissing));
    fs_mkdir(&mut fs, "/d").unwrap();
    assert_eq!(fs_write_file(&mut fs, "/d", vec![1]), Err(FsError::IsADirectory));
    assert_eq!(fs_read_file(&fs, "/d"), Err(FsError::NotFound));
    assert_eq!(fs_read_file(&fs, "/missing"), Err(FsError::NotFound));
}

#[test]
fn readdir_is_sorted() {
    let mut fs = Vfs::new();
    fs_mkdir(&mut fs, "/b").unwrap();
    fs_mkdir(&mut fs, "/a").unwrap();
    assert_eq!(fs_readdir(&fs, "/"), Ok(names(&["a", "b"])));
    fs_write_file(&mut fs, "/B", vec![]).unwrap();
    fs_write_file(&mut fs, "/ab", vec![]).unwrap();
    assert_eq!(fs_readdir(&fs, "/"), Ok(names(&["B", "a", "ab", "b"])));
    assert_eq!(fs_readdir(&fs, "/B"), Err(FsError::NotFound));
}

#[test]
fn stat_reports_kind_and_size() {
    let mut fs = Vfs::new();
    fs_mkdir(&mut fs, "/d").unwrap();
    fs_write_file(&mut fs, "/d/f", vec![1, 2, 3]).unwrap();
    let s = fs_stat(&fs, "/d").unwrap();
    assert!(s.is_dir && !s.is_file && s.size == 0);
    let s = fs_stat(&fs, "/d/f").unwrap();
    assert!(!s.is_dir && s.is_file && s.size == 3);
    assert!(fs_stat(&fs, "/").unwrap().is_dir);
    assert!(matches!(fs_stat(&fs, "/nope"), Err(FsError::NotFound)));
}

#[test]
fn remove_kind_errors() {
    let mut fs = Vfs::new();
    fs_mkdir(&mut fs, "/a").unwrap();
    fs_write_file(&mut fs, "/a/f", vec![1]).unwrap();
    assert_eq!(fs_rm(&mut fs, "/a"), Err(FsError::IsADirectory));
    assert_eq!(fs_rmdir(&mut fs, "/a/f"), Err(FsError::NotADirectory));
    assert_eq!(fs_rm(&mut fs, "/a/g"), Err(FsError::NotFound));
    assert_eq!(fs_rmdir(&mut fs, "/z"), Err(FsError::NotFound));
    assert_eq!(fs_rmdir(&mut fs, "/"), Err(FsError::RootUndeletable));
    assert_eq!(fs_rm(&mut fs, "/a/f"), Ok(()));
    assert_eq!(fs_readdir(&fs, "/a"), Ok(vec![]));
    assert_eq!(fs_read_file(&fs, "/a/f"), Err(FsError::NotFound));
}

#[test]
fn rmdir_needs_empty() {
    let mut fs = Vfs::new();
    fs_mkdir(&mut fs, "/a").unwrap();
    fs_write_file(&mut fs, "/a/f", vec![1]).unwrap();
    assert_eq!(fs_rmdir(&mut fs, "/a"), Err(FsError::NotEmpty));
    fs_rm(&mut fs, "/a/f").unwrap();
    assert_eq!(fs_rmdir(&mut fs, "/a"), Ok(()));
    assert_eq!(fs_readdir(&fs, "/"), Ok(vec![]));
    assert!(matches!(fs_stat(&fs, "/a"), Err(FsError::NotFound)));
}

#[test]
fn move_directory_relocates_descendants() {
    let mut fs = Vfs::new();
    fs_mkdir(&mut fs, "/a").unwrap();
    fs_mkdir(&mut fs, "/a/b").unwrap();
    fs_write_file(&mut fs, "/a/b/f", vec![1, 2, 3]).unwrap();
    assert_eq!(fs_mv(&mut fs, "/a", "/z"), Ok(()));
    assert_eq!(fs_read_file(&fs, "/z/b/f"), Ok(vec![1, 2, 3]));
    assert!(matches!(fs_stat(&fs, "/a"), Err(FsError::NotFound)));
    assert!(matches!(fs_stat(&fs, "/a/b/f"), Err(FsError::NotFound)));
    assert_eq!(fs_readdir(&fs, "/"), Ok(names(&["z"])));
    assert_eq!(fs_readdir(&fs, "/z"), Ok(names(&["b"])));
}

#[test]
fn move_file_and_errors() {
    let mut fs = Vfs::new();
    fs_mkdir(&mut fs, "/d").unwrap();
    fs_mkdir(&mut fs, "/e").unwrap();
    fs_write_file(&mut fs, "/d/f", vec![7]).unwrap();
    assert_eq!(fs_mv(&mut fs, "/d/f", "/d/f"), Ok(()));
    assert_eq!(fs_mv(&mut fs, "/d/f", "/nope/f"), Err(FsError::ParentMissing));
    assert_eq!(fs_mv(&mut fs, "/d/f", "/e"), Err(FsError::IsADirectory));
    assert_eq!(fs_mv(&mut fs, "/d/f", "/e/g"), Ok(()));
    assert_eq!(fs_read_file(&fs, "/e/g"), Ok(vec![7]));
    assert_eq!(fs_readdir(&fs, "/d"), Ok(vec![]));
    assert_eq!(fs_readdir(&fs, "/e"), Ok(names(&["g"])));
    assert_eq!(fs_mv(&mut fs, "/d", "/e"), Err(FsError::DestinationExists));
    assert_eq!(fs_mv(&mut fs, "/e", "/e/sub"), Err(FsError::Unsupported));
    assert_eq!(fs_mv(&mut fs, "/x", "/y"), Err(FsError::NotFound));
    assert_eq!(fs_mv(&mut fs, "/", "/y"), Err(FsError::RootHasNoParent));
    assert_eq!(fs_mv(&mut fs, "rel", "/y"), Err(FsError::InvalidPath));
}

#[test]
fn copy_rules() {
    let mut fs = Vfs::new();
    fs_mkdir(&mut fs, "/a").unwrap();
    assert_eq!(fs_cp(&mut fs, "/a", "/b"), Err(FsError::Unsupported));
    fs_write_file(&mut fs, "/f", vec![1, 2]).unwrap();
    assert_eq!(fs_cp(&mut fs, "/f", "/g"), Ok(()));
    fs_write_file(&mut fs, "/f", vec![3]).unwrap();
    assert_eq!(fs_read_file(&fs, "/g"), Ok(vec![1, 2]));
    assert_eq!(fs_read_file(&fs, "/f"), Ok(vec![3]));
    assert_eq!(fs_cp(&mut fs, "/missing", "/h"), Err(FsError::NotFound));
    assert_eq!(fs_cp(&mut fs, "/f", "/none/h"), Err(FsError::ParentMissing));
    assert_eq!(fs_cp(&mut fs, "/f", "/a"), Err(FsError::IsADirectory));
    assert_eq!(fs_readdir(&fs, "/"), Ok(names(&["a", "f", "g"])));
}

#[test]
fn dump_and_init_round_trip() {
    let mut fs = Vfs::new();
    fs_mkdir(&mut fs, "/a").unwrap();
    fs_mkdir(&mut fs, "/a/b").unwrap();
    fs_write_file(&mut fs, "/a/b/f", vec![1, 2, 3]).unwrap();
    fs_write_file(&mut fs, "/top", vec![]).unwrap();
    let bytes = fs_dump_state(&fs).unwrap();
    assert!(!bytes.is_empty());
    let back = fs_init_from_bytes(Some(bytes.clone())).unwrap();
    for p in ["/", "/a", "/a/b", "/a/b/f", "/top", "/missing"] {
        assert_eq!(fs_stat(&fs, p).map(|s| (s.is_dir, s.is_file, s.size)),
            fs_stat(&back, p).map(|s| (s.is_dir, s.is_file, s.size)));
        assert_eq!(fs_readdir(&fs, p), fs_readdir(&back, p));
        assert_eq!(fs_read_file(&fs, p), fs_read_file(&back, p));
    }
    assert_eq!(fs_dump_state(&back), Ok(bytes));
}

#[test]
fn init_absent_or_empty_is_fresh() {
    let fs = fs_init_from_bytes(None).unwrap();
    assert_eq!(fs_readdir(&fs, "/"), Ok(vec![]));
    let fs = fs_init_from_bytes(Some(vec![])).unwrap();
    assert_eq!(fs_readdir(&fs, "/"), Ok(vec![]));
}

#[test]
fn init_rejects_corrupt_bytes() {
    assert!(matches!(fs_init_from_bytes(Some(vec![1, 2, 3])), Err(FsError::CorruptState)));
    let fs = Vfs::new();
    let mut bytes = fs_dump_state(&fs).unwrap();
    bytes.truncate(bytes.len() - 1);
    assert!(matches!(fs_init_from_bytes(Some(bytes)), Err(FsError::CorruptState)));
}

#[test]
fn init_rejects_malformed_tables() {
    let root: Vec<String> = vec![];
    let dup = bincode::serialize(&(
        vec![root.clone(), root.clone()],
        vec![Vec::<String>::new(), Vec::<String>::new()],
        Vec::<Vec<String>>::new(),
        Vec::<Vec<u8>>::new(),
    ))
    .unwrap();
    assert!(matches!(fs_init_from_bytes(Some(dup)), Err(FsError::CorruptState)));
    let unsorted = bincode::serialize(&(
        vec![root.clone()],
        vec![names(&["b", "a"])],
        Vec::<Vec<String>>::new(),
        Vec::<Vec<u8>>::new(),
    ))
    .unwrap();
    assert!(matches!(fs_init_from_bytes(Some(unsorted)), Err(FsError::CorruptState)));
    let uneven = bincode::serialize(&(
        vec![root.clone()],
        Vec::<Vec<String>>::new(),
        Vec::<Vec<String>>::new(),
        Vec::<Vec<u8>>::new(),
    ))
    .unwrap();
    assert!(matches!(fs_init_from_bytes(Some(uneven)), Err(FsError::CorruptState)));
}

#[test]
fn remove_root_is_a_directory() {
    let mut fs = Vfs::new();
    assert_eq!(fs_rm(&mut fs, "/"), Err(FsError::IsADirectory));
    assert_eq!(fs_readdir(&fs, "/"), Ok(vec![]));
}

#[test]
fn copy_onto_itself() {
    let mut fs = Vfs::new();
    fs_mkdir(&mut fs, "/d").unwrap();
    fs_write_file(&mut fs, "/f", vec![5]).unwrap();
    assert_eq!(fs_cp(&mut fs, "/d", "/d"), Err(FsError::Unsupported));
    assert_eq!(fs_cp(&mut fs, "/m", "/m"), Err(FsError::NotFound));
    assert_eq!(fs_cp(&mut fs, "/f", "/./f"), Ok(()));
    assert_eq!(fs_read_file(&fs, "/f"), Ok(vec![5]));
    assert_eq!(fs_readdir(&fs, "/"), Ok(names(&["d", "f"])));
}

#[test]
fn dump_is_stable() {
    let mut fs = Vfs::new();
    fs_mkdir(&mut fs, "/a").unwrap();
    fs_write_file(&mut fs, "/a/x", vec![4, 2]).unwrap();
    let first = fs_dump_state(&fs).unwrap();
    assert!(first.len() >= 32);
    assert_eq!(fs_dump_state(&fs), Ok(first.clone()));
    let back = fs_init_from_bytes(Some(first.clone())).unwrap();
    assert_eq!(fs_dump_state(&back), Ok(first));
}

#[test]
fn init_rejects_trailing_bytes() {
    let fs = Vfs::new();
    let mut bytes = fs_dump_state(&fs).unwrap();
    bytes.push(0);
    assert!(matches!(fs_init_from_bytes(Some(bytes)), Err(FsError::CorruptState)));
}

#[test]
fn init_rejects_tables_that_are_no_tree() {
    let root: Vec<String> = vec![];
    let no_root = bincode::serialize(&(
        vec![names(&["a"])],
        vec![Vec::<String>::new()],
        Vec::<Vec<String>>::new(),
        Vec::<Vec<u8>>::new(),
    ))
    .unwrap();
    assert!(matches!(fs_init_from_bytes(Some(no_root)), Err(FsError::CorruptState)));
    let unlisted = bincode::serialize(&(
        vec![root.clone(), names(&["a"])],
        vec![Vec::<String>::new(), Vec::<String>::new()],
        Vec::<Vec<String>>::new(),
        Vec::<Vec<u8>>::new(),
    ))
    .unwrap();
    assert!(matches!(fs_init_from_bytes(Some(unlisted)), Err(FsError::CorruptState)));
    let dangling = bincode::serialize(&(
        vec![root.clone()],
        vec![names(&["ghost"])],
        Vec::<Vec<String>>::new(),
        Vec::<Vec<u8>>::new(),
    ))
    .unwrap();
    assert!(matches!(fs_init_from_bytes(Some(dangling)), Err(FsError::CorruptState)));
    let both = bincode::serialize(&(
        vec![root.clone(), names(&["a"])],
        vec![names(&["a"]), Vec::<String>::new()],
        vec![names(&["a"])],
        vec![vec![1u8]],
    ))
    .unwrap();
    assert!(matches!(fs_init_from_bytes(Some(both)), Err(FsError::CorruptState)));
    let good = bincode::serialize(&(
        vec![root.clone(), names(&["a"])],
        vec![names(&["a", "f"]), Vec::<String>::new()],
        vec![names(&["f"])],
        vec![vec![1u8]],
    ))
    .unwrap();
    let fs = fs_init_from_bytes(Some(good)).unwrap();
    assert_eq!(fs_readdir(&fs, "/"), Ok(names(&["a", "f"])));
    assert_eq!(fs_read_file(&fs, "/f"), Ok(vec![1]));
}
