use vstd::prelude::*;

use crate::error::FsError;
use crate::model::{lemma_path_push_facts, link_name, relocated, tree_ok, unlink_name, FsModel};
use crate::path::{is_prefix_of, Name, Path};
use crate::store::Vfs;

verus! {

/// Creating a directory that was just created succeeds again and changes
/// nothing.
pub proof fn lemma_mkdir_idempotent(m: FsModel, path: Seq<char>)
    requires
        m.mkdir(path).0 is Ok,
    ensures
        m.mkdir(path).1.mkdir(path) == (Ok::<(), FsError>(()), m.mkdir(path).1),
{
}

/// Reading a file that was just written gives back the bytes written.
pub proof fn lemma_write_then_read(m: FsModel, path: Seq<char>, data: Seq<u8>)
    requires
        m.write_file(path, data).0 is Ok,
    ensures
        m.write_file(path, data).1.read_file(path) == Ok::<Seq<u8>, FsError>(data),
{
}

/// In a tree, writing the original after a copy succeeds, and the copy keeps
/// its bytes.
pub proof fn lemma_copy_independent(
    m: FsModel,
    from: Seq<char>,
    to: Seq<char>,
    data: Seq<u8>,
)
    requires
        tree_ok(m),
        m.copy(from, to).0 is Ok,
        crate::path::normalize_spec(from) != crate::path::normalize_spec(to),
    ensures
        m.copy(from, to).1.write_file(from, data).0 is Ok,
        m.copy(from, to).1.write_file(from, data).1.read_file(to) == m.copy(from, to).1.read_file(
            to,
        ),
        m.copy(from, to).1.read_file(to) == m.read_file(from),
{
}

/// Restoring a snapshot of a well-formed store gives a store with the same
/// directories, children and files.
pub proof fn lemma_snapshot_round_trip(fs: &Vfs, bytes: Seq<u8>, restored: &Vfs)
    requires
        fs.wf(),
        fs.snapshot_is(bytes),
        restored.restored_from(bytes),
    ensures
        restored@ == fs@,
{
    assert(bytes == crate::snapshot::snapshot_bytes(
        fs.dir_paths_view(),
        fs.dir_children_view(),
        fs.file_paths_view(),
        fs.file_data_view(),
    ));
    restored.lemma_same_tables(fs);
}


/// The store that holds the root alone is a tree.
pub proof fn lemma_fresh_tree()
    ensures
        tree_ok(FsModel::fresh()),
{
    let m = FsModel::fresh();
    assert forall|d: Path, n: Name| #[trigger] m.dirs.contains_key(d) implies (#[trigger] m.dirs[d].contains(n)
        <==> (m.dirs.contains_key(d.push(n)) || m.files.contains_key(d.push(n)))) by {
        assert(d.push(n).len() > 0);
    }
}

/// Creating a directory keeps the store a tree.
pub proof fn lemma_mkdir_keeps_tree(m: FsModel, path: Seq<char>)
    requires
        tree_ok(m),
    ensures
        tree_ok(m.mkdir(path).1),
{
    lemma_path_push_facts();
}

/// Writing a file keeps the store a tree.
pub proof fn lemma_write_keeps_tree(m: FsModel, path: Seq<char>, data: Seq<u8>)
    requires
        tree_ok(m),
    ensures
        tree_ok(m.write_file(path, data).1),
{
    lemma_path_push_facts();
}

/// Removing a file keeps the store a tree.
pub proof fn lemma_remove_keeps_tree(m: FsModel, path: Seq<char>)
    requires
        tree_ok(m),
    ensures
        tree_ok(m.remove(path).1),
{
    lemma_path_push_facts();
}

/// Removing a directory keeps the store a tree.
pub proof fn lemma_remove_dir_keeps_tree(m: FsModel, path: Seq<char>)
    requires
        tree_ok(m),
    ensures
        tree_ok(m.remove_dir(path).1),
{
    lemma_path_push_facts();
    if let Some(p) = crate::path::normalize_spec(path) {
        if m.remove_dir(path).0 is Ok {
            let m2 = m.remove_dir(path).1;
            assert forall|k: Path| #[trigger] m.dirs.contains_key(k) && k.len() > 0 implies k.drop_last() != p by {
                if k.drop_last() == p {
                    assert(m.dirs[p].contains(k.last()));
                }
            }
            assert forall|k: Path| #[trigger] m.files.contains_key(k) implies k.drop_last() != p by {
                if k.drop_last() == p {
                    assert(m.dirs[p].contains(k.last()));
                }
            }
            assert(tree_ok(m2));
        }
    }
}

/// Copying a file keeps the store a tree.
pub proof fn lemma_copy_keeps_tree(m: FsModel, from: Seq<char>, to: Seq<char>)
    requires
        tree_ok(m),
    ensures
        tree_ok(m.copy(from, to).1),
{
    lemma_path_push_facts();
}


proof fn lemma_prefix_facts()
    ensures
        forall|a: Path, k: Path|
            #[trigger] is_prefix_of(a, k) && k.len() > a.len() ==> is_prefix_of(a, k.drop_last()),
        forall|a: Path, k: Path|
            k.len() > 0 && #[trigger] is_prefix_of(a, k.drop_last()) ==> is_prefix_of(a, k),
        forall|a: Path, k: Path, n: Name|
            #[trigger] is_prefix_of(a, k.push(n)) ==> is_prefix_of(a, k) || k.push(n) == a,
        forall|a: Path, k: Path, n: Name|
            is_prefix_of(a, k) ==> #[trigger] k.push(n).skip(a.len() as int) == k.skip(
                a.len() as int,
            ).push(n),
        forall|a: Path, k: Path, b: Path|
            #[trigger] is_prefix_of(a, k) && k.len() > a.len() ==> (b + k.skip(a.len() as int)).drop_last()
                == #[trigger] (b + k.drop_last().skip(a.len() as int)),
        forall|a: Path, s: Path| #[trigger] is_prefix_of(a, a + s),
        forall|a: Path, s: Path| #[trigger] (a + s).skip(a.len() as int) == s,
        forall|a: Path| #[trigger] a.skip(a.len() as int) == Seq::<Name>::empty(),
        forall|a: Path| a + Seq::<Name>::empty() == a,
{
    assert forall|a: Path, k: Path|
        #[trigger] is_prefix_of(a, k) && k.len() > a.len() implies is_prefix_of(a, k.drop_last()) by {
        assert(k.drop_last().take(a.len() as int) =~= k.take(a.len() as int));
    }
    assert forall|a: Path, k: Path|
        k.len() > 0 && #[trigger] is_prefix_of(a, k.drop_last()) implies is_prefix_of(a, k) by {
        assert(k.drop_last().take(a.len() as int) =~= k.take(a.len() as int));
    }
    assert forall|a: Path, k: Path, n: Name|
        #[trigger] is_prefix_of(a, k.push(n)) implies is_prefix_of(a, k) || k.push(n) == a by {
        if a.len() <= k.len() {
            assert(k.push(n).take(a.len() as int) =~= k.take(a.len() as int));
        } else {
            assert(k.push(n).take(a.len() as int) =~= k.push(n));
        }
    }
    assert forall|a: Path, k: Path, n: Name| is_prefix_of(a, k) implies #[trigger] k.push(n).skip(
        a.len() as int,
    ) == k.skip(a.len() as int).push(n) by {
        assert(k.push(n).skip(a.len() as int) =~= k.skip(a.len() as int).push(n));
    }
    assert forall|a: Path, k: Path, b: Path|
        #[trigger] is_prefix_of(a, k) && k.len() > a.len() implies (b + k.skip(a.len() as int)).drop_last()
        == #[trigger] (b + k.drop_last().skip(a.len() as int)) by {
        assert((b + k.skip(a.len() as int)).drop_last() =~= b + k.drop_last().skip(a.len() as int));
    }
    assert forall|a: Path, s: Path| #[trigger] is_prefix_of(a, a + s) by {
        assert((a + s).take(a.len() as int) =~= a);
    }
    assert forall|a: Path, s: Path| #[trigger] (a + s).skip(a.len() as int) == s by {
        assert((a + s).skip(a.len() as int) =~= s);
    }
    assert forall|a: Path| #[trigger] a.skip(a.len() as int) == Seq::<Name>::empty() by {
        assert(a.skip(a.len() as int) =~= Seq::<Name>::empty());
    }
    assert forall|a: Path| a + Seq::<Name>::empty() == a by {
        assert(a + Seq::<Name>::empty() =~= a);
    }
}

/// Moving a file, or a directory with everything under it, keeps the store a
/// tree.
pub proof fn lemma_rename_keeps_tree(m: FsModel, from: Seq<char>, to: Seq<char>)
    requires
        tree_ok(m),
    ensures
        tree_ok(m.rename(from, to).1),
{
    lemma_path_push_facts();
    match (crate::path::normalize_spec(from), crate::path::normalize_spec(to)) {
        (Some(f), Some(t)) => {
            if f != t && t.len() > 0 && f.len() > 0 && m.dirs.contains_key(t.drop_last())
                && !m.files.contains_key(f) && m.dirs.contains_key(f) && !m.occupied_under(t)
                && !is_prefix_of(f, t) {
                lemma_relocate_keeps_tree(m, f, t);
            }
        },
        _ => {},
    }
}

proof fn lemma_relocate_keeps_tree(m: FsModel, f: Path, t: Path)
    requires
        tree_ok(m),
        f != t,
        t.len() > 0,
        f.len() > 0,
        m.dirs.contains_key(t.drop_last()),
        !m.files.contains_key(f),
        m.dirs.contains_key(f),
        !m.occupied_under(t),
        !is_prefix_of(f, t),
    ensures
        tree_ok(
            FsModel {
                dirs: link_name(unlink_name(relocated(m.dirs, f, t), f), t),
                files: relocated(m.files, f, t),
            },
        ),
{
    lemma_path_push_facts();
    lemma_prefix_facts();
    let rd = relocated(m.dirs, f, t);
    let rf = relocated(m.files, f, t);
    let m2 = FsModel { dirs: link_name(unlink_name(rd, f), t), files: rf };
    // nothing of m lies at or under t
    assert forall|k: Path| m.dirs.contains_key(k) || m.files.contains_key(k) implies !#[trigger] is_prefix_of(t, k) by {}
    assert(!is_prefix_of(f, t.drop_last())) by {
        if is_prefix_of(f, t.drop_last()) {
            assert(is_prefix_of(f, t));
        }
    }
    assert(!is_prefix_of(t, t.drop_last()));
    assert(rd.contains_key(t.drop_last()));
    assert(rd.contains_key(f.drop_last())) by {
        if is_prefix_of(f, f.drop_last()) {
            assert(f.drop_last().len() < f.len());
        }
    }
    assert(rd.contains_key(t)) by {
        assert(is_prefix_of(t, t + Seq::<Name>::empty()));
        assert(t + Seq::<Name>::empty() == t);
        assert(f + t.skip(t.len() as int) == f);
    }
    assert(m2.dirs.contains_key(Seq::empty())) by {
        assert(!is_prefix_of(f, Seq::<Name>::empty()));
    }
    assert forall|k: Path| #[trigger] m2.dirs.contains_key(k) && k.len() > 0 implies m2.dirs.contains_key(
        k.drop_last(),
    ) by {
        if m.dirs.contains_key(k) && !is_prefix_of(f, k) {
            assert(!is_prefix_of(f, k.drop_last()));
            assert(!is_prefix_of(t, k.drop_last())) by {
                if is_prefix_of(t, k.drop_last()) {
                    assert(is_prefix_of(t, k));
                }
            }
        } else {
            assert(is_prefix_of(t, k));
            if k.len() > t.len() {
                let src = f + k.skip(t.len() as int);
                assert(src.len() > f.len());
                assert(m.dirs.contains_key(src.drop_last()));
                assert(src.drop_last() == f + k.drop_last().skip(t.len() as int));
                assert(is_prefix_of(t, k.drop_last()));
            } else {
                assert(k == t) by {
                    assert(k.take(t.len() as int) =~= k);
                }
            }
        }
    }
    assert forall|k: Path| #[trigger] m2.files.contains_key(k) implies k.len() > 0 && m2.dirs.contains_key(
        k.drop_last(),
    ) by {
        if m.files.contains_key(k) && !is_prefix_of(f, k) {
            assert(!is_prefix_of(f, k.drop_last()));
            assert(!is_prefix_of(t, k.drop_last())) by {
                if is_prefix_of(t, k.drop_last()) {
                    assert(is_prefix_of(t, k));
                }
            }
        } else {
            assert(is_prefix_of(t, k));
            let src = f + k.skip(t.len() as int);
            assert(m.files.contains_key(src));
            if k.len() > t.len() {
                assert(src.len() > f.len());
                assert(m.dirs.contains_key(src.drop_last()));
                assert(src.drop_last() == f + k.drop_last().skip(t.len() as int));
                assert(is_prefix_of(t, k.drop_last()));
            } else {
                assert(k == t) by {
                    assert(k.take(t.len() as int) =~= k);
                }
                assert(src == f);
            }
        }
    }
    assert forall|k: Path| !(#[trigger] m2.dirs.contains_key(k) && m2.files.contains_key(k)) by {
        if m2.dirs.contains_key(k) && m2.files.contains_key(k) {
            if is_prefix_of(t, k) {
                assert(!m.dirs.contains_key(k) && !m.files.contains_key(k));
                assert(m.dirs.contains_key(f + k.skip(t.len() as int)));
                assert(m.files.contains_key(f + k.skip(t.len() as int)));
            }
        }
    }
    assert forall|d: Path, n: Name| #[trigger] m2.dirs.contains_key(d) implies (#[trigger] m2.dirs[d].contains(n)
        <==> (m2.dirs.contains_key(d.push(n)) || m2.files.contains_key(d.push(n)))) by {
        if is_prefix_of(t, d) {
            let src = f + d.skip(t.len() as int);
            assert(m.dirs.contains_key(src));
            assert(d != t.drop_last());
            assert(d != f.drop_last());
            assert(is_prefix_of(t, d.push(n))) by {
                assert(d.push(n).take(t.len() as int) =~= d.take(t.len() as int));
            }
            assert(f + d.push(n).skip(t.len() as int) == src.push(n)) by {
                assert(f + d.push(n).skip(t.len() as int) =~= src.push(n));
            }
            assert(!m.dirs.contains_key(d.push(n)) && !m.files.contains_key(d.push(n)));
            assert(m2.dirs[d] == m.dirs[src]);
        } else {
            assert(m.dirs.contains_key(d) && !is_prefix_of(f, d));
            assert(rd[d] == m.dirs[d]);
            if is_prefix_of(t, d.push(n)) {
                assert(d.push(n) == t);
                assert(f + t.skip(t.len() as int) == f);
            }
            if is_prefix_of(f, d.push(n)) {
                assert(d.push(n) == f);
            }
        }
    }
}

} // verus!
