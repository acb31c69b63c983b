use vstd::prelude::*;

use crate::keyed::{keyed, lemma_keyed_lookup, lemma_keyed_relocate, lemma_keyed_push, lemma_keyed_remove, lemma_keyed_update, unique_keys};
use crate::model::{lemma_path_push_facts, link_name, moved_path, relocated, tree_ok, unlink_name, FsModel};
use crate::path::{
    copy_strings, insert_name, is_prefix_of, parent_and_name, path_has_prefix, remove_name, same_path,
    sorted_names, Name, Path,
};

verus! {

/// An in-memory tree of directories and files, kept as two flat tables keyed
/// by canonical path: directories with their sorted child names, and files
/// with their bytes.
pub struct Vfs {
    pub(crate) dir_paths: Vec<Vec<String>>,
    pub(crate) dir_children: Vec<Vec<String>>,
    pub(crate) file_paths: Vec<Vec<String>>,
    pub(crate) file_data: Vec<Vec<u8>>,
}

impl Vfs {
    pub closed spec fn dkeys(&self) -> Seq<Path> {
        self.dir_paths.deep_view()
    }

    pub closed spec fn dvals(&self) -> Seq<Set<Name>> {
        Seq::new(self.dir_children@.len(), |i: int| self.dir_children@[i].deep_view().to_set())
    }

    pub closed spec fn fkeys(&self) -> Seq<Path> {
        self.file_paths.deep_view()
    }

    pub closed spec fn fvals(&self) -> Seq<Seq<u8>> {
        Seq::new(self.file_data@.len(), |i: int| self.file_data@[i]@)
    }

    /// The tables are consistent: one entry per key, and each list of child
    /// names sorted.
    pub closed spec fn wf(&self) -> bool {
        &&& self.dir_paths@.len() == self.dir_children@.len()
        &&& self.file_paths@.len() == self.file_data@.len()
        &&& unique_keys(self.dkeys())
        &&& unique_keys(self.fkeys())
        &&& all_sorted(self.dir_children@)
    }
}

/// Every list of child names is sorted.
pub open spec fn all_sorted(c: Seq<Vec<String>>) -> bool {
    forall|i: int| 0 <= i < c.len() ==> sorted_names(#[trigger] c[i].deep_view())
}

/// Replacing, adding or taking out one sorted list keeps all lists sorted.
proof fn lemma_all_sorted_edits(c: Seq<Vec<String>>, v: Vec<String>, j: int)
    requires
        all_sorted(c),
    ensures
        sorted_names(v.deep_view()) && 0 <= j < c.len() ==> all_sorted(c.update(j, v)),
        sorted_names(v.deep_view()) ==> all_sorted(c.push(v)),
        0 <= j < c.len() ==> all_sorted(c.remove(j)),
{
    if 0 <= j < c.len() {
        assert forall|i: int| 0 <= i < c.remove(j).len() implies sorted_names(#[trigger] c.remove(j)[i].deep_view()) by {
            let i2 = if i < j { i } else { i + 1 };
            assert(c.remove(j)[i] == c[i2]);
        }
        if sorted_names(v.deep_view()) {
            assert forall|i: int| 0 <= i < c.len() implies sorted_names(#[trigger] c.update(j, v)[i].deep_view()) by {
                if i != j {
                    assert(c.update(j, v)[i] == c[i]);
                }
            }
        }
    }
    if sorted_names(v.deep_view()) {
        assert forall|i: int| 0 <= i < c.len() + 1 implies sorted_names(#[trigger] c.push(v)[i].deep_view()) by {
            if i < c.len() {
                assert(c.push(v)[i] == c[i]);
            }
        }
    }
}

impl View for Vfs {
    type V = FsModel;

    closed spec fn view(&self) -> FsModel {
        FsModel { dirs: keyed(self.dkeys(), self.dvals()), files: keyed(self.fkeys(), self.fvals()) }
    }
}

/// Copies a byte buffer.
pub fn copy_bytes(v: &Vec<u8>) -> (r: Vec<u8>)
    ensures
        r@ == v@,
{
    let mut out: Vec<u8> = Vec::new();
    let mut i: usize = 0;
    while i < v.len()
        invariant
            i <= v.len(),
            out@ == v@.take(i as int),
        decreases v.len() - i,
    {
        out.push(v[i]);
        assert(out@ =~= v@.take(i + 1));
        i = i + 1;
    }
    assert(v@.take(i as int) =~= v@);
    out
}

impl Vfs {
    /// A store that holds the root directory alone.
    pub fn new() -> (r: Vfs)
        ensures
            r.valid(),
            r@ == FsModel::fresh(),
    {
        let mut dir_paths: Vec<Vec<String>> = Vec::new();
        let mut dir_children: Vec<Vec<String>> = Vec::new();
        let root: Vec<String> = Vec::new();
        let root_children: Vec<String> = Vec::new();
        assert(root.deep_view() =~= Seq::<Name>::empty());
        assert(root_children.deep_view() =~= Seq::<Name>::empty());
        assert(Seq::<Name>::empty().to_set() =~= Set::<Name>::empty());
        dir_paths.push(root);
        dir_children.push(root_children);
        let r = Vfs { dir_paths, dir_children, file_paths: Vec::new(), file_data: Vec::new() };
        proof {
            assert(r.dkeys() =~= Seq::<Path>::empty().push(Seq::empty()));
            assert(r.dvals() =~= Seq::<Set<Name>>::empty().push(Set::empty()));
            assert(r.fkeys() =~= Seq::<Path>::empty());
            assert(r.fvals() =~= Seq::<Seq<u8>>::empty());
            lemma_keyed_push(Seq::<Path>::empty(), Seq::<Set<Name>>::empty(), Seq::empty(), Set::empty());
            assert(keyed(Seq::<Path>::empty(), Seq::<Set<Name>>::empty()) =~= Map::empty());
            assert(keyed(Seq::<Path>::empty(), Seq::<Seq<u8>>::empty()) =~= Map::empty());
            assert(sorted_names(r.dir_children@[0].deep_view()));
            crate::laws::lemma_fresh_tree();
        }
        r
    }

    /// Finds the directory entry of a path.
    pub(crate) fn find_dir(&self, p: &Vec<String>) -> (r: Option<usize>)
        requires
            self.wf(),
        ensures
            match r {
                Some(i) => i < self.dir_paths@.len() && i < self.dir_children@.len() && self.dkeys()[i as int] == p.deep_view()
                    && self@.dirs.contains_key(p.deep_view())
                    && self@.dirs[p.deep_view()] == self.dir_children@[i as int].deep_view().to_set(),
                None => !self@.dirs.contains_key(p.deep_view()),
            },
    {
        let mut i: usize = 0;
        while i < self.dir_paths.len()
            invariant
                self.wf(),
                i <= self.dir_paths@.len(),
                forall|j: int| 0 <= j < i ==> self.dkeys()[j] != p.deep_view(),
            decreases self.dir_paths@.len() - i,
        {
            if same_path(&self.dir_paths[i], p) {
                proof {
                    lemma_keyed_lookup(self.dkeys(), self.dvals(), i as int);
                }
                return Some(i);
            }
            i = i + 1;
        }
        None
    }

    /// Finds the file entry of a path.
    pub(crate) fn find_file(&self, p: &Vec<String>) -> (r: Option<usize>)
        requires
            self.wf(),
        ensures
            match r {
                Some(i) => i < self.file_paths@.len() && i < self.file_data@.len() && self.fkeys()[i as int] == p.deep_view()
                    && self@.files.contains_key(p.deep_view())
                    && self@.files[p.deep_view()] == self.file_data@[i as int]@,
                None => !self@.files.contains_key(p.deep_view()),
            },
    {
        let mut i: usize = 0;
        while i < self.file_paths.len()
            invariant
                self.wf(),
                i <= self.file_paths@.len(),
                forall|j: int| 0 <= j < i ==> self.fkeys()[j] != p.deep_view(),
            decreases self.file_paths@.len() - i,
        {
            if same_path(&self.file_paths[i], p) {
                proof {
                    lemma_keyed_lookup(self.fkeys(), self.fvals(), i as int);
                }
                return Some(i);
            }
            i = i + 1;
        }
        None
    }
}


impl Vfs {
    /// Adds an empty directory entry.
    pub(crate) fn add_dir(&mut self, p: Vec<String>)
        requires
            old(self).wf(),
            !old(self)@.dirs.contains_key(p.deep_view()),
        ensures
            final(self).wf(),
            final(self)@.dirs == old(self)@.dirs.insert(p.deep_view(), Set::empty()),
            final(self)@.files == old(self)@.files,
    {
        let ghost pv = p.deep_view();
        let empty: Vec<String> = Vec::new();
        assert(empty.deep_view() =~= Seq::<Name>::empty());
        assert(Seq::<Name>::empty().to_set() =~= Set::<Name>::empty());
        proof {
            if self.dkeys().contains(pv) {
                let i = choose|i: int| 0 <= i < self.dkeys().len() && self.dkeys()[i] == pv;
                lemma_keyed_lookup(self.dkeys(), self.dvals(), i);
            }
            lemma_keyed_push(self.dkeys(), self.dvals(), pv, Set::empty());
        }
        self.dir_paths.push(p);
        self.dir_children.push(empty);
        assert(self.dkeys() =~= old(self).dkeys().push(pv));
        assert(self.dvals() =~= old(self).dvals().push(Set::empty()));
        proof {
            let last = self.dir_children@[self.dir_children@.len() - 1];
            assert(sorted_names(last.deep_view()));
            lemma_all_sorted_edits(old(self).dir_children@, last, 0);
        }
    }

    /// Adds the last segment of `p` to its parent's children.
    pub(crate) fn link(&mut self, p: &Vec<String>)
        requires
            old(self).wf(),
            p.deep_view().len() > 0,
            old(self)@.dirs.contains_key(p.deep_view().drop_last()),
        ensures
            final(self).wf(),
            final(self)@.dirs == link_name(old(self)@.dirs, p.deep_view()),
            final(self)@.files == old(self)@.files,
    {
        match crate::path::parent_and_name(p) {
            Ok((parent, name)) => {
                match self.find_dir(&parent) {
                    Some(j) => {
                        let ghost nm = name@;
                        insert_name(&mut self.dir_children[j], name);
                        let ghost set = self.dir_children@[j as int].deep_view().to_set();
                        assert(self.dvals() =~= old(self).dvals().update(j as int, set));
                        proof {
                            lemma_keyed_update(old(self).dkeys(), old(self).dvals(), j as int, set);
                            lemma_all_sorted_edits(
                                old(self).dir_children@,
                                self.dir_children@[j as int],
                                j as int,
                            );
                        }
                    },
                    None => {},
                }
            },
            Err(_) => {},
        }
    }

    /// Takes the last segment of `p` out of its parent's children, if the parent is there.
    pub(crate) fn unlink(&mut self, p: &Vec<String>)
        requires
            old(self).wf(),
            p.deep_view().len() > 0,
        ensures
            final(self).wf(),
            final(self)@.dirs == unlink_name(old(self)@.dirs, p.deep_view()),
            final(self)@.files == old(self)@.files,
    {
        match crate::path::parent_and_name(p) {
            Ok((parent, name)) => {
                match self.find_dir(&parent) {
                    Some(j) => {
                        remove_name(&mut self.dir_children[j], &name);
                        let ghost set = self.dir_children@[j as int].deep_view().to_set();
                        assert(self.dvals() =~= old(self).dvals().update(j as int, set));
                        proof {
                            lemma_keyed_update(old(self).dkeys(), old(self).dvals(), j as int, set);
                            lemma_all_sorted_edits(
                                old(self).dir_children@,
                                self.dir_children@[j as int],
                                j as int,
                            );
                        }
                    },
                    None => {},
                }
            },
            Err(_) => {},
        }
    }

    /// Takes out the directory entry at index `i`.
    pub(crate) fn drop_dir(&mut self, i: usize)
        requires
            old(self).wf(),
            i < old(self).dir_paths@.len(),
        ensures
            final(self).wf(),
            final(self)@.dirs == old(self)@.dirs.remove(old(self).dkeys()[i as int]),
            final(self)@.files == old(self)@.files,
    {
        proof {
            lemma_keyed_remove(self.dkeys(), self.dvals(), i as int);
        }
        self.dir_paths.remove(i);
        self.dir_children.remove(i);
        assert(self.dkeys() =~= old(self).dkeys().remove(i as int));
        assert(self.dvals() =~= old(self).dvals().remove(i as int));
        proof {
            lemma_all_sorted_edits(old(self).dir_children@, old(self).dir_children@[i as int], i as int);
        }
    }

    /// Takes out the file entry at index `i`.
    pub(crate) fn drop_file(&mut self, i: usize)
        requires
            old(self).wf(),
            i < old(self).file_paths@.len(),
        ensures
            final(self).wf(),
            final(self)@.files == old(self)@.files.remove(old(self).fkeys()[i as int]),
            final(self)@.dirs == old(self)@.dirs,
    {
        proof {
            lemma_keyed_remove(self.fkeys(), self.fvals(), i as int);
        }
        self.file_paths.remove(i);
        self.file_data.remove(i);
        assert(self.fkeys() =~= old(self).fkeys().remove(i as int));
        assert(self.fvals() =~= old(self).fvals().remove(i as int));
    }

    /// Sets the bytes of a file, adding its entry if it is new.
    pub(crate) fn put_file(&mut self, p: Vec<String>, data: Vec<u8>)
        requires
            old(self).wf(),
        ensures
            final(self).wf(),
            final(self)@.files == old(self)@.files.insert(p.deep_view(), data@),
            final(self)@.dirs == old(self)@.dirs,
    {
        let ghost pv = p.deep_view();
        let ghost dv = data@;
        match self.find_file(&p) {
            Some(i) => {
                self.file_data.set(i, data);
                assert(self.fvals() =~= old(self).fvals().update(i as int, dv));
                proof {
                    lemma_keyed_update(old(self).fkeys(), old(self).fvals(), i as int, dv);
                }
            },
            None => {
                proof {
                    if self.fkeys().contains(pv) {
                        let i = choose|i: int| 0 <= i < self.fkeys().len() && self.fkeys()[i] == pv;
                        lemma_keyed_lookup(self.fkeys(), self.fvals(), i);
                    }
                    lemma_keyed_push(self.fkeys(), self.fvals(), pv, dv);
                }
                self.file_paths.push(p);
                self.file_data.push(data);
                assert(self.fkeys() =~= old(self).fkeys().push(pv));
                assert(self.fvals() =~= old(self).fvals().push(dv));
            },
        }
    }
}


impl Vfs {
    pub(crate) proof fn lemma_children_sorted(&self, i: int)
        requires
            self.wf(),
            0 <= i < self.dir_children@.len(),
        ensures
            sorted_names(self.dir_children@[i].deep_view()),
    {
    }

    pub(crate) proof fn lemma_children_nonempty(&self, i: int)
        requires
            0 <= i < self.dir_children@.len(),
        ensures
            self.dir_children@[i]@.len() == 0 <==> self.dir_children@[i].deep_view().to_set().is_empty(),
    {
        let s = self.dir_children@[i].deep_view();
        if s.len() > 0 {
            assert(s.to_set().contains(s[0]));
        } else {
            assert(s.to_set() =~= Set::<Name>::empty());
        }
    }
}


/// Where a directory move from `f` to `t` takes the path `k`.
pub fn moved_key(k: &Vec<String>, f: &Vec<String>, t: &Vec<String>) -> (r: Vec<String>)
    ensures
        r.deep_view() == moved_path(k.deep_view(), f.deep_view(), t.deep_view()),
{
    if !path_has_prefix(f, k) {
        return copy_strings(k);
    }
    let mut out = copy_strings(t);
    let mut i: usize = f.len();
    assert(k.deep_view().skip(f.len() as int).take(0) =~= Seq::<Name>::empty());
    assert(out.deep_view() =~= t.deep_view() + Seq::<Name>::empty());
    while i < k.len()
        invariant
            f@.len() <= i <= k@.len(),
            out.deep_view() == t.deep_view() + k.deep_view().skip(f.len() as int).take(i - f.len()),
        decreases k.len() - i,
    {
        let s: String = k[i].clone();
        let ghost prev = out.deep_view();
        out.push(s);
        assert(out.deep_view() =~= prev.push(k.deep_view()[i as int]));
        assert(k.deep_view().skip(f.len() as int).take(i + 1 - f.len()) =~= k.deep_view().skip(
            f.len() as int,
        ).take(i - f.len()).push(k.deep_view()[i as int]));
        assert(out.deep_view() =~= t.deep_view() + k.deep_view().skip(f.len() as int).take(
            i + 1 - f.len(),
        ));
        i = i + 1;
    }
    assert(k.deep_view().skip(f.len() as int).take(k.len() - f.len()) =~= k.deep_view().skip(
        f.len() as int,
    ));
    out
}

fn moved_keys(keys: &Vec<Vec<String>>, f: &Vec<String>, t: &Vec<String>) -> (r: Vec<Vec<String>>)
    ensures
        r.deep_view() == keys.deep_view().map_values(
            |k: Path| moved_path(k, f.deep_view(), t.deep_view()),
        ),
{
    let mut out: Vec<Vec<String>> = Vec::new();
    let mut i: usize = 0;
    while i < keys.len()
        invariant
            i <= keys@.len(),
            out.deep_view() == keys.deep_view().take(i as int).map_values(
                |k: Path| moved_path(k, f.deep_view(), t.deep_view()),
            ),
        decreases keys.len() - i,
    {
        let nk = moved_key(&keys[i], f, t);
        let ghost prev = out.deep_view();
        let ghost nkv = nk.deep_view();
        out.push(nk);
        assert(out.deep_view() =~= prev.push(nkv));
        assert(out.deep_view() =~= keys.deep_view().take(i + 1).map_values(
            |k: Path| moved_path(k, f.deep_view(), t.deep_view()),
        ));
        i = i + 1;
    }
    assert(keys.deep_view().take(i as int) =~= keys.deep_view());
    out
}

impl Vfs {
    /// Whether some directory or file lies at `p` or under it.
    pub fn occupied_under(&self, p: &Vec<String>) -> (r: bool)
        requires
            self.wf(),
        ensures
            r == self@.occupied_under(p.deep_view()),
    {
        let mut i: usize = 0;
        while i < self.dir_paths.len()
            invariant
                self.wf(),
                i <= self.dir_paths@.len(),
                forall|j: int| 0 <= j < i ==> !is_prefix_of(p.deep_view(), #[trigger] self.dkeys()[j]),
            decreases self.dir_paths@.len() - i,
        {
            if path_has_prefix(p, &self.dir_paths[i]) {
                proof {
                    lemma_keyed_lookup(self.dkeys(), self.dvals(), i as int);
                    assert(is_prefix_of(p.deep_view(), self.dkeys()[i as int]));
                }
                return true;
            }
            i = i + 1;
        }
        let mut i: usize = 0;
        while i < self.file_paths.len()
            invariant
                self.wf(),
                i <= self.file_paths@.len(),
                forall|j: int| 0 <= j < self.dkeys().len() ==> !is_prefix_of(p.deep_view(), #[trigger] self.dkeys()[j]),
                forall|j: int| 0 <= j < i ==> !is_prefix_of(p.deep_view(), #[trigger] self.fkeys()[j]),
            decreases self.file_paths@.len() - i,
        {
            if path_has_prefix(p, &self.file_paths[i]) {
                proof {
                    lemma_keyed_lookup(self.fkeys(), self.fvals(), i as int);
                    assert(is_prefix_of(p.deep_view(), self.fkeys()[i as int]));
                }
                return true;
            }
            i = i + 1;
        }
        assert forall|k: Path|
            (self@.dirs.contains_key(k) || self@.files.contains_key(k)) implies !#[trigger] is_prefix_of(p.deep_view(), k) by {
            if self@.dirs.contains_key(k) {
                let j = choose|j: int| 0 <= j < self.dkeys().len() && self.dkeys()[j] == k;
            } else {
                let j = choose|j: int| 0 <= j < self.fkeys().len() && self.fkeys()[j] == k;
            }
        }
        false
    }

    /// Takes every directory and file at or under `f` to the same place under `t`.
    pub(crate) fn relocate(&mut self, f: &Vec<String>, t: &Vec<String>)
        requires
            old(self).wf(),
            !old(self)@.occupied_under(t.deep_view()),
        ensures
            final(self).wf(),
            final(self)@.dirs == relocated(old(self)@.dirs, f.deep_view(), t.deep_view()),
            final(self)@.files == relocated(old(self)@.files, f.deep_view(), t.deep_view()),
    {
        proof {
            assert forall|j: int| 0 <= j < self.dkeys().len() implies !is_prefix_of(
                t.deep_view(),
                #[trigger] self.dkeys()[j],
            ) by {
                lemma_keyed_lookup(self.dkeys(), self.dvals(), j);
            }
            assert forall|j: int| 0 <= j < self.fkeys().len() implies !is_prefix_of(
                t.deep_view(),
                #[trigger] self.fkeys()[j],
            ) by {
                lemma_keyed_lookup(self.fkeys(), self.fvals(), j);
            }
            lemma_keyed_relocate(self.dkeys(), self.dvals(), f.deep_view(), t.deep_view());
            lemma_keyed_relocate(self.fkeys(), self.fvals(), f.deep_view(), t.deep_view());
        }
        let nd = moved_keys(&self.dir_paths, f, t);
        let nf = moved_keys(&self.file_paths, f, t);
        assert(nd.deep_view().len() == nd@.len());
        assert(nf.deep_view().len() == nf@.len());
        self.dir_paths = nd;
        self.file_paths = nf;
    }
}


impl Vfs {
    pub closed spec fn dir_paths_view(&self) -> Seq<Path> {
        self.dir_paths.deep_view()
    }

    pub closed spec fn dir_children_view(&self) -> Seq<Seq<Name>> {
        self.dir_children.deep_view()
    }

    pub closed spec fn file_paths_view(&self) -> Seq<Path> {
        self.file_paths.deep_view()
    }

    pub closed spec fn file_data_view(&self) -> Seq<Seq<u8>> {
        self.file_data.deep_view()
    }

    /// Well-formedness is a property of the four tables, and the tables
    /// decide the contents.
    pub proof fn lemma_wf_tables(&self)
        ensures
            self.wf() == crate::snapshot::tables_ok(
                self.dir_paths_view(),
                self.dir_children_view(),
                self.file_paths_view(),
                self.file_data_view(),
            ),
    {
        if self.wf() {
            assert forall|i: int| 0 <= i < self.dir_children_view().len() implies sorted_names(
                #[trigger] self.dir_children_view()[i],
            ) by {
                assert(sorted_names(self.dir_children@[i].deep_view()));
            }
        }
        if crate::snapshot::tables_ok(
            self.dir_paths_view(),
            self.dir_children_view(),
            self.file_paths_view(),
            self.file_data_view(),
        ) {
            assert forall|i: int| 0 <= i < self.dir_children@.len() implies sorted_names(
                #[trigger] self.dir_children@[i].deep_view(),
            ) by {
                assert(sorted_names(self.dir_children_view()[i]));
            }
        }
    }

    /// Two stores with the same tables have the same contents.
    pub proof fn lemma_same_tables(&self, other: &Vfs)
        requires
            self.dir_paths_view() == other.dir_paths_view(),
            self.dir_children_view() == other.dir_children_view(),
            self.file_paths_view() == other.file_paths_view(),
            self.file_data_view() == other.file_data_view(),
        ensures
            self@ == other@,
    {
        assert(self.dir_children@.len() == self.dir_children_view().len());
        assert(other.dir_children@.len() == other.dir_children_view().len());
        assert(self.file_data@.len() == self.file_data_view().len());
        assert(other.file_data@.len() == other.file_data_view().len());
        assert(self.dvals() =~= other.dvals()) by {
            assert forall|i: int| 0 <= i < self.dvals().len() implies self.dvals()[i] == other.dvals()[i] by {
                assert(self.dir_children_view()[i] == other.dir_children_view()[i]);
                assert(self.dir_children_view()[i] == self.dir_children@[i].deep_view());
                assert(other.dir_children_view()[i] == other.dir_children@[i].deep_view());
            }
        }
        assert(self.fvals() =~= other.fvals()) by {
            assert forall|i: int| 0 <= i < self.fvals().len() implies self.fvals()[i] == other.fvals()[i] by {
                assert(self.file_data_view()[i] == other.file_data_view()[i]);
                assert(self.file_data_view()[i] == self.file_data@[i]@);
                assert(other.file_data_view()[i] == other.file_data@[i]@);
            }
        }
    }

    pub(crate) fn encode(&self) -> (r: Vec<u8>)
        ensures
            self.snapshot_is(r@),
            r@.len() >= 32,
    {
        match crate::snapshot::encode_tables(
            &self.dir_paths,
            &self.dir_children,
            &self.file_paths,
            &self.file_data,
        ) {
            Some(b) => b,
            None => Vec::new(),
        }
    }

    pub(crate) fn from_tables(
        dir_paths: Vec<Vec<String>>,
        dir_children: Vec<Vec<String>>,
        file_paths: Vec<Vec<String>>,
        file_data: Vec<Vec<u8>>,
    ) -> (r: Vfs)
        requires
            crate::snapshot::tables_ok(
                dir_paths.deep_view(),
                dir_children.deep_view(),
                file_paths.deep_view(),
                file_data.deep_view(),
            ),
        ensures
            r.wf(),
            r.dir_paths_view() == dir_paths.deep_view(),
            r.dir_children_view() == dir_children.deep_view(),
            r.file_paths_view() == file_paths.deep_view(),
            r.file_data_view() == file_data.deep_view(),
    {
        let r = Vfs { dir_paths, dir_children, file_paths, file_data };
        proof {
            r.lemma_wf_tables();
        }
        r
    }
}


/// Whether a list of names holds `n`.
fn has_name(names: &Vec<String>, n: &String) -> (r: bool)
    ensures
        r == names.deep_view().to_set().contains(n@),
{
    let mut i: usize = 0;
    while i < names.len()
        invariant
            i <= names@.len(),
            forall|j: int| 0 <= j < i ==> #[trigger] names.deep_view()[j] != n@,
        decreases names.len() - i,
    {
        if names[i] == *n {
            assert(names.deep_view()[i as int] == n@);
            return true;
        }
        i = i + 1;
    }
    false
}

/// The path of the child `n` of `d`.
fn child_path(d: &Vec<String>, n: &String) -> (r: Vec<String>)
    ensures
        r.deep_view() == d.deep_view().push(n@),
{
    let mut r = copy_strings(d);
    let ghost prev = r.deep_view();
    r.push(n.clone());
    assert(r.deep_view() =~= prev.push(n@));
    r
}

impl Vfs {
    /// Well-formed tables that also make a tree.
    pub open spec fn valid(&self) -> bool {
        self.wf() && tree_ok(self@)
    }

    spec fn dir_ok_at(&self, j: int) -> bool {
        let k = self.dkeys()[j];
        let m = self@;
        &&& !m.files.contains_key(k)
        &&& k.len() > 0 ==> m.dirs.contains_key(k.drop_last()) && m.dirs[k.drop_last()].contains(k.last())
        &&& forall|n: Name| #[trigger] m.dirs[k].contains(n) ==> m.dirs.contains_key(k.push(n)) || m.files.contains_key(k.push(n))
    }

    spec fn file_ok_at(&self, j: int) -> bool {
        let k = self.fkeys()[j];
        let m = self@;
        k.len() > 0 && m.dirs.contains_key(k.drop_last()) && m.dirs[k.drop_last()].contains(k.last())
    }

    /// Whether `p` is filed under its parent: the parent is a directory that lists its name.
    fn listed_in_parent(&self, p: &Vec<String>) -> (r: bool)
        requires
            self.wf(),
            p.deep_view().len() > 0,
        ensures
            r == (self@.dirs.contains_key(p.deep_view().drop_last())
                && self@.dirs[p.deep_view().drop_last()].contains(p.deep_view().last())),
    {
        match parent_and_name(p) {
            Ok((parent, name)) => match self.find_dir(&parent) {
                Some(j) => has_name(&self.dir_children[j], &name),
                None => false,
            },
            Err(_) => false,
        }
    }

    /// Decides whether the store is a tree.
    pub fn is_tree(&self) -> (r: bool)
        requires
            self.wf(),
        ensures
            r == tree_ok(self@),
    {
        proof {
            lemma_path_push_facts();
        }
        let m = Ghost(self@);
        let root: Vec<String> = Vec::new();
        assert(root.deep_view() =~= Seq::<Name>::empty());
        if self.find_dir(&root).is_none() {
            return false;
        }
        let mut i: usize = 0;
        while i < self.dir_paths.len()
            invariant
                self.wf(),
                m@ == self@,
                i <= self.dir_paths@.len(),
                forall|j: int| 0 <= j < i ==> #[trigger] self.dir_ok_at(j),
            decreases self.dir_paths@.len() - i,
        {
            let key = &self.dir_paths[i];
            let ghost k = self.dkeys()[i as int];
            proof {
                lemma_keyed_lookup(self.dkeys(), self.dvals(), i as int);
            }
            if self.find_file(key).is_some() {
                return false;
            }
            assert(key.deep_view().len() == key@.len());
            if key.len() > 0 && !self.listed_in_parent(key) {
                assert(!tree_ok(self@)) by {
                    if self@.dirs.contains_key(k.drop_last()) {
                        assert(k.drop_last().push(k.last()) == k);
                    }
                }
                return false;
            }
            let children = &self.dir_children[i];
            let mut c: usize = 0;
            while c < children.len()
                invariant
                    self.wf(),
                    m@ == self@,
                    i < self.dir_paths@.len(),
                    children == &self.dir_children@[i as int],
                    k == self.dkeys()[i as int],
                    k == key.deep_view(),
                    self@.dirs[k] == children.deep_view().to_set(),
                    c <= children@.len(),
                    forall|x: int| 0 <= x < c ==> self@.dirs.contains_key(k.push(#[trigger] children.deep_view()[x]))
                        || self@.files.contains_key(k.push(children.deep_view()[x])),
                decreases children@.len() - c,
            {
                let cp = child_path(key, &children[c]);
                if self.find_dir(&cp).is_none() && self.find_file(&cp).is_none() {
                    assert(!tree_ok(self@)) by {
                        let n = children.deep_view()[c as int];
                        assert(children@[c as int]@ == n);
                        assert(cp.deep_view() == k.push(n));
                        assert(children.deep_view().to_set().contains(n));
                        assert(self@.dirs.contains_key(k));
                        assert(self@.dirs[k].contains(n));
                    }
                    return false;
                }
                c = c + 1;
            }
            assert forall|n: Name| #[trigger] self@.dirs[k].contains(n) implies self@.dirs.contains_key(k.push(n))
                || self@.files.contains_key(k.push(n)) by {
                let x = choose|x: int| 0 <= x < children.deep_view().len() && children.deep_view()[x] == n;
            }
            assert(self.dir_ok_at(i as int));
            i = i + 1;
        }
        let mut i: usize = 0;
        while i < self.file_paths.len()
            invariant
                self.wf(),
                m@ == self@,
                i <= self.file_paths@.len(),
                forall|j: int| 0 <= j < self.dkeys().len() ==> #[trigger] self.dir_ok_at(j),
                forall|j: int| 0 <= j < i ==> #[trigger] self.file_ok_at(j),
            decreases self.file_paths@.len() - i,
        {
            let key = &self.file_paths[i];
            let ghost k = self.fkeys()[i as int];
            proof {
                lemma_keyed_lookup(self.fkeys(), self.fvals(), i as int);
            }
            assert(key.deep_view().len() == key@.len());
            if key.len() == 0 || !self.listed_in_parent(key) {
                assert(!tree_ok(self@)) by {
                    if k.len() > 0 && self@.dirs.contains_key(k.drop_last()) {
                        assert(k.drop_last().push(k.last()) == k);
                    }
                }
                return false;
            }
            i = i + 1;
        }
        assert(tree_ok(self@)) by {
            assert forall|k: Path| #[trigger] self@.dirs.contains_key(k) implies self.dir_ok_at(
                self.dkeys().index_of(k),
            ) && self.dkeys()[self.dkeys().index_of(k)] == k by {
                assert(self.dkeys().contains(k));
            }
            assert forall|k: Path| #[trigger] self@.files.contains_key(k) implies self.file_ok_at(
                self.fkeys().index_of(k),
            ) && self.fkeys()[self.fkeys().index_of(k)] == k by {
                assert(self.fkeys().contains(k));
            }
            assert forall|d: Path, n: Name| #[trigger] self@.dirs.contains_key(d) implies (#[trigger] self@.dirs[d].contains(n)
                <==> (self@.dirs.contains_key(d.push(n)) || self@.files.contains_key(d.push(n)))) by {
                assert(self@.dirs.contains_key(d) ==> self.dir_ok_at(self.dkeys().index_of(d)));
                if self@.dirs.contains_key(d.push(n)) {
                    assert(self.dir_ok_at(self.dkeys().index_of(d.push(n))));
                }
                if self@.files.contains_key(d.push(n)) {
                    assert(self.file_ok_at(self.fkeys().index_of(d.push(n))));
                }
            }
        }
        true
    }
}

} // verus!
