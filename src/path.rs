use vstd::prelude::*;

use crate::error::FsError;

verus! {

/// A single path segment, as characters.
pub type Name = Seq<char>;

/// A canonical path, as the sequence of its segments; the root is the empty sequence.
pub type Path = Seq<Seq<char>>;

/// Lexicographic order on names, by code point (the order of `String`).
pub open spec fn name_lt(a: Name, b: Name) -> bool
    decreases a.len(),
{
    if a.len() == 0 {
        b.len() > 0
    } else if b.len() == 0 {
        false
    } else if a[0] != b[0] {
        (a[0] as int) < (b[0] as int)
    } else {
        name_lt(a.drop_first(), b.drop_first())
    }
}

/// A sequence of names in strictly increasing order (hence without duplicates).
pub open spec fn sorted_names(s: Seq<Name>) -> bool {
    forall|i: int, j: int| 0 <= i < j < s.len() ==> name_lt(#[trigger] s[i], #[trigger] s[j])
}

pub proof fn lemma_name_lt_irreflexive(a: Name)
    ensures
        !name_lt(a, a),
    decreases a.len(),
{
    if a.len() > 0 {
        lemma_name_lt_irreflexive(a.drop_first());
    }
}

pub proof fn lemma_name_lt_total(a: Name, b: Name)
    ensures
        a == b || name_lt(a, b) || name_lt(b, a),
        !(name_lt(a, b) && name_lt(b, a)),
    decreases a.len(),
{
    if a.len() > 0 && b.len() > 0 && a[0] == b[0] {
        lemma_name_lt_total(a.drop_first(), b.drop_first());
        if a.drop_first() == b.drop_first() {
            assert(a =~= seq![a[0]] + a.drop_first());
            assert(b =~= seq![b[0]] + b.drop_first());
        }
    }
    if a.len() == 0 && b.len() == 0 {
        assert(a =~= b);
    }
    if a.len() > 0 && b.len() > 0 && a[0] != b[0] {
        assert((a[0] as int) != (b[0] as int));
    }
}

pub proof fn lemma_name_lt_transitive(a: Name, b: Name, c: Name)
    requires
        name_lt(a, b),
        name_lt(b, c),
    ensures
        name_lt(a, c),
    decreases a.len(),
{
    if a.len() > 0 && b.len() > 0 && c.len() > 0 && a[0] == b[0] && b[0] == c[0] {
        lemma_name_lt_transitive(a.drop_first(), b.drop_first(), c.drop_first());
    }
}

/// Decides `name_lt` on two strings.
pub fn name_less(a: &String, b: &String) -> (r: bool)
    ensures
        r == name_lt(a@, b@),
{
    let sa = a.as_str();
    let sb = b.as_str();
    let na = sa.unicode_len();
    let nb = sb.unicode_len();
    let mut i: usize = 0;
    assert(a@.skip(0) =~= a@);
    assert(b@.skip(0) =~= b@);
    while i < na && i < nb
        invariant
            i <= na == a@.len(),
            i <= nb == b@.len(),
            sa@ == a@,
            sb@ == b@,
            name_lt(a@, b@) == name_lt(a@.skip(i as int), b@.skip(i as int)),
        decreases na - i,
    {
        let ca = sa.get_char(i);
        let cb = sb.get_char(i);
        if ca != cb {
            return (ca as u32) < (cb as u32);
        }
        assert(a@.skip(i as int).drop_first() =~= a@.skip(i + 1));
        assert(b@.skip(i as int).drop_first() =~= b@.skip(i + 1));
        i = i + 1;
    }
    i == na && i < nb
}

/// What one segment does to the stack of segments seen so far: empty and `.`
/// segments are dropped, `..` pops (and does nothing at the root), any other
/// segment is pushed.
pub open spec fn push_segment(stack: Path, seg: Name) -> Path {
    if seg.len() == 0 || seg == seq!['.'] {
        stack
    } else if seg == seq!['.', '.'] {
        if stack.len() == 0 {
            stack
        } else {
            stack.drop_last()
        }
    } else {
        stack.push(seg)
    }
}

/// Reads a path text left to right: the stack of segments that are complete,
/// and the segment that is being read.
pub open spec fn scan(s: Seq<char>) -> (Path, Name)
    decreases s.len(),
{
    if s.len() == 0 {
        (Seq::empty(), Seq::empty())
    } else {
        let prev = scan(s.drop_last());
        if s.last() == '/' {
            (push_segment(prev.0, prev.1), Seq::empty())
        } else {
            (prev.0, prev.1.push(s.last()))
        }
    }
}

/// The canonical segments of a path text, if it is absolute.
pub open spec fn normalize_spec(s: Seq<char>) -> Option<Path> {
    if s.len() > 0 && s[0] == '/' {
        Some(push_segment(scan(s).0, scan(s).1))
    } else {
        None
    }
}

/// `/seg1/seg2/...`, without a leading separator for the empty path.
pub open spec fn render(p: Path) -> Seq<char>
    decreases p.len(),
{
    if p.len() == 0 {
        Seq::empty()
    } else {
        render(p.drop_last()) + seq!['/'] + p.last()
    }
}

/// The text of a canonical path: the root is `/`.
pub open spec fn path_text(p: Path) -> Seq<char> {
    if p.len() == 0 {
        seq!['/']
    } else {
        render(p)
    }
}

fn push_segment_exec(stack: &mut Vec<String>, seg: &str)
    ensures
        final(stack).deep_view() == push_segment(old(stack).deep_view(), seg@),
{
    let n = seg.unicode_len();
    if n == 0 {
        return;
    }
    if n == 1 && seg.get_char(0) == '.' {
        assert(seg@ =~= seq!['.']);
        return;
    }
    if n == 2 && seg.get_char(0) == '.' && seg.get_char(1) == '.' {
        assert(seg@ =~= seq!['.', '.']);
        if stack.len() > 0 {
            stack.pop();
            assert(stack.deep_view() =~= old(stack).deep_view().drop_last());
        }
        return;
    }
    assert(seg@ != seq!['.'] && seg@ != seq!['.', '.']) by {
        if seg@ == seq!['.'] {
            assert(seg@.len() == 1);
        }
        if seg@ == seq!['.', '.'] {
            assert(seg@.len() == 2 && seg@[0] == '.' && seg@[1] == '.');
        }
    }
    stack.push(String::from_str(seg));
    assert(stack.deep_view() =~= old(stack).deep_view().push(seg@));
}

/// Splits an absolute path text into its canonical segments.
pub fn normalize_segments(path: &str) -> (r: Result<Vec<String>, FsError>)
    ensures
        match normalize_spec(path@) {
            Some(p) => r matches Ok(v) && v.deep_view() == p,
            None => r == Err::<Vec<String>, FsError>(FsError::InvalidPath),
        },
{
    let n = path.unicode_len();
    if n == 0 || path.get_char(0) != '/' {
        return Err(FsError::InvalidPath);
    }
    let mut stack: Vec<String> = Vec::new();
    let mut start: usize = 0;
    let mut i: usize = 0;
    assert(path@.take(0) =~= Seq::<char>::empty());
    assert(stack.deep_view() =~= Seq::<Seq<char>>::empty());
    while i < n
        invariant
            n == path@.len(),
            start <= i <= n,
            scan(path@.take(i as int)) == (stack.deep_view(), path@.subrange(start as int, i as int)),
        decreases n - i,
    {
        let c = path.get_char(i);
        assert(path@.take(i + 1).drop_last() =~= path@.take(i as int));
        if c == '/' {
            let seg = path.substring_char(start, i);
            push_segment_exec(&mut stack, seg);
            start = i + 1;
            assert(path@.subrange(start as int, i + 1) =~= Seq::<char>::empty());
        } else {
            assert(path@.subrange(start as int, i + 1) =~= path@.subrange(start as int, i as int).push(c));
        }
        i = i + 1;
    }
    let seg = path.substring_char(start, n);
    push_segment_exec(&mut stack, seg);
    assert(path@.take(n as int) =~= path@);
    Ok(stack)
}

/// Writes the text of a canonical path.
pub fn path_string(p: &Vec<String>) -> (r: String)
    ensures
        r@ == path_text(p.deep_view()),
{
    let mut out = String::new();
    let mut i: usize = 0;
    assert(p.deep_view().take(0) =~= Seq::<Seq<char>>::empty());
    while i < p.len()
        invariant
            i <= p.len(),
            out@ == render(p.deep_view().take(i as int)),
        decreases p.len() - i,
    {
        proof {
            reveal_strlit("/");
        }
        out.append("/");
        out.append(p[i].as_str());
        assert(p.deep_view().take(i + 1).drop_last() =~= p.deep_view().take(i as int));
        i = i + 1;
    }
    assert(p.deep_view().take(p.len() as int) =~= p.deep_view());
    if p.len() == 0 {
        proof {
            reveal_strlit("/");
        }
        out.append("/");
    }
    out
}

/// Normalizes a path text: resolves `.`, `..` and repeated separators.
/// Fails `InvalidPath` when the text does not start with `/`.
pub fn normalize(path: &str) -> (r: Result<String, FsError>)
    ensures
        match normalize_spec(path@) {
            Some(p) => r matches Ok(s) && s@ == path_text(p),
            None => r == Err::<String, FsError>(FsError::InvalidPath),
        },
{
    match normalize_segments(path) {
        Ok(segs) => Ok(path_string(&segs)),
        Err(e) => Err(e),
    }
}


/// Adds a name to a sorted list of names, keeping it sorted; a name already
/// there is not added twice.
pub fn insert_name(names: &mut Vec<String>, name: String)
    requires
        sorted_names(old(names).deep_view()),
    ensures
        sorted_names(final(names).deep_view()),
        final(names).deep_view().to_set() == old(names).deep_view().to_set().insert(name@),
{
    let ghost s0 = names.deep_view();
    let mut i: usize = 0;
    while i < names.len() && name_less(&names[i], &name)
        invariant
            i <= names.len(),
            names.deep_view() == s0,
            forall|j: int| 0 <= j < i ==> name_lt(#[trigger] s0[j], name@),
        decreases names.len() - i,
    {
        i = i + 1;
    }
    if i < names.len() && names[i] == name {
        assert(s0.to_set().insert(name@) =~= s0.to_set()) by {
            assert(names@[i as int]@ == name@);
            assert(s0[i as int] == names@[i as int]@);
            assert(s0.contains(name@));
        }
        return;
    }
    proof {
        if i < s0.len() {
            lemma_name_lt_total(s0[i as int], name@);
            assert forall|k: int| i <= k < s0.len() implies name_lt(name@, #[trigger] s0[k]) by {
                if k > i {
                    lemma_name_lt_transitive(name@, s0[i as int], s0[k]);
                }
            }
        }
    }
    let ghost nm = name@;
    names.insert(i, name);
    let ghost s1 = names.deep_view();
    assert(s1 =~= s0.insert(i as int, nm));
    assert forall|a: int, b: int| 0 <= a < b < s1.len() implies name_lt(#[trigger] s1[a], #[trigger] s1[b]) by {
        if a < i && b > i {
            assert(s1[a] == s0[a] && s1[b] == s0[b - 1]);
        }
    }
    assert(s1.to_set() =~= s0.to_set().insert(nm)) by {
        assert forall|x: Name| s1.to_set().contains(x) implies s0.to_set().insert(nm).contains(x) by {
            let k = choose|k: int| 0 <= k < s1.len() && s1[k] == x;
            if k < i {
                assert(s0[k] == x);
            } else if k > i {
                assert(s0[k - 1] == x);
            }
        }
        assert forall|x: Name| s0.to_set().insert(nm).contains(x) implies s1.to_set().contains(x) by {
            if x == nm {
                assert(s1[i as int] == x);
            } else {
                let k = choose|k: int| 0 <= k < s0.len() && s0[k] == x;
                if k < i {
                    assert(s1[k] == x);
                } else {
                    assert(s1[k + 1] == x);
                }
            }
        }
    }
}

/// Takes a name out of a sorted list of names.
pub fn remove_name(names: &mut Vec<String>, name: &String)
    requires
        sorted_names(old(names).deep_view()),
    ensures
        sorted_names(final(names).deep_view()),
        final(names).deep_view().to_set() == old(names).deep_view().to_set().remove(name@),
{
    let ghost s0 = names.deep_view();
    assert(sorted_names(s0));
    let mut i: usize = 0;
    while i < names.len()
        invariant
            sorted_names(s0),
            s0 == old(names).deep_view(),
            i <= names.len(),
            names.deep_view() == s0,
            forall|j: int| 0 <= j < i ==> #[trigger] s0[j] != name@,
        decreases names.len() - i,
    {
        if names[i] == *name {
            assert(names@[i as int]@ == name@);
            assert(s0[i as int] == name@);
            names.remove(i);
            let ghost s1 = names.deep_view();
            assert(s1 =~= s0.remove(i as int));
            assert forall|a: int, b: int| 0 <= a < b < s1.len() implies name_lt(#[trigger] s1[a], #[trigger] s1[b]) by {
                let a2 = if a < i { a } else { a + 1 };
                let b2 = if b < i { b } else { b + 1 };
                assert(s1[a] == s0[a2] && s1[b] == s0[b2]);
                assert(name_lt(s0[a2], s0[b2]));
            }
            assert(s1.to_set() =~= s0.to_set().remove(name@)) by {
                assert forall|x: Name| s1.to_set().contains(x) implies s0.to_set().remove(name@).contains(x) by {
                    let k = choose|k: int| 0 <= k < s1.len() && s1[k] == x;
                    let k2 = if k < i { k } else { k + 1 };
                    assert(s0[k2] == x);
                    if x == name@ {
                        if k2 < i {
                            lemma_name_lt_irreflexive(x);
                            assert(name_lt(s0[k2], s0[i as int]));
                        } else {
                            lemma_name_lt_irreflexive(x);
                            assert(name_lt(s0[i as int], s0[k2]));
                        }
                    }
                }
                assert forall|x: Name| s0.to_set().remove(name@).contains(x) implies s1.to_set().contains(x) by {
                    let k = choose|k: int| 0 <= k < s0.len() && s0[k] == x;
                    if k < i {
                        assert(s1[k] == x);
                    } else {
                        assert(k != i);
                        assert(s1[k - 1] == x);
                    }
                }
            }
            return;
        }
        i = i + 1;
    }
    assert(s0.to_set().remove(name@) =~= s0.to_set());
}

/// Copies a list of strings.
pub fn copy_strings(v: &Vec<String>) -> (r: Vec<String>)
    ensures
        r.deep_view() == v.deep_view(),
{
    let mut out: Vec<String> = Vec::new();
    let mut i: usize = 0;
    while i < v.len()
        invariant
            i <= v.len(),
            out@.len() == i,
            forall|j: int| 0 <= j < i ==> #[trigger] out@[j]@ == v@[j]@,
        decreases v.len() - i,
    {
        let s: String = v[i].clone();
        out.push(s);
        i = i + 1;
    }
    assert(out.deep_view() =~= v.deep_view());
    out
}

/// Decides whether two paths are the same.
pub fn same_path(a: &Vec<String>, b: &Vec<String>) -> (r: bool)
    ensures
        r == (a.deep_view() == b.deep_view()),
{
    if a.len() != b.len() {
        assert(a.deep_view().len() != b.deep_view().len());
        return false;
    }
    let mut i: usize = 0;
    while i < a.len()
        invariant
            i <= a.len() == b.len(),
            forall|j: int| 0 <= j < i ==> a.deep_view()[j] == b.deep_view()[j],
        decreases a.len() - i,
    {
        if a[i] != b[i] {
            assert(a.deep_view()[i as int] != b.deep_view()[i as int]);
            return false;
        }
        i = i + 1;
    }
    assert(a.deep_view() =~= b.deep_view());
    true
}

/// `a` is `b` or one of its ancestors.
pub open spec fn is_prefix_of(a: Path, b: Path) -> bool {
    a.len() <= b.len() && b.take(a.len() as int) == a
}

/// Decides `is_prefix_of`.
pub fn path_has_prefix(pre: &Vec<String>, p: &Vec<String>) -> (r: bool)
    ensures
        r == is_prefix_of(pre.deep_view(), p.deep_view()),
{
    if pre.len() > p.len() {
        return false;
    }
    let mut i: usize = 0;
    while i < pre.len()
        invariant
            i <= pre.len() <= p.len(),
            forall|j: int| 0 <= j < i ==> pre.deep_view()[j] == p.deep_view()[j],
        decreases pre.len() - i,
    {
        if pre[i] != p[i] {
            assert(p.deep_view().take(pre.len() as int)[i as int] != pre.deep_view()[i as int]);
            return false;
        }
        i = i + 1;
    }
    assert(p.deep_view().take(pre.len() as int) =~= pre.deep_view());
    true
}

/// Splits a path into its parent and its last segment; the root has neither.
pub fn parent_and_name(p: &Vec<String>) -> (r: Result<(Vec<String>, String), FsError>)
    ensures
        p.deep_view().len() == 0 ==> r == Err::<(Vec<String>, String), FsError>(FsError::RootHasNoParent),
        p.deep_view().len() > 0 ==> (r matches Ok(pn) && pn.0.deep_view() == p.deep_view().drop_last()
            && pn.1@ == p.deep_view().last()),
{
    if p.len() == 0 {
        return Err(FsError::RootHasNoParent);
    }
    let mut parent = copy_strings(p);
    assert(parent.deep_view().len() == parent@.len());
    let name = parent.pop().unwrap();
    assert(parent.deep_view() =~= p.deep_view().drop_last());
    Ok((parent, name))
}


proof fn lemma_sorted_drop_first(a: Seq<Name>)
    requires
        sorted_names(a),
        a.len() > 0,
    ensures
        sorted_names(a.drop_first()),
        a.drop_first().to_set() == a.to_set().remove(a[0]),
{
    assert forall|i: int, j: int| 0 <= i < j < a.drop_first().len() implies name_lt(
        #[trigger] a.drop_first()[i],
        #[trigger] a.drop_first()[j],
    ) by {
        assert(name_lt(a[i + 1], a[j + 1]));
    }
    assert forall|x: Name| a.drop_first().to_set().contains(x) <==> a.to_set().remove(a[0]).contains(x) by {
        if a.drop_first().to_set().contains(x) {
            let k = choose|k: int| 0 <= k < a.drop_first().len() && a.drop_first()[k] == x;
            assert(a[k + 1] == x);
            assert(name_lt(a[0], a[k + 1]));
            lemma_name_lt_irreflexive(x);
        }
        if a.to_set().remove(a[0]).contains(x) {
            let k = choose|k: int| 0 <= k < a.len() && a[k] == x;
            assert(k != 0);
            assert(a.drop_first()[k - 1] == x);
        }
    }
    assert(a.drop_first().to_set() =~= a.to_set().remove(a[0]));
}

/// A sorted list of names is decided by the set of names it holds.
pub proof fn lemma_sorted_names_unique(a: Seq<Name>, b: Seq<Name>)
    requires
        sorted_names(a),
        sorted_names(b),
        a.to_set() == b.to_set(),
    ensures
        a == b,
    decreases a.len(),
{
    if a.len() == 0 {
        if b.len() > 0 {
            assert(b.to_set().contains(b[0]));
        }
        assert(a =~= b);
    } else if b.len() == 0 {
        assert(a.to_set().contains(a[0]));
    } else {
        assert(a.to_set().contains(a[0]));
        assert(b.to_set().contains(b[0]));
        let k = choose|k: int| 0 <= k < b.len() && b[k] == a[0];
        let l = choose|l: int| 0 <= l < a.len() && a[l] == b[0];
        if a[0] != b[0] {
            assert(k != 0 && l != 0);
            assert(name_lt(b[0], b[k]));
            assert(name_lt(a[0], a[l]));
            lemma_name_lt_transitive(a[0], b[0], a[0]);
            lemma_name_lt_irreflexive(a[0]);
        }
        lemma_sorted_drop_first(a);
        lemma_sorted_drop_first(b);
        lemma_sorted_names_unique(a.drop_first(), b.drop_first());
        assert(a =~= b) by {
            assert forall|i: int| 0 <= i < a.len() implies a[i] == b[i] by {
                if i > 0 {
                    assert(a[i] == a.drop_first()[i - 1]);
                    assert(b[i] == b.drop_first()[i - 1]);
                }
            }
        }
    }
}

} // verus!
