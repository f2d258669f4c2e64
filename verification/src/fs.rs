//! Lexical path arithmetic: components, joining, relative paths and
//! normalization. Nothing here consults a filesystem.

use crate::error::Error;
use vstd::prelude::*;
use vstd::string::StringExecFns;

verus! {

/// The views of a list of strings.
pub open spec fn names(v: Seq<String>) -> Seq<Seq<char>> {
    v.map_values(|s: String| s@)
}

/// A path is absolute when it starts at the root.
pub open spec fn is_absolute_spec(p: Seq<char>) -> bool {
    p.len() > 0 && p[0] == '/'
}

/// The first index at or after `i` that holds a separator, or the length of `s`.
pub open spec fn segment_end(s: Seq<char>, i: int) -> int
    decreases s.len() - i,
{
    if i < 0 || i >= s.len() || s[i] == '/' {
        i
    } else {
        segment_end(s, i + 1)
    }
}

/// Segments that are no component: the empty one and `.`.
pub open spec fn is_dropped(seg: Seq<char>) -> bool {
    seg.len() == 0 || (seg.len() == 1 && seg[0] == '.')
}

/// The components of `s` that begin at or after index `start`.
pub open spec fn components_from(s: Seq<char>, start: int) -> Seq<Seq<char>>
    decreases s.len() - start,
{
    if start < 0 || start >= s.len() {
        Seq::empty()
    } else {
        let end = segment_end(s, start);
        let seg = s.subrange(start, end);
        let here = if is_dropped(seg) {
            Seq::<Seq<char>>::empty()
        } else {
            seq![seg]
        };
        if start <= end < s.len() {
            here + components_from(s, end + 1)
        } else {
            here
        }
    }
}

/// The components of a path: its segments between separators, without the
/// empty ones and without `.`. The root is no component.
pub open spec fn components(s: Seq<char>) -> Seq<Seq<char>> {
    components_from(s, 0)
}

/// A segment ends at the next separator, or where the text ends.
pub proof fn lemma_segment_end_bounds(s: Seq<char>, i: int)
    requires
        0 <= i <= s.len(),
    ensures
        i <= segment_end(s, i) <= s.len(),
        segment_end(s, i) < s.len() ==> s[segment_end(s, i)] == '/',
        forall|j: int| i <= j < segment_end(s, i) ==> s[j] != '/',
    decreases s.len() - i,
{
    if i < s.len() && s[i] != '/' {
        lemma_segment_end_bounds(s, i + 1);
    }
}

/// Tells whether `path` is absolute.
pub fn is_absolute(path: &str) -> (r: bool)
    ensures
        r == is_absolute_spec(path@),
{
    path.unicode_len() > 0 && path.get_char(0) == '/'
}

/// Refuses a path that is not absolute.
pub fn require_absolute(path: &str) -> (r: Result<(), Error>)
    ensures
        is_absolute_spec(path@) ==> r is Ok,
        !is_absolute_spec(path@) ==> r matches Err(Error::PathNotAbsolute),
{
    if is_absolute(path) {
        Ok(())
    } else {
        Err(Error::PathNotAbsolute)
    }
}

/// Splits a path into its components.
pub fn path_components(path: &str) -> (out: Vec<String>)
    ensures
        names(out@) == components(path@),
{
    let n: usize = path.unicode_len();
    let mut out: Vec<String> = Vec::new();
    let mut i: usize = 0;
    assert(names(out@) =~= Seq::<Seq<char>>::empty());
    while i < n
        invariant
            n == path@.len(),
            0 <= i <= n,
            components(path@) == names(out@) + components_from(path@, i as int),
        decreases n - i,
    {
        let mut j: usize = i;
        while j < n && path.get_char(j) != '/'
            invariant
                n == path@.len(),
                i <= j <= n,
                segment_end(path@, i as int) == segment_end(path@, j as int),
            decreases n - j,
        {
            j = j + 1;
        }
        proof {
            lemma_segment_end_bounds(path@, i as int);
        }
        let dropped = j == i || (j == i + 1 && path.get_char(i) == '.');
        let ghost before = names(out@);
        if !dropped {
            let seg = path.substring_char(i, j);
            out.push(seg.to_owned());
            assert(names(out@) =~= before + seq![path@.subrange(i as int, j as int)]);
        }
        if j == n {
            i = n;
        } else {
            i = j + 1;
        }
    }
    out
}

/// The component that names the parent directory.
pub open spec fn parent_dir() -> Seq<char> {
    seq!['.', '.']
}

/// The components written out with one separator between neighbours.
pub open spec fn join(cs: Seq<Seq<char>>) -> Seq<char>
    decreases cs.len(),
{
    if cs.len() == 0 {
        Seq::empty()
    } else if cs.len() == 1 {
        cs[0]
    } else {
        join(cs.drop_last()) + seq!['/'] + cs.last()
    }
}

/// The first index at or after `i` at which `a` and `b` differ or one of them ends.
pub open spec fn mismatch_from(a: Seq<Seq<char>>, b: Seq<Seq<char>>, i: int) -> int
    decreases a.len() - i,
{
    if i < 0 || i >= a.len() || i >= b.len() || a[i] != b[i] {
        i
    } else {
        mismatch_from(a, b, i + 1)
    }
}

/// The number of leading components that `a` and `b` share.
pub open spec fn common_prefix_len(a: Seq<Seq<char>>, b: Seq<Seq<char>>) -> int {
    mismatch_from(a, b, 0)
}

/// `n` parent-directory components.
pub open spec fn ups(n: int) -> Seq<Seq<char>> {
    Seq::new(if n >= 0 { n as nat } else { 0 }, |i: int| parent_dir())
}

/// The components that lead from `base` to `target`: one step up for each
/// component of `base` behind the shared prefix, then the components of
/// `target` behind it.
pub open spec fn relative_components(target: Seq<Seq<char>>, base: Seq<Seq<char>>) -> Seq<
    Seq<char>,
> {
    let k = common_prefix_len(target, base);
    ups(base.len() - k) + target.skip(k)
}

/// The path that `relative_path` returns for two absolute paths.
pub open spec fn relative_path_spec(target: Seq<char>, base: Seq<char>) -> Seq<char> {
    join(relative_components(components(target), components(base)))
}

/// The components left when each parent-directory component removes the
/// component before it, if there is one.
pub open spec fn resolve(cs: Seq<Seq<char>>) -> Seq<Seq<char>>
    decreases cs.len(),
{
    if cs.len() == 0 {
        Seq::empty()
    } else {
        let before = resolve(cs.drop_last());
        if cs.last() == parent_dir() {
            if before.len() > 0 {
                before.drop_last()
            } else {
                before
            }
        } else {
            before.push(cs.last())
        }
    }
}

/// The root marker of a path: a separator if it is absolute, else nothing.
pub open spec fn root_of(p: Seq<char>) -> Seq<char> {
    if is_absolute_spec(p) {
        seq!['/']
    } else {
        Seq::empty()
    }
}

/// The path that `normalize_path` returns.
pub open spec fn normalize_spec(p: Seq<char>) -> Seq<char> {
    root_of(p) + join(resolve(components(p)))
}

/// The two lists agree up to the index at which the search from `i` stops,
/// and differ there unless one of them ends.
pub proof fn lemma_mismatch_bounds(a: Seq<Seq<char>>, b: Seq<Seq<char>>, i: int)
    requires
        0 <= i <= a.len(),
        i <= b.len(),
    ensures
        i <= mismatch_from(a, b, i) <= a.len(),
        mismatch_from(a, b, i) <= b.len(),
        forall|j: int| i <= j < mismatch_from(a, b, i) ==> a[j] == b[j],
        mismatch_from(a, b, i) < a.len() && mismatch_from(a, b, i) < b.len() ==> a[mismatch_from(
            a,
            b,
            i,
        )] != b[mismatch_from(a, b, i)],
    decreases a.len() - i,
{
    if i < a.len() && i < b.len() && a[i] == b[i] {
        lemma_mismatch_bounds(a, b, i + 1);
    }
}

/// Tells whether `s` is the parent-directory component.
pub fn is_parent_dir(s: &str) -> (r: bool)
    ensures
        r == (s@ == parent_dir()),
{
    let r = s.unicode_len() == 2 && s.get_char(0) == '.' && s.get_char(1) == '.';
    proof {
        if r {
            assert(s@ =~= parent_dir());
        }
    }
    r
}

/// Writes the components out with one separator between neighbours.
pub fn join_components(cs: &Vec<String>) -> (out: String)
    ensures
        out@ == join(names(cs@)),
{
    let mut out = String::new();
    let mut i: usize = 0;
    while i < cs.len()
        invariant
            0 <= i <= cs.len(),
            out@ == join(names(cs@).take(i as int)),
        decreases cs.len() - i,
    {
        proof {
            reveal_strlit("/");
            let next = names(cs@).take(i + 1);
            assert(next.drop_last() =~= names(cs@).take(i as int));
            assert(next.last() == cs@[i as int]@);
            assert("/"@ =~= seq!['/']);
        }
        if i > 0 {
            out.append("/");
        }
        out.append(cs[i].as_str());
        proof {
            if i == 0 {
                assert(out@ =~= cs@[0]@);
            }
        }
        i = i + 1;
    }
    proof {
        assert(names(cs@).take(cs.len() as int) =~= names(cs@));
    }
    out
}

/// The path to reach.
pub struct TargetPath<'a>(pub &'a str);

/// The path to start from.
pub struct BasePath<'a>(pub &'a str);

/// Returns the path to `target` relative to `base`, computed from the
/// components of the two paths alone. Both must be absolute.
pub fn relative_path(target: TargetPath, base: BasePath) -> (r: Result<String, Error>)
    ensures
        is_absolute_spec(target.0@) && is_absolute_spec(base.0@) ==> r is Ok && r->Ok_0@
            == relative_path_spec(target.0@, base.0@),
        !(is_absolute_spec(target.0@) && is_absolute_spec(base.0@)) ==> r matches Err(
            Error::PathNotAbsolute,
        ),
        target.0@ == base.0@ && is_absolute_spec(base.0@) ==> r is Ok && r->Ok_0@.len() == 0,
{
    if !is_absolute(target.0) || !is_absolute(base.0) {
        return Err(Error::PathNotAbsolute);
    }
    let target_components = path_components(target.0);
    let base_components = path_components(base.0);
    let rel = relative_of(&target_components, &base_components);
    proof {
        if target.0@ == base.0@ {
            lemma_relative_to_self(components(base.0@));
        }
    }
    Ok(join_components(&rel))
}

/// The relative path from a list of components to itself is empty.
pub proof fn lemma_relative_to_self(a: Seq<Seq<char>>)
    ensures
        relative_components(a, a) =~= Seq::<Seq<char>>::empty(),
{
    lemma_mismatch_bounds(a, a, 0);
}

/// Computes the components that lead from `base` to `target`.
pub fn relative_of(target: &Vec<String>, base: &Vec<String>) -> (out: Vec<String>)
    ensures
        names(out@) == relative_components(names(target@), names(base@)),
{
    let ghost t = names(target@);
    let ghost b = names(base@);
    let mut k: usize = 0;
    while k < target.len() && k < base.len() && target[k] == base[k]
        invariant
            0 <= k <= target.len(),
            k <= base.len(),
            t == names(target@),
            b == names(base@),
            mismatch_from(t, b, 0) == mismatch_from(t, b, k as int),
        decreases target.len() - k,
    {
        k = k + 1;
    }
    proof {
        lemma_mismatch_bounds(t, b, 0);
    }
    let mut out: Vec<String> = Vec::new();
    let mut i: usize = k;
    while i < base.len()
        invariant
            k <= i <= base.len(),
            names(out@) == ups(i - k),
        decreases base.len() - i,
    {
        proof {
            reveal_strlit("..");
            assert(".."@ =~= parent_dir());
        }
        let ghost before = names(out@);
        out.push(String::from_str(".."));
        assert(names(out@) =~= before.push(parent_dir()));
        assert(before.push(parent_dir()) =~= ups(i + 1 - k));
        i = i + 1;
    }
    let mut j: usize = k;
    while j < target.len()
        invariant
            k <= j <= target.len(),
            t == names(target@),
            names(out@) == ups(base.len() - k) + t.subrange(k as int, j as int),
        decreases target.len() - j,
    {
        let ghost before = names(out@);
        out.push(target[j].clone());
        assert(names(out@) =~= before.push(t[j as int]));
        assert(before.push(t[j as int]) =~= ups(base.len() - k) + t.subrange(k as int, j + 1));
        j = j + 1;
    }
    assert(t.subrange(k as int, target.len() as int) =~= t.skip(k as int));
    out
}

/// Removes, for each parent-directory component, the component before it.
pub fn resolve_components(comps: &Vec<String>) -> (stack: Vec<String>)
    ensures
        names(stack@) == resolve(names(comps@)),
{
    let mut stack: Vec<String> = Vec::new();
    let mut i: usize = 0;
    assert(names(stack@) =~= resolve(names(comps@).take(0)));
    while i < comps.len()
        invariant
            0 <= i <= comps.len(),
            names(stack@) == resolve(names(comps@).take(i as int)),
        decreases comps.len() - i,
    {
        proof {
            let next = names(comps@).take(i + 1);
            assert(next.drop_last() =~= names(comps@).take(i as int));
            assert(next.last() == comps@[i as int]@);
        }
        let ghost before = names(stack@);
        if is_parent_dir(comps[i].as_str()) {
            if stack.len() > 0 {
                stack.pop();
                assert(names(stack@) =~= before.drop_last());
            }
        } else {
            stack.push(comps[i].clone());
            assert(names(stack@) =~= before.push(comps@[i as int]@));
        }
        i = i + 1;
    }
    assert(names(comps@).take(comps.len() as int) =~= names(comps@));
    stack
}

/// Normalizes a path from its text alone: the root is kept, `.` and empty
/// segments are dropped, and each `..` removes the component before it,
/// never the root.
pub fn normalize_path(path: &str) -> (out: String)
    ensures
        out@ == normalize_spec(path@),
{
    let comps = path_components(path);
    let stack = resolve_components(&comps);
    proof {
        reveal_strlit("/");
        assert("/"@ =~= seq!['/']);
    }
    let mut out = String::new();
    if is_absolute(path) {
        out.append("/");
    }
    let body = join_components(&stack);
    out.append(body.as_str());
    assert(out@ =~= normalize_spec(path@));
    out
}

/// `a` is the beginning of `b`.
pub open spec fn is_prefix(a: Seq<Seq<char>>, b: Seq<Seq<char>>) -> bool {
    a.len() <= b.len() && b.take(a.len() as int) == a
}

/// Tells whether the names of `a` are the first names of `b`.
pub fn has_prefix(a: &Vec<String>, b: &Vec<String>) -> (r: bool)
    ensures
        r == is_prefix(names(a@), names(b@)),
{
    if a.len() > b.len() {
        return false;
    }
    let mut i: usize = 0;
    while i < a.len()
        invariant
            a.len() <= b.len(),
            0 <= i <= a.len(),
            forall|j: int| 0 <= j < i ==> a@[j]@ == b@[j]@,
        decreases a.len() - i,
    {
        if a[i] != b[i] {
            assert(names(b@).take(a.len() as int)[i as int] != names(a@)[i as int]);
            return false;
        }
        i = i + 1;
    }
    assert(names(b@).take(a.len() as int) =~= names(a@));
    true
}

/// Tells whether two lists hold the same names in the same order.
pub fn same_names(a: &Vec<String>, b: &Vec<String>) -> (r: bool)
    ensures
        r == (names(a@) == names(b@)),
{
    if a.len() != b.len() {
        assert(names(a@).len() != names(b@).len());
        return false;
    }
    let mut i: usize = 0;
    while i < a.len()
        invariant
            a.len() == b.len(),
            0 <= i <= a.len(),
            forall|j: int| 0 <= j < i ==> a@[j]@ == b@[j]@,
        decreases a.len() - i,
    {
        if a[i] != b[i] {
            assert(names(a@)[i as int] != names(b@)[i as int]);
            return false;
        }
        i = i + 1;
    }
    assert(names(a@) =~= names(b@));
    true
}

/// A copy of a list of names.
pub fn copy_names(v: &Vec<String>) -> (out: Vec<String>)
    ensures
        names(out@) == names(v@),
{
    let mut out: Vec<String> = Vec::new();
    let mut i: usize = 0;
    while i < v.len()
        invariant
            0 <= i <= v.len(),
            names(out@) == names(v@).take(i as int),
        decreases v.len() - i,
    {
        let ghost before = names(out@);
        out.push(v[i].clone());
        assert(names(out@) =~= before.push(v@[i as int]@));
        assert(before.push(v@[i as int]@) =~= names(v@).take(i + 1));
        i = i + 1;
    }
    assert(names(v@).take(v.len() as int) =~= names(v@));
    out
}

/// A symbolic link: the components of its path below the target's root,
/// its path, and the text it points to.
pub struct Symlink {
    pub item: Vec<String>,
    pub path: String,
    pub target: String,
}

/// A symbolic link, as contracts speak of it.
pub ghost struct SymlinkView {
    pub item: Seq<Seq<char>>,
    pub path: Seq<char>,
    pub target: Seq<char>,
}

impl View for Symlink {
    type V = SymlinkView;

    open spec fn view(&self) -> SymlinkView {
        SymlinkView { item: names(self.item@), path: self.path@, target: self.target@ }
    }
}

/// The views of a list of links.
pub open spec fn links_view(links: Seq<Symlink>) -> Seq<SymlinkView> {
    links.map_values(|l: Symlink| l@)
}

/// `b` appended to `a` as one more stretch of path: with a separator
/// between them unless `a` is empty or already ends in one.
pub open spec fn path_join(a: Seq<char>, b: Seq<char>) -> Seq<char> {
    if a.len() == 0 {
        b
    } else if a.last() == '/' {
        a + b
    } else {
        a + seq!['/'] + b
    }
}

/// Appends the relative path `b` to the path `a`.
pub fn join_path(a: &str, b: &str) -> (out: String)
    ensures
        out@ == path_join(a@, b@),
{
    let n: usize = a.unicode_len();
    let mut out = String::from_str(a);
    if n > 0 && a.get_char(n - 1) != '/' {
        proof {
            reveal_strlit("/");
            assert("/"@ =~= seq!['/']);
        }
        out.append("/");
    }
    out.append(b);
    proof {
        if n == 0 {
            assert(out@ =~= b@);
        }
    }
    out
}

/// The names of `a` followed by those of `b`.
pub fn concat_names(a: &Vec<String>, b: &Vec<String>) -> (out: Vec<String>)
    ensures
        names(out@) == names(a@) + names(b@),
{
    let mut out = copy_names(a);
    let mut i: usize = 0;
    assert(names(out@) =~= names(a@) + names(b@).take(0));
    while i < b.len()
        invariant
            0 <= i <= b.len(),
            names(out@) == names(a@) + names(b@).take(i as int),
        decreases b.len() - i,
    {
        let ghost before = names(out@);
        out.push(b[i].clone());
        assert(names(out@) =~= before.push(b@[i as int]@));
        assert(before.push(b@[i as int]@) =~= names(a@) + names(b@).take(i + 1));
        i = i + 1;
    }
    assert(names(b@).take(b.len() as int) =~= names(b@));
    out
}

} // verus!
