//! Facts about the components of a path and about joining them.

use crate::fs::{components, components_from, is_dropped, join, lemma_segment_end_bounds};
use crate::fs::{common_prefix_len, is_absolute_spec, lemma_mismatch_bounds, normalize_spec};
use crate::fs::{parent_dir, path_join, relative_components, relative_path_spec, resolve};
use crate::fs::{segment_end, ups};
use vstd::prelude::*;

verus! {

/// A text that can be one component of a path: not empty, without a
/// separator, and not `.`.
pub open spec fn proper(c: Seq<char>) -> bool {
    &&& c.len() > 0
    &&& forall|i: int| 0 <= i < c.len() ==> c[i] != '/'
    &&& !(c.len() == 1 && c[0] == '.')
}

/// Each of the texts can be one component of a path.
pub open spec fn all_proper(cs: Seq<Seq<char>>) -> bool {
    forall|i: int| 0 <= i < cs.len() ==> proper(#[trigger] cs[i])
}

/// None of the components names the parent directory.
pub open spec fn clean(cs: Seq<Seq<char>>) -> bool {
    forall|i: int| 0 <= i < cs.len() ==> #[trigger] cs[i] != parent_dir()
}

/// Before the separator that follows `a`, a segment ends where it ends in `a`.
pub proof fn lemma_segment_end_prefix(a: Seq<char>, b: Seq<char>, i: int)
    requires
        0 <= i <= a.len(),
    ensures
        segment_end(a + seq!['/'] + b, i) == segment_end(a, i),
    decreases a.len() - i,
{
    let s = a + seq!['/'] + b;
    if i < a.len() {
        assert(s[i] == a[i]);
        if a[i] != '/' {
            lemma_segment_end_prefix(a, b, i + 1);
        }
    } else {
        assert(s[i] == '/');
    }
}

/// Behind `pre`, a segment ends where it ends in `b`, moved by the length of `pre`.
pub proof fn lemma_segment_end_shift(pre: Seq<char>, b: Seq<char>, k: int)
    requires
        0 <= k <= b.len(),
    ensures
        segment_end(pre + b, pre.len() + k) == pre.len() + segment_end(b, k),
    decreases b.len() - k,
{
    let s = pre + b;
    if k < b.len() {
        assert(s[pre.len() + k] == b[k]);
        if b[k] != '/' {
            lemma_segment_end_shift(pre, b, k + 1);
        }
    }
}

/// Behind `pre`, the components are those of `b`.
pub proof fn lemma_components_shift(pre: Seq<char>, b: Seq<char>, k: int)
    requires
        0 <= k,
    ensures
        components_from(pre + b, pre.len() + k) == components_from(b, k),
    decreases b.len() - k,
{
    let s = pre + b;
    if k < b.len() {
        lemma_segment_end_shift(pre, b, k);
        lemma_segment_end_bounds(b, k);
        let end = segment_end(b, k);
        assert(s.subrange(pre.len() + k, pre.len() + end) =~= b.subrange(k, end));
        if end < b.len() {
            lemma_components_shift(pre, b, end + 1);
        }
    }
}

/// From an index in `a` on, the components of `a`, a separator and `b`
/// are those of `a` and then those of `b`.
pub proof fn lemma_components_concat_from(a: Seq<char>, b: Seq<char>, i: int)
    requires
        0 <= i <= a.len(),
    ensures
        components_from(a + seq!['/'] + b, i) == components_from(a, i) + components(b),
    decreases a.len() - i,
{
    let s = a + seq!['/'] + b;
    let pre = a + seq!['/'];
    assert(s =~= pre + b);
    lemma_segment_end_prefix(a, b, i);
    if i < a.len() {
        lemma_segment_end_bounds(a, i);
        let end = segment_end(a, i);
        assert(s.subrange(i, end) =~= a.subrange(i, end));
        if end < a.len() {
            lemma_components_concat_from(a, b, end + 1);
            let here = if is_dropped(a.subrange(i, end)) {
                Seq::<Seq<char>>::empty()
            } else {
                seq![a.subrange(i, end)]
            };
            assert(here + (components_from(a, end + 1) + components(b)) =~= (here
                + components_from(a, end + 1)) + components(b));
        } else {
            lemma_components_shift(pre, b, 0);
            assert(components_from(s, a.len() as int + 1) == components(b));
        }
    } else {
        assert(s.subrange(i, i) =~= Seq::<char>::empty());
        lemma_components_shift(pre, b, 0);
        assert(components_from(s, a.len() as int + 1) == components(b));
        assert(components_from(a, i) + components(b) =~= components(b));
        assert(Seq::<Seq<char>>::empty() + components(b) =~= components(b));
    }
}

/// The components of two texts with a separator between them are those of
/// the first and then those of the second.
pub proof fn lemma_components_concat(a: Seq<char>, b: Seq<char>)
    ensures
        components(a + seq!['/'] + b) == components(a) + components(b),
{
    lemma_components_concat_from(a, b, 0);
}

/// A segment without a separator ends where the text ends.
pub proof fn lemma_segment_end_whole(c: Seq<char>, i: int)
    requires
        0 <= i <= c.len(),
        forall|j: int| 0 <= j < c.len() ==> c[j] != '/',
    ensures
        segment_end(c, i) == c.len(),
    decreases c.len() - i,
{
    if i < c.len() {
        lemma_segment_end_whole(c, i + 1);
    }
}

/// A proper text is its own single component.
pub proof fn lemma_components_single(c: Seq<char>)
    requires
        proper(c),
    ensures
        components(c) == seq![c],
{
    lemma_segment_end_whole(c, 0);
    assert(c.subrange(0, c.len() as int) =~= c);
}

/// Splitting undoes joining: the components of joined proper texts are the texts.
pub proof fn lemma_components_join(cs: Seq<Seq<char>>)
    requires
        all_proper(cs),
    ensures
        components(join(cs)) == cs,
    decreases cs.len(),
{
    if cs.len() == 0 {
        assert(cs =~= Seq::<Seq<char>>::empty());
    } else if cs.len() == 1 {
        lemma_components_single(cs[0]);
        assert(cs =~= seq![cs[0]]);
    } else {
        let init = cs.drop_last();
        assert(all_proper(init)) by {
            assert forall|i: int| 0 <= i < init.len() implies proper(#[trigger] init[i]) by {
                assert(init[i] == cs[i]);
            }
        }
        lemma_components_join(init);
        lemma_components_concat(join(init), cs.last());
        lemma_components_single(cs.last());
        assert(init + seq![cs.last()] =~= cs);
    }
}

/// What `components` returns are proper texts.
pub proof fn lemma_components_proper(s: Seq<char>, i: int)
    requires
        0 <= i,
    ensures
        all_proper(components_from(s, i)),
    decreases s.len() - i,
{
    if i < s.len() {
        lemma_segment_end_bounds(s, i);
        let end = segment_end(s, i);
        let seg = s.subrange(i, end);
        if end < s.len() {
            lemma_components_proper(s, end + 1);
        }
        let out = components_from(s, i);
        assert forall|k: int| 0 <= k < out.len() implies proper(#[trigger] out[k]) by {
            if !is_dropped(seg) && k == 0 {
                assert(out[0] == seg);
                assert forall|j: int| 0 <= j < seg.len() implies seg[j] != '/' by {
                    assert(seg[j] == s[i + j]);
                }
            } else if end < s.len() {
                let rest = components_from(s, end + 1);
                if is_dropped(seg) {
                    assert(out[k] == rest[k]);
                } else {
                    assert(out[k] == rest[k - 1]);
                }
            }
        }
    }
}

/// Appending a relative path appends its components.
pub proof fn lemma_components_path_join(a: Seq<char>, b: Seq<char>)
    ensures
        components(path_join(a, b)) == components(a) + components(b),
{
    if a.len() == 0 {
        assert(components(a) + components(b) =~= components(b));
    } else if a.last() == '/' {
        let front = a.drop_last();
        assert(a =~= front + seq!['/'] + Seq::<char>::empty());
        assert(a + b =~= front + seq!['/'] + b);
        lemma_components_concat(front, Seq::<char>::empty());
        lemma_components_concat(front, b);
        assert(components(front) + Seq::<Seq<char>>::empty() =~= components(front));
    } else {
        lemma_components_concat(a, b);
    }
}

/// Components that do not name the parent directory stay as they are.
pub proof fn lemma_resolve_clean_append(x: Seq<Seq<char>>, c: Seq<Seq<char>>)
    requires
        clean(c),
    ensures
        resolve(x + c) == resolve(x) + c,
    decreases c.len(),
{
    if c.len() == 0 {
        assert(x + c =~= x);
        assert(resolve(x) + c =~= resolve(x));
    } else {
        let init = c.drop_last();
        assert(clean(init)) by {
            assert forall|i: int| 0 <= i < init.len() implies #[trigger] init[i] != parent_dir() by {
                assert(init[i] == c[i]);
            }
        }
        lemma_resolve_clean_append(x, init);
        assert((x + c).drop_last() =~= x + init);
        assert((x + c).last() == c[c.len() - 1]);
        assert((resolve(x) + init).push(c.last()) =~= resolve(x) + c);
    }
}

/// Components of which none names the parent directory resolve to themselves.
pub proof fn lemma_resolve_clean(c: Seq<Seq<char>>)
    requires
        clean(c),
    ensures
        resolve(c) == c,
{
    lemma_resolve_clean_append(Seq::empty(), c);
    assert(Seq::<Seq<char>>::empty() + c =~= c);
}

/// What `resolve` returns names no parent directory, is no longer than what
/// it was given, and holds proper texts if it was given proper texts.
pub proof fn lemma_resolve_is_clean(x: Seq<Seq<char>>)
    ensures
        clean(resolve(x)),
        resolve(x).len() <= x.len(),
        all_proper(x) ==> all_proper(resolve(x)),
    decreases x.len(),
{
    if x.len() > 0 {
        let init = x.drop_last();
        lemma_resolve_is_clean(init);
        let before = resolve(init);
        if all_proper(x) {
            assert(all_proper(init)) by {
                assert forall|i: int| 0 <= i < init.len() implies proper(#[trigger] init[i]) by {
                    assert(init[i] == x[i]);
                }
            }
            assert(proper(x[x.len() - 1]));
        }
        let out = resolve(x);
        assert forall|i: int| 0 <= i < out.len() implies #[trigger] out[i] != parent_dir() by {
            if i < before.len() {
                assert(out[i] == before[i]);
            }
        }
        if all_proper(x) {
            assert forall|i: int| 0 <= i < out.len() implies proper(#[trigger] out[i]) by {
                if i < before.len() {
                    assert(out[i] == before[i]);
                }
            }
        }
    }
}

/// Resolving in two steps gives what resolving at once gives.
pub proof fn lemma_resolve_append(x: Seq<Seq<char>>, y: Seq<Seq<char>>)
    ensures
        resolve(x + y) == resolve(resolve(x) + y),
    decreases y.len(),
{
    if y.len() == 0 {
        assert(x + y =~= x);
        assert(resolve(x) + y =~= resolve(x));
        lemma_resolve_is_clean(x);
        lemma_resolve_clean(resolve(x));
    } else {
        let init = y.drop_last();
        lemma_resolve_append(x, init);
        assert((x + y).drop_last() =~= x + init);
        assert((resolve(x) + y).drop_last() =~= resolve(x) + init);
        assert((x + y).last() == y[y.len() - 1]);
        assert((resolve(x) + y).last() == y[y.len() - 1]);
    }
}

/// Steps up are proper components, and runs of them add up.
pub proof fn lemma_ups(m: int, n: int)
    requires
        0 <= m,
        0 <= n,
    ensures
        all_proper(ups(n)),
        ups(m) + ups(n) == ups(m + n),
{
    assert(ups(m) + ups(n) =~= ups(m + n));
}

/// `n` steps up from clean components take the last `n` of them away.
pub proof fn lemma_resolve_ups(x: Seq<Seq<char>>, n: int)
    requires
        clean(x),
        0 <= n <= x.len(),
    ensures
        resolve(x + ups(n)) == x.take(x.len() - n),
    decreases n,
{
    if n == 0 {
        assert(x + ups(0) =~= x);
        lemma_resolve_clean(x);
        assert(x.take(x.len() as int) =~= x);
    } else {
        lemma_resolve_ups(x, n - 1);
        assert((x + ups(n)).drop_last() =~= x + ups(n - 1));
        assert((x + ups(n)).last() == parent_dir());
        assert(x.take(x.len() - n + 1).drop_last() =~= x.take(x.len() - n));
    }
}

/// Followed from `base`, the components that lead from `base` to `target`
/// end where `target` ends, if no component of `base` names the parent directory.
pub proof fn lemma_relative_leads_back(target: Seq<Seq<char>>, base: Seq<Seq<char>>)
    requires
        clean(base),
    ensures
        resolve(base + relative_components(target, base)) == resolve(target),
{
    lemma_mismatch_bounds(target, base, 0);
    let k = common_prefix_len(target, base);
    let n = base.len() - k;
    lemma_resolve_ups(base, n);
    lemma_resolve_append(base + ups(n), target.skip(k));
    assert(base + relative_components(target, base) =~= (base + ups(n)) + target.skip(k));
    assert(base.take(k) =~= target.take(k));
    assert(target.take(k) + target.skip(k) =~= target);
    lemma_resolve_append(target.take(k), target.skip(k));
    assert(clean(target.take(k))) by {
        assert forall|i: int| 0 <= i < k implies #[trigger] target.take(k)[i] != parent_dir() by {
            assert(target.take(k)[i] == base[i]);
        }
    }
    lemma_resolve_clean(target.take(k));
}

/// The relative path from `base` to `target`, appended to `base`,
/// normalizes to what `target` normalizes to. Both paths are absolute, and
/// no component of `base` names the parent directory.
pub proof fn lemma_relative_path_leads_back(target: Seq<char>, base: Seq<char>)
    requires
        is_absolute_spec(target),
        is_absolute_spec(base),
        clean(components(base)),
    ensures
        normalize_spec(path_join(base, relative_path_spec(target, base))) == normalize_spec(target),
{
    let ct = components(target);
    let cb = components(base);
    let rel = relative_components(ct, cb);
    lemma_mismatch_bounds(ct, cb, 0);
    let k = common_prefix_len(ct, cb);
    lemma_components_proper(target, 0);
    lemma_ups(0, cb.len() - k);
    assert(all_proper(rel)) by {
        assert forall|i: int| 0 <= i < rel.len() implies proper(#[trigger] rel[i]) by {
            if i < cb.len() - k {
                assert(rel[i] == ups(cb.len() - k)[i]);
            } else {
                assert(rel[i] == ct[i - (cb.len() - k) + k]);
            }
        }
    }
    lemma_components_join(rel);
    lemma_components_path_join(base, join(rel));
    lemma_relative_leads_back(ct, cb);
    let joined = path_join(base, join(rel));
    assert(joined[0] == '/');
}

/// The components of a normalized absolute path are the resolved
/// components of the path, and none of them names the parent directory.
pub proof fn lemma_normalize_components(p: Seq<char>)
    requires
        is_absolute_spec(p),
    ensures
        is_absolute_spec(normalize_spec(p)),
        components(normalize_spec(p)) == resolve(components(p)),
        clean(components(normalize_spec(p))),
{
    let stack = resolve(components(p));
    lemma_components_proper(p, 0);
    lemma_resolve_is_clean(components(p));
    lemma_components_join(stack);
    lemma_components_concat(Seq::empty(), join(stack));
    assert(normalize_spec(p) =~= Seq::<char>::empty() + seq!['/'] + join(stack));
    assert(components(Seq::<char>::empty()) + stack =~= stack);
    assert(normalize_spec(p)[0] == '/');
}

/// Normalizing a normalized path changes nothing.
pub proof fn lemma_normalize_twice(p: Seq<char>)
    requires
        is_absolute_spec(p),
    ensures
        normalize_spec(normalize_spec(p)) == normalize_spec(p),
{
    lemma_normalize_components(p);
    lemma_resolve_clean(components(normalize_spec(p)));
}

} // verus!
