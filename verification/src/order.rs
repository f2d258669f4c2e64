//! The order of names: text by text, character by character.

use crate::fs::names;
use vstd::prelude::*;

verus! {

/// From index `i` on, `a` is a beginning of `b`, or holds the smaller
/// character at the first index at which they differ.
pub open spec fn precedes_from(a: Seq<char>, b: Seq<char>, i: int) -> bool
    decreases a.len() - i,
{
    if i < 0 || i >= a.len() {
        true
    } else if i >= b.len() {
        false
    } else if a[i] != b[i] {
        (a[i] as u32) < (b[i] as u32)
    } else {
        precedes_from(a, b, i + 1)
    }
}

/// `a` comes before `b` in lexicographic order, or is equal to it.
pub open spec fn precedes(a: Seq<char>, b: Seq<char>) -> bool {
    precedes_from(a, b, 0)
}

/// Each name comes before the names behind it.
pub open spec fn ascending(s: Seq<Seq<char>>) -> bool {
    forall|i: int, j: int| 0 <= i < j < s.len() ==> precedes(#[trigger] s[i], #[trigger] s[j])
}

/// Of two texts one comes before the other.
pub proof fn lemma_precedes_total(a: Seq<char>, b: Seq<char>, i: int)
    requires
        0 <= i,
    ensures
        precedes_from(a, b, i) || precedes_from(b, a, i),
    decreases a.len() - i,
{
    if i < a.len() && i < b.len() {
        if a[i] == b[i] {
            lemma_precedes_total(a, b, i + 1);
        } else {
            vstd::utf8::char_u32_cast(a[i], a[i] as u32);
            vstd::utf8::char_u32_cast(b[i], b[i] as u32);
        }
    }
}

/// What comes before a text comes before what the text comes before.
pub proof fn lemma_precedes_transitive(a: Seq<char>, b: Seq<char>, c: Seq<char>, i: int)
    requires
        0 <= i,
        precedes_from(a, b, i),
        precedes_from(b, c, i),
    ensures
        precedes_from(a, c, i),
    decreases a.len() - i,
{
    if i < a.len() && a[i] == b[i] && b[i] == c[i] {
        lemma_precedes_transitive(a, b, c, i + 1);
    }
}

/// Tells whether `a` comes before `b` in lexicographic order, or is equal to it.
pub fn comes_before(a: &str, b: &str) -> (r: bool)
    ensures
        r == precedes(a@, b@),
{
    let n: usize = a.unicode_len();
    let m: usize = b.unicode_len();
    let mut i: usize = 0;
    while i < n
        invariant
            n == a@.len(),
            m == b@.len(),
            0 <= i <= n,
            precedes(a@, b@) == precedes_from(a@, b@, i as int),
        decreases n - i,
    {
        if i >= m {
            return false;
        }
        let x = a.get_char(i);
        let y = b.get_char(i);
        if x != y {
            return (x as u32) < (y as u32);
        }
        i = i + 1;
    }
    true
}

/// Inserting a name adds it to the names that a list holds.
pub proof fn lemma_insert_to_multiset(s: Seq<Seq<char>>, i: int, x: Seq<char>)
    requires
        0 <= i <= s.len(),
    ensures
        s.insert(i, x).to_multiset() == s.to_multiset().insert(x),
{
    broadcast use vstd::seq_lib::group_to_multiset_ensures;

    let t = s.insert(i, x);
    assert(t.remove(i) =~= s);
    assert(t[i] == x);
    assert(t.contains(x));
    assert(t.to_multiset() =~= s.to_multiset().insert(x));
}

/// Puts the names in ascending lexicographic order. The result holds the
/// names that were given, each as often as it was given.
pub fn sort_names(v: Vec<String>) -> (out: Vec<String>)
    ensures
        ascending(names(out@)),
        names(out@).to_multiset() == names(v@).to_multiset(),
        out@.len() == v@.len(),
{
    let mut out: Vec<String> = Vec::new();
    let mut i: usize = 0;
    proof {
        assert(names(v@).take(0) =~= Seq::<Seq<char>>::empty());
        assert(names(out@) =~= names(v@).take(0));
    }
    while i < v.len()
        invariant
            0 <= i <= v.len(),
            out@.len() == i,
            ascending(names(out@)),
            names(out@).to_multiset() == names(v@).take(i as int).to_multiset(),
        decreases v.len() - i,
    {
        let ghost x = v@[i as int]@;
        let ghost before = names(out@);
        let mut j: usize = 0;
        while j < out.len() && comes_before(out[j].as_str(), v[i].as_str())
            invariant
                0 <= j <= out.len(),
                i < v.len(),
                x == v@[i as int]@,
                before == names(out@),
                forall|k: int| 0 <= k < j ==> precedes(#[trigger] before[k], x),
            decreases out.len() - j,
        {
            assert(before[j as int] == out@[j as int]@);
            j = j + 1;
        }
        proof {
            if j < out.len() {
                assert(before[j as int] == out@[j as int]@);
                lemma_precedes_total(before[j as int], x, 0);
                assert forall|k: int| j <= k < before.len() implies precedes(
                    x,
                    #[trigger] before[k],
                ) by {
                    if k > j {
                        lemma_precedes_transitive(x, before[j as int], before[k], 0);
                    }
                }
            }
        }
        out.insert(j, v[i].clone());
        proof {
            let after = names(out@);
            assert(after =~= before.insert(j as int, x));
            assert forall|a: int, b: int| 0 <= a < b < after.len() implies precedes(
                #[trigger] after[a],
                #[trigger] after[b],
            ) by {
                if a < j && b < j {
                    assert(after[a] == before[a] && after[b] == before[b]);
                } else if a < j && b == j {
                    assert(after[a] == before[a]);
                } else if a < j {
                    assert(after[a] == before[a] && after[b] == before[b - 1]);
                } else if a == j {
                    assert(after[b] == before[b - 1]);
                } else {
                    assert(after[a] == before[a - 1] && after[b] == before[b - 1]);
                }
            }
            lemma_insert_to_multiset(before, j as int, x);
            broadcast use vstd::seq_lib::group_to_multiset_ensures;

            assert(names(v@).take(i + 1) =~= names(v@).take(i as int).push(x));
        }
        i = i + 1;
    }
    proof {
        assert(names(v@).take(v.len() as int) =~= names(v@));
    }
    out
}

} // verus!
