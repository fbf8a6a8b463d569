//! Small lemmas about membership in sequences, shared by the sorted-array
//! merge proofs.

use vstd::prelude::*;

verus! {

/// Pushing one element extends membership by exactly that element.
pub proof fn lemma_push_contains<T>(s: Seq<T>, v: T)
    ensures
        forall|x: T| #[trigger] s.push(v).contains(x) <==> s.contains(x) || x == v,
{
    assert forall|x: T| #[trigger] s.push(v).contains(x) implies s.contains(x) || x == v by {
        let k = choose|k: int| 0 <= k < s.push(v).len() && s.push(v)[k] == x;
        if k < s.len() {
            assert(s[k] == x);
        }
    }
    assert forall|x: T| s.contains(x) || x == v implies #[trigger] s.push(v).contains(x) by {
        if s.contains(x) {
            let k = choose|k: int| 0 <= k < s.len() && s[k] == x;
            assert(s.push(v)[k] == x);
        } else {
            assert(s.push(v)[s.len() as int] == x);
        }
    }
}

/// Taking one element more extends membership by exactly that element.
pub proof fn lemma_take_step<T>(s: Seq<T>, n: int)
    requires
        0 <= n < s.len(),
    ensures
        forall|x: T| #[trigger] s.take(n + 1).contains(x) <==> s.take(n).contains(x) || s[n] == x,
{
    assert(s.take(n + 1) =~= s.take(n).push(s[n]));
    lemma_push_contains(s.take(n), s[n]);
}

/// Membership in a concatenation is membership in either part.
pub proof fn lemma_concat_contains<T>(a: Seq<T>, b: Seq<T>)
    ensures
        forall|x: T| #[trigger] (a + b).contains(x) <==> a.contains(x) || b.contains(x),
{
    assert forall|x: T| #[trigger] (a + b).contains(x) implies a.contains(x) || b.contains(x) by {
        let k = choose|k: int| 0 <= k < (a + b).len() && (a + b)[k] == x;
        if k < a.len() {
            assert(a[k] == x);
        } else {
            assert(b[k - a.len()] == x);
        }
    }
    assert forall|x: T| a.contains(x) || b.contains(x) implies #[trigger] (a + b).contains(x) by {
        if a.contains(x) {
            let k = choose|k: int| 0 <= k < a.len() && a[k] == x;
            assert((a + b)[k] == x);
        } else {
            let k = choose|k: int| 0 <= k < b.len() && b[k] == x;
            assert((a + b)[a.len() + k] == x);
        }
    }
}

/// A sequence splits into its first `n` elements and the rest.
pub proof fn lemma_take_skip<T>(s: Seq<T>, n: int)
    requires
        0 <= n <= s.len(),
    ensures
        s.take(n) + s.skip(n) == s,
        forall|x: T| #[trigger] s.contains(x) <==> s.take(n).contains(x) || s.skip(n).contains(x),
{
    assert(s.take(n) + s.skip(n) =~= s);
    lemma_concat_contains(s.take(n), s.skip(n));
}

/// Taking `v` elements more splits off exactly the window `[i, i + v)`.
pub proof fn lemma_take_extend<T>(s: Seq<T>, i: int, v: int)
    requires
        0 <= i <= i + v <= s.len(),
    ensures
        s.take(i + v) == s.take(i) + s.subrange(i, i + v),
        forall|x: T| #[trigger]
            s.take(i + v).contains(x) <==> s.take(i).contains(x) || s.subrange(i, i + v).contains(
                x,
            ),
{
    assert(s.take(i + v) =~= s.take(i) + s.subrange(i, i + v));
    lemma_concat_contains(s.take(i), s.subrange(i, i + v));
}

/// Taking the whole length changes nothing.
pub proof fn lemma_take_full<T>(s: Seq<T>)
    ensures
        s.take(s.len() as int) == s,
{
    assert(s.take(s.len() as int) =~= s);
}

/// In a strictly increasing sequence the element at position `i` is at
/// least `i`, so no such sequence of 16-bit values is longer than 65 536.
pub proof fn lemma_sorted_index_lb(s: Seq<u16>, i: int)
    requires
        crate::util::sorted_strict(s),
        0 <= i < s.len(),
    ensures
        s[i] >= i,
    decreases i,
{
    if i > 0 {
        lemma_sorted_index_lb(s, i - 1);
    }
}

/// A strictly increasing sequence of 16-bit values has at most 65 536
/// elements.
pub proof fn lemma_sorted_len(s: Seq<u16>)
    requires
        crate::util::sorted_strict(s),
    ensures
        s.len() <= 65536,
{
    if s.len() > 65536 {
        lemma_sorted_index_lb(s, 65536);
    }
}

/// In a strictly increasing sequence, values grow at least as fast as
/// indices.
pub proof fn lemma_sorted_offset(s: Seq<u16>, i: int, j: int)
    requires
        crate::util::sorted_strict(s),
        0 <= i <= j < s.len(),
    ensures
        s[j] >= s[i] + (j - i),
    decreases j - i,
{
    if i < j {
        lemma_sorted_offset(s, i, j - 1);
    }
}

/// A window of a strictly increasing sequence whose values lie in
/// `[lo, hi]` holds at most `hi - lo + 1` elements.
pub proof fn lemma_window_len(s: Seq<u16>, ps: int, pe: int, lo: u16, hi: u16)
    requires
        crate::util::sorted_strict(s),
        lo <= hi,
        0 <= ps <= pe <= s.len(),
        forall|m: int| ps <= m < pe ==> lo <= #[trigger] s[m] <= hi,
    ensures
        pe - ps <= hi - lo + 1,
{
    if ps < pe {
        lemma_sorted_offset(s, ps, pe - 1);
        assert(lo <= s[ps] <= hi);
        assert(lo <= s[pe - 1] <= hi);
    }
}

/// A strictly increasing sequence whose members all appear in another
/// strictly increasing sequence is no longer than it.
pub proof fn lemma_subset_len(s1: Seq<u16>, s2: Seq<u16>)
    requires
        crate::util::sorted_strict(s1),
        crate::util::sorted_strict(s2),
        forall|x: u16| #[trigger] s1.contains(x) ==> s2.contains(x),
    ensures
        s1.len() <= s2.len(),
    decreases s1.len() + s2.len(),
{
    if s1.len() > 0 {
        assert(s1.contains(s1.last())) by {
            assert(s1[s1.len() - 1] == s1.last());
        }
        assert(s2.contains(s1.last()));
        let k = choose|k: int| 0 <= k < s2.len() && s2[k] == s1.last();
        if s1.last() == s2.last() {
            let t1 = s1.drop_last();
            let t2 = s2.drop_last();
            assert forall|x: u16| #[trigger] t1.contains(x) implies t2.contains(x) by {
                let m = choose|m: int| 0 <= m < t1.len() && t1[m] == x;
                assert(s1[m] == x && s1[m] < s1.last());
                assert(s1.contains(x)) by {
                    assert(s1[m] == x);
                }
                let n = choose|n: int| 0 <= n < s2.len() && s2[n] == x;
                assert(n < s2.len() - 1 || s2[n] == s2.last());
                assert(t2[n] == x);
            }
            lemma_subset_len(t1, t2);
        } else {
            // The last of `s1` sits strictly inside `s2`, so all of `s1`
            // fits in `s2` without its last element.
            assert(s2[k] <= s2.last()) by {
                assert(k < s2.len() - 1 ==> s2[k] < s2[s2.len() - 1]);
                assert(s2[s2.len() - 1] == s2.last());
            }
            let t2 = s2.drop_last();
            assert forall|x: u16| #[trigger] s1.contains(x) implies t2.contains(x) by {
                let m = choose|m: int| 0 <= m < s1.len() && s1[m] == x;
                assert(x <= s1.last()) by {
                    assert(m < s1.len() - 1 ==> s1[m] < s1[s1.len() - 1]);
                    assert(s1[s1.len() - 1] == s1.last());
                }
                let n = choose|n: int| 0 <= n < s2.len() && s2[n] == x;
                assert(x < s2.last());
                assert(n < s2.len() - 1) by {
                    assert(s2[s2.len() - 1] == s2.last());
                }
                assert(t2[n] == x);
            }
            lemma_subset_len(s1, t2);
        }
    }
}

} // verus!
