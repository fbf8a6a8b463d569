//! Galloping merge kernels: the co-walk that switches to exponential
//! search when one side keeps winning.

use vstd::prelude::*;

use crate::array_ops::{
    extend_run, lemma_absent_in_prefixes, lemma_less_only_left, lemma_tail_absent, merge_post,
};
use crate::seq_facts::{lemma_push_contains, lemma_take_extend, lemma_take_full, lemma_take_skip, lemma_take_step};
use crate::util::{exponential_search, sorted_strict, SetOp};

verus! {

/// How many rounds one side must win in a row before the walk switches to
/// galloping.
pub const MIN_GALLOP: usize = 7;

/// Union of two sorted arrays: walk while the sides alternate, gallop with
/// exponential search while one side keeps winning.
#[verifier::rlimit(80)]
pub fn union_gallop(lhs: &[u16], rhs: &[u16]) -> (out: Vec<u16>)
    requires
        sorted_strict(lhs@),
        sorted_strict(rhs@),
    ensures
        merge_post(SetOp::Union, lhs@, rhs@, out@),
{
    let ghost a = lhs@;
    let ghost b = rhs@;
    let mut out: Vec<u16> = Vec::new();
    let len1 = lhs.len();
    let len2 = rhs.len();
    let mut i: usize = 0;
    let mut j: usize = 0;
    let mut count1: usize = 0;
    let mut count2: usize = 0;
    let mut min_gallop: usize = MIN_GALLOP;
    let mut galloping = false;
    while i < len1 && j < len2
        invariant
            sorted_strict(a),
            sorted_strict(b),
            a == lhs@,
            b == rhs@,
            len1 == a.len(),
            len2 == b.len(),
            i <= len1,
            j <= len2,
            sorted_strict(out@),
            forall|m: int| 0 <= m < i && j < len2 ==> a[m] < b[j as int],
            forall|m: int| 0 <= m < j && i < len1 ==> b[m] < a[i as int],
            forall|m: int| 0 <= m < out@.len() && i < len1 ==> out@[m] < a[i as int],
            forall|m: int| 0 <= m < out@.len() && j < len2 ==> out@[m] < b[j as int],
            forall|x: u16| #[trigger]
                out@.contains(x) <==> a.take(i as int).contains(x) || b.take(j as int).contains(
                    x,
                ),
        decreases len1 - i + len2 - j,
    {
        if !galloping {
            let va = lhs[i];
            let vb = rhs[j];
            if va < vb {
                proof {
                    lemma_less_only_left(a, b, i as int, j as int, out@);
                    lemma_take_step(a, i as int);
                    lemma_push_contains(out@, va);
                }
                out.push(va);
                i += 1;
                count1 = if count1 < MIN_GALLOP { count1 + 1 } else { count1 };
                count2 = 0;
            } else if va > vb {
                proof {
                    lemma_less_only_left(b, a, j as int, i as int, out@);
                    lemma_take_step(b, j as int);
                    lemma_push_contains(out@, vb);
                }
                out.push(vb);
                j += 1;
                count1 = 0;
                count2 = if count2 < MIN_GALLOP { count2 + 1 } else { count2 };
            } else {
                proof {
                    lemma_absent_in_prefixes(a, b, i as int, j as int, out@);
                    lemma_take_step(a, i as int);
                    lemma_take_step(b, j as int);
                    lemma_push_contains(out@, va);
                }
                out.push(va);
                i += 1;
                j += 1;
                count1 = 0;
                count2 = 0;
            }
            if count1 >= min_gallop || count2 >= min_gallop {
                galloping = true;
            }
        } else {
            // One run is winning consistently; gallop on each side in turn
            // until neither wins big any more.
            let vb = rhs[j];
            let ghost iw = i as int;
            let ghost jw = j as int;
            match exponential_search(vstd::slice::slice_subrange(lhs, i, len1), vb) {
                Ok(v) => {
                    proof {
                        assert(a[i + v] == vb);
                        lemma_union_run(a, b, i as int, (v + 1) as int, j as int, out@);
                        lemma_take_extend(a, i as int, (v + 1) as int);
                        lemma_take_step(b, j as int);
                        assert(a.subrange(i as int, i + v + 1).contains(b[j as int])) by {
                            assert(a.subrange(i as int, i + v + 1)[v as int] == vb);
                        }
                        assert forall|m: int| i <= m < i + v + 1 implies a[m] <= vb by {
                            assert(m < i + v ==> a[m] < a[i + v]);
                        }
                    }
                    extend_run(&mut out, lhs, i, i + v + 1);
                    i = i + v + 1;
                    j = j + 1;
                    count1 = v + 1;
                },
                Err(v) => {
                    proof {
                        lemma_union_run(a, b, i as int, v as int, j as int, out@);
                        lemma_take_extend(a, i as int, v as int);
                        lemma_skip_window(a, i as int, v as int, vb);
                        if v == 0 {
                            // The left head is above the right head.
                            assert(a.skip(i as int)[0] >= vb);
                            assert(a[i as int] != vb) by {
                                if a[i as int] == vb {
                                    assert(a.skip(i as int)[0] == vb);
                                    assert(a.skip(i as int).contains(vb));
                                }
                            }
                        }
                    }
                    extend_run(&mut out, lhs, i, i + v);
                    i = i + v;
                    count1 = v;
                },
            }
            proof {
                assert(i > iw || j > jw || a[i as int] > b[j as int]);
            }
            if i < len1 && j < len2 {
                let va = lhs[i];
                match exponential_search(vstd::slice::slice_subrange(rhs, j, len2), va) {
                    Ok(w) => {
                        proof {
                            assert(b[j + w] == va);
                            lemma_union_run(b, a, j as int, (w + 1) as int, i as int, out@);
                            lemma_take_extend(b, j as int, (w + 1) as int);
                            lemma_take_step(a, i as int);
                            assert(b.subrange(j as int, j + w + 1).contains(a[i as int])) by {
                                assert(b.subrange(j as int, j + w + 1)[w as int] == va);
                            }
                            assert forall|m: int| j <= m < j + w + 1 implies b[m] <= va by {
                                assert(m < j + w ==> b[m] < b[j + w]);
                            }
                        }
                        extend_run(&mut out, rhs, j, j + w + 1);
                        j = j + w + 1;
                        i = i + 1;
                        count2 = w + 1;
                    },
                    Err(w) => {
                        proof {
                            lemma_union_run(b, a, j as int, w as int, i as int, out@);
                            lemma_take_extend(b, j as int, w as int);
                            lemma_skip_window(b, j as int, w as int, va);
                            if w == 0 {
                                // The right head is at or above the left
                                // head, so the left gallop made progress.
                                assert(b.skip(j as int)[0] >= va);
                                assert(i > iw || j > jw);
                            }
                        }
                        extend_run(&mut out, rhs, j, j + w);
                        j = j + w;
                        count2 = w;
                    },
                }
            }
            min_gallop = if min_gallop > 0 {
                min_gallop - 1
            } else {
                0
            };
            if count1 < MIN_GALLOP && count2 < MIN_GALLOP {
                galloping = false;
                // Make the next switch to galloping harder to reach.
                min_gallop = if min_gallop < 65536 {
                    min_gallop + 2
                } else {
                    min_gallop
                };
            }
            proof {
                assert(i + j > iw + jw);
            }
        }
    }
    let ghost i0 = i as int;
    let ghost j0 = j as int;
    let ghost out0 = out@;
    if i < len1 {
        extend_run(&mut out, lhs, i, len1);
    }
    if j < len2 {
        extend_run(&mut out, rhs, j, len2);
    }
    proof {
        lemma_take_skip(a, i0);
        lemma_take_skip(b, j0);
        lemma_take_full(a);
        lemma_take_full(b);
        assert(a.subrange(i0, a.len() as int) == a.skip(i0));
        assert(b.subrange(j0, b.len() as int) == b.skip(j0));
    }
    out
}

/// While galloping on the left, a run below the right head stays sorted
/// against everything already emitted, and its values lie below both
/// remaining heads.
proof fn lemma_union_run(a: Seq<u16>, b: Seq<u16>, i: int, v: int, j: int, out: Seq<u16>)
    requires
        sorted_strict(a),
        sorted_strict(b),
        0 <= i,
        0 <= v,
        i + v <= a.len(),
        0 <= j <= b.len(),
        forall|m: int| 0 <= m < out.len() && i < a.len() ==> out[m] < a[i],
        i + v <= a.len(),
    ensures
        forall|m: int, n: int| 0 <= m < out.len() && i <= n < i + v ==> out[m] < a[n],
{
    assert forall|m: int, n: int| 0 <= m < out.len() && i <= n < i + v implies out[m] < a[n] by {
        assert(out[m] < a[i]);
        assert(i < n ==> a[i] < a[n]);
    }
}

/// Intersection of a sorted vector with a sorted slice by mutual
/// galloping: each side's head is looked up in the other by exponential
/// search, and only the hits survive.
pub fn and_assign_gallop(lhs: &mut Vec<u16>, rhs: &[u16])
    requires
        sorted_strict(old(lhs)@),
        sorted_strict(rhs@),
    ensures
        merge_post(SetOp::Intersection, old(lhs)@, rhs@, final(lhs)@),
{
    let ghost a = lhs@;
    let ghost b = rhs@;
    let mut out: Vec<u16> = Vec::new();
    let len1 = lhs.len();
    let len2 = rhs.len();
    let mut i: usize = 0;
    let mut j: usize = 0;
    while i < len1 && j < len2
        invariant
            sorted_strict(a),
            sorted_strict(b),
            a == lhs@,
            b == rhs@,
            len1 == a.len(),
            len2 == b.len(),
            i <= len1,
            j <= len2,
            sorted_strict(out@),
            forall|m: int| 0 <= m < i && j < len2 ==> a[m] < b[j as int],
            forall|m: int| 0 <= m < j && i < len1 ==> b[m] < a[i as int],
            forall|m: int| 0 <= m < out@.len() && i < len1 ==> out@[m] < a[i as int],
            forall|m: int| 0 <= m < out@.len() && j < len2 ==> out@[m] < b[j as int],
            forall|x: u16| #[trigger]
                out@.contains(x) <==> a.take(i as int).contains(x) && b.contains(x),
        decreases len1 - i + len2 - j,
    {
        let vb = rhs[j];
        let ghost iw = i as int;
        match exponential_search(vstd::slice::slice_subrange(lhs, i, len1), vb) {
            Ok(v) => {
                proof {
                    assert(a[i + v] == vb);
                    assert forall|m: int| i <= m < i + v implies a[m] < b[j as int] by {
                        assert(a[m] < a[i + v]);
                    }
                    lemma_and_skip(a, b, i as int, v as int, j as int);
                    lemma_take_extend(a, i as int, (v + 1) as int);
                    lemma_push_contains(out@, vb);
                    assert(!out@.contains(vb)) by {
                        if out@.contains(vb) {
                            let k = choose|k: int| 0 <= k < out@.len() && out@[k] == vb;
                            assert(out@[k] < a[i as int]);
                            assert(a[i as int] <= a[i + v]);
                        }
                    }
                    assert(!a.take(i + v + 1).contains(vb) || true);
                    assert(b.contains(vb)) by {
                        assert(b[j as int] == vb);
                    }
                }
                out.push(vb);
                i = i + v + 1;
                j = j + 1;
            },
            Err(v) => {
                proof {
                    lemma_skip_window(a, i as int, v as int, vb);
                    lemma_and_skip(a, b, i as int, v as int, j as int);
                    lemma_take_extend(a, i as int, v as int);
                }
                i = i + v;
            },
        }
        if i < len1 && j < len2 {
            let va = lhs[i];
            match exponential_search(vstd::slice::slice_subrange(rhs, j, len2), va) {
                Ok(w) => {
                    proof {
                        assert(b[j + w] == va);
                        assert forall|m: int| j <= m < j + w implies b[m] < va by {
                            assert(b[m] < b[j + w]);
                        }
                        lemma_take_step(a, i as int);
                        lemma_push_contains(out@, va);
                        assert(!out@.contains(va)) by {
                            if out@.contains(va) {
                                let k = choose|k: int| 0 <= k < out@.len() && out@[k] == va;
                            }
                        }
                        assert(b.contains(va)) by {
                            assert(b[j + w] == va);
                        }
                    }
                    out.push(va);
                    i = i + 1;
                    j = j + w + 1;
                },
                Err(w) => {
                    proof {
                        lemma_skip_window(b, j as int, w as int, va);
                        lemma_take_step(a, i as int);
                        if j + w < len2 {
                            // The element the search stopped at is strictly
                            // above the dropped left head.
                            assert(b.skip(j as int)[w as int] >= va);
                            assert(b[j + w] != va) by {
                                if b[j + w] == va {
                                    assert(b.skip(j as int)[w as int] == va);
                                    assert(b.skip(j as int).contains(va));
                                }
                            }
                        }
                        // The left head is absent from the whole right side:
                        // below `j` by the co-walk bound, from `j` on by the
                        // failed search.
                        assert(!b.contains(va)) by {
                            if b.contains(va) {
                                let k = choose|k: int| 0 <= k < b.len() && b[k] == va;
                                if k < j {
                                    assert(b[k] < a[i as int]);
                                } else {
                                    assert(b.skip(j as int)[k - j] == va);
                                    assert(b.skip(j as int).contains(va));
                                }
                            }
                        }
                    }
                    i = i + 1;
                    j = j + w;
                },
            }
        }
    }
    proof {
        lemma_take_full(a);
        if i < len1 {
            assert forall|x: u16| a.contains(x) && b.contains(x) implies a.take(
                i as int,
            ).contains(x) by {
                lemma_take_skip(a, i as int);
                if a.skip(i as int).contains(x) {
                    lemma_tail_absent(a, b, i as int, j as int, x);
                }
            }
        }
    }
    *lhs = out;
}

/// While galloping, the left elements skipped below the right head appear
/// nowhere on the right.
proof fn lemma_and_skip(a: Seq<u16>, b: Seq<u16>, i: int, v: int, j: int)
    requires
        sorted_strict(a),
        sorted_strict(b),
        0 <= i,
        0 <= v,
        i + v <= a.len(),
        0 <= j < b.len(),
        forall|m: int| 0 <= m < j ==> b[m] < a[i],
        forall|m: int| i <= m < i + v ==> a[m] < b[j],
    ensures
        forall|x: u16| #[trigger] a.subrange(i, i + v).contains(x) ==> !b.contains(x),
{
    assert forall|x: u16| #[trigger] a.subrange(i, i + v).contains(x) implies !b.contains(x) by {
        let k = choose|k: int| 0 <= k < v && #[trigger] a.subrange(i, i + v)[k] == x;
        assert(a[i + k] == x);
        assert(a[i] <= x < b[j]);
        if b.contains(x) {
            let m = choose|m: int| 0 <= m < b.len() && b[m] == x;
            if m < j {
                assert(b[m] < a[i]);
            } else {
                assert(b[j] <= b[m]);
            }
        }
    }
}

/// Transport the window bound of a suffix search back to the whole
/// sequence.
pub(crate) proof fn lemma_skip_window(s: Seq<u16>, i: int, v: int, t: u16)
    requires
        0 <= i,
        0 <= v,
        i + v <= s.len(),
        forall|m: int| 0 <= m < v ==> s.skip(i)[m] < t,
    ensures
        forall|m: int| i <= m < i + v ==> s[m] < t,
{
    assert forall|m: int| i <= m < i + v implies s[m] < t by {
        assert(s.skip(i)[m - i] == s[m]);
    }
}

} // verus!
