//! Multi-operand reductions: every entry point computes the left fold of
//! its operator over the operand run. Union and symmetric difference may
//! take the lazy container-by-container accumulation, which equals the
//! fold because the empty set is their identity; intersection and
//! difference take the fold of the binary operation directly.

use vstd::prelude::*;

use crate::container::Container;
use crate::roaring::{cs_contains, cs_wf, keys_sorted, lemma_key_unique, RoaringBitmap};
use crate::store::Store;
use crate::util::{high, low, op_keeps, SetOp};

verus! {

/// All bitmaps of a sequence are sound.
pub open spec fn all_wf(bs: Seq<RoaringBitmap>) -> bool {
    forall|k: int| 0 <= k < bs.len() ==> (#[trigger] bs[k]).wf()
}

/// The fold of `op` over the first `n` bitmaps, at one value.
pub open spec fn fold_contains(bs: Seq<RoaringBitmap>, n: int, op: SetOp, v: u32) -> bool
    decreases n,
{
    if n <= 0 {
        false
    } else if n == 1 {
        bs[0].contains_spec(v)
    } else {
        op_keeps(op, fold_contains(bs, n - 1, op, v), bs[n - 1].contains_spec(v))
    }
}

/// Whether some container of the sequence carries `key`.
pub open spec fn cs_has_key(s: Seq<Container>, key: u16) -> bool {
    exists|i: int| 0 <= i < s.len() && (#[trigger] s[i]).key == key
}

/// The per-key lazy fold over a flat run of containers: at each key, the
/// first container with that key seeds the set and every later one
/// combines into it with `op`; other keys pass through.
pub open spec fn fold_at(s: Seq<Container>, op: SetOp, key: u16, lo: u16) -> bool
    decreases s.len(),
{
    if s.len() == 0 {
        false
    } else {
        let c = s.last();
        if c.key == key {
            if cs_has_key(s.drop_last(), key) {
                op_keeps(op, fold_at(s.drop_last(), op, key, lo), c.contains_spec(lo))
            } else {
                c.contains_spec(lo)
            }
        } else {
            fold_at(s.drop_last(), op, key, lo)
        }
    }
}

/// The containers of the first `n` bitmaps, in processing order.
pub open spec fn flat_containers(bs: Seq<RoaringBitmap>, n: int) -> Seq<Container>
    decreases n,
{
    if n <= 0 {
        Seq::empty()
    } else {
        flat_containers(bs, n - 1) + bs[n - 1]@
    }
}

/// Appending one container leaves other keys alone and combines at its
/// own key.
proof fn lemma_fold_push(s: Seq<Container>, c: Container, op: SetOp)
    ensures
        forall|key: u16, lo: u16|
            key != c.key ==> (#[trigger] fold_at(s.push(c), op, key, lo)) == fold_at(
                s,
                op,
                key,
                lo,
            ),
        forall|lo: u16|
            (#[trigger] fold_at(s.push(c), op, c.key, lo)) == (if cs_has_key(s, c.key) {
                op_keeps(op, fold_at(s, op, c.key, lo), c.contains_spec(lo))
            } else {
                c.contains_spec(lo)
            }),
        forall|key: u16| #[trigger] cs_has_key(s.push(c), key) <==> cs_has_key(s, key) || key == c.key,
{
    assert(s.push(c).drop_last() =~= s);
    assert(s.push(c).last() == c);
    assert forall|key: u16| #[trigger]
        cs_has_key(s.push(c), key) <==> cs_has_key(s, key) || key == c.key by {
        if cs_has_key(s.push(c), key) {
            let i = choose|i: int| 0 <= i < s.push(c).len() && (#[trigger] s.push(c)[i]).key == key;
            if i < s.len() {
                assert(s[i].key == key);
            }
        }
        if cs_has_key(s, key) {
            let i = choose|i: int| 0 <= i < s.len() && (#[trigger] s[i]).key == key;
            assert(s.push(c)[i].key == key);
        }
        if key == c.key {
            assert(s.push(c)[s.len() as int].key == key);
        }
    }
}

/// Over containers with pairwise distinct keys the lazy fold is plain
/// membership: every key is seeded once and never combined.
proof fn lemma_fold_unique(s: Seq<Container>, op: SetOp)
    requires
        keys_sorted(s),
    ensures
        forall|v: u32| #[trigger]
            fold_at(s, op, high(v), low(v)) == cs_contains(s, v),
    decreases s.len(),
{
    if s.len() > 0 {
        let p = s.drop_last();
        let c = s.last();
        assert(keys_sorted(p)) by {
            assert forall|i: int, j: int| 0 <= i < j < p.len() implies p[i].key < p[j].key by {
                assert(s[i].key < s[j].key);
            }
        }
        lemma_fold_unique(p, op);
        assert(p.push(c) =~= s);
        lemma_fold_push(p, c, op);
        assert forall|v: u32| #[trigger]
            fold_at(s, op, high(v), low(v)) == cs_contains(s, v) by {
            if high(v) == c.key {
                assert(!cs_has_key(p, c.key)) by {
                    if cs_has_key(p, c.key) {
                        let i = choose|i: int| 0 <= i < p.len() && (#[trigger] p[i]).key == c.key;
                        assert(s[i].key < s[s.len() - 1].key);
                    }
                }
                assert(fold_at(s, op, high(v), low(v)) == c.contains_spec(low(v)));
                crate::roaring::lemma_key_at(s, s.len() - 1);
            } else {
                assert(fold_at(s, op, high(v), low(v)) == fold_at(p, op, high(v), low(v)));
                if cs_contains(s, v) {
                    let i = choose|i: int|
                        0 <= i < s.len() && (#[trigger] s[i]).key == high(v) && s[i].contains_spec(
                            low(v),
                        );
                    assert(p[i].key == high(v) && p[i].contains_spec(low(v)));
                }
                if cs_contains(p, v) {
                    let i = choose|i: int|
                        0 <= i < p.len() && (#[trigger] p[i]).key == high(v) && p[i].contains_spec(
                            low(v),
                        );
                    assert(s[i].key == high(v) && s[i].contains_spec(low(v)));
                }
            }
        }
    }
}

/// A key no container carries contributes nothing to the lazy fold.
proof fn lemma_fold_at_missing(s: Seq<Container>, op: SetOp, key: u16, lo: u16)
    requires
        !cs_has_key(s, key),
    ensures
        !fold_at(s, op, key, lo),
    decreases s.len(),
{
    if s.len() > 0 {
        assert(s.last().key != key) by {
            if s.last().key == key {
                assert(cs_has_key(s, key)) by {
                    assert(s[s.len() - 1].key == key);
                }
            }
        }
        assert(!cs_has_key(s.drop_last(), key)) by {
            if cs_has_key(s.drop_last(), key) {
                let i = choose|i: int|
                    0 <= i < s.drop_last().len() && (#[trigger] s.drop_last()[i]).key == key;
                assert(s[i].key == key);
            }
        }
        lemma_fold_at_missing(s.drop_last(), op, key, lo);
    }
}

/// A key is carried by a concatenation exactly when a part carries it.
proof fn lemma_has_key_concat(a: Seq<Container>, b: Seq<Container>)
    ensures
        forall|k: u16| #[trigger]
            cs_has_key(a + b, k) <==> cs_has_key(a, k) || cs_has_key(b, k),
{
    assert forall|k: u16| #[trigger]
        cs_has_key(a + b, k) <==> cs_has_key(a, k) || cs_has_key(b, k) by {
        if cs_has_key(a + b, k) {
            let i = choose|i: int| 0 <= i < (a + b).len() && (#[trigger] (a + b)[i]).key == k;
            if i < a.len() {
                assert(a[i].key == k);
            } else {
                assert(b[i - a.len()].key == k);
            }
        }
        if cs_has_key(a, k) {
            let i = choose|i: int| 0 <= i < a.len() && (#[trigger] a[i]).key == k;
            assert((a + b)[i].key == k);
        }
        if cs_has_key(b, k) {
            let i = choose|i: int| 0 <= i < b.len() && (#[trigger] b[i]).key == k;
            assert((a + b)[a.len() + i].key == k);
        }
    }
}

/// Appending a key-sorted container run to the lazy fold combines it in
/// one step, for the operators whose identity is the empty set.
proof fn lemma_append_run(p: Seq<Container>, cs: Seq<Container>, m: int, op: SetOp)
    requires
        op == SetOp::Union || op == SetOp::SymmetricDifference,
        keys_sorted(cs),
        0 <= m <= cs.len(),
    ensures
        forall|v: u32| #[trigger]
            fold_at(p + cs.take(m), op, high(v), low(v)) == op_keeps(
                op,
                fold_at(p, op, high(v), low(v)),
                cs_contains(cs.take(m), v),
            ),
    decreases m,
{
    if m == 0 {
        assert(p + cs.take(0) =~= p);
        assert forall|v: u32| #[trigger]
            fold_at(p + cs.take(0), op, high(v), low(v)) == op_keeps(
                op,
                fold_at(p, op, high(v), low(v)),
                cs_contains(cs.take(0), v),
            ) by {
            assert(!cs_contains(cs.take(0), v)) by {
                if cs_contains(cs.take(0), v) {
                    let i = choose|i: int|
                        0 <= i < 0 && (#[trigger] cs.take(0)[i]).key == high(v);
                }
            }
        }
    } else {
        lemma_append_run(p, cs, m - 1, op);
        let x = p + cs.take(m - 1);
        let c = cs[m - 1];
        assert(p + cs.take(m) =~= x.push(c));
        lemma_fold_push(x, c, op);
        crate::roaring::lemma_cs_push(cs.take(m - 1), c);
        assert(cs.take(m) =~= cs.take(m - 1).push(c));
        lemma_has_key_concat(p, cs.take(m - 1));
        // The run is key-sorted, so the processed prefix lacks this key.
        assert(!cs_has_key(cs.take(m - 1), c.key)) by {
            if cs_has_key(cs.take(m - 1), c.key) {
                let i = choose|i: int|
                    0 <= i < m - 1 && (#[trigger] cs.take(m - 1)[i]).key == c.key;
                assert(cs[i].key < cs[m - 1].key);
            }
        }
        assert forall|v: u32| #[trigger]
            fold_at(p + cs.take(m), op, high(v), low(v)) == op_keeps(
                op,
                fold_at(p, op, high(v), low(v)),
                cs_contains(cs.take(m), v),
            ) by {
            assert(fold_at(p + cs.take(m), op, high(v), low(v)) == fold_at(
                x.push(c),
                op,
                high(v),
                low(v),
            ));
            assert(cs_contains(cs.take(m), v) <==> cs_contains(cs.take(m - 1), v) || (c.key
                == high(v) && c.contains_spec(low(v))));
            if high(v) == c.key {
                assert(!cs_contains(cs.take(m - 1), v)) by {
                    if cs_contains(cs.take(m - 1), v) {
                        let i = choose|i: int|
                            0 <= i < m - 1 && (#[trigger] cs.take(m - 1)[i]).key == high(v)
                                && cs.take(m - 1)[i].contains_spec(low(v));
                        assert(cs_has_key(cs.take(m - 1), c.key)) by {
                            assert(cs.take(m - 1)[i].key == c.key);
                        }
                    }
                }
                assert(cs_has_key(x, c.key) == cs_has_key(p, c.key));
                if !cs_has_key(p, c.key) {
                    lemma_fold_at_missing(p, op, high(v), low(v));
                }
            }
        }
    }
}

/// For union and symmetric difference the lazy per-key accumulation is
/// the operator fold over the operand run: both operators treat the
/// empty set as identity, so a freshly seeded key and a combined key
/// agree with the fold.
proof fn lemma_lazy_is_fold(bs: Seq<RoaringBitmap>, n: int, op: SetOp)
    requires
        all_wf(bs),
        op == SetOp::Union || op == SetOp::SymmetricDifference,
        0 <= n <= bs.len(),
    ensures
        forall|v: u32| #[trigger]
            fold_at(flat_containers(bs, n), op, high(v), low(v)) == fold_contains(bs, n, op, v),
    decreases n,
{
    if n > 0 {
        lemma_lazy_is_fold(bs, n - 1, op);
        assert(bs[n - 1].wf());
        lemma_append_run(flat_containers(bs, n - 1), bs[n - 1]@, bs[n - 1]@.len() as int, op);
        assert(bs[n - 1]@.take(bs[n - 1]@.len() as int) =~= bs[n - 1]@);
        assert forall|v: u32| #[trigger]
            fold_at(flat_containers(bs, n), op, high(v), low(v)) == fold_contains(
                bs,
                n,
                op,
                v,
            ) by {
            assert(fold_at(flat_containers(bs, n - 1), op, high(v), low(v)) == fold_contains(
                bs,
                n - 1,
                op,
                v,
            ));
            assert(cs_contains(bs[n - 1]@, v) == bs[n - 1].contains_spec(v));
        }
    } else {
        assert forall|v: u32|
            !(#[trigger] fold_at(flat_containers(bs, 0), op, high(v), low(v))) by {
            assert(flat_containers(bs, 0).len() == 0);
        }
    }
}

/// The loose accumulator invariant while the lazy reduction runs: keys
/// sorted, stores sound, cached lengths possibly stale.
pub open spec fn acc_wf(s: Seq<Container>) -> bool {
    &&& keys_sorted(s)
    &&& forall|i: int| 0 <= i < s.len() ==> (#[trigger] s[i]).store.wf()
}

/// Search the accumulator for a key.
fn acc_lower_bound(acc: &Vec<Container>, key: u16) -> (r: usize)
    requires
        keys_sorted(acc@),
    ensures
        r <= acc@.len(),
        forall|m: int| 0 <= m < r ==> (#[trigger] acc@[m]).key < key,
        forall|m: int| r <= m < acc@.len() ==> (#[trigger] acc@[m]).key >= key,
{
    let mut a: usize = 0;
    let mut b: usize = acc.len();
    while a < b
        invariant
            keys_sorted(acc@),
            a <= b <= acc@.len(),
            forall|m: int| 0 <= m < a ==> (#[trigger] acc@[m]).key < key,
            forall|m: int| b <= m < acc@.len() ==> (#[trigger] acc@[m]).key >= key,
        decreases b - a,
    {
        let mid = a + (b - a) / 2;
        if acc[mid].key < key {
            proof {
                assert forall|m: int| 0 <= m < mid + 1 implies (#[trigger] acc@[m]).key < key by {
                    assert(m < mid ==> acc@[m].key < acc@[mid as int].key);
                }
            }
            a = mid + 1;
        } else {
            proof {
                assert forall|m: int| mid <= m < acc@.len() implies (#[trigger] acc@[m]).key
                    >= key by {
                    assert(mid < m ==> acc@[mid as int].key < acc@[m].key);
                }
            }
            b = mid;
        }
    }
    a
}

/// The lazy multi-operand reduction over borrowed bitmaps: clone the
/// first, then fold every further container into the sorted accumulator,
/// promoting an array accumulator store to a bitmap before combining; a
/// final pass recounts, renormalizes and drops empties.
pub fn naive_lazy_multi_op_ref(bitmaps: &[RoaringBitmap], op: SetOp) -> (r: RoaringBitmap)
    requires
        all_wf(bitmaps@),
        op == SetOp::Union || op == SetOp::SymmetricDifference,
    ensures
        r.wf(),
        forall|v: u32| #[trigger]
            r.contains_spec(v) <==> fold_contains(bitmaps@, bitmaps@.len() as int, op, v),
{
    let ghost bs = bitmaps@;
    let mut acc: Vec<Container> = Vec::new();
    let mut t: usize = 0;
    while t < bitmaps.len()
        invariant
            all_wf(bs),
            bs == bitmaps@,
            t <= bs.len(),
            acc_wf(acc@),
            forall|key: u16| #[trigger]
                cs_has_key(acc@, key) <==> cs_has_key(flat_containers(bs, t as int), key),
            forall|v: u32| #[trigger]
                cs_contains(acc@, v) <==> fold_at(
                    flat_containers(bs, t as int),
                    op,
                    high(v),
                    low(v),
                ),
        decreases bs.len() - t,
    {
        let bm = &bitmaps[t];
        let ghost flat0 = flat_containers(bs, t as int);
        let mut j: usize = 0;
        while j < bm.container_count()
            invariant
                all_wf(bs),
                bs == bitmaps@,
                t < bs.len(),
                bm == &bitmaps@[t as int],
                bm.wf(),
                j <= bm@.len(),
                flat0 == flat_containers(bs, t as int),
                acc_wf(acc@),
                forall|key: u16| #[trigger]
                    cs_has_key(acc@, key) <==> cs_has_key(flat0 + bm@.take(j as int), key),
                forall|v: u32| #[trigger]
                    cs_contains(acc@, v) <==> fold_at(
                        flat0 + bm@.take(j as int),
                        op,
                        high(v),
                        low(v),
                    ),
            decreases bm@.len() - j,
        {
            let ghost processed = flat0 + bm@.take(j as int);
            let c = bm.container_at(j);
            proof {
                assert(bm@[j as int].wf());
                assert(processed.push(bm@[j as int]) =~= flat0 + bm@.take(j + 1));
                lemma_fold_push(processed, bm@[j as int], op);
            }
            let pos = acc_lower_bound(&acc, c.key);
            let ghost acc0 = acc@;
            if pos < acc.len() && acc[pos].key == c.key {
                let mut slot = acc.remove(pos);
                let ghost slot0 = slot;
                match &slot.store {
                    Store::Array(..) => {
                        let promoted = slot.store.to_bitmap();
                        slot.store = promoted;
                    },
                    Store::Bitmap(..) => (),
                }
                let ghost mid = slot;
                match op {
                    SetOp::Union => slot.store.bitor_assign(&c.store),
                    SetOp::Intersection => slot.store.bitand_assign(&c.store),
                    SetOp::Difference => slot.store.sub_assign(&c.store),
                    SetOp::SymmetricDifference => slot.store.bitxor_assign(&c.store),
                }
                let ghost slot1 = slot;
                acc.insert(pos, slot);
                proof {
                    assert(acc@ =~= acc0.update(pos as int, slot1));
                    assert(cs_has_key(acc0, c.key)) by {
                        assert(acc0[pos as int].key == c.key);
                    }
                    assert forall|x: u16| #[trigger]
                        slot1.contains_spec(x) <==> op_keeps(
                            op,
                            slot0.contains_spec(x),
                            bm@[j as int].contains_spec(x),
                        ) by {
                        assert(mid.contains_spec(x) == slot0.contains_spec(x));
                        assert(c.contains_spec(x) == bm@[j as int].contains_spec(x));
                        assert(c.store.contains_spec(x) == c.contains_spec(x));
                    }
                    lemma_acc_combined(
                        acc0,
                        acc@,
                        pos as int,
                        slot0,
                        slot1,
                        bm@[j as int],
                        processed,
                        op,
                    );
                }
            } else {
                proof {
                    assert(!cs_has_key(acc0, c.key)) by {
                        if cs_has_key(acc0, c.key) {
                            let m = choose|m: int|
                                0 <= m < acc0.len() && (#[trigger] acc0[m]).key == c.key;
                            assert(m < pos ==> acc0[m].key < c.key);
                            assert(m >= pos && pos < acc0.len() ==> acc0[pos as int].key
                                <= acc0[m].key);
                            assert(m > pos && pos < acc0.len() ==> acc0[pos as int].key
                                < acc0[m].key);
                        }
                    }
                }
                let ghost gc = c;
                acc.insert(pos, c);
                proof {
                    assert(acc@ =~= acc0.insert(pos as int, gc));
                    lemma_acc_inserted(
                        acc0,
                        acc@,
                        pos as int,
                        gc,
                        bm@[j as int],
                        processed,
                        op,
                    );
                }
            }
            j += 1;
        }
        proof {
            assert(flat0 + bm@.take(bm@.len() as int) =~= flat_containers(bs, t + 1));
        }
        t += 1;
    }
    // Final pass: recount, renormalize, drop empties.
    let ghost accf = acc@;
    let mut containers: Vec<Container> = Vec::new();
    let mut idx: usize = 0;
    while idx < acc.len()
        invariant
            acc@ == accf,
            acc_wf(accf),
            idx <= accf.len(),
            cs_wf(containers@),
            keys_sorted(containers@),
            forall|m: int|
                0 <= m < containers@.len() && idx < accf.len() ==> (#[trigger] containers@[m]).key
                    < accf[idx as int].key,
            forall|v: u32| #[trigger]
                cs_contains(containers@, v) <==> cs_contains(accf.take(idx as int), v),
        decreases accf.len() - idx,
    {
        let mut cc = acc[idx].clone();
        let ghost cc0 = cc;
        let n = cc.store.len();
        cc.len = n;
        cc.ensure_correct_store();
        proof {
            crate::roaring::lemma_cs_take_step(accf, idx as int);
            cc.lemma_member_of_len();
        }
        if cc.len() > 0 {
            proof {
                crate::roaring::lemma_cs_push(containers@, cc);
            }
            containers.push(cc);
        } else {
            proof {
                assert forall|x: u16|
                    !(#[trigger] accf[idx as int].contains_spec(x)) by {
                    assert(!cc.contains_spec(x)) by {
                        if cc.contains_spec(x) {
                            assert(exists|y: u16| cc.contains_spec(y));
                        }
                    }
                }
            }
        }
        idx += 1;
    }
    proof {
        crate::seq_facts::lemma_take_full(accf);
        lemma_lazy_is_fold(bs, bs.len() as int, op);
    }
    RoaringBitmap::from_container_vec(containers)
}

/// The lazy reduction over owned bitmaps; ownership only saves clones,
/// the combination is the same, for the same two operators.
pub fn naive_lazy_multi_op_owned(bitmaps: Vec<RoaringBitmap>, op: SetOp) -> (r: RoaringBitmap)
    requires
        all_wf(bitmaps@),
        op == SetOp::Union || op == SetOp::SymmetricDifference,
    ensures
        r.wf(),
        forall|v: u32| #[trigger]
            r.contains_spec(v) <==> fold_contains(bitmaps@, bitmaps@.len() as int, op, v),
{
    naive_lazy_multi_op_ref(bitmaps.as_slice(), op)
}

/// The lazy reduction that deferred cloning; here the accumulator owns
/// its containers from the start.
pub fn naive_lazy_multi_op_cow(bitmaps: &[RoaringBitmap], op: SetOp) -> (r: RoaringBitmap)
    requires
        all_wf(bitmaps@),
        op == SetOp::Union || op == SetOp::SymmetricDifference,
    ensures
        r.wf(),
        forall|v: u32| #[trigger]
            r.contains_spec(v) <==> fold_contains(bitmaps@, bitmaps@.len() as int, op, v),
{
    naive_lazy_multi_op_ref(bitmaps, op)
}

/// The lazy reduction that kept its accumulator in an ordered map; the
/// sorted vector plays that role here.
pub fn naive_lazy_multi_op_ref_btreemap(bitmaps: &[RoaringBitmap], op: SetOp) -> (r: RoaringBitmap)
    requires
        all_wf(bitmaps@),
        op == SetOp::Union || op == SetOp::SymmetricDifference,
    ensures
        r.wf(),
        forall|v: u32| #[trigger]
            r.contains_spec(v) <==> fold_contains(bitmaps@, bitmaps@.len() as int, op, v),
{
    naive_lazy_multi_op_ref(bitmaps, op)
}

/// The ordered-map variant with deferred cloning; same combination.
pub fn naive_lazy_multi_op_cow_btreemap(bitmaps: &[RoaringBitmap], op: SetOp) -> (r: RoaringBitmap)
    requires
        all_wf(bitmaps@),
        op == SetOp::Union || op == SetOp::SymmetricDifference,
    ensures
        r.wf(),
        forall|v: u32| #[trigger]
            r.contains_spec(v) <==> fold_contains(bitmaps@, bitmaps@.len() as int, op, v),
{
    naive_lazy_multi_op_ref(bitmaps, op)
}

pub fn naive_multi_or_cow(bitmaps: &[RoaringBitmap]) -> (r: RoaringBitmap)
    requires
        all_wf(bitmaps@),
    ensures
        r.wf(),
        forall|v: u32| #[trigger]
            r.contains_spec(v) <==> fold_contains(bitmaps@, bitmaps@.len() as int, SetOp::Union, v),
{
    naive_lazy_multi_op_cow(bitmaps, SetOp::Union)
}

pub fn naive_multi_or_cow_btreemap(bitmaps: &[RoaringBitmap]) -> (r: RoaringBitmap)
    requires
        all_wf(bitmaps@),
    ensures
        r.wf(),
        forall|v: u32| #[trigger]
            r.contains_spec(v) <==> fold_contains(bitmaps@, bitmaps@.len() as int, SetOp::Union, v),
{
    naive_lazy_multi_op_cow_btreemap(bitmaps, SetOp::Union)
}

pub fn naive_multi_or_cow_hashmap(bitmaps: &[RoaringBitmap]) -> (r: RoaringBitmap)
    requires
        all_wf(bitmaps@),
    ensures
        r.wf(),
        forall|v: u32| #[trigger]
            r.contains_spec(v) <==> fold_contains(bitmaps@, bitmaps@.len() as int, SetOp::Union, v),
{
    naive_lazy_multi_op_cow(bitmaps, SetOp::Union)
}

pub fn naive_multi_or_ref(bitmaps: &[RoaringBitmap]) -> (r: RoaringBitmap)
    requires
        all_wf(bitmaps@),
    ensures
        r.wf(),
        forall|v: u32| #[trigger]
            r.contains_spec(v) <==> fold_contains(bitmaps@, bitmaps@.len() as int, SetOp::Union, v),
{
    naive_lazy_multi_op_ref(bitmaps, SetOp::Union)
}

pub fn naive_multi_or_ref_btreemap(bitmaps: &[RoaringBitmap]) -> (r: RoaringBitmap)
    requires
        all_wf(bitmaps@),
    ensures
        r.wf(),
        forall|v: u32| #[trigger]
            r.contains_spec(v) <==> fold_contains(bitmaps@, bitmaps@.len() as int, SetOp::Union, v),
{
    naive_lazy_multi_op_ref_btreemap(bitmaps, SetOp::Union)
}

pub fn naive_multi_or_ref_hashmap(bitmaps: &[RoaringBitmap]) -> (r: RoaringBitmap)
    requires
        all_wf(bitmaps@),
    ensures
        r.wf(),
        forall|v: u32| #[trigger]
            r.contains_spec(v) <==> fold_contains(bitmaps@, bitmaps@.len() as int, SetOp::Union, v),
{
    naive_lazy_multi_op_ref(bitmaps, SetOp::Union)
}

pub fn naive_multi_or_owned(bitmaps: Vec<RoaringBitmap>) -> (r: RoaringBitmap)
    requires
        all_wf(bitmaps@),
    ensures
        r.wf(),
        forall|v: u32| #[trigger]
            r.contains_spec(v) <==> fold_contains(bitmaps@, bitmaps@.len() as int, SetOp::Union, v),
{
    naive_lazy_multi_op_owned(bitmaps, SetOp::Union)
}

pub fn naive_multi_and_ref(bitmaps: &[RoaringBitmap]) -> (r: RoaringBitmap)
    requires
        all_wf(bitmaps@),
    ensures
        r.wf(),
        forall|v: u32| #[trigger]
            r.contains_spec(v) <==> fold_contains(bitmaps@, bitmaps@.len() as int, SetOp::Intersection, v),
{
    fold_bitmaps(bitmaps, SetOp::Intersection)
}

pub fn naive_multi_and_owned(bitmaps: Vec<RoaringBitmap>) -> (r: RoaringBitmap)
    requires
        all_wf(bitmaps@),
    ensures
        r.wf(),
        forall|v: u32| #[trigger]
            r.contains_spec(v) <==> fold_contains(bitmaps@, bitmaps@.len() as int, SetOp::Intersection, v),
{
    fold_bitmaps(bitmaps.as_slice(), SetOp::Intersection)
}

pub fn naive_multi_sub_ref(bitmaps: &[RoaringBitmap]) -> (r: RoaringBitmap)
    requires
        all_wf(bitmaps@),
    ensures
        r.wf(),
        forall|v: u32| #[trigger]
            r.contains_spec(v) <==> fold_contains(bitmaps@, bitmaps@.len() as int, SetOp::Difference, v),
{
    fold_bitmaps(bitmaps, SetOp::Difference)
}

pub fn naive_multi_sub_owned(bitmaps: Vec<RoaringBitmap>) -> (r: RoaringBitmap)
    requires
        all_wf(bitmaps@),
    ensures
        r.wf(),
        forall|v: u32| #[trigger]
            r.contains_spec(v) <==> fold_contains(bitmaps@, bitmaps@.len() as int, SetOp::Difference, v),
{
    fold_bitmaps(bitmaps.as_slice(), SetOp::Difference)
}

pub fn naive_multi_xor_cow(bitmaps: &[RoaringBitmap]) -> (r: RoaringBitmap)
    requires
        all_wf(bitmaps@),
    ensures
        r.wf(),
        forall|v: u32| #[trigger]
            r.contains_spec(v) <==> fold_contains(bitmaps@, bitmaps@.len() as int, SetOp::SymmetricDifference, v),
{
    naive_lazy_multi_op_cow(bitmaps, SetOp::SymmetricDifference)
}

pub fn naive_multi_xor_cow_btreemap(bitmaps: &[RoaringBitmap]) -> (r: RoaringBitmap)
    requires
        all_wf(bitmaps@),
    ensures
        r.wf(),
        forall|v: u32| #[trigger]
            r.contains_spec(v) <==> fold_contains(bitmaps@, bitmaps@.len() as int, SetOp::SymmetricDifference, v),
{
    naive_lazy_multi_op_cow_btreemap(bitmaps, SetOp::SymmetricDifference)
}

pub fn naive_multi_xor_cow_hashmap(bitmaps: &[RoaringBitmap]) -> (r: RoaringBitmap)
    requires
        all_wf(bitmaps@),
    ensures
        r.wf(),
        forall|v: u32| #[trigger]
            r.contains_spec(v) <==> fold_contains(bitmaps@, bitmaps@.len() as int, SetOp::SymmetricDifference, v),
{
    naive_lazy_multi_op_cow(bitmaps, SetOp::SymmetricDifference)
}

pub fn naive_multi_xor_ref(bitmaps: &[RoaringBitmap]) -> (r: RoaringBitmap)
    requires
        all_wf(bitmaps@),
    ensures
        r.wf(),
        forall|v: u32| #[trigger]
            r.contains_spec(v) <==> fold_contains(bitmaps@, bitmaps@.len() as int, SetOp::SymmetricDifference, v),
{
    naive_lazy_multi_op_ref(bitmaps, SetOp::SymmetricDifference)
}

pub fn naive_multi_xor_ref_btreemap(bitmaps: &[RoaringBitmap]) -> (r: RoaringBitmap)
    requires
        all_wf(bitmaps@),
    ensures
        r.wf(),
        forall|v: u32| #[trigger]
            r.contains_spec(v) <==> fold_contains(bitmaps@, bitmaps@.len() as int, SetOp::SymmetricDifference, v),
{
    naive_lazy_multi_op_cow_btreemap(bitmaps, SetOp::SymmetricDifference)
}

pub fn naive_multi_xor_ref_hashmap(bitmaps: &[RoaringBitmap]) -> (r: RoaringBitmap)
    requires
        all_wf(bitmaps@),
    ensures
        r.wf(),
        forall|v: u32| #[trigger]
            r.contains_spec(v) <==> fold_contains(bitmaps@, bitmaps@.len() as int, SetOp::SymmetricDifference, v),
{
    naive_lazy_multi_op_ref(bitmaps, SetOp::SymmetricDifference)
}

pub fn naive_multi_xor_owned(bitmaps: Vec<RoaringBitmap>) -> (r: RoaringBitmap)
    requires
        all_wf(bitmaps@),
    ensures
        r.wf(),
        forall|v: u32| #[trigger]
            r.contains_spec(v) <==> fold_contains(bitmaps@, bitmaps@.len() as int, SetOp::SymmetricDifference, v),
{
    naive_lazy_multi_op_owned(bitmaps, SetOp::SymmetricDifference)
}

/// Fold a run of bitmaps with one binary operation, left to right.
pub fn fold_bitmaps(bitmaps: &[RoaringBitmap], op: SetOp) -> (r: RoaringBitmap)
    requires
        all_wf(bitmaps@),
    ensures
        r.wf(),
        forall|v: u32| #[trigger]
            r.contains_spec(v) <==> fold_contains(bitmaps@, bitmaps@.len() as int, op, v),
{
    let ghost bs = bitmaps@;
    if bitmaps.len() == 0 {
        return RoaringBitmap::new();
    }
    let mut acc = bitmaps[0].clone();
    let mut k: usize = 1;
    while k < bitmaps.len()
        invariant
            all_wf(bs),
            bs == bitmaps@,
            1 <= k <= bs.len(),
            acc.wf(),
            forall|v: u32| #[trigger]
                acc.contains_spec(v) <==> fold_contains(bs, k as int, op, v),
        decreases bs.len() - k,
    {
        let ghost acc0 = acc;
        match op {
            SetOp::Union => acc.or_assign_cur(&bitmaps[k]),
            SetOp::Intersection => acc.and_assign_cur(&bitmaps[k]),
            SetOp::Difference => acc.sub_assign_cur(&bitmaps[k]),
            SetOp::SymmetricDifference => acc.xor_assign_cur(&bitmaps[k]),
        }
        proof {
            assert forall|v: u32| #[trigger]
                acc.contains_spec(v) <==> fold_contains(bs, k + 1, op, v) by {
                assert(acc.contains_spec(v) <==> op_keeps(
                    op,
                    acc0.contains_spec(v),
                    bs[k as int].contains_spec(v),
                ));
            }
        }
        k += 1;
    }
    acc
}

/// The n-ary union of a run of bitmaps.
pub trait MultiBitOr {
    /// The operand run.
    spec fn bitmaps_seq(&self) -> Seq<RoaringBitmap>;

    /// The union of every operand.
    fn bitor(self) -> (r: RoaringBitmap) where Self: Sized
        requires
            all_wf(self.bitmaps_seq()),
        ensures
            r.wf(),
            forall|v: u32| #[trigger]
                r.contains_spec(v) <==> fold_contains(
                    self.bitmaps_seq(),
                    self.bitmaps_seq().len() as int,
                    SetOp::Union,
                    v,
                ),
    ;
}

/// The n-ary intersection of a run of bitmaps.
pub trait MultiBitAnd {
    /// The operand run.
    spec fn bitmaps_seq(&self) -> Seq<RoaringBitmap>;

    /// The intersection of every operand; empty on an empty run.
    fn bitand(self) -> (r: RoaringBitmap) where Self: Sized
        requires
            all_wf(self.bitmaps_seq()),
        ensures
            r.wf(),
            forall|v: u32| #[trigger]
                r.contains_spec(v) <==> fold_contains(
                    self.bitmaps_seq(),
                    self.bitmaps_seq().len() as int,
                    SetOp::Intersection,
                    v,
                ),
    ;
}

/// The n-ary symmetric difference of a run of bitmaps.
pub trait MultiBitXor {
    /// The operand run.
    spec fn bitmaps_seq(&self) -> Seq<RoaringBitmap>;

    /// The left fold of the symmetric difference.
    fn bitxor(self) -> (r: RoaringBitmap) where Self: Sized
        requires
            all_wf(self.bitmaps_seq()),
        ensures
            r.wf(),
            forall|v: u32| #[trigger]
                r.contains_spec(v) <==> fold_contains(
                    self.bitmaps_seq(),
                    self.bitmaps_seq().len() as int,
                    SetOp::SymmetricDifference,
                    v,
                ),
    ;
}

/// The n-ary difference: the first operand minus all the others.
pub trait MultiSub {
    /// The operand run.
    spec fn bitmaps_seq(&self) -> Seq<RoaringBitmap>;

    /// The left fold of the difference.
    fn sub(self) -> (r: RoaringBitmap) where Self: Sized
        requires
            all_wf(self.bitmaps_seq()),
        ensures
            r.wf(),
            forall|v: u32| #[trigger]
                r.contains_spec(v) <==> fold_contains(
                    self.bitmaps_seq(),
                    self.bitmaps_seq().len() as int,
                    SetOp::Difference,
                    v,
                ),
    ;
}

impl MultiBitOr for Vec<RoaringBitmap> {
    open spec fn bitmaps_seq(&self) -> Seq<RoaringBitmap> {
        self@
    }

    fn bitor(self) -> (r: RoaringBitmap) {
        fold_bitmaps(self.as_slice(), SetOp::Union)
    }
}

impl MultiBitAnd for Vec<RoaringBitmap> {
    open spec fn bitmaps_seq(&self) -> Seq<RoaringBitmap> {
        self@
    }

    fn bitand(self) -> (r: RoaringBitmap) {
        fold_bitmaps(self.as_slice(), SetOp::Intersection)
    }
}

impl MultiBitXor for Vec<RoaringBitmap> {
    open spec fn bitmaps_seq(&self) -> Seq<RoaringBitmap> {
        self@
    }

    fn bitxor(self) -> (r: RoaringBitmap) {
        fold_bitmaps(self.as_slice(), SetOp::SymmetricDifference)
    }
}

impl MultiSub for Vec<RoaringBitmap> {
    open spec fn bitmaps_seq(&self) -> Seq<RoaringBitmap> {
        self@
    }

    fn sub(self) -> (r: RoaringBitmap) {
        fold_bitmaps(self.as_slice(), SetOp::Difference)
    }
}

/// Combining one more container at a key the accumulator already holds.
proof fn lemma_acc_combined(
    acc0: Seq<Container>,
    acc1: Seq<Container>,
    pos: int,
    slot0: Container,
    slot1: Container,
    c: Container,
    processed: Seq<Container>,
    op: SetOp,
)
    requires
        keys_sorted(acc0),
        0 <= pos < acc0.len(),
        acc0[pos] == slot0,
        slot1.key == slot0.key,
        slot0.key == c.key,
        acc1.len() == acc0.len(),
        acc1 == acc0.update(pos, slot1),
        forall|x: u16| #[trigger]
            slot1.contains_spec(x) <==> op_keeps(op, slot0.contains_spec(x), c.contains_spec(x)),
        cs_has_key(acc0, c.key),
        forall|key: u16| #[trigger] cs_has_key(acc0, key) <==> cs_has_key(processed, key),
        forall|v: u32| #[trigger]
            cs_contains(acc0, v) <==> fold_at(processed, op, high(v), low(v)),
        forall|key: u16, lo: u16|
            key != c.key ==> (#[trigger] fold_at(processed.push(c), op, key, lo)) == fold_at(
                processed,
                op,
                key,
                lo,
            ),
        forall|lo: u16|
            (#[trigger] fold_at(processed.push(c), op, c.key, lo)) == (if cs_has_key(
                processed,
                c.key,
            ) {
                op_keeps(op, fold_at(processed, op, c.key, lo), c.contains_spec(lo))
            } else {
                c.contains_spec(lo)
            }),
        forall|key: u16| #[trigger]
            cs_has_key(processed.push(c), key) <==> cs_has_key(processed, key) || key == c.key,
    ensures
        keys_sorted(acc1),
        forall|key: u16| #[trigger] cs_has_key(acc1, key) <==> cs_has_key(processed.push(c), key),
        forall|v: u32| #[trigger]
            cs_contains(acc1, v) <==> fold_at(processed.push(c), op, high(v), low(v)),
{
    assert forall|i: int, j: int| 0 <= i < j < acc1.len() implies acc1[i].key < acc1[j].key by {
        assert(acc0[i].key < acc0[j].key);
        assert(acc1[i].key == acc0[i].key && acc1[j].key == acc0[j].key);
    }
    assert forall|key: u16| #[trigger]
        cs_has_key(acc1, key) <==> cs_has_key(processed.push(c), key) by {
        if cs_has_key(acc1, key) {
            let i = choose|i: int| 0 <= i < acc1.len() && (#[trigger] acc1[i]).key == key;
            assert(acc0[i].key == key);
        }
        if cs_has_key(acc0, key) {
            let i = choose|i: int| 0 <= i < acc0.len() && (#[trigger] acc0[i]).key == key;
            assert(acc1[i].key == key);
        }
    }
    assert forall|v: u32| #[trigger]
        cs_contains(acc1, v) <==> fold_at(processed.push(c), op, high(v), low(v)) by {
        if high(v) == c.key {
            assert(cs_contains(acc1, v) == slot1.contains_spec(low(v))) by {
                if cs_contains(acc1, v) {
                    let i = choose|i: int|
                        0 <= i < acc1.len() && (#[trigger] acc1[i]).key == high(v) && acc1[
                            i].contains_spec(low(v));
                    assert(acc0[i].key == acc0[pos].key);
                    lemma_key_unique(acc0, i, pos);
                }
                if slot1.contains_spec(low(v)) {
                    assert(acc1[pos].key == high(v) && acc1[pos].contains_spec(low(v)));
                }
            }
            assert(cs_contains(acc0, v) == slot0.contains_spec(low(v))) by {
                if cs_contains(acc0, v) {
                    let i = choose|i: int|
                        0 <= i < acc0.len() && (#[trigger] acc0[i]).key == high(v) && acc0[
                            i].contains_spec(low(v));
                    lemma_key_unique(acc0, i, pos);
                }
                if slot0.contains_spec(low(v)) {
                    assert(acc0[pos].key == high(v) && acc0[pos].contains_spec(low(v)));
                }
            }
            assert(cs_has_key(processed, c.key));
        } else {
            assert(cs_contains(acc1, v) == cs_contains(acc0, v)) by {
                if cs_contains(acc1, v) {
                    let i = choose|i: int|
                        0 <= i < acc1.len() && (#[trigger] acc1[i]).key == high(v) && acc1[
                            i].contains_spec(low(v));
                    assert(i != pos);
                    assert(acc0[i].key == high(v) && acc0[i].contains_spec(low(v)));
                }
                if cs_contains(acc0, v) {
                    let i = choose|i: int|
                        0 <= i < acc0.len() && (#[trigger] acc0[i]).key == high(v) && acc0[
                            i].contains_spec(low(v));
                    assert(i != pos);
                    assert(acc1[i].key == high(v) && acc1[i].contains_spec(low(v)));
                }
            }
        }
    }
}

/// Inserting a container at a key the accumulator does not hold yet.
proof fn lemma_acc_inserted(
    acc0: Seq<Container>,
    acc1: Seq<Container>,
    pos: int,
    gc: Container,
    c: Container,
    processed: Seq<Container>,
    op: SetOp,
)
    requires
        keys_sorted(acc0),
        0 <= pos <= acc0.len(),
        acc1 == acc0.insert(pos, gc),
        gc.key == c.key,
        forall|x: u16| #[trigger] gc.contains_spec(x) == c.contains_spec(x),
        forall|m: int| 0 <= m < pos ==> (#[trigger] acc0[m]).key < c.key,
        forall|m: int| pos <= m < acc0.len() ==> (#[trigger] acc0[m]).key >= c.key,
        !cs_has_key(acc0, c.key),
        forall|key: u16| #[trigger] cs_has_key(acc0, key) <==> cs_has_key(processed, key),
        forall|v: u32| #[trigger]
            cs_contains(acc0, v) <==> fold_at(processed, op, high(v), low(v)),
        forall|key: u16, lo: u16|
            key != c.key ==> (#[trigger] fold_at(processed.push(c), op, key, lo)) == fold_at(
                processed,
                op,
                key,
                lo,
            ),
        forall|lo: u16|
            (#[trigger] fold_at(processed.push(c), op, c.key, lo)) == (if cs_has_key(
                processed,
                c.key,
            ) {
                op_keeps(op, fold_at(processed, op, c.key, lo), c.contains_spec(lo))
            } else {
                c.contains_spec(lo)
            }),
        forall|key: u16| #[trigger]
            cs_has_key(processed.push(c), key) <==> cs_has_key(processed, key) || key == c.key,
    ensures
        keys_sorted(acc1),
        forall|key: u16| #[trigger] cs_has_key(acc1, key) <==> cs_has_key(processed.push(c), key),
        forall|v: u32| #[trigger]
            cs_contains(acc1, v) <==> fold_at(processed.push(c), op, high(v), low(v)),
{
    assert forall|i: int, j: int| 0 <= i < j < acc1.len() implies acc1[i].key < acc1[j].key by {
        assert(i < pos ==> acc1[i] == acc0[i]);
        assert(i == pos ==> acc1[i] == gc);
        assert(i > pos ==> acc1[i] == acc0[i - 1]);
        assert(j < pos ==> acc1[j] == acc0[j]);
        assert(j == pos ==> acc1[j] == gc);
        assert(j > pos ==> acc1[j] == acc0[j - 1]);
        assert(pos <= j - 1 < acc0.len() && j > pos ==> acc0[j - 1].key >= c.key && acc0[j
            - 1].key != c.key);
    }
    assert forall|key: u16| #[trigger]
        cs_has_key(acc1, key) <==> cs_has_key(processed.push(c), key) by {
        if cs_has_key(acc1, key) {
            let i = choose|i: int| 0 <= i < acc1.len() && (#[trigger] acc1[i]).key == key;
            if i < pos {
                assert(acc0[i].key == key);
            } else if i > pos {
                assert(acc0[i - 1].key == key);
            }
        }
        if cs_has_key(acc0, key) {
            let i = choose|i: int| 0 <= i < acc0.len() && (#[trigger] acc0[i]).key == key;
            if i < pos {
                assert(acc1[i].key == key);
            } else {
                assert(acc1[i + 1].key == key);
            }
        }
        if key == c.key {
            assert(acc1[pos].key == key);
        }
    }
    assert forall|v: u32| #[trigger]
        cs_contains(acc1, v) <==> fold_at(processed.push(c), op, high(v), low(v)) by {
        if high(v) == c.key {
            assert(!cs_has_key(processed, c.key));
            assert(cs_contains(acc1, v) == gc.contains_spec(low(v))) by {
                if cs_contains(acc1, v) {
                    let i = choose|i: int|
                        0 <= i < acc1.len() && (#[trigger] acc1[i]).key == high(v) && acc1[
                            i].contains_spec(low(v));
                    if i < pos {
                        assert(acc0[i].key == c.key);
                        assert(cs_has_key(acc0, c.key));
                    } else if i > pos {
                        assert(acc0[i - 1].key == c.key);
                        assert(cs_has_key(acc0, c.key));
                    }
                }
                if gc.contains_spec(low(v)) {
                    assert(acc1[pos].key == high(v) && acc1[pos].contains_spec(low(v)));
                }
            }
            assert(gc.contains_spec(low(v)) == c.contains_spec(low(v)));
            assert(!cs_contains(acc0, v)) by {
                if cs_contains(acc0, v) {
                    let i = choose|i: int|
                        0 <= i < acc0.len() && (#[trigger] acc0[i]).key == high(v) && acc0[
                            i].contains_spec(low(v));
                    assert(cs_has_key(acc0, c.key));
                }
            }
        } else {
            assert(cs_contains(acc1, v) == cs_contains(acc0, v)) by {
                if cs_contains(acc1, v) {
                    let i = choose|i: int|
                        0 <= i < acc1.len() && (#[trigger] acc1[i]).key == high(v) && acc1[
                            i].contains_spec(low(v));
                    if i < pos {
                        assert(acc0[i].key == high(v) && acc0[i].contains_spec(low(v)));
                    } else {
                        assert(i != pos);
                        assert(acc0[i - 1].key == high(v) && acc0[i - 1].contains_spec(low(v)));
                    }
                }
                if cs_contains(acc0, v) {
                    let i = choose|i: int|
                        0 <= i < acc0.len() && (#[trigger] acc0[i]).key == high(v) && acc0[
                            i].contains_spec(low(v));
                    if i < pos {
                        assert(acc1[i].key == high(v) && acc1[i].contains_spec(low(v)));
                    } else {
                        assert(acc1[i + 1].key == high(v) && acc1[i + 1].contains_spec(low(v)));
                    }
                }
            }
        }
    }
}

} // verus!
