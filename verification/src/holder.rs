//! The rank assigner: caller priorities, which may collide, are replaced by a
//! totally ordered, globally unique rank per program. Ranks follow priority;
//! between equal priorities the later input position receives the higher
//! rank.

use vstd::prelude::*;
use crate::ordering::key_lt;
use crate::timed::Program;

verus! {

/// A program paired with its unique rank. `priority` is the rank, one-based;
/// the caller priority stays inside `obj`. `src` records, for the proofs
/// alone, the input position the program came from.
pub struct ObjHolder {
    pub obj: Program,
    pub priority: usize,
    pub src: Ghost<int>,
}

impl ObjHolder {
    /// Wrap a program with the one-based rank derived from its position in
    /// rank order.
    pub fn new(data: (usize, Program)) -> (r: ObjHolder)
        requires
            data.0 < usize::MAX,
        ensures
            r.obj == data.1,
            r.priority == data.0 + 1,
    {
        let (mut priority, obj) = data;
        priority = priority + 1;
        ObjHolder { obj, priority, src: Ghost(0) }
    }
}

/// Some entry of the ranked sequence `r` came from input position `i`.
pub open spec fn src_appears(r: Seq<ObjHolder>, i: int) -> bool {
    exists|p: int| 0 <= p < r.len() && (#[trigger] r[p].src@) == i
}

/// The ranked sequence `r` is the input `v` in rank order: a bijection onto
/// the input positions, sorted strictly by the rank order `key_lt`, with the
/// one-based rank stored alongside each program.
pub open spec fn ranked_of(v: Seq<Program>, r: Seq<ObjHolder>) -> bool {
    &&& r.len() == v.len()
    &&& forall|p: int| 0 <= p < r.len() ==> (#[trigger] r[p].priority) == p + 1
    &&& forall|p: int|
        0 <= p < r.len() ==> 0 <= (#[trigger] r[p].src@) < v.len() && r[p].obj == v[r[p].src@]
    &&& forall|i: int| 0 <= i < v.len() ==> #[trigger] src_appears(r, i)
    &&& forall|p: int, q: int|
        0 <= p < q < r.len() ==> key_lt(
            v[(#[trigger] r[p].src@)].priority,
            r[p].src@,
            v[(#[trigger] r[q].src@)].priority,
            r[q].src@,
        )
}

/// The permutation `perm` lists input positions in rank order.
spec fn perm_sorted(v: Seq<Program>, perm: Seq<usize>) -> bool {
    &&& forall|a: int| 0 <= a < perm.len() ==> (#[trigger] perm[a]) < v.len()
    &&& forall|a: int, b: int|
        0 <= a < b < perm.len() ==> key_lt(
            v[(#[trigger] perm[a]) as int].priority,
            perm[a] as int,
            v[(#[trigger] perm[b]) as int].priority,
            perm[b] as int,
        )
}

/// Input position `x` appears somewhere in `perm`.
spec fn appears(perm: Seq<usize>, x: int) -> bool {
    exists|a: int| 0 <= a < perm.len() && (#[trigger] perm[a]) == x
}

/// Recreate the priority index to guarantee priority uniqueness: order the
/// programs by priority, later input position winning ties, and give each
/// the one-based rank at which it lands. The returned sequence is in rank
/// order and `ranked_of` ties every entry back to its input position.
pub fn recreate_priority_index(vec: Vec<Program>) -> (r: Vec<ObjHolder>)
    ensures
        ranked_of(vec@, r@),
{
    let n = vec.len();
    let mut perm: Vec<usize> = Vec::new();
    let mut k: usize = 0;
    while k < n
        invariant
            k <= n == vec.len(),
            perm.len() == k,
            perm_sorted(vec@, perm@),
            forall|a: int| 0 <= a < perm@.len() ==> (#[trigger] perm@[a]) < k,
            forall|x: int| 0 <= x < k ==> #[trigger] appears(perm@, x),
        decreases n - k,
    {
        let mut pos: usize = 0;
        while pos < perm.len() && vec[perm[pos]].priority <= vec[k].priority
            invariant
                k < n == vec.len(),
                perm.len() == k,
                perm_sorted(vec@, perm@),
                forall|a: int| 0 <= a < perm@.len() ==> (#[trigger] perm@[a]) < k,
                pos <= perm.len(),
                forall|a: int|
                    0 <= a < pos ==> vec@[(#[trigger] perm@[a]) as int].priority <= vec@[k as int].priority,
            decreases perm.len() - pos,
        {
            pos = pos + 1;
        }
        let ghost old_perm = perm@;
        perm.insert(pos, k);
        proof {
            old_perm.insert_ensures(pos as int, k);
            assert forall|a: int, b: int| 0 <= a < b < perm@.len() implies key_lt(
                vec@[(#[trigger] perm@[a]) as int].priority,
                perm@[a] as int,
                vec@[(#[trigger] perm@[b]) as int].priority,
                perm@[b] as int,
            ) by {
                if a < pos && b == pos {
                    assert(perm@[a] == old_perm[a]);
                    assert(perm@[b] == k);
                    assert(old_perm[a] < k);
                } else if a == pos && b > pos {
                    assert(perm@[a] == k);
                    assert(perm@[b] == old_perm[b - 1]);
                    assert(vec@[old_perm[pos as int] as int].priority > vec@[k as int].priority);
                    if b - 1 > pos {
                        assert(key_lt(
                            vec@[old_perm[pos as int] as int].priority,
                            old_perm[pos as int] as int,
                            vec@[old_perm[b - 1] as int].priority,
                            old_perm[b - 1] as int,
                        ));
                    }
                    assert(vec@[old_perm[b - 1] as int].priority > vec@[k as int].priority);
                } else if a < pos && b > pos {
                    assert(perm@[a] == old_perm[a]);
                    assert(perm@[b] == old_perm[b - 1]);
                } else if a > pos && b > pos {
                    assert(perm@[a] == old_perm[a - 1]);
                    assert(perm@[b] == old_perm[b - 1]);
                } else if a < pos && b < pos {
                    assert(perm@[a] == old_perm[a]);
                    assert(perm@[b] == old_perm[b]);
                }
            }
            assert forall|x: int| 0 <= x < k + 1 implies #[trigger] appears(perm@, x) by {
                if x == k {
                    assert(perm@[pos as int] == k);
                } else {
                    assert(appears(old_perm, x));
                    let a0 = choose|a: int| 0 <= a < old_perm.len() && (#[trigger] old_perm[a]) == x;
                    if a0 < pos {
                        assert(perm@[a0] == x);
                    } else {
                        assert(perm@[a0 + 1] == x);
                    }
                }
            }
        }
        k = k + 1;
    }
    let mut out: Vec<ObjHolder> = Vec::new();
    let mut p: usize = 0;
    while p < n
        invariant
            p <= n == vec.len(),
            perm.len() == n,
            perm_sorted(vec@, perm@),
            forall|x: int| 0 <= x < n ==> #[trigger] appears(perm@, x),
            out.len() == p,
            forall|a: int|
                0 <= a < p ==> (#[trigger] out@[a]).priority == a + 1 && out@[a].src@ == perm@[a] as int
                    && out@[a].obj == vec@[perm@[a] as int],
        decreases n - p,
    {
        let idx = perm[p];
        let mut h = ObjHolder::new((p, vec[idx]));
        h.src = Ghost(idx as int);
        out.push(h);
        p = p + 1;
    }
    proof {
        assert forall|i: int| 0 <= i < vec@.len() implies #[trigger] src_appears(out@, i) by {
            assert(appears(perm@, i));
            let a = choose|a: int| 0 <= a < perm@.len() && (#[trigger] perm@[a]) == i;
            assert(out@[a].src@ == i);
        }
        assert forall|p0: int| 0 <= p0 < out@.len() implies 0 <= (#[trigger] out@[p0].src@)
            < vec@.len() && out@[p0].obj == vec@[out@[p0].src@] by {
            assert(out@[p0].src@ == perm@[p0] as int);
        }
        assert forall|p0: int, q0: int| 0 <= p0 < q0 < out@.len() implies key_lt(
            vec@[(#[trigger] out@[p0].src@)].priority,
            out@[p0].src@,
            vec@[(#[trigger] out@[q0].src@)].priority,
            out@[q0].src@,
        ) by {
            assert(out@[p0].src@ == perm@[p0] as int);
            assert(out@[q0].src@ == perm@[q0] as int);
            assert(key_lt(
                vec@[perm@[p0] as int].priority,
                perm@[p0] as int,
                vec@[perm@[q0] as int].priority,
                perm@[q0] as int,
            ));
        }
        assert forall|p0: int| 0 <= p0 < out@.len() implies (#[trigger] out@[p0].priority) == p0
            + 1 by {
            assert(out@[p0].priority == p0 + 1);
        }
    }
    out
}


proof fn lemma_ranked_prefix_eq(v: Seq<Program>, r1: Seq<ObjHolder>, r2: Seq<ObjHolder>, p: int)
    requires
        ranked_of(v, r1),
        ranked_of(v, r2),
        0 <= p <= v.len(),
    ensures
        forall|q: int| 0 <= q < p ==> (#[trigger] r1[q].src@) == r2[q].src@,
    decreases p,
{
    if p > 0 {
        lemma_ranked_prefix_eq(v, r1, r2, p - 1);
        let i1 = r1[p - 1].src@;
        let i2 = r2[p - 1].src@;
        if i1 != i2 {
            // the source of one stands elsewhere in the other; by the strict
            // rank order it must stand later, both ways round
            assert(src_appears(r1, i2));
            let q2 = choose|q: int| 0 <= q < r1.len() && (#[trigger] r1[q].src@) == i2;
            if q2 < p - 1 {
                assert(r2[q2].src@ == i2);
                assert(key_lt(v[r2[q2].src@].priority, r2[q2].src@, v[i2].priority, i2));
            }
            assert(q2 > p - 1);
            assert(key_lt(v[i1].priority, i1, v[i2].priority, i2));
            assert(src_appears(r2, i1));
            let q1 = choose|q: int| 0 <= q < r2.len() && (#[trigger] r2[q].src@) == i1;
            if q1 < p - 1 {
                assert(r1[q1].src@ == i1);
                assert(key_lt(v[r1[q1].src@].priority, r1[q1].src@, v[i1].priority, i1));
            }
            assert(q1 > p - 1);
            assert(key_lt(v[i2].priority, i2, v[i1].priority, i1));
        }
    }
}

/// The rank-ordered sequence of an input is unique: `ranked_of` is a
/// function of the input.
pub proof fn lemma_ranked_unique(v: Seq<Program>, r1: Seq<ObjHolder>, r2: Seq<ObjHolder>)
    requires
        ranked_of(v, r1),
        ranked_of(v, r2),
    ensures
        r1 == r2,
{
    lemma_ranked_prefix_eq(v, r1, r2, v.len() as int);
    assert forall|p: int| 0 <= p < r1.len() implies r1[p] == r2[p] by {
        assert(r1[p].src@ == r2[p].src@);
        assert(r1[p].priority == p + 1 && r2[p].priority == p + 1);
        assert(r1[p].obj == v[r1[p].src@] && r2[p].obj == v[r2[p].src@]);
        assert(r1[p].src == r2[p].src);
    }
    assert(r1 =~= r2);
}

} // verus!
