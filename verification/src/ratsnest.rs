//! The ratsnest: for each net whose copper lies in several islands, the
//! airwires of a minimum spanning tree over the islands (Prim's method,
//! from the first island), drawn between a pad centre of each.

use vstd::prelude::*;
use crate::units::{Point, dist2, close_enough};
use crate::decimal::clamp_i64;
use crate::isqrt::round_sqrt;

verus! {

/// The distance between points `a` and `b`, rounded to the nanometre.
pub open spec fn gap_of(pts: Seq<Point>, a: int, b: int) -> int {
    clamp_i64(round_sqrt(dist2(pts[a], pts[b])) as int) as int
}

/// Whether pair `(a, b)` comes before `(a2, b2)`: nearer, or as near and
/// first in the order the pairs are tried (by `a`, then by `b`).
pub open spec fn pair_first(pts: Seq<Point>, a: int, b: int, a2: int, b2: int) -> bool {
    gap_of(pts, a, b) < gap_of(pts, a2, b2)
        || (gap_of(pts, a, b) == gap_of(pts, a2, b2) && (a < a2 || (a == a2 && b <= b2)))
}

/// Whether `a` is in the tree and `b` is not.
pub open spec fn crossing(t: Seq<bool>, a: int, b: int) -> bool {
    0 <= a < t.len() && 0 <= b < t.len() && t[a] && !t[b]
}

/// Whether `(a, b)` is the wire Prim's method adds to tree `t`: the first
/// of the nearest pairs from a point in the tree to one outside.
pub open spec fn is_next_wire(pts: Seq<Point>, t: Seq<bool>, a: int, b: int) -> bool {
    &&& crossing(t, a, b)
    &&& forall|a2: int, b2: int| #[trigger] crossing(t, a2, b2) ==> pair_first(pts, a, b, a2, b2)
}

/// The points a list of wires has joined to the first: the first point,
/// and the far end of each wire.
pub open spec fn tree_of(n: nat, wires: Seq<(usize, usize)>) -> Seq<bool> {
    Seq::new(n, |i: int| i == 0 || exists|j: int| 0 <= j < wires.len() && wires[j].1 == i)
}

/// Whether any two of the points lie close enough for their distance to
/// be computed in 64 bits.
pub open spec fn all_close(pts: Seq<Point>) -> bool {
    forall|a: int, b: int| 0 <= a < pts.len() && 0 <= b < pts.len() ==> #[trigger] close_enough(pts[a], pts[b])
}

/// Prim's minimum spanning tree over `pts` from the first point: each wire
/// (tree point, new point) is the first of the nearest pairs joining the
/// tree built so far to a point outside it; it stops early only when every
/// point is in the tree.
pub fn spanning_wires(pts: &Vec<Point>) -> (r: Vec<(usize, usize)>)
    requires pts@.len() >= 1, all_close(pts@),
    ensures
        r@.len() <= pts@.len() - 1,
        forall|k: int| 0 <= k < r@.len() ==> is_next_wire(pts@, tree_of(pts@.len(), r@.take(k)),
            #[trigger] r@[k].0 as int, r@[k].1 as int),
        r@.len() < pts@.len() - 1 ==> forall|a: int, b: int| !#[trigger] crossing(tree_of(pts@.len(), r@), a, b),
{
    let n = pts.len();
    let mut in_tree: Vec<bool> = Vec::new();
    let mut i: usize = 0;
    while i < n
        invariant i <= n, in_tree@.len() == i, forall|j: int| 0 <= j < i ==> in_tree@[j] == (j == 0),
        decreases n - i,
    {
        in_tree.push(i == 0);
        i += 1;
    }
    let mut wires: Vec<(usize, usize)> = Vec::new();
    proof { assert(in_tree@ =~= tree_of(n as nat, wires@)); }
    let mut step: usize = 1;
    while step < n
        invariant
            1 <= step <= n, n == pts@.len(), all_close(pts@), wires@.len() == step - 1,
            in_tree@ == tree_of(n as nat, wires@),
            forall|k: int| 0 <= k < wires@.len() ==> is_next_wire(pts@, tree_of(n as nat, wires@.take(k)),
                #[trigger] wires@[k].0 as int, wires@[k].1 as int),
        decreases n - step,
    {
        let mut best: Option<(i64, usize, usize)> = None;
        let ghost t = in_tree@;
        let mut a: usize = 0;
        while a < n
            invariant
                a <= n, n == pts@.len(), t == in_tree@, t.len() == n, all_close(pts@),
                match best {
                    Some((d, a0, b0)) => crossing(t, a0 as int, b0 as int) && d == gap_of(pts@, a0 as int, b0 as int)
                        && forall|a2: int, b2: int| #[trigger] crossing(t, a2, b2) && a2 < a ==> pair_first(pts@, a0 as int, b0 as int, a2, b2),
                    None => forall|a2: int, b2: int| #[trigger] crossing(t, a2, b2) ==> a2 >= a,
                },
                best matches Some((_, a0, _)) ==> a0 < a,
            decreases n - a,
        {
            if in_tree[a] {
                let mut b: usize = 0;
                while b < n
                    invariant
                        b <= n, a < n, n == pts@.len(), t == in_tree@, t.len() == n, all_close(pts@), t[a as int],
                        match best {
                            Some((d, a0, b0)) => crossing(t, a0 as int, b0 as int) && d == gap_of(pts@, a0 as int, b0 as int)
                                && forall|a2: int, b2: int| #[trigger] crossing(t, a2, b2) && (a2 < a || (a2 == a && b2 < b))
                                    ==> pair_first(pts@, a0 as int, b0 as int, a2, b2),
                            None => forall|a2: int, b2: int| #[trigger] crossing(t, a2, b2) ==> (a2 > a || (a2 == a && b2 >= b)),
                        },
                        best matches Some((_, a0, b0)) ==> a0 < a || (a0 == a && b0 < b),
                    decreases n - b,
                {
                    if !in_tree[b] {
                        proof { assert(close_enough(pts@[a as int], pts@[b as int])); }
                        let d = pts[a].distance(pts[b]).0;
                        let better = match best {
                            None => true,
                            Some((bd, _, _)) => d < bd,
                        };
                        if better {
                            best = Some((d, a, b));
                        }
                    }
                    b += 1;
                }
            } else {
                proof {
                    assert forall|a2: int, b2: int| #[trigger] crossing(t, a2, b2) && a2 <= a implies a2 < a by {}
                }
            }
            a += 1;
        }
        match best {
            None => {
                proof {
                    assert forall|a2: int, b2: int| !#[trigger] crossing(tree_of(n as nat, wires@), a2, b2) by {
                        if crossing(t, a2, b2) { assert(a2 >= n); }
                    }
                }
                return wires;
            },
            Some((_, a0, b0)) => {
                let ghost w0 = wires@;
                wires.push((a0, b0));
                in_tree.set(b0, true);
                proof {
                    assert(wires@.take(w0.len() as int) =~= w0);
                    assert forall|k: int| 0 <= k < wires@.len() implies is_next_wire(pts@, tree_of(n as nat, wires@.take(k)),
                        #[trigger] wires@[k].0 as int, wires@[k].1 as int) by {
                        if k < w0.len() {
                            assert(wires@.take(k) =~= w0.take(k));
                            assert(wires@[k] == w0[k]);
                        } else {
                            assert(wires@.take(k) =~= w0);
                        }
                    }
                    assert forall|i: int| 0 <= i < n implies in_tree@[i] == #[trigger] tree_of(n as nat, wires@)[i] by {
                        if i != b0 as int {
                            if exists|j: int| 0 <= j < wires@.len() && wires@[j].1 == i {
                                let j = choose|j: int| 0 <= j < wires@.len() && wires@[j].1 == i;
                                assert(j < w0.len());
                                assert(w0[j].1 == i);
                            }
                            if exists|j: int| 0 <= j < w0.len() && w0[j].1 == i {
                                let j = choose|j: int| 0 <= j < w0.len() && w0[j].1 == i;
                                assert(wires@[j] == w0[j]);
                            }
                        } else {
                            assert(wires@[w0.len() as int].1 == i);
                        }
                    }
                    assert(in_tree@ =~= tree_of(n as nat, wires@));
                }
            },
        }
        step += 1;
    }
    wires
}

} // verus!
