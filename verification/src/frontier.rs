//! The open set of the router's search: a binary min-heap of entries
//! ordered by estimate, then by cell number. Equal keys name the same
//! cell, so the entry taken out first is always the same one.

use vstd::prelude::*;
use vstd::multiset::Multiset;

verus! {

/// An entry: the estimated total cost, the cell number, the cell
/// (layer, column, row).
pub type Entry = (i64, usize, (usize, usize, usize));

/// Whether `a` comes before `b`: a smaller estimate, or the same estimate
/// and a smaller cell number.
pub open spec fn before(a: Entry, b: Entry) -> bool {
    a.0 < b.0 || (a.0 == b.0 && a.1 < b.1)
}

/// Whether `a` comes no later than `b`.
pub open spec fn no_later(a: Entry, b: Entry) -> bool {
    !before(b, a)
}

/// Whether `a` comes before `b`.
fn precedes(a: Entry, b: Entry) -> (r: bool)
    ensures r == before(a, b),
{
    a.0 < b.0 || (a.0 == b.0 && a.1 < b.1)
}

pub open spec fn parent(i: int) -> int {
    (i - 1) / 2
}

/// Whether every entry comes no earlier than its parent.
pub open spec fn heap_ok(v: Seq<Entry>) -> bool {
    forall|i: int| 0 < i < v.len() ==> no_later(v[parent(i)], #[trigger] v[i])
}

proof fn lemma_no_later_trans(a: Entry, b: Entry, c: Entry)
    requires no_later(a, b), no_later(b, c),
    ensures no_later(a, c),
{
}

/// The root of a heap comes no later than any entry.
proof fn lemma_root_first(v: Seq<Entry>, i: int)
    requires heap_ok(v), 0 <= i < v.len(),
    ensures no_later(v[0], v[i]),
    decreases i,
{
    if i > 0 {
        assert(0 <= parent(i) < i);
        lemma_root_first(v, parent(i));
        assert(no_later(v[parent(i)], v[i]));
        lemma_no_later_trans(v[0], v[parent(i)], v[i]);
    }
}

proof fn lemma_swap_multiset(v: Seq<Entry>, i: int, j: int)
    requires 0 <= i < v.len(), 0 <= j < v.len(),
    ensures v.update(i, v[j]).update(j, v[i]).to_multiset() == v.to_multiset(),
{
    broadcast use vstd::seq_lib::group_to_multiset_ensures;
    broadcast use vstd::multiset::group_multiset_axioms;
    broadcast use vstd::multiset::group_multiset_properties;
    let w = v.update(i, v[j]);
    let u = w.update(j, v[i]);
    assert(w.to_multiset() == v.to_multiset().insert(v[j]).remove(v[i]));
    assert(w[j] == v[j]);
    assert(u.to_multiset() == w.to_multiset().insert(v[i]).remove(v[j]));
    assert(v.contains(v[i]));
    assert(v.to_multiset().count(v[i]) > 0);
    assert forall|x: Entry| #[trigger] u.to_multiset().count(x) == v.to_multiset().count(x) by {
        if x == v[i] && x == v[j] {
        } else if x == v[i] {
        } else if x == v[j] {
        } else {
        }
    }
    assert(u.to_multiset() =~= v.to_multiset());
}

/// The entries still to be searched.
pub struct Frontier {
    v: Vec<Entry>,
}

impl Frontier {
    /// The entries, counted with repetition.
    pub closed spec fn items(&self) -> Multiset<Entry> {
        self.v@.to_multiset()
    }

    pub closed spec fn wf(&self) -> bool {
        heap_ok(self.v@)
    }

    /// An empty frontier.
    pub fn new() -> (f: Frontier)
        ensures f.wf(), f.items() == Multiset::<Entry>::empty(),
    {
        let f = Frontier { v: Vec::new() };
        proof {
            broadcast use vstd::seq_lib::group_to_multiset_ensures;
            broadcast use vstd::multiset::group_multiset_axioms;
            broadcast use vstd::multiset::lemma_multiset_empty_len;
            assert(f.v@.to_multiset().len() == 0);
        }
        f
    }

    /// How many entries there are.
    pub fn len(&self) -> (n: usize)
        ensures n == self.items().len(),
    {
        proof { vstd::seq_lib::to_multiset_len(self.v@); }
        self.v.len()
    }

    /// Adds `e`.
    pub fn push(&mut self, e: Entry)
        requires old(self).wf(),
        ensures final(self).wf(), final(self).items() == old(self).items().insert(e),
    {
        proof { broadcast use vstd::seq_lib::group_to_multiset_ensures; }
        let ghost m0 = self.v@.to_multiset().insert(e);
        let ghost v0 = self.v@;
        self.v.push(e);
        proof {
            broadcast use vstd::seq_lib::group_to_multiset_ensures;
            assert(self.v@ == v0.push(e));
            assert(self.v@.to_multiset() == m0);
        }
        let mut k = self.v.len() - 1;
        while k > 0
            invariant
                0 <= k < self.v@.len(), self.v@.to_multiset() == m0, m0 == old(self).items().insert(e),
                forall|i: int| 0 < i < self.v@.len() && i != k ==> no_later(self.v@[parent(i)], #[trigger] self.v@[i]),
                k > 0 ==> forall|c: int| 0 < c < self.v@.len() && parent(c) == k
                    ==> no_later(self.v@[parent(k as int)], #[trigger] self.v@[c]),
            decreases k,
        {
            let p = (k - 1) / 2;
            if precedes(self.v[k], self.v[p]) {
                let ghost w = self.v@;
                let a = self.v[k];
                let b = self.v[p];
                self.v.set(k, b);
                self.v.set(p, a);
                proof {
                    assert(self.v@ == w.update(k as int, w[p as int]).update(p as int, w[k as int]));
                    lemma_swap_multiset(w, k as int, p as int);
                    assert forall|i: int| 0 < i < self.v@.len() && i != p implies no_later(self.v@[parent(i)], #[trigger] self.v@[i]) by {
                        if i == k as int {
                        } else if parent(i) == k as int {
                            assert(no_later(w[parent(k as int)], w[i]));
                        } else if parent(i) == p as int {
                            assert(no_later(w[p as int], w[i]));
                        }
                    }
                    if p > 0 {
                        assert forall|c: int| 0 < c < self.v@.len() && parent(c) == p
                            implies no_later(self.v@[parent(p as int)], #[trigger] self.v@[c]) by {
                            assert(no_later(w[parent(p as int)], w[p as int]));
                            if c == k as int {
                                assert(self.v@[c] == w[p as int]);
                            } else {
                                assert(no_later(w[p as int], w[c]));
                                lemma_no_later_trans(w[parent(p as int)], w[p as int], w[c]);
                            }
                        }
                    }
                }
                k = p;
            } else {
                proof {
                    assert forall|i: int| 0 < i < self.v@.len() implies no_later(self.v@[parent(i)], #[trigger] self.v@[i]) by {
                        if i == k as int {
                        }
                    }
                }
                return;
            }
        }
    }

    /// Takes out the entry that comes first.
    pub fn pop(&mut self) -> (e: Entry)
        requires old(self).wf(), old(self).items().len() > 0,
        ensures
            final(self).wf(),
            old(self).items() == final(self).items().insert(e),
            forall|x: Entry| old(self).items().contains(x) ==> no_later(e, x),
    {
        proof {
            vstd::seq_lib::to_multiset_len(self.v@);
            broadcast use vstd::seq_lib::to_multiset_contains;
            assert forall|x: Entry| self.v@.to_multiset().contains(x) implies no_later(self.v@[0], x) by {
                let i = choose|i: int| 0 <= i < self.v@.len() && self.v@[i] == x;
                lemma_root_first(self.v@, i);
            }
        }
        let ghost w0 = self.v@;
        let n = self.v.len();
        let top = self.v[0];
        let last = self.v[n - 1];
        self.v.set(0, last);
        self.v.pop();
        proof {
            broadcast use vstd::seq_lib::group_to_multiset_ensures;
            broadcast use vstd::multiset::group_multiset_axioms;
            broadcast use vstd::multiset::group_multiset_properties;
            let w1 = w0.update(0, w0[n - 1]);
            let last0 = w0[n - 1];
            assert(w1.to_multiset() == w0.to_multiset().insert(last0).remove(top));
            assert(w1 =~= self.v@.push(last0));
            assert(w1.to_multiset() == self.v@.to_multiset().insert(last0));
            assert(w0.contains(top));
            assert(w0.to_multiset().count(top) > 0);
            assert forall|x: Entry| #[trigger] self.v@.to_multiset().insert(top).count(x) == w0.to_multiset().count(x) by {
                assert(w1.to_multiset().count(x) == self.v@.to_multiset().insert(last0).count(x));
                if x == top && x == last0 {
                } else if x == top {
                } else if x == last0 {
                } else {
                }
            }
            assert(self.v@.to_multiset().insert(top) =~= w0.to_multiset());
        }
        let ghost m1 = self.v@.to_multiset();
        let len = self.v.len();
        let mut k: usize = 0;
        while k < len / 2
            invariant
                len == self.v@.len(), k < len || len == 0, self.v@.to_multiset() == m1,
                old(self).items() == m1.insert(top),
                forall|x: Entry| old(self).items().contains(x) ==> no_later(top, x),
                forall|i: int| 0 < i < self.v@.len() && parent(i) != k ==> no_later(self.v@[parent(i)], #[trigger] self.v@[i]),
                k > 0 ==> forall|c: int| 0 < c < self.v@.len() && parent(c) == k
                    ==> no_later(self.v@[parent(k as int)], #[trigger] self.v@[c]),
            decreases len - k,
        {
            let l = 2 * k + 1;
            let r = 2 * k + 2;
            let m = if r < len && precedes(self.v[r], self.v[l]) { r } else { l };
            proof {
                assert(parent(l as int) == k as int);
                assert(parent(r as int) == k as int);
            }
            if precedes(self.v[m], self.v[k]) {
                let ghost w = self.v@;
                let a = self.v[k];
                let b = self.v[m];
                self.v.set(k, b);
                self.v.set(m, a);
                proof {
                    assert(self.v@ == w.update(k as int, w[m as int]).update(m as int, w[k as int]));
                    lemma_swap_multiset(w, k as int, m as int);
                    assert(no_later(w[m as int], w[l as int]));
                    assert(r < len ==> no_later(w[m as int], w[r as int]));
                    assert forall|i: int| 0 < i < self.v@.len() && parent(i) != m implies no_later(self.v@[parent(i)], #[trigger] self.v@[i]) by {
                        if i == m as int {
                            if k > 0 {
                                assert(no_later(w[parent(k as int)], w[m as int]));
                            }
                        } else if parent(i) == k as int {
                            assert(self.v@[parent(i)] == w[m as int]);
                        } else if i == k as int {
                            assert(no_later(w[parent(k as int)], w[m as int]));
                        }
                    }
                    assert forall|c: int| 0 < c < self.v@.len() && parent(c) == m
                        implies no_later(self.v@[parent(m as int)], #[trigger] self.v@[c]) by {
                        assert(no_later(w[m as int], w[c]));
                    }
                }
                k = m;
            } else {
                proof {
                    assert forall|i: int| 0 < i < self.v@.len() implies no_later(self.v@[parent(i)], #[trigger] self.v@[i]) by {
                        if parent(i) == k as int {
                            if i == l as int || i == r as int {
                            } else {
                                assert(i == l || i == r) by {
                                    assert(2 * k + 1 <= i <= 2 * k + 2);
                                }
                            }
                        }
                    }
                }
                return top;
            }
        }
        proof {
            assert forall|i: int| 0 < i < self.v@.len() implies no_later(self.v@[parent(i)], #[trigger] self.v@[i]) by {
                if parent(i) == k as int {
                    assert(i >= 2 * k + 1);
                }
            }
        }
        top
    }
}

} // verus!
