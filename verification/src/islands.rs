//! Which copper islands are joined: a union-find forest over island
//! numbers. A plated drill joins every island it pierces, and the tabs of
//! one pin are joined inside the part; the pads are then grouped by the
//! root of their island.

use vstd::prelude::*;
use crate::gerber::{holders, inside};
use crate::units::Point;

verus! {

/// Following parent links from `i` for at most `fuel` steps: the root
/// reached, or `None` when the fuel runs out first.
pub open spec fn chase(p: Seq<usize>, i: int, fuel: nat) -> Option<int>
    decreases fuel,
{
    if !(0 <= i < p.len()) {
        None
    } else if p[i] == i {
        Some(i)
    } else if fuel == 0 {
        None
    } else {
        chase(p, p[i] as int, (fuel - 1) as nat)
    }
}

/// Whether `i` reaches a root by following parent links.
pub open spec fn reaches_root(p: Seq<usize>, i: int) -> bool {
    exists|f: nat| #[trigger] chase(p, i, f) is Some
}

/// A forest: every link stays inside the table and every node reaches a
/// root.
pub open spec fn forest(p: Seq<usize>) -> bool {
    &&& forall|i: int| 0 <= i < p.len() ==> (#[trigger] p[i] as int) < p.len()
    &&& forall|i: int| 0 <= i < p.len() ==> #[trigger] reaches_root(p, i)
}

/// The root of node `i`.
pub open spec fn root(p: Seq<usize>, i: int) -> int {
    chase(p, i, choose|f: nat| #[trigger] chase(p, i, f) is Some)->0
}

/// Whether `u` and `v` lie in one tree.
pub open spec fn joined(p: Seq<usize>, u: int, v: int) -> bool {
    root(p, u) == root(p, v)
}

/// More fuel reaches the same root.
pub proof fn lemma_chase_more(p: Seq<usize>, i: int, f: nat, g: nat)
    requires chase(p, i, f) is Some, f <= g,
    ensures chase(p, i, g) == chase(p, i, f),
    decreases f,
{
    if 0 <= i < p.len() && p[i] != i {
        lemma_chase_more(p, p[i] as int, (f - 1) as nat, (g - 1) as nat);
    }
}

/// Any fuel that reaches a root reaches `root(p, i)`.
pub proof fn lemma_root_is(p: Seq<usize>, i: int, f: nat)
    requires chase(p, i, f) is Some,
    ensures
        reaches_root(p, i),
        root(p, i) == chase(p, i, f)->0,
        0 <= root(p, i) < p.len(),
        p[root(p, i)] == root(p, i),
{
    let g = choose|g: nat| #[trigger] chase(p, i, g) is Some;
    if f <= g {
        lemma_chase_more(p, i, f, g);
    } else {
        lemma_chase_more(p, i, g, f);
    }
    lemma_chase_ends(p, i, f);
}

proof fn lemma_chase_ends(p: Seq<usize>, i: int, f: nat)
    requires chase(p, i, f) is Some,
    ensures 0 <= chase(p, i, f)->0 < p.len(), p[chase(p, i, f)->0] == chase(p, i, f)->0,
    decreases f,
{
    if p[i] != i {
        lemma_chase_ends(p, p[i] as int, (f - 1) as nat);
    }
}

/// A node that is not a root has its parent's root.
proof fn lemma_root_step(p: Seq<usize>, i: int)
    requires forest(p), 0 <= i < p.len(), p[i] != i,
    ensures root(p, i) == root(p, p[i] as int),
{
    let f = choose|f: nat| #[trigger] chase(p, i, f) is Some;
    assert(reaches_root(p, i));
    lemma_root_is(p, i, f);
    assert(f > 0);
    lemma_root_is(p, p[i] as int, (f - 1) as nat);
}

/// The fuel some chase from `i` reaches a root with, in a forest.
proof fn lemma_some_fuel(p: Seq<usize>, i: int) -> (f: nat)
    requires forest(p), 0 <= i < p.len(),
    ensures chase(p, i, f) is Some, root(p, i) == chase(p, i, f)->0,
{
    assert(reaches_root(p, i));
    let f = choose|f: nat| #[trigger] chase(p, i, f) is Some;
    lemma_root_is(p, i, f);
    f
}

/// Pointing `c` straight at its own root leaves every chase's end alone.
proof fn lemma_compress(p: Seq<usize>, c: int, j: int, f: nat)
    requires forest(p), 0 <= c < p.len(), chase(p, j, f) is Some,
    ensures chase(p.update(c, root(p, c) as usize), j, f) == chase(p, j, f),
    decreases f,
{
    let r = root(p, c);
    let q = p.update(c, r as usize);
    let fc = lemma_some_fuel(p, c);
    lemma_root_is(p, c, fc);
    if p[j] == j {
        if j == c {
            lemma_root_is(p, c, 0);
            assert(q =~= p);
        }
    } else {
        if j == c {
            lemma_root_is(p, c, f);
            assert(q[r] == r);
            assert(chase(q, r, (f - 1) as nat) == Some(r));
        } else {
            lemma_compress(p, c, p[j] as int, (f - 1) as nat);
        }
    }
}

/// Compression keeps the forest and every node's root.
proof fn lemma_compress_roots(p: Seq<usize>, c: int)
    requires forest(p), 0 <= c < p.len(),
    ensures
        forest(p.update(c, root(p, c) as usize)),
        forall|j: int| 0 <= j < p.len() ==> #[trigger] root(p.update(c, root(p, c) as usize), j) == root(p, j),
{
    let q = p.update(c, root(p, c) as usize);
    let fc = lemma_some_fuel(p, c);
    lemma_root_is(p, c, fc);
    assert(p[root(p, c)] as int == root(p, c));
    assert(q[c] as int == root(p, c));
    assert forall|j: int| 0 <= j < q.len() implies #[trigger] reaches_root(q, j) by {
        assert(reaches_root(p, j));
        let f = lemma_some_fuel(p, j);
        lemma_compress(p, c, j, f);
        assert(chase(q, j, f) is Some);
    }
    assert forall|j: int| 0 <= j < q.len() implies (#[trigger] q[j] as int) < q.len() by {
        if j != c { assert(p[j] == q[j]); }
    }
    assert forall|j: int| 0 <= j < p.len() implies #[trigger] root(q, j) == root(p, j) by {
        let f = lemma_some_fuel(p, j);
        lemma_compress(p, c, j, f);
        lemma_root_is(q, j, f);
    }
}

/// The root of `i`'s tree; every node on the way is pointed straight at it.
/// No node changes tree.
pub fn find(parent: &mut Vec<usize>, i: usize) -> (r: usize)
    requires forest(old(parent)@), i < old(parent)@.len(),
    ensures
        r == root(old(parent)@, i as int),
        final(parent)@.len() == old(parent)@.len(),
        forest(final(parent)@),
        forall|j: int| 0 <= j < old(parent)@.len() ==> #[trigger] root(final(parent)@, j) == root(old(parent)@, j),
        final(parent)@[i as int] == r,
{
    let ghost p0 = parent@;
    let ghost f0 = lemma_some_fuel(p0, i as int);
    let mut r = i;
    let ghost mut fr: nat = f0;
    while parent[r] != r
        invariant
            parent@ == p0, forest(p0), r < p0.len(), i < p0.len(),
            chase(p0, r as int, fr) == Some(root(p0, i as int)),
        decreases fr,
    {
        r = parent[r];
        proof { fr = (fr - 1) as nat; }
    }
    proof { lemma_root_is(p0, i as int, f0); }
    let mut c = i;
    let ghost mut fc: nat = f0;
    while parent[c] != r
        invariant
            forest(parent@), parent@.len() == p0.len(), c < p0.len(), i < p0.len(), r < p0.len(),
            r == root(p0, i as int), parent@[r as int] == r,
            root(parent@, c as int) == r, chase(parent@, c as int, fc) is Some,
            forall|j: int| 0 <= j < p0.len() ==> #[trigger] root(parent@, j) == root(p0, j),
            c == i || parent@[i as int] == r,
        decreases fc,
    {
        let ghost p1 = parent@;
        let n = parent[c];
        proof {
            assert(fc > 0);
            lemma_root_step(p1, c as int);
            lemma_compress_roots(p1, c as int);
            lemma_compress(p1, c as int, n as int, (fc - 1) as nat);
        }
        parent.set(c, r);
        proof {
            assert(parent@ == p1.update(c as int, root(p1, c as int) as usize));
            fc = (fc - 1) as nat;
        }
        c = n;
    }
    r
}

/// Where hanging root `ra` under root `rb` sends a root.
pub open spec fn hung(x: int, ra: int, rb: int) -> int {
    if x == ra { rb } else { x }
}

proof fn lemma_hang(p: Seq<usize>, ra: int, rb: int, j: int, f: nat)
    requires
        0 <= ra < p.len(), 0 <= rb < p.len(), p[ra] == ra, p[rb] == rb, ra != rb,
        chase(p, j, f) is Some,
    ensures chase(p.update(ra, rb as usize), j, f + 1) == Some(hung(chase(p, j, f)->0, ra, rb)),
    decreases f,
{
    let q = p.update(ra, rb as usize);
    if p[j] == j {
        if j == ra {
            assert(q[rb] == rb);
            assert(chase(q, rb, f) == Some(rb));
        }
    } else {
        lemma_hang(p, ra, rb, p[j] as int, (f - 1) as nat);
    }
}

/// Hanging one root under another keeps a forest, and moves exactly the
/// first tree into the second.
proof fn lemma_hang_roots(p: Seq<usize>, ra: int, rb: int)
    requires forest(p), 0 <= ra < p.len(), 0 <= rb < p.len(), p[ra] == ra, p[rb] == rb, ra != rb,
    ensures
        forest(p.update(ra, rb as usize)),
        forall|j: int| 0 <= j < p.len() ==> #[trigger] root(p.update(ra, rb as usize), j) == hung(root(p, j), ra, rb),
{
    let q = p.update(ra, rb as usize);
    assert(p[rb] as int == rb);
    assert forall|j: int| 0 <= j < q.len() implies #[trigger] reaches_root(q, j) by {
        assert(reaches_root(p, j));
        let f = lemma_some_fuel(p, j);
        lemma_hang(p, ra, rb, j, f);
        assert(chase(q, j, f + 1) is Some);
    }
    assert forall|j: int| 0 <= j < q.len() implies (#[trigger] q[j] as int) < q.len() by {
        if j != ra { assert(p[j] == q[j]); }
    }
    assert forall|j: int| 0 <= j < p.len() implies #[trigger] root(q, j) == hung(root(p, j), ra, rb) by {
        let f = lemma_some_fuel(p, j);
        lemma_hang(p, ra, rb, j, f);
        lemma_root_is(q, j, f + 1);
    }
}

/// Joins the trees of `a` and `b`, hanging the root of `a`'s tree under
/// the root of `b`'s; whether they were apart. Afterwards two nodes are
/// joined when they were, or when one was with `a` and the other with `b`.
pub fn join(parent: &mut Vec<usize>, a: usize, b: usize) -> (r: bool)
    requires forest(old(parent)@), a < old(parent)@.len(), b < old(parent)@.len(),
    ensures
        final(parent)@.len() == old(parent)@.len(),
        forest(final(parent)@),
        r == !joined(old(parent)@, a as int, b as int),
        forall|u: int, v: int| 0 <= u < old(parent)@.len() && 0 <= v < old(parent)@.len() ==>
            (#[trigger] joined(final(parent)@, u, v) <==> (joined(old(parent)@, u, v)
                || (joined(old(parent)@, u, a as int) && joined(old(parent)@, v, b as int))
                || (joined(old(parent)@, u, b as int) && joined(old(parent)@, v, a as int)))),
{
    let ghost p0 = parent@;
    let ra = find(parent, a);
    let ghost pm = parent@;
    let rb = find(parent, b);
    let ghost p1 = parent@;
    proof {
        let fa = lemma_some_fuel(p0, a as int);
        lemma_root_is(p0, a as int, fa);
        lemma_root_is(p0, ra as int, 0);
        let fb = lemma_some_fuel(pm, b as int);
        lemma_root_is(pm, b as int, fb);
        lemma_root_is(pm, rb as int, 0);
        let f1 = lemma_some_fuel(p1, ra as int);
        lemma_root_is(p1, ra as int, f1);
        let f2 = lemma_some_fuel(p1, rb as int);
        lemma_root_is(p1, rb as int, f2);
        assert(root(p1, ra as int) == ra);
        assert(root(p1, rb as int) == rb);
    }
    if ra == rb {
        return false;
    }
    parent.set(ra, rb);
    proof {
        assert(parent@ == p1.update(ra as int, rb as usize));
        lemma_hang_roots(p1, ra as int, rb as int);
    }
    true
}

/// Whether the labelling `lab` gives the members of each link group one
/// label.
pub open spec fn labels_links(lab: Seq<int>, links: Seq<Seq<usize>>) -> bool {
    forall|g: int, k: int| 0 <= g < links.len() && 0 <= k && k + 1 < links[g].len()
        ==> lab[#[trigger] links[g][k] as int] == lab[links[g][k + 1] as int]
}

/// Whether joined nodes share their label under `lab`.
pub open spec fn labels_trees(lab: Seq<int>, p: Seq<usize>) -> bool {
    forall|u: int, v: int| 0 <= u < p.len() && 0 <= v < p.len() && #[trigger] joined(p, u, v) ==> lab[u] == lab[v]
}

/// The forest over `n` islands in which the members of each group in
/// `links` are joined (a plated drill's islands, a pin's tabs), and nothing
/// more: any labelling that gives each group one label gives each tree one
/// label.
pub fn link_islands(n: usize, links: &Vec<Vec<usize>>) -> (parent: Vec<usize>)
    requires forall|g: int, k: int| 0 <= g < links@.len() && 0 <= k < links@[g]@.len() ==> #[trigger] links@[g]@[k] < n,
    ensures
        parent@.len() == n,
        forest(parent@),
        forall|g: int, k: int| 0 <= g < links@.len() && 0 <= k < links@[g]@.len()
            ==> joined(parent@, #[trigger] links@[g]@[k] as int, links@[g]@[0] as int),
        forall|lab: Seq<int>| labels_links(lab, links@.map_values(|l: Vec<usize>| l@)) ==> #[trigger] labels_trees(lab, parent@),
{
    let ghost lv = links@.map_values(|l: Vec<usize>| l@);
    let mut parent: Vec<usize> = Vec::new();
    let mut i: usize = 0;
    while i < n
        invariant i <= n, parent@.len() == i, forall|j: int| 0 <= j < i ==> #[trigger] parent@[j] == j,
        decreases n - i,
    {
        parent.push(i);
        i += 1;
    }
    proof {
        assert forall|j: int| 0 <= j < parent@.len() implies #[trigger] reaches_root(parent@, j) by {
            assert(chase(parent@, j, 0) is Some);
        }
        assert forall|lab: Seq<int>| labels_links(lab, lv) implies #[trigger] labels_trees(lab, parent@) by {
            assert forall|u: int, v: int| 0 <= u < parent@.len() && 0 <= v < parent@.len() && #[trigger] joined(parent@, u, v)
                implies lab[u] == lab[v] by {
                lemma_root_is(parent@, u, 0);
                lemma_root_is(parent@, v, 0);
            }
        }
    }
    let mut g: usize = 0;
    while g < links.len()
        invariant
            g <= links@.len(), parent@.len() == n, forest(parent@), lv == links@.map_values(|l: Vec<usize>| l@),
            forall|g: int, k: int| 0 <= g < links@.len() && 0 <= k < links@[g]@.len() ==> #[trigger] links@[g]@[k] < n,
            forall|h: int, k: int| 0 <= h < g && 0 <= k < links@[h]@.len()
                ==> joined(parent@, #[trigger] links@[h]@[k] as int, links@[h]@[0] as int),
            forall|lab: Seq<int>| labels_links(lab, lv) ==> #[trigger] labels_trees(lab, parent@),
        decreases links@.len() - g,
    {
        let group = &links[g];
        let mut k: usize = 1;
        while k < group.len()
            invariant
                1 <= k, g < links@.len(), group == links@[g as int], parent@.len() == n, forest(parent@),
                lv == links@.map_values(|l: Vec<usize>| l@),
                forall|g: int, k: int| 0 <= g < links@.len() && 0 <= k < links@[g]@.len() ==> #[trigger] links@[g]@[k] < n,
                forall|h: int, k: int| 0 <= h < g && 0 <= k < links@[h]@.len()
                    ==> joined(parent@, #[trigger] links@[h]@[k] as int, links@[h]@[0] as int),
                forall|j: int| 0 <= j < k && j < group@.len() ==> joined(parent@, #[trigger] group@[j] as int, group@[0] as int),
                forall|lab: Seq<int>| labels_links(lab, lv) ==> #[trigger] labels_trees(lab, parent@),
            decreases group@.len() - k,
        {
            let ghost p0 = parent@;
            let a = group[k - 1];
            let b = group[k];
            proof { assert(links@[g as int]@[k - 1] < n); assert(links@[g as int]@[k as int] < n); }
            join(&mut parent, a, b);
            proof {
                assert forall|h: int, m: int| 0 <= h < g && 0 <= m < links@[h]@.len()
                    implies joined(parent@, #[trigger] links@[h]@[m] as int, links@[h]@[0] as int) by {
                    assert(links@[h]@[0] < n);
                    assert(joined(p0, links@[h]@[m] as int, links@[h]@[0] as int));
                }
                assert forall|j: int| 0 <= j <= k && j < group@.len() implies joined(parent@, #[trigger] group@[j] as int, group@[0] as int) by {
                    assert(links@[g as int]@[j] < n);
                    assert(links@[g as int]@[0] < n);
                    if j < k {
                        assert(joined(p0, group@[j] as int, group@[0] as int));
                    } else {
                        assert(joined(p0, group@[k - 1] as int, group@[0] as int));
                        assert(joined(parent@, group@[k - 1] as int, group@[k as int] as int));
                    }
                }
                assert forall|lab: Seq<int>| labels_links(lab, lv) implies #[trigger] labels_trees(lab, parent@) by {
                    assert(labels_trees(lab, p0));
                    assert(lv[g as int] == group@);
                    assert(lab[lv[g as int][k - 1] as int] == lab[lv[g as int][k as int] as int]);
                    assert forall|u: int, v: int| 0 <= u < parent@.len() && 0 <= v < parent@.len() && #[trigger] joined(parent@, u, v)
                        implies lab[u] == lab[v] by {
                        assert(joined(p0, a as int, a as int));
                        assert(joined(p0, b as int, b as int));
                        if joined(p0, u, a as int) && joined(p0, v, b as int) {
                            assert(lab[u] == lab[a as int]);
                            assert(lab[v] == lab[b as int]);
                        } else if joined(p0, u, b as int) && joined(p0, v, a as int) {
                            assert(lab[u] == lab[b as int]);
                            assert(lab[v] == lab[a as int]);
                        }
                    }
                }
            }
            k += 1;
        }
        proof {
            assert forall|h: int, m: int| 0 <= h < g + 1 && 0 <= m < links@[h]@.len()
                implies joined(parent@, #[trigger] links@[h]@[m] as int, links@[h]@[0] as int) by {
                if h == g as int {
                    if m == 0 {
                        assert(links@[h]@[0] < n);
                    }
                }
            }
        }
        g += 1;
    }
    parent
}


/// Whether island `isl` (its outer ring and holes) holds `p`.
pub open spec fn island_holds(isl: Vec<Vec<Point>>, p: Point) -> bool {
    holders(isl@, p) % 2 == 1
}

/// The numbers of the islands that hold `p`, in order: the islands a
/// plated drill at `p` pierces.
pub open spec fn pierced(islands: Seq<Vec<Vec<Point>>>, p: Point) -> Seq<usize>
    decreases islands.len(),
{
    if islands.len() == 0 {
        Seq::empty()
    } else {
        let r = pierced(islands.drop_last(), p);
        if island_holds(islands.last(), p) { r.push((islands.len() - 1) as usize) } else { r }
    }
}

/// For each plated drill, the islands it pierces, which it joins.
pub fn drill_links(islands: &Vec<Vec<Vec<Point>>>, drills: &Vec<Point>) -> (r: Vec<Vec<usize>>)
    ensures
        r@.len() == drills@.len(),
        forall|k: int| 0 <= k < drills@.len() ==> (#[trigger] r@[k])@ == pierced(islands@, drills@[k]),
{
    let mut r: Vec<Vec<usize>> = Vec::new();
    let mut k: usize = 0;
    while k < drills.len()
        invariant
            k <= drills@.len(), r@.len() == k,
            forall|j: int| 0 <= j < k ==> (#[trigger] r@[j])@ == pierced(islands@, drills@[j]),
        decreases drills@.len() - k,
    {
        let d = drills[k];
        let mut hit: Vec<usize> = Vec::new();
        let mut i: usize = 0;
        while i < islands.len()
            invariant i <= islands@.len(), hit@ == pierced(islands@.take(i as int), d),
            decreases islands@.len() - i,
        {
            proof {
                assert(islands@.take(i + 1).drop_last() =~= islands@.take(i as int));
                assert(islands@.take(i + 1).last() == islands@[i as int]);
            }
            if inside(&islands[i], d) {
                hit.push(i);
            }
            i += 1;
        }
        proof { assert(islands@.take(islands@.len() as int) =~= islands@); }
        r.push(hit);
        k += 1;
    }
    r
}

/// The first island from number `from` on that holds `p`.
pub open spec fn first_holding(islands: Seq<Vec<Vec<Point>>>, from: int, p: Point) -> Option<usize>
    decreases islands.len() - from,
{
    if from < 0 || from >= islands.len() {
        None
    } else if island_holds(islands[from], p) {
        Some(from as usize)
    } else {
        first_holding(islands, from + 1, p)
    }
}

/// The first island from `from` on that holds one of the outline points
/// `outline[j]`, `outline[j + step]`, ..., tried in that order.
pub open spec fn first_holding_sampled(islands: Seq<Vec<Vec<Point>>>, from: int, outline: Seq<Point>, step: int, j: int)
    -> Option<usize>
    decreases (if j < outline.len() { outline.len() - j } else { 0 }),
{
    if step < 1 || j < 0 || j >= outline.len() {
        None
    } else {
        match first_holding(islands, from, outline[j]) {
            Some(i) => Some(i),
            None => first_holding_sampled(islands, from, outline, step, j + step),
        }
    }
}

/// The island of a layer (those from number `from` on) that a pad lies in:
/// the first that holds the centre `c` of its outline, else the first that
/// holds one of eight or so points spread along the outline.
pub open spec fn pad_island_of(islands: Seq<Vec<Vec<Point>>>, from: int, c: Point, outline: Seq<Point>) -> Option<usize> {
    match first_holding(islands, from, c) {
        Some(i) => Some(i),
        None => first_holding_sampled(islands, from, outline,
            if outline.len() / 8 > 1 { (outline.len() / 8) as int } else { 1int }, 0),
    }
}

fn first_holding_from(islands: &Vec<Vec<Vec<Point>>>, from: usize, p: Point) -> (r: Option<usize>)
    ensures r == first_holding(islands@, from as int, p),
    decreases islands@.len() - from,
{
    if from >= islands.len() {
        None
    } else if inside(&islands[from], p) {
        Some(from)
    } else {
        first_holding_from(islands, from + 1, p)
    }
}

/// The island, among those from number `from` on, that the pad with
/// outline `outline` and centre `c` lies in, as `pad_island_of` gives it.
pub fn pad_island(islands: &Vec<Vec<Vec<Point>>>, from: usize, c: Point, outline: &Vec<Point>) -> (r: Option<usize>)
    ensures r == pad_island_of(islands@, from as int, c, outline@),
{
    let found = first_holding_from(islands, from, c);
    if found.is_some() {
        return found;
    }
    let step: usize = if outline.len() / 8 > 1 { outline.len() / 8 } else { 1 };
    let mut j: usize = 0;
    while j < outline.len()
        invariant
            step >= 1, step as int == (if outline@.len() / 8 > 1 { (outline@.len() / 8) as int } else { 1int }),
            first_holding_sampled(islands@, from as int, outline@, step as int, 0)
                == first_holding_sampled(islands@, from as int, outline@, step as int, j as int),
            first_holding(islands@, from as int, c) is None,
        decreases outline@.len() - j,
    {
        let hit = first_holding_from(islands, from, outline[j]);
        if hit.is_some() {
            return hit;
        }
        if outline.len() - j <= step {
            proof {
                assert(first_holding_sampled(islands@, from as int, outline@, step as int, j + step) is None);
            }
            return None;
        }
        j += step;
    }
    None
}

} // verus!
