//! Tracing the copper of written Gerber files back to the netlist. The
//! islands of copper are joined into trees (`islands`); here each pad is
//! given the tree its copper lies in, and the trees are compared with the
//! nets the project expects: a net spread over several trees is open, a
//! tree holding pads of several nets (or of a net and of no net) is a short,
//! a pad with no copper is missing.

use vstd::prelude::*;
use crate::islands::{forest, root, chase, lemma_root_is, reaches_root};
use crate::canon::{text_order, texts, sorted};
use crate::text::{cat3, push_str, join_strings, join_text};
use crate::numfmt::{push_nat, nat_digits};
use crate::error::Error;
use vstd::relations::sorted_by;

verus! {

/// The values of `s` in the order they first appear.
pub open spec fn distinct<A>(s: Seq<A>) -> Seq<A>
    decreases s.len(),
{
    if s.len() == 0 {
        Seq::empty()
    } else {
        let d = distinct(s.drop_last());
        if d.contains(s.last()) { d } else { d.push(s.last()) }
    }
}

/// The least value of a non-empty `s`.
pub open spec fn least(s: Seq<int>) -> int
    decreases s.len(),
{
    if s.len() <= 1 {
        s[0]
    } else {
        let m = least(s.drop_last());
        if s.last() < m { s.last() } else { m }
    }
}

/// The roots of the islands a pad's copper lies in.
pub open spec fn node_roots(p: Seq<usize>, nodes: Seq<usize>) -> Seq<int> {
    nodes.map_values(|n: usize| root(p, n as int))
}

/// A pad and the islands its copper lies in, as plain values.
pub type CopperView = (Seq<char>, Seq<char>, Seq<usize>);

/// The first entry of `copper` for pad `pad` of part `refdes`, or
/// `copper.len()`.
pub open spec fn copper_index(copper: Seq<CopperView>, refdes: Seq<char>, pad: Seq<char>) -> int
    decreases copper.len(),
{
    if copper.len() == 0 {
        0
    } else if copper[0].0 == refdes && copper[0].1 == pad {
        0
    } else {
        1 + copper_index(copper.drop_first(), refdes, pad)
    }
}

/// The tree a pad's copper is counted in: the least root of its islands;
/// `None` for a pad with no copper.
pub open spec fn pad_tree(p: Seq<usize>, copper: Seq<CopperView>, refdes: Seq<char>, pad: Seq<char>) -> Option<int> {
    let i = copper_index(copper, refdes, pad);
    if 0 <= i < copper.len() { Some(least(node_roots(p, copper[i].2))) } else { None }
}

/// The root of node `i`, without changing the forest.
pub fn root_of(parent: &Vec<usize>, i: usize) -> (r: usize)
    requires forest(parent@), i < parent@.len(),
    ensures r == root(parent@, i as int), r < parent@.len(),
{
    let ghost p = parent@;
    proof { assert(reaches_root(p, i as int)); }
    let ghost f0 = choose|f: nat| #[trigger] chase(p, i as int, f) is Some;
    proof { lemma_root_is(p, i as int, f0); }
    let mut r = i;
    let ghost mut fr: nat = f0;
    while parent[r] != r
        invariant
            parent@ == p, forest(p), r < p.len(),
            chase(p, r as int, fr) == Some(root(p, i as int)),
        decreases fr,
    {
        r = parent[r];
        proof { fr = (fr - 1) as nat; }
    }
    r
}

/// Island numbers as integers.
pub open spec fn ints(s: Seq<usize>) -> Seq<int> {
    s.map_values(|x: usize| x as int)
}

/// Whether `v` holds `x`.
fn holds(v: &Vec<usize>, x: usize) -> (r: bool)
    ensures r == ints(v@).contains(x as int),
{
    let mut i: usize = 0;
    while i < v.len()
        invariant i <= v@.len(), forall|j: int| 0 <= j < i ==> v@[j] != x,
        decreases v@.len() - i,
    {
        if v[i] == x {
            proof { assert(ints(v@)[i as int] == x as int); }
            return true;
        }
        i += 1;
    }
    proof {
        if ints(v@).contains(x as int) {
            let j = choose|j: int| 0 <= j < ints(v@).len() && ints(v@)[j] == x as int;
            assert(v@[j] == x);
        }
    }
    false
}

/// How many trees a pad's islands lie in, and the least of their roots.
pub fn pad_trees(parent: &Vec<usize>, nodes: &Vec<usize>) -> (r: (usize, usize))
    requires
        forest(parent@), nodes@.len() > 0,
        forall|k: int| 0 <= k < nodes@.len() ==> #[trigger] nodes@[k] < parent@.len(),
    ensures
        r.0 == distinct(node_roots(parent@, nodes@)).len(),
        r.1 == least(node_roots(parent@, nodes@)),
        r.1 < parent@.len(),
{
    let ghost p = parent@;
    let mut seen: Vec<usize> = Vec::new();
    let mut m: usize = root_of(parent, nodes[0]);
    let mut i: usize = 0;
    proof {
        assert(node_roots(p, nodes@.take(1)) =~= seq![root(p, nodes@[0] as int)]);
        assert(ints(seen@) =~= distinct(node_roots(p, nodes@.take(0))));
    }
    while i < nodes.len()
        invariant
            i <= nodes@.len(), nodes@.len() > 0, parent@ == p, forest(p),
            forall|k: int| 0 <= k < nodes@.len() ==> #[trigger] nodes@[k] < p.len(),
            ints(seen@) == distinct(node_roots(p, nodes@.take(i as int))),
            m == least(node_roots(p, nodes@.take(if i == 0 { 1 } else { i as int }))),
            m < p.len(),
        decreases nodes@.len() - i,
    {
        let r = root_of(parent, nodes[i]);
        proof {
            let t = node_roots(p, nodes@.take(i + 1));
            assert(t.drop_last() =~= node_roots(p, nodes@.take(i as int)));
            assert(t.last() == r as int);
        }
        if !holds(&seen, r) {
            let ghost before = seen@;
            seen.push(r);
            proof { assert(ints(seen@) =~= ints(before).push(r as int)); }
        }
        if i > 0 && r < m {
            m = r;
        }
        i += 1;
    }
    proof { assert(nodes@.take(nodes@.len() as int) =~= nodes@); }
    (seen.len(), m)
}

/// Where a pad's copper lies: the islands its pad objects were found in.
#[derive(Debug)]
pub struct PadCopper {
    pub refdes: String,
    pub pad: String,
    pub nodes: Vec<usize>,
}

/// A pad the project expects copper for, with its net.
#[derive(Debug)]
pub struct ExpectedPad {
    pub refdes: String,
    pub pad: String,
    pub net: Option<String>,
}

/// A net as plain values.
pub open spec fn net_view(n: Option<String>) -> Option<Seq<char>> {
    match n {
        Some(s) => Some(s@),
        None => None,
    }
}

pub open spec fn copper_view(c: Seq<PadCopper>) -> Seq<CopperView> {
    c.map_values(|x: PadCopper| (x.refdes@, x.pad@, x.nodes@))
}

/// An expected pad as plain values: part, pad, net.
pub type ExpectedView = (Seq<char>, Seq<char>, Option<Seq<char>>);

pub open spec fn expected_view(e: Seq<ExpectedPad>) -> Seq<ExpectedView> {
    e.map_values(|x: ExpectedPad| (x.refdes@, x.pad@, net_view(x.net)))
}

/// How a pad is named in the findings: `part.pad`.
pub open spec fn pad_label(refdes: Seq<char>, pad: Seq<char>) -> Seq<char> {
    refdes + "."@ + pad
}

/// A pad with copper: its label, its net, the tree its copper is counted in.
pub type TracedView = (Seq<char>, Option<Seq<char>>, int);

/// The expected pads that have copper, in order.
pub open spec fn traced(p: Seq<usize>, copper: Seq<CopperView>, expected: Seq<ExpectedView>) -> Seq<TracedView>
    decreases expected.len(),
{
    if expected.len() == 0 {
        Seq::empty()
    } else {
        let rest = traced(p, copper, expected.drop_last());
        let e = expected.last();
        match pad_tree(p, copper, e.0, e.1) {
            Some(t) => rest.push((pad_label(e.0, e.1), e.2, t)),
            None => rest,
        }
    }
}

/// The name a pad's net is grouped under: empty for a pad with no net.
pub open spec fn net_name(n: Option<Seq<char>>) -> Seq<char> {
    match n {
        Some(s) => s,
        None => Seq::empty(),
    }
}

/// A finding of the trace, as plain values.
pub enum ProblemView {
    /// A pad whose copper lies in several trees.
    Split(Seq<char>, Seq<char>, nat),
    /// A pad with no copper.
    Missing(Seq<char>, Seq<char>),
    /// A net and the labels of its pieces of copper.
    Open(Seq<char>, Seq<Seq<Seq<char>>>),
    /// The nets one tree joins, each with its pads, and its pads of no net.
    Short(Seq<(Seq<char>, Seq<Seq<char>>)>, Seq<Seq<char>>),
}

/// The pads whose copper lies in several trees, in the order of `copper`.
pub open spec fn split_problems(p: Seq<usize>, copper: Seq<CopperView>) -> Seq<ProblemView>
    decreases copper.len(),
{
    if copper.len() == 0 {
        Seq::empty()
    } else {
        let rest = split_problems(p, copper.drop_last());
        let c = copper.last();
        let k = distinct(node_roots(p, c.2)).len();
        if k > 1 { rest.push(ProblemView::Split(c.0, c.1, k)) } else { rest }
    }
}

/// The expected pads with no copper, in order.
pub open spec fn missing_problems(p: Seq<usize>, copper: Seq<CopperView>, expected: Seq<ExpectedView>) -> Seq<ProblemView>
    decreases expected.len(),
{
    if expected.len() == 0 {
        Seq::empty()
    } else {
        let rest = missing_problems(p, copper, expected.drop_last());
        let e = expected.last();
        if pad_tree(p, copper, e.0, e.1) is None { rest.push(ProblemView::Missing(e.0, e.1)) } else { rest }
    }
}

/// Where group `t` stands in `groups`, or `groups.len()`.
pub open spec fn group_index(groups: Seq<(int, Seq<Seq<char>>)>, t: int) -> int
    decreases groups.len(),
{
    if groups.len() == 0 {
        0
    } else if groups[0].0 == t {
        0
    } else {
        1 + group_index(groups.drop_first(), t)
    }
}

/// Labels grouped by tree, the groups in the order their trees first
/// appear, each group's labels in order.
pub open spec fn by_tree(s: Seq<(int, Seq<char>)>) -> Seq<(int, Seq<Seq<char>>)>
    decreases s.len(),
{
    if s.len() == 0 {
        Seq::empty()
    } else {
        let g = by_tree(s.drop_last());
        let (t, l) = s.last();
        let i = group_index(g, t);
        if 0 <= i < g.len() { g.update(i, (t, g[i].1.push(l))) } else { g.push((t, seq![l])) }
    }
}

/// Whether a traced pad is in tree `t`.
pub open spec fn on_tree(t: int) -> spec_fn(TracedView) -> bool {
    |x: TracedView| x.2 == t
}

/// Whether a traced pad's net is grouped under `n`.
pub open spec fn named_as(n: Seq<char>) -> spec_fn(TracedView) -> bool {
    |x: TracedView| net_name(x.1) == n
}

/// Whether a traced pad's net is `n`.
pub open spec fn net_is(n: Seq<char>) -> spec_fn(TracedView) -> bool {
    |t: TracedView| t.1 == Some(n)
}

/// Whether a traced pad has a net.
pub open spec fn has_net() -> spec_fn(TracedView) -> bool {
    |t: TracedView| t.1 is Some
}

/// A traced pad's net.
pub open spec fn net_of() -> spec_fn(TracedView) -> Seq<char> {
    |t: TracedView| t.1->0
}

/// A traced pad's tree and label.
pub open spec fn tree_label() -> spec_fn(TracedView) -> (int, Seq<char>) {
    |t: TracedView| (t.2, t.0)
}

/// A traced pad's label.
pub open spec fn label_of() -> spec_fn(TracedView) -> Seq<char> {
    |x: TracedView| x.0
}

/// The name a traced pad's net is grouped under.
pub open spec fn name_of() -> spec_fn(TracedView) -> Seq<char> {
    |x: TracedView| net_name(x.1)
}

/// Whether a name is not empty.
pub open spec fn non_empty() -> spec_fn(Seq<char>) -> bool {
    |m: Seq<char>| m.len() > 0
}

/// The pieces of copper a net's pads lie in.
pub open spec fn net_pieces(tr: Seq<TracedView>, n: Seq<char>) -> Seq<(int, Seq<Seq<char>>)> {
    by_tree(tr.filter(net_is(n)).map_values(tree_label()))
}

/// The nets of the traced pads, each once.
pub open spec fn traced_nets(tr: Seq<TracedView>) -> Seq<Seq<char>> {
    distinct(tr.filter(has_net()).map_values(net_of()))
}

/// The texts of `s` in increasing order.
pub open spec fn in_text_order(s: Seq<Seq<char>>) -> Seq<Seq<char>> {
    choose|t: Seq<Seq<char>>| t.to_multiset() == s.to_multiset() && sorted_by(t, text_order())
}

/// The open nets among `nets`, in order.
pub open spec fn open_problems(tr: Seq<TracedView>, nets: Seq<Seq<char>>) -> Seq<ProblemView>
    decreases nets.len(),
{
    if nets.len() == 0 {
        Seq::empty()
    } else {
        let rest = open_problems(tr, nets.drop_last());
        let ps = net_pieces(tr, nets.last());
        if ps.len() > 1 {
            rest.push(ProblemView::Open(nets.last(), ps.map_values(|g: (int, Seq<Seq<char>>)| g.1)))
        } else {
            rest
        }
    }
}

/// The traced pads of tree `t`, in order.
pub open spec fn tree_pads(tr: Seq<TracedView>, t: int) -> Seq<TracedView> {
    tr.filter(on_tree(t))
}

/// The short a tree makes, if it makes one: the named nets of its pads in
/// text order, each with its pads, and its pads of no net.
pub open spec fn short_at(tr: Seq<TracedView>, t: int) -> Option<ProblemView> {
    let pads = tree_pads(tr, t);
    let names = in_text_order(distinct(pads.map_values(name_of()).filter(non_empty())));
    let unnamed = pads.filter(named_as(Seq::empty())).map_values(label_of());
    if names.len() > 1 || (names.len() == 1 && unnamed.len() > 0) {
        Some(ProblemView::Short(
            names.map_values(|n: Seq<char>| (n, pads.filter(named_as(n)).map_values(label_of()))),
            unnamed,
        ))
    } else {
        None
    }
}

/// The nets a short names.
pub open spec fn short_nets(p: ProblemView) -> Seq<Seq<char>> {
    match p {
        ProblemView::Short(nets, _) => nets.map_values(|e: (Seq<char>, Seq<Seq<char>>)| e.0),
        _ => Seq::empty(),
    }
}

/// A piece of copper that holds pads of two different nets is a short:
/// the trace reports a short for that tree, and the short names both nets.
pub proof fn lemma_two_nets_short(tr: Seq<TracedView>, n: int, a: int, b: int)
    requires
        0 <= a < tr.len(), 0 <= b < tr.len(),
        tr[a].2 == tr[b].2, 0 <= tr[a].2 < n,
        tr[a].1 is Some, tr[b].1 is Some,
        tr[a].1->0.len() > 0, tr[b].1->0.len() > 0,
        tr[a].1->0 != tr[b].1->0,
    ensures
        short_at(tr, tr[a].2) is Some,
        short_at(tr, tr[a].2)->0 is Short,
        short_nets(short_at(tr, tr[a].2)->0).contains(tr[a].1->0),
        short_nets(short_at(tr, tr[a].2)->0).contains(tr[b].1->0),
        short_problems(tr, n).contains(short_at(tr, tr[a].2)->0),
        short_problems(tr, n).len() > 0,
{
    broadcast use vstd::seq_lib::group_to_multiset_ensures;
    let t = tr[a].2;
    let x = tr[a].1->0;
    let y = tr[b].1->0;
    let pads = tree_pads(tr, t);
    tr.filter_lemma(on_tree(t));
    assert(pads.contains(tr[a]));
    assert(pads.contains(tr[b]));
    let ns = pads.map_values(name_of());
    let ia = choose|i: int| 0 <= i < pads.len() && pads[i] == tr[a];
    let ib = choose|i: int| 0 <= i < pads.len() && pads[i] == tr[b];
    assert(ns[ia] == x);
    assert(ns[ib] == y);
    let ne = ns.filter(non_empty());
    ns.filter_lemma(non_empty());
    assert(ne.contains(x));
    assert(ne.contains(y));
    let dd = distinct(ne);
    lemma_distinct_keeps(ne, x);
    lemma_distinct_keeps(ne, y);
    crate::canon::lemma_text_order_total();
    let srt = dd.sort_by(text_order());
    dd.lemma_sort_by_ensures(text_order());
    lemma_in_text_order(dd, srt);
    let names = in_text_order(dd);
    assert(names.to_multiset() == dd.to_multiset());
    assert(dd.to_multiset().count(x) > 0);
    assert(dd.to_multiset().count(y) > 0);
    assert(names.to_multiset().count(x) > 0);
    assert(names.to_multiset().count(y) > 0);
    assert(names.contains(x));
    assert(names.contains(y));
    if names.len() <= 1 {
        let jx = choose|i: int| 0 <= i < names.len() && names[i] == x;
        let jy = choose|i: int| 0 <= i < names.len() && names[i] == y;
        assert(false);
    }
    let jx = choose|i: int| 0 <= i < names.len() && names[i] == x;
    let jy = choose|i: int| 0 <= i < names.len() && names[i] == y;
    let nets = names.map_values(|m: Seq<char>| (m, pads.filter(named_as(m)).map_values(label_of())));
    assert(nets[jx].0 == x);
    assert(nets[jy].0 == y);
    let unnamed = pads.filter(named_as(Seq::empty())).map_values(label_of());
    assert(short_at(tr, t) == Some(ProblemView::Short(nets, unnamed)));
    let sn = short_nets(ProblemView::Short(nets, unnamed));
    assert(sn[jx] == x);
    assert(sn[jy] == y);
    lemma_short_listed(tr, t, n);
}

/// A piece of copper that holds a pad of a net and a pad of no net is a
/// short too: the trace reports a short for that tree naming the net.
pub proof fn lemma_net_and_no_net_short(tr: Seq<TracedView>, n: int, a: int, b: int)
    requires
        0 <= a < tr.len(), 0 <= b < tr.len(),
        tr[a].2 == tr[b].2, 0 <= tr[a].2 < n,
        tr[a].1 is Some, tr[a].1->0.len() > 0,
        tr[b].1 is None,
    ensures
        short_at(tr, tr[a].2) is Some,
        short_at(tr, tr[a].2)->0 is Short,
        short_nets(short_at(tr, tr[a].2)->0).contains(tr[a].1->0),
        short_problems(tr, n).contains(short_at(tr, tr[a].2)->0),
        short_problems(tr, n).len() > 0,
{
    broadcast use vstd::seq_lib::group_to_multiset_ensures;
    let t = tr[a].2;
    let x = tr[a].1->0;
    let pads = tree_pads(tr, t);
    tr.filter_lemma(on_tree(t));
    assert(pads.contains(tr[a]));
    assert(pads.contains(tr[b]));
    let ns = pads.map_values(name_of());
    let ia = choose|i: int| 0 <= i < pads.len() && pads[i] == tr[a];
    assert(ns[ia] == x);
    let ne = ns.filter(non_empty());
    ns.filter_lemma(non_empty());
    assert(ne.contains(x));
    let dd = distinct(ne);
    lemma_distinct_keeps(ne, x);
    crate::canon::lemma_text_order_total();
    let srt = dd.sort_by(text_order());
    dd.lemma_sort_by_ensures(text_order());
    lemma_in_text_order(dd, srt);
    let names = in_text_order(dd);
    assert(dd.to_multiset().count(x) > 0);
    assert(names.to_multiset().count(x) > 0);
    assert(names.contains(x));
    let jx = choose|i: int| 0 <= i < names.len() && names[i] == x;
    let un = pads.filter(named_as(Seq::empty()));
    pads.filter_lemma(named_as(Seq::empty()));
    assert(named_as(Seq::empty())(tr[b]));
    assert(un.contains(tr[b]));
    let unnamed = un.map_values(label_of());
    assert(unnamed.len() > 0);
    let nets = names.map_values(|m: Seq<char>| (m, pads.filter(named_as(m)).map_values(label_of())));
    assert(short_at(tr, t) == Some(ProblemView::Short(nets, unnamed)));
    let sn = short_nets(ProblemView::Short(nets, unnamed));
    assert(sn[jx] == x);
    lemma_short_listed(tr, t, n);
}

/// A piece of copper whose pads all belong to one net is no short.
pub proof fn lemma_one_net_no_short(tr: Seq<TracedView>, t: int, x: Seq<char>)
    requires
        x.len() > 0,
        forall|i: int| 0 <= i < tr.len() && tr[i].2 == t ==> (#[trigger] tr[i]).1 == Some(x),
    ensures short_at(tr, t) is None,
{
    broadcast use vstd::seq_lib::group_to_multiset_ensures;
    let pads = tree_pads(tr, t);
    tr.filter_lemma(on_tree(t));
    assert forall|i: int| 0 <= i < pads.len() implies (#[trigger] pads[i]).1 == Some(x) by {
        assert(on_tree(t)(pads[i]));
        assert(pads.contains(pads[i]));
        tr.lemma_filter_contains_rev(on_tree(t), pads[i]);
        assert(tr.contains(pads[i]));
    }
    let ns = pads.map_values(name_of());
    let ne = ns.filter(non_empty());
    ns.filter_lemma(non_empty());
    assert forall|i: int| 0 <= i < ne.len() implies #[trigger] ne[i] == x by {
        assert(ne.contains(ne[i]));
        ns.lemma_filter_contains_rev(non_empty(), ne[i]);
        assert(ns.contains(ne[i]));
        let j = choose|j: int| 0 <= j < ns.len() && ns[j] == ne[i];
        assert(pads[j].1 == Some(x));
    }
    let dd = distinct(ne);
    lemma_distinct_all_same(ne, x);
    crate::canon::lemma_text_order_total();
    let srt = dd.sort_by(text_order());
    dd.lemma_sort_by_ensures(text_order());
    lemma_in_text_order(dd, srt);
    let names = in_text_order(dd);
    assert(names.to_multiset() == dd.to_multiset());
    assert(names.len() == names.to_multiset().len());
    assert(dd.len() == dd.to_multiset().len());
    let un = pads.filter(named_as(Seq::empty()));
    pads.filter_lemma(named_as(Seq::empty()));
    if un.len() > 0 {
        assert(named_as(Seq::empty())(un[0]));
        assert(un.contains(un[0]));
        pads.lemma_filter_contains_rev(named_as(Seq::empty()), un[0]);
        assert(pads.contains(un[0]));
        let j = choose|j: int| 0 <= j < pads.len() && pads[j] == un[0];
        assert(pads[j].1 == Some(x));
        assert(false);
    }
    assert(pads.filter(named_as(Seq::empty())).map_values(label_of()).len() == 0);
}

/// Removing repeats from a sequence of one value leaves at most one.
proof fn lemma_distinct_all_same<A>(s: Seq<A>, x: A)
    requires forall|i: int| 0 <= i < s.len() ==> #[trigger] s[i] == x,
    ensures distinct(s).len() <= 1, forall|i: int| 0 <= i < distinct(s).len() ==> #[trigger] distinct(s)[i] == x,
    decreases s.len(),
{
    if s.len() > 0 {
        let d = s.drop_last();
        assert forall|i: int| 0 <= i < d.len() implies #[trigger] d[i] == x by { assert(d[i] == s[i]); }
        lemma_distinct_all_same(d, x);
        let dd = distinct(d);
        if dd.len() == 1 {
            assert(dd[0] == x);
            assert(dd.contains(s.last()));
        }
    }
}

/// What `trace_netlist` reports for such a tree: among its findings a
/// short naming both nets, and a short count above zero.
pub proof fn lemma_two_nets_short_reported(p: Seq<usize>, copper: Seq<CopperView>, expected: Seq<ExpectedView>, a: int, b: int)
    requires ({
        let tr = traced(p, copper, expected);
        &&& 0 <= a < tr.len() && 0 <= b < tr.len()
        &&& tr[a].2 == tr[b].2 && 0 <= tr[a].2 < p.len()
        &&& tr[a].1 is Some && tr[b].1 is Some
        &&& tr[a].1->0.len() > 0 && tr[b].1->0.len() > 0
        &&& tr[a].1->0 != tr[b].1->0
    }),
    ensures ({
        let tr = traced(p, copper, expected);
        let sh = short_at(tr, tr[a].2)->0;
        &&& findings(p, copper, expected).contains(sh)
        &&& short_nets(sh).contains(tr[a].1->0) && short_nets(sh).contains(tr[b].1->0)
        &&& short_problems(tr, p.len() as int).len() > 0
    }),
{
    let tr = traced(p, copper, expected);
    lemma_two_nets_short(tr, p.len() as int, a, b);
    let sh = short_at(tr, tr[a].2)->0;
    let sp = short_problems(tr, p.len() as int);
    let front = split_problems(p, copper) + missing_problems(p, copper, expected)
        + open_problems(tr, in_text_order(traced_nets(tr)));
    assert(findings(p, copper, expected) == front + sp);
    let i = choose|i: int| 0 <= i < sp.len() && sp[i] == sh;
    assert((front + sp)[front.len() + i] == sh);
}

/// `distinct` keeps every element.
proof fn lemma_distinct_keeps<A>(s: Seq<A>, x: A)
    requires s.contains(x),
    ensures distinct(s).contains(x),
    decreases s.len(),
{
    let d = s.drop_last();
    if s.last() == x {
        let dd = distinct(d);
        if !dd.contains(s.last()) {
            assert(dd.push(s.last())[dd.len() as int] == x);
        }
    } else {
        let i = choose|i: int| 0 <= i < s.len() && s[i] == x;
        assert(i < s.len() - 1);
        assert(d[i] == x);
        lemma_distinct_keeps(d, x);
        let dd = distinct(d);
        let j = choose|j: int| 0 <= j < dd.len() && dd[j] == x;
        if !dd.contains(s.last()) {
            assert(dd.push(s.last())[j] == x);
        }
    }
}

/// The short of a tree below `k` is among the shorts of the trees below `k`.
proof fn lemma_short_listed(tr: Seq<TracedView>, t: int, k: int)
    requires 0 <= t < k, short_at(tr, t) is Some,
    ensures short_problems(tr, k).contains(short_at(tr, t)->0),
    decreases k,
{
    let rest = short_problems(tr, k - 1);
    if t == k - 1 {
        let p = short_at(tr, t)->0;
        assert(rest.push(p)[rest.len() as int] == p);
    } else {
        lemma_short_listed(tr, t, k - 1);
        let p = short_at(tr, t)->0;
        let i = choose|i: int| 0 <= i < rest.len() && rest[i] == p;
        match short_at(tr, k - 1) {
            Some(q) => { assert(rest.push(q)[i] == p); },
            None => {},
        }
    }
}

/// The shorts of the trees below `k`, in order.
pub open spec fn short_problems(tr: Seq<TracedView>, k: int) -> Seq<ProblemView>
    decreases k,
{
    if k <= 0 {
        Seq::empty()
    } else {
        let rest = short_problems(tr, k - 1);
        match short_at(tr, k - 1) {
            Some(s) => rest.push(s),
            None => rest,
        }
    }
}

/// A finding of the trace.
#[derive(Debug)]
pub enum TraceProblem {
    /// A pad whose copper lies in `trees` trees that nothing joins.
    Split { refdes: String, pad: String, trees: usize },
    /// A pad with no copper in the files.
    Missing { refdes: String, pad: String },
    /// A net in several pieces, each given by the labels of its pads.
    Open { net: String, pieces: Vec<Vec<String>> },
    /// One tree joining several nets (each with its pads), or a net and
    /// pads of no net.
    Short { nets: Vec<(String, Vec<String>)>, unnamed: Vec<String> },
}

impl View for TraceProblem {
    type V = ProblemView;

    open spec fn view(&self) -> ProblemView {
        match self {
            TraceProblem::Split { refdes, pad, trees } => ProblemView::Split(refdes@, pad@, *trees as nat),
            TraceProblem::Missing { refdes, pad } => ProblemView::Missing(refdes@, pad@),
            TraceProblem::Open { net, pieces } => ProblemView::Open(net@, pieces@.map_values(|v: Vec<String>| texts(v@))),
            TraceProblem::Short { nets, unnamed } => ProblemView::Short(
                nets@.map_values(|e: (String, Vec<String>)| (e.0@, texts(e.1@))),
                texts(unnamed@),
            ),
        }
    }
}

pub open spec fn problems_view(v: Seq<TraceProblem>) -> Seq<ProblemView> {
    v.map_values(|x: TraceProblem| x@)
}

/// Whether every pad's islands are listed and exist.
pub open spec fn copper_ok(p: Seq<usize>, copper: Seq<CopperView>) -> bool {
    forall|i: int, k: int| 0 <= i < copper.len() && 0 <= k < copper[i].2.len() ==> #[trigger] copper[i].2[k] < p.len()
}

/// Whether every pad lies in at least one island.
pub open spec fn copper_found(copper: Seq<CopperView>) -> bool {
    forall|i: int| 0 <= i < copper.len() ==> #[trigger] copper[i].2.len() > 0
}

/// The tree a pad's copper is counted in.
fn tree_of_pad(parent: &Vec<usize>, copper: &Vec<PadCopper>, refdes: &String, pad: &String) -> (r: Option<usize>)
    requires forest(parent@), copper_ok(parent@, copper_view(copper@)), copper_found(copper_view(copper@)),
    ensures
        match pad_tree(parent@, copper_view(copper@), refdes@, pad@) {
            Some(t) => r matches Some(u) && u == t,
            None => r is None,
        },
        r matches Some(t) ==> t < parent@.len(),
{
    let ghost cv = copper_view(copper@);
    let mut i: usize = 0;
    proof { assert(cv.skip(0) =~= cv); }
    while i < copper.len()
        invariant
            i <= copper@.len(), cv == copper_view(copper@), forest(parent@),
            copper_ok(parent@, cv), copper_found(cv),
            copper_index(cv, refdes@, pad@) == i + copper_index(cv.skip(i as int), refdes@, pad@),
        decreases copper@.len() - i,
    {
        if copper[i].refdes == *refdes && copper[i].pad == *pad {
            proof { assert(cv.skip(i as int)[0] == cv[i as int]); }
            proof {
                assert(cv[i as int].2 == copper@[i as int].nodes@);
                assert forall|k: int| 0 <= k < copper@[i as int].nodes@.len() implies #[trigger] copper@[i as int].nodes@[k] < parent@.len() by {
                    assert(cv[i as int].2[k] < parent@.len());
                }
                assert(cv[i as int].2.len() > 0);
            }
            let (_, t) = pad_trees(parent, &copper[i].nodes);
            return Some(t);
        }
        proof {
            assert(cv.skip(i as int)[0] == cv[i as int]);
            assert(cv.skip(i as int).drop_first() =~= cv.skip(i + 1));
        }
        i += 1;
    }
    proof { assert(cv.skip(i as int).len() == 0); }
    None
}

/// The pads whose copper lies in several trees.
fn splits(parent: &Vec<usize>, copper: &Vec<PadCopper>) -> (r: Vec<TraceProblem>)
    requires forest(parent@), copper_ok(parent@, copper_view(copper@)), copper_found(copper_view(copper@)),
    ensures problems_view(r@) == split_problems(parent@, copper_view(copper@)),
{
    let ghost cv = copper_view(copper@);
    let mut out: Vec<TraceProblem> = Vec::new();
    let mut i: usize = 0;
    proof { assert(problems_view(out@) =~= split_problems(parent@, cv.take(0))); }
    while i < copper.len()
        invariant
            i <= copper@.len(), cv == copper_view(copper@), forest(parent@),
            copper_ok(parent@, cv), copper_found(cv),
            problems_view(out@) == split_problems(parent@, cv.take(i as int)),
        decreases copper@.len() - i,
    {
        proof {
            assert(cv.take(i + 1).drop_last() =~= cv.take(i as int));
            assert(cv.take(i + 1).last() == cv[i as int]);
            assert(cv[i as int].2 == copper@[i as int].nodes@);
            assert forall|k: int| 0 <= k < copper@[i as int].nodes@.len() implies #[trigger] copper@[i as int].nodes@[k] < parent@.len() by {
                assert(cv[i as int].2[k] < parent@.len());
            }
            assert(cv[i as int].2.len() > 0);
        }
        let (k, _) = pad_trees(parent, &copper[i].nodes);
        if k > 1 {
            let ghost before = out@;
            let prob = TraceProblem::Split { refdes: copper[i].refdes.clone(), pad: copper[i].pad.clone(), trees: k };
            out.push(prob);
            proof { assert(problems_view(out@) =~= problems_view(before).push(prob@)); }
        }
        i += 1;
    }
    proof { assert(cv.take(copper@.len() as int) =~= cv); }
    out
}

/// A traced pad: label, net, tree.
pub type Traced = (String, Option<String>, usize);

pub open spec fn traced_view(v: Seq<Traced>) -> Seq<TracedView> {
    v.map_values(|t: Traced| (t.0@, net_view(t.1), t.2 as int))
}

fn clone_net(n: &Option<String>) -> (r: Option<String>)
    ensures net_view(r) == net_view(*n),
{
    match n {
        Some(s) => Some(s.clone()),
        None => None,
    }
}

/// The expected pads with copper, and the findings for those without.
fn trace_pads(parent: &Vec<usize>, copper: &Vec<PadCopper>, expected: &Vec<ExpectedPad>) -> (r: (Vec<Traced>, Vec<TraceProblem>))
    requires forest(parent@), copper_ok(parent@, copper_view(copper@)), copper_found(copper_view(copper@)),
    ensures
        traced_view(r.0@) == traced(parent@, copper_view(copper@), expected_view(expected@)),
        problems_view(r.1@) == missing_problems(parent@, copper_view(copper@), expected_view(expected@)),
        forall|j: int| 0 <= j < r.0@.len() ==> (#[trigger] r.0@[j]).2 < parent@.len(),
{
    let ghost cv = copper_view(copper@);
    let ghost ev = expected_view(expected@);
    let mut tr: Vec<Traced> = Vec::new();
    let mut miss: Vec<TraceProblem> = Vec::new();
    let mut i: usize = 0;
    proof {
        assert(traced_view(tr@) =~= traced(parent@, cv, ev.take(0)));
        assert(problems_view(miss@) =~= missing_problems(parent@, cv, ev.take(0)));
    }
    while i < expected.len()
        invariant
            i <= expected@.len(), cv == copper_view(copper@), ev == expected_view(expected@), forest(parent@),
            copper_ok(parent@, cv), copper_found(cv),
            traced_view(tr@) == traced(parent@, cv, ev.take(i as int)),
            problems_view(miss@) == missing_problems(parent@, cv, ev.take(i as int)),
            forall|j: int| 0 <= j < tr@.len() ==> (#[trigger] tr@[j]).2 < parent@.len(),
        decreases expected@.len() - i,
    {
        proof {
            assert(ev.take(i + 1).drop_last() =~= ev.take(i as int));
            assert(ev.take(i + 1).last() == ev[i as int]);
        }
        let e = &expected[i];
        proof { assert(ev[i as int] == (e.refdes@, e.pad@, net_view(e.net))); }
        match tree_of_pad(parent, copper, &e.refdes, &e.pad) {
            Some(t) => {
                proof {
                    let f = pad_tree(parent@, cv, e.refdes@, e.pad@);
                    let ci = copper_index(cv, e.refdes@, e.pad@);
                    assert(0 <= ci < cv.len());
                }
                let label = cat3(e.refdes.as_str(), ".", e.pad.as_str());
                let ghost before = tr@;
                let item = (label, clone_net(&e.net), t);
                tr.push(item);
                proof {
                    assert(traced_view(tr@) =~= traced_view(before).push((item.0@, net_view(item.1), item.2 as int)));
                }
            },
            None => {
                let ghost before = miss@;
                let prob = TraceProblem::Missing { refdes: e.refdes.clone(), pad: e.pad.clone() };
                miss.push(prob);
                proof { assert(problems_view(miss@) =~= problems_view(before).push(prob@)); }
            },
        }
        i += 1;
    }
    proof { assert(ev.take(expected@.len() as int) =~= ev); }
    (tr, miss)
}

/// Whether `v` holds the text `t`.
fn holds_text(v: &Vec<String>, t: &String) -> (r: bool)
    ensures r == texts(v@).contains(t@),
{
    let mut i: usize = 0;
    while i < v.len()
        invariant i <= v@.len(), forall|j: int| 0 <= j < i ==> v@[j]@ != t@,
        decreases v@.len() - i,
    {
        if v[i] == *t {
            proof { assert(texts(v@)[i as int] == t@); }
            return true;
        }
        i += 1;
    }
    proof {
        if texts(v@).contains(t@) {
            let j = choose|j: int| 0 <= j < texts(v@).len() && texts(v@)[j] == t@;
            assert(v@[j]@ == t@);
        }
    }
    false
}

/// The nets of the traced pads, each once, in the order they first appear.
fn net_list(tr: &Vec<Traced>) -> (r: Vec<String>)
    ensures texts(r@) == traced_nets(traced_view(tr@)),
{
    let ghost tv = traced_view(tr@);
    let ghost pick = has_net();
    let ghost name = net_of();
    let mut out: Vec<String> = Vec::new();
    let mut i: usize = 0;
    proof { reveal(Seq::filter); assert(tv.take(0).filter(pick) =~= Seq::<TracedView>::empty()); }
    while i < tr.len()
        invariant
            i <= tr@.len(), tv == traced_view(tr@),
            pick == has_net(), name == net_of(),
            texts(out@) == distinct(tv.take(i as int).filter(pick).map_values(name)),
        decreases tr@.len() - i,
    {
        proof {
            reveal(Seq::filter);
            assert(tv.take(i + 1).drop_last() =~= tv.take(i as int));
            assert(tv.take(i + 1).last() == tv[i as int]);
        }
        match &tr[i].1 {
            Some(n) => {
                proof {
                    reveal(Seq::filter);
                    let s0 = tv.take(i as int).filter(pick).map_values(name);
                    assert(tv.take(i + 1).filter(pick) == tv.take(i as int).filter(pick).push(tv[i as int]));
                    assert(tv.take(i + 1).filter(pick).map_values(name) =~= s0.push(n@));
                    assert(distinct(s0.push(n@)).len() >= 0);
                    assert(s0.push(n@).drop_last() =~= s0);
                }
                if !holds_text(&out, n) {
                    let ghost before = out@;
                    out.push(n.clone());
                    proof { assert(texts(out@) =~= texts(before).push(n@)); }
                }
            },
            None => {
                proof { reveal(Seq::filter); assert(tv.take(i + 1).filter(pick) == tv.take(i as int).filter(pick)); }
            },
        }
        i += 1;
    }
    proof { assert(tv.take(tr@.len() as int) =~= tv); }
    out
}

/// Groups as plain values.
pub open spec fn groups_view(g: Seq<(usize, Vec<String>)>) -> Seq<(int, Seq<Seq<char>>)> {
    g.map_values(|x: (usize, Vec<String>)| (x.0 as int, texts(x.1@)))
}

proof fn lemma_group_index(g: Seq<(int, Seq<Seq<char>>)>, t: int)
    ensures
        0 <= group_index(g, t) <= g.len(),
        group_index(g, t) < g.len() ==> g[group_index(g, t)].0 == t,
    decreases g.len(),
{
    if g.len() > 0 && g[0].0 != t {
        lemma_group_index(g.drop_first(), t);
    }
}

/// Where the group of tree `t` stands.
fn group_of(groups: &Vec<(usize, Vec<String>)>, t: usize) -> (r: usize)
    ensures r == group_index(groups_view(groups@), t as int), r <= groups@.len(),
{
    let ghost gv = groups_view(groups@);
    let mut k: usize = 0;
    proof { assert(gv.skip(0) =~= gv); }
    while k < groups.len()
        invariant
            k <= groups@.len(), gv == groups_view(groups@),
            group_index(gv, t as int) == k + group_index(gv.skip(k as int), t as int),
        decreases groups@.len() - k,
    {
        proof { assert(gv.skip(k as int)[0] == gv[k as int]); }
        if groups[k].0 == t {
            return k;
        }
        proof { assert(gv.skip(k as int).drop_first() =~= gv.skip(k + 1)); }
        k += 1;
    }
    proof { assert(gv.skip(k as int).len() == 0); }
    k
}

/// The pieces of copper the pads of `net` lie in, each with its pads'
/// labels.
fn pieces_of(tr: &Vec<Traced>, net: &String) -> (r: Vec<(usize, Vec<String>)>)
    ensures groups_view(r@) == net_pieces(traced_view(tr@), net@),
{
    let ghost tv = traced_view(tr@);
    let ghost pick = net_is(net@);
    let ghost key = tree_label();
    let mut groups: Vec<(usize, Vec<String>)> = Vec::new();
    let mut i: usize = 0;
    proof {
        reveal(Seq::filter);
        assert(tv.take(0).filter(pick) =~= Seq::<TracedView>::empty());
        assert(groups_view(groups@) =~= by_tree(tv.take(0).filter(pick).map_values(key)));
    }
    while i < tr.len()
        invariant
            i <= tr@.len(), tv == traced_view(tr@),
            pick == net_is(net@), key == tree_label(),
            groups_view(groups@) == by_tree(tv.take(i as int).filter(pick).map_values(key)),
        decreases tr@.len() - i,
    {
        proof {
            reveal(Seq::filter);
            assert(tv.take(i + 1).drop_last() =~= tv.take(i as int));
            assert(tv.take(i + 1).last() == tv[i as int]);
        }
        let hit = match &tr[i].1 {
            Some(m) => *m == *net,
            None => false,
        };
        if hit {
            let t = tr[i].2;
            let ghost s0 = tv.take(i as int).filter(pick).map_values(key);
            let ghost g0 = groups_view(groups@);
            proof {
                assert(tv.take(i + 1).filter(pick) == tv.take(i as int).filter(pick).push(tv[i as int]));
                assert(tv.take(i + 1).filter(pick).map_values(key) =~= s0.push((t as int, tr@[i as int].0@)));
                assert(s0.push((t as int, tr@[i as int].0@)).drop_last() =~= s0);
            }
            let j = group_of(&groups, t);
            proof { lemma_group_index(g0, t as int); }
            let label = tr[i].0.clone();
            if j < groups.len() {
                let mut g: (usize, Vec<String>) = (0, Vec::new());
                groups.set_and_swap(j, &mut g);
                let ghost l0 = g.1@;
                g.1.push(label);
                proof { assert(texts(g.1@) =~= texts(l0).push(tr@[i as int].0@)); }
                groups.set(j, g);
                proof { assert(groups_view(groups@) =~= g0.update(j as int, (t as int, g0[j as int].1.push(tr@[i as int].0@)))); }
            } else {
                let mut l: Vec<String> = Vec::new();
                l.push(label);
                proof { assert(texts(l@) =~= seq![tr@[i as int].0@]); }
                groups.push((t, l));
                proof { assert(groups_view(groups@) =~= g0.push((t as int, seq![tr@[i as int].0@]))); }
            }
        } else {
            proof { assert(tv.take(i + 1).filter(pick) == tv.take(i as int).filter(pick)); }
        }
        i += 1;
    }
    proof { assert(tv.take(tr@.len() as int) =~= tv); }
    groups
}

/// The labels of each group, the trees dropped.
fn piece_labels(g: Vec<(usize, Vec<String>)>) -> (r: Vec<Vec<String>>)
    ensures r@.map_values(|v: Vec<String>| texts(v@)) == groups_view(g@).map_values(|x: (int, Seq<Seq<char>>)| x.1),
{
    let ghost want = groups_view(g@).map_values(|x: (int, Seq<Seq<char>>)| x.1);
    let mut g = g;
    let mut out: Vec<Vec<String>> = Vec::new();
    let mut i: usize = 0;
    while i < g.len()
        invariant
            i <= g@.len(), want.len() == g@.len(),
            forall|j: int| i <= j < g@.len() ==> #[trigger] texts(g@[j].1@) == want[j],
            out@.len() == i, forall|j: int| 0 <= j < i ==> #[trigger] texts(out@[j]@) == want[j],
        decreases g@.len() - i,
    {
        let mut x: (usize, Vec<String>) = (0, Vec::new());
        g.set_and_swap(i, &mut x);
        out.push(x.1);
        i += 1;
    }
    proof { assert(out@.map_values(|v: Vec<String>| texts(v@)) =~= want); }
    out
}

/// A sorted rearrangement of `s` is `in_text_order(s)`.
proof fn lemma_in_text_order(s: Seq<Seq<char>>, t: Seq<Seq<char>>)
    requires t.to_multiset() == s.to_multiset(), sorted_by(t, text_order()),
    ensures in_text_order(s) == t,
{
    assert(exists|u: Seq<Seq<char>>| u.to_multiset() == s.to_multiset() && sorted_by(u, text_order())) by {
        assert(t.to_multiset() == s.to_multiset() && sorted_by(t, text_order()));
    }
    let c = in_text_order(s);
    crate::canon::lemma_sorted_ignores_order(s, s, c, t);
}

/// The open nets, in text order, and how many nets the traced pads have.
fn opens(tr: &Vec<Traced>) -> (r: (Vec<TraceProblem>, usize))
    ensures
        problems_view(r.0@) == open_problems(traced_view(tr@), in_text_order(traced_nets(traced_view(tr@)))),
        r.1 == traced_nets(traced_view(tr@)).len(),
{
    let ghost tv = traced_view(tr@);
    let nets = net_list(tr);
    let count = nets.len();
    let sn = sorted(nets);
    proof { lemma_in_text_order(traced_nets(tv), texts(sn@)); }
    let ghost order = texts(sn@);
    let mut out: Vec<TraceProblem> = Vec::new();
    let mut k: usize = 0;
    proof { assert(problems_view(out@) =~= open_problems(tv, order.take(0))); }
    while k < sn.len()
        invariant
            k <= sn@.len(), order == texts(sn@), tv == traced_view(tr@),
            problems_view(out@) == open_problems(tv, order.take(k as int)),
        decreases sn@.len() - k,
    {
        proof {
            assert(order.take(k + 1).drop_last() =~= order.take(k as int));
            assert(order.take(k + 1).last() == sn@[k as int]@);
        }
        let pieces = pieces_of(tr, &sn[k]);
        if pieces.len() > 1 {
            let ghost gv = groups_view(pieces@);
            let labels = piece_labels(pieces);
            let ghost before = out@;
            let prob = TraceProblem::Open { net: sn[k].clone(), pieces: labels };
            out.push(prob);
            proof { assert(problems_view(out@) =~= problems_view(before).push(prob@)); }
        }
        k += 1;
    }
    proof { assert(order.take(sn@.len() as int) =~= order); }
    (out, count)
}

/// Whether a net name is empty.
fn is_blank(s: &String) -> (r: bool)
    ensures r == (s@.len() == 0),
{
    let e = String::new();
    proof { if s@.len() == 0 { assert(s@ =~= e@); } }
    *s == e
}

/// Whether a pad's net is grouped under the name `n`.
fn named(net: &Option<String>, n: &String) -> (r: bool)
    ensures r == (net_name(net_view(*net)) == n@),
{
    match net {
        Some(m) => *m == *n,
        None => {
            let b = is_blank(n);
            proof { if b { assert(n@ =~= Seq::<char>::empty()); } }
            b
        },
    }
}

/// The labels of the pads of tree `t` whose net is grouped under `n`.
fn labels_named(tr: &Vec<Traced>, t: usize, n: &String) -> (r: Vec<String>)
    ensures
        texts(r@) == tree_pads(traced_view(tr@), t as int).filter(named_as(n@)).map_values(label_of()),
{
    let ghost tv = traced_view(tr@);
    let ghost on = on_tree(t as int);
    let ghost by = named_as(n@);
    let ghost lab = label_of();
    let mut out: Vec<String> = Vec::new();
    let mut i: usize = 0;
    proof { reveal(Seq::filter); assert(tv.take(0).filter(on) =~= Seq::<TracedView>::empty()); }
    while i < tr.len()
        invariant
            i <= tr@.len(), tv == traced_view(tr@),
            on == on_tree(t as int), by == named_as(n@), lab == label_of(),
            texts(out@) == tv.take(i as int).filter(on).filter(by).map_values(lab),
        decreases tr@.len() - i,
    {
        proof {
            reveal(Seq::filter);
            assert(tv.take(i + 1).drop_last() =~= tv.take(i as int));
            assert(tv.take(i + 1).last() == tv[i as int]);
        }
        let hit = tr[i].2 == t && named(&tr[i].1, n);
        if hit {
            let ghost before = out@;
            out.push(tr[i].0.clone());
            proof {
                let f0 = tv.take(i as int).filter(on);
                assert(tv.take(i + 1).filter(on) == f0.push(tv[i as int]));
                assert(f0.push(tv[i as int]).drop_last() =~= f0);
                assert(f0.push(tv[i as int]).filter(by) == f0.filter(by).push(tv[i as int]));
                assert(texts(out@) =~= texts(before).push(tr@[i as int].0@));
            }
        } else {
            proof {
                let f0 = tv.take(i as int).filter(on);
                if tr@[i as int].2 == t {
                    assert(tv.take(i + 1).filter(on) == f0.push(tv[i as int]));
                    assert(f0.push(tv[i as int]).drop_last() =~= f0);
                    assert(f0.push(tv[i as int]).filter(by) == f0.filter(by));
                } else {
                    assert(tv.take(i + 1).filter(on) == f0);
                }
            }
        }
        i += 1;
    }
    proof { assert(tv.take(tr@.len() as int) =~= tv); }
    out
}

/// The named nets of the pads of tree `t`, each once, in the order they
/// first appear.
fn names_on(tr: &Vec<Traced>, t: usize) -> (r: Vec<String>)
    ensures
        texts(r@) == distinct(tree_pads(traced_view(tr@), t as int).map_values(name_of()).filter(non_empty())),
{
    let ghost tv = traced_view(tr@);
    let ghost on = on_tree(t as int);
    let ghost nm = name_of();
    let ghost full = non_empty();
    let mut out: Vec<String> = Vec::new();
    let mut i: usize = 0;
    proof { reveal(Seq::filter); assert(tv.take(0).filter(on) =~= Seq::<TracedView>::empty()); }
    while i < tr.len()
        invariant
            i <= tr@.len(), tv == traced_view(tr@),
            on == on_tree(t as int), nm == name_of(), full == non_empty(),
            texts(out@) == distinct(tv.take(i as int).filter(on).map_values(nm).filter(full)),
        decreases tr@.len() - i,
    {
        proof {
            reveal(Seq::filter);
            assert(tv.take(i + 1).drop_last() =~= tv.take(i as int));
            assert(tv.take(i + 1).last() == tv[i as int]);
        }
        let ghost f0 = tv.take(i as int).filter(on);
        let ghost m0 = f0.map_values(nm);
        if tr[i].2 == t {
            proof {
                reveal(Seq::filter);
                assert(tv.take(i + 1).filter(on) == f0.push(tv[i as int]));
                assert(f0.push(tv[i as int]).map_values(nm) =~= m0.push(nm(tv[i as int])));
                assert(m0.push(nm(tv[i as int])).drop_last() =~= m0);
            }
            match &tr[i].1 {
                Some(m) => {
                    if !is_blank(m) {
                        proof {
                            reveal(Seq::filter);
                            assert(m0.push(m@).filter(full) == m0.filter(full).push(m@));
                            assert(m0.filter(full).push(m@).drop_last() =~= m0.filter(full));
                        }
                        if !holds_text(&out, m) {
                            let ghost before = out@;
                            out.push(m.clone());
                            proof { assert(texts(out@) =~= texts(before).push(m@)); }
                        }
                    } else {
                        proof { reveal(Seq::filter); assert(m0.push(m@).filter(full) == m0.filter(full)); }
                    }
                },
                None => {
                    proof {
                        reveal(Seq::filter);
                        assert(m0.push(Seq::<char>::empty()).filter(full) == m0.filter(full));
                    }
                },
            }
        } else {
            proof { assert(tv.take(i + 1).filter(on) == f0); }
        }
        i += 1;
    }
    proof { assert(tv.take(tr@.len() as int) =~= tv); }
    out
}

/// The short tree `t` makes, if it makes one.
fn short_of(tr: &Vec<Traced>, t: usize) -> (r: Option<TraceProblem>)
    ensures
        match short_at(traced_view(tr@), t as int) {
            Some(p) => r matches Some(q) && q@ == p,
            None => r is None,
        },
{
    let ghost tv = traced_view(tr@);
    let ghost pads = tree_pads(tv, t as int);
    let first = names_on(tr, t);
    let names = sorted(first);
    proof { lemma_in_text_order(distinct(pads.map_values(name_of()).filter(non_empty())), texts(names@)); }
    let blank = String::new();
    let unnamed = labels_named(tr, t, &blank);
    proof { assert(blank@ =~= Seq::<char>::empty()); }
    if names.len() > 1 || (names.len() == 1 && unnamed.len() > 0) {
        let ghost want = texts(names@).map_values(|n: Seq<char>| (n, pads.filter(named_as(n)).map_values(label_of())));
        let mut parts: Vec<(String, Vec<String>)> = Vec::new();
        let mut k: usize = 0;
        while k < names.len()
            invariant
                k <= names@.len(), tv == traced_view(tr@), pads == tree_pads(tv, t as int),
                want == texts(names@).map_values(|n: Seq<char>| (n, pads.filter(named_as(n)).map_values(label_of()))),
                parts@.map_values(|e: (String, Vec<String>)| (e.0@, texts(e.1@))) == want.take(k as int),
            decreases names@.len() - k,
        {
            let ls = labels_named(tr, t, &names[k]);
            let ghost before = parts@;
            let e = (names[k].clone(), ls);
            parts.push(e);
            proof {
                assert(parts@.map_values(|e: (String, Vec<String>)| (e.0@, texts(e.1@)))
                    =~= before.map_values(|e: (String, Vec<String>)| (e.0@, texts(e.1@))).push((e.0@, texts(e.1@))));
                assert(want.take(k + 1) =~= want.take(k as int).push(want[k as int]));
            }
            k += 1;
        }
        proof { assert(want.take(names@.len() as int) =~= want); }
        Some(TraceProblem::Short { nets: parts, unnamed })
    } else {
        None
    }
}

/// The shorts of the first `n` trees, in order of tree.
fn shorts(tr: &Vec<Traced>, n: usize) -> (r: Vec<TraceProblem>)
    ensures problems_view(r@) == short_problems(traced_view(tr@), n as int),
{
    let mut out: Vec<TraceProblem> = Vec::new();
    let mut t: usize = 0;
    while t < n
        invariant t <= n, problems_view(out@) == short_problems(traced_view(tr@), t as int),
        decreases n - t,
    {
        match short_of(tr, t) {
            Some(p) => {
                let ghost before = out@;
                out.push(p);
                proof { assert(problems_view(out@) =~= problems_view(before).push(p@)); }
            },
            None => {},
        }
        t += 1;
    }
    out
}

/// The findings of a trace and its counts.
pub struct TraceReport {
    pub problems: Vec<TraceProblem>,
    pub opens: usize,
    pub shorts: usize,
    pub missing: usize,
    /// How many nets the traced pads have.
    pub nets: usize,
}

/// The findings of a trace: split pads, then missing pads, then open nets
/// in text order, then shorts in order of tree.
pub open spec fn findings(p: Seq<usize>, copper: Seq<CopperView>, expected: Seq<ExpectedView>) -> Seq<ProblemView> {
    let tv = traced(p, copper, expected);
    split_problems(p, copper) + missing_problems(p, copper, expected)
        + open_problems(tv, in_text_order(traced_nets(tv))) + short_problems(tv, p.len() as int)
}

/// Compares the copper with the nets: `parent` is the forest of islands
/// (see `link_islands`), `copper` where each pad's copper lies, `expected`
/// every pad that should have copper, with its net.
pub fn trace_netlist(parent: &Vec<usize>, copper: &Vec<PadCopper>, expected: &Vec<ExpectedPad>) -> (r: TraceReport)
    requires forest(parent@), copper_ok(parent@, copper_view(copper@)), copper_found(copper_view(copper@)),
    ensures
        problems_view(r.problems@) == findings(parent@, copper_view(copper@), expected_view(expected@)),
        r.missing == missing_problems(parent@, copper_view(copper@), expected_view(expected@)).len(),
        r.opens == ({
            let tv = traced(parent@, copper_view(copper@), expected_view(expected@));
            open_problems(tv, in_text_order(traced_nets(tv))).len()
        }),
        r.shorts == short_problems(traced(parent@, copper_view(copper@), expected_view(expected@)), parent@.len() as int).len(),
        r.nets == traced_nets(traced(parent@, copper_view(copper@), expected_view(expected@))).len(),
{
    let mut problems = splits(parent, copper);
    let (tr, mut miss) = trace_pads(parent, copper, expected);
    let (mut op, nets) = opens(&tr);
    let mut sh = shorts(&tr, parent.len());
    let missing = miss.len();
    let opens_n = op.len();
    let shorts_n = sh.len();
    let ghost a = problems_view(problems@);
    let ghost b = problems_view(miss@);
    let ghost c = problems_view(op@);
    let ghost d = problems_view(sh@);
    problems.append(&mut miss);
    problems.append(&mut op);
    problems.append(&mut sh);
    proof {
        assert(problems_view(problems@) =~= a + b + c + d);
    }
    TraceReport { problems, opens: opens_n, shorts: shorts_n, missing, nets }
}

/// How a finding reads.
pub open spec fn problem_text(p: ProblemView) -> Seq<char> {
    match p {
        ProblemView::Split(r, q, n) => "pad "@ + pad_label(r, q) + " is copper on "@ + nat_digits(n)
            + " layers that nothing joins (no plated drill through it in the drill file)"@,
        ProblemView::Missing(r, q) => "pad "@ + pad_label(r, q) + " has no copper in the gerbers"@,
        ProblemView::Open(n, pieces) => "open: net "@ + n + " is "@ + nat_digits(pieces.len()) + " separate pieces of copper in the gerbers: "@
            + join_text(pieces.map_values(|ls: Seq<Seq<char>>| join_text(ls, "+"@)), " | "@),
        ProblemView::Short(nets, unnamed) => "short: one piece of copper in the gerbers joins "@
            + join_text(short_parts(nets, unnamed), " and "@),
    }
}

/// A net of a short with its pads: `net (a, b)`.
pub open spec fn net_desc() -> spec_fn((Seq<char>, Seq<Seq<char>>)) -> Seq<char> {
    |e: (Seq<char>, Seq<Seq<char>>)| e.0 + " ("@ + join_text(e.1, ", "@) + ")"@
}

/// The parts of a short's text: each net with its pads, then the pads of no net.
pub open spec fn short_parts(nets: Seq<(Seq<char>, Seq<Seq<char>>)>, unnamed: Seq<Seq<char>>) -> Seq<Seq<char>> {
    let named = nets.map_values(net_desc());
    if unnamed.len() > 0 { named.push("unconnected pads"@ + " ("@ + join_text(unnamed, ", "@) + ")"@) } else { named }
}

/// `s` followed by `(`, the labels joined by `, `, and `)`.
fn listed(s: &str, labels: &Vec<String>) -> (r: String)
    ensures r@ == s@ + " ("@ + join_text(texts(labels@), ", "@) + ")"@,
{
    let mut out = String::new();
    push_str(&mut out, s);
    push_str(&mut out, " (");
    let j = join_strings(labels, ", ");
    push_str(&mut out, j.as_str());
    push_str(&mut out, ")");
    proof { assert(texts(labels@) == labels@.map_values(|s: String| s@)); }
    out
}

impl TraceProblem {
    /// How the finding reads.
    pub fn message(&self) -> (r: String)
        ensures r@ == problem_text(self@),
    {
        match self {
            TraceProblem::Split { refdes, pad, trees } => {
                let mut s = String::new();
                push_str(&mut s, "pad ");
                push_str(&mut s, refdes.as_str());
                push_str(&mut s, ".");
                push_str(&mut s, pad.as_str());
                push_str(&mut s, " is copper on ");
                push_nat(&mut s, *trees as u64);
                push_str(&mut s, " layers that nothing joins (no plated drill through it in the drill file)");
                proof { assert(s@ =~= problem_text(self@)); }
                s
            },
            TraceProblem::Missing { refdes, pad } => {
                let mut s = String::new();
                push_str(&mut s, "pad ");
                push_str(&mut s, refdes.as_str());
                push_str(&mut s, ".");
                push_str(&mut s, pad.as_str());
                push_str(&mut s, " has no copper in the gerbers");
                proof { assert(s@ =~= problem_text(self@)); }
                s
            },
            TraceProblem::Open { net, pieces } => {
                let ghost pv = pieces@.map_values(|v: Vec<String>| texts(v@));
                let mut joined: Vec<String> = Vec::new();
                let mut i: usize = 0;
                while i < pieces.len()
                    invariant
                        i <= pieces@.len(), pv == pieces@.map_values(|v: Vec<String>| texts(v@)),
                        texts(joined@) == pv.take(i as int).map_values(|ls: Seq<Seq<char>>| join_text(ls, "+"@)),
                    decreases pieces@.len() - i,
                {
                    let j = join_strings(&pieces[i], "+");
                    let ghost before = joined@;
                    joined.push(j);
                    proof {
                        assert(pieces@[i as int]@.map_values(|s: String| s@) == texts(pieces@[i as int]@));
                        assert(texts(joined@) =~= texts(before).push(j@));
                        assert(pv.take(i + 1) =~= pv.take(i as int).push(pv[i as int]));
                    }
                    i += 1;
                }
                proof { assert(pv.take(pieces@.len() as int) =~= pv); }
                let all = join_strings(&joined, " | ");
                let mut s = String::new();
                push_str(&mut s, "open: net ");
                push_str(&mut s, net.as_str());
                push_str(&mut s, " is ");
                push_nat(&mut s, pieces.len() as u64);
                push_str(&mut s, " separate pieces of copper in the gerbers: ");
                push_str(&mut s, all.as_str());
                proof {
                    assert(joined@.map_values(|s: String| s@) == texts(joined@));
                    assert(s@ =~= problem_text(self@));
                }
                s
            },
            TraceProblem::Short { nets, unnamed } => {
                let ghost nv = nets@.map_values(|e: (String, Vec<String>)| (e.0@, texts(e.1@)));
                let ghost named = nv.map_values(net_desc());
                let mut parts: Vec<String> = Vec::new();
                let mut i: usize = 0;
                while i < nets.len()
                    invariant
                        i <= nets@.len(), nv == nets@.map_values(|e: (String, Vec<String>)| (e.0@, texts(e.1@))),
                        named == nv.map_values(net_desc()),
                        texts(parts@) == named.take(i as int),
                    decreases nets@.len() - i,
                {
                    let p = listed(nets[i].0.as_str(), &nets[i].1);
                    let ghost before = parts@;
                    parts.push(p);
                    proof {
                        assert(texts(parts@) =~= texts(before).push(p@));
                        assert(named.take(i + 1) =~= named.take(i as int).push(named[i as int]));
                    }
                    i += 1;
                }
                proof { assert(named.take(nets@.len() as int) =~= named); }
                if unnamed.len() > 0 {
                    let p = listed("unconnected pads", unnamed);
                    let ghost before = parts@;
                    parts.push(p);
                    proof { assert(texts(parts@) =~= texts(before).push(p@)); }
                }
                let all = join_strings(&parts, " and ");
                let mut s = String::new();
                push_str(&mut s, "short: one piece of copper in the gerbers joins ");
                push_str(&mut s, all.as_str());
                proof {
                    assert(parts@.map_values(|s: String| s@) == texts(parts@));
                    assert(texts(unnamed@).len() == unnamed@.len());
                    assert(texts(parts@) == short_parts(nv, texts(unnamed@)));
                    assert(s@ =~= problem_text(self@));
                }
                s
            },
        }
    }
}

/// What a trace that found problems reports.
pub open spec fn failure_text(opens: nat, shorts: nat, missing: nat) -> Seq<char> {
    "gerbers do not match the netlist: "@ + nat_digits(opens) + " open net(s), "@ + nat_digits(shorts)
        + " short(s), "@ + nat_digits(missing) + " missing pad(s)"@
}

/// What a clean trace reports.
pub open spec fn success_text(pads: nat, layers: nat, nets: nat, drills: nat) -> Seq<char> {
    "gerbers verified against the netlist: "@ + nat_digits(pads) + " pad(s) on "@ + nat_digits(layers)
        + " copper layer(s) trace back to "@ + nat_digits(nets) + " net(s) by contact alone, "@
        + nat_digits(drills) + " plated drill(s) joining layers"@
}

impl TraceReport {
    /// The outcome of the trace of `pads` expected pads over `layers` copper
    /// layers and `drills` plated drills: the one-line summary when nothing
    /// was found, else the error that counts the findings.
    pub fn outcome(&self, pads: usize, layers: usize, drills: usize) -> (r: Result<String, Error>)
        ensures
            self.problems@.len() == 0 ==> (r matches Ok(s) && s@ == success_text(pads as nat, layers as nat, self.nets as nat, drills as nat)),
            self.problems@.len() > 0 ==> (r matches Err(e) && e.message@ == failure_text(self.opens as nat, self.shorts as nat, self.missing as nat)
                && (e.help matches Some(h)
                && h@ == "the copper in the written files was traced back to pads by contact alone; compare with `pcb status` and `pcb check`"@)),
    {
        if self.problems.len() == 0 {
            let mut s = String::new();
            push_str(&mut s, "gerbers verified against the netlist: ");
            push_nat(&mut s, pads as u64);
            push_str(&mut s, " pad(s) on ");
            push_nat(&mut s, layers as u64);
            push_str(&mut s, " copper layer(s) trace back to ");
            push_nat(&mut s, self.nets as u64);
            push_str(&mut s, " net(s) by contact alone, ");
            push_nat(&mut s, drills as u64);
            push_str(&mut s, " plated drill(s) joining layers");
            proof { assert(s@ =~= success_text(pads as nat, layers as nat, self.nets as nat, drills as nat)); }
            Ok(s)
        } else {
            let mut s = String::new();
            push_str(&mut s, "gerbers do not match the netlist: ");
            push_nat(&mut s, self.opens as u64);
            push_str(&mut s, " open net(s), ");
            push_nat(&mut s, self.shorts as u64);
            push_str(&mut s, " short(s), ");
            push_nat(&mut s, self.missing as u64);
            push_str(&mut s, " missing pad(s)");
            proof { assert(s@ =~= failure_text(self.opens as nat, self.shorts as nat, self.missing as nat)); }
            Err(Error::with_help(s, "the copper in the written files was traced back to pads by contact alone; compare with `pcb status` and `pcb check`".to_string()))
        }
    }
}

} // verus!
