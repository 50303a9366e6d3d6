//! Editing the netlist: automatic net names, joining pins into one net
//! (merging the nets they were on) and taking pins off their nets.
//!
//! The nets are the project's, in their order: a name and the net, no name
//! twice.

use vstd::prelude::*;
use vstd::set_lib::{set_int_range, lemma_int_range, lemma_len_subset, lemma_map_size};
use crate::schema::Net;
use crate::numfmt::{nat_digits, push_nat};
use crate::emit::lemma_nat_digits;
use crate::text::{push_str, same_str, join_text, join_strings};
use crate::gerber::starts;
use crate::error::{Error, list_names, names_text};
use crate::edit::{check_net_name, bad_net_name, net_view, rename_net_refs};
use crate::schema::{Trace, Via, Pour, Hole};
use crate::canon::texts;

verus! {

/// The names of the nets, in order.
pub open spec fn net_names(nets: Seq<(String, Net)>) -> Seq<Seq<char>> {
    nets.map_values(|e: (String, Net)| e.0@)
}

/// The automatic name of net number `k`: `N$<k>`.
pub open spec fn auto_net_text(k: nat) -> Seq<char> {
    "N$"@ + nat_digits(k)
}

proof fn lemma_auto_injective(a: nat, b: nat)
    requires auto_net_text(a) == auto_net_text(b),
    ensures a == b,
{
    reveal_strlit("N$");
    assert(auto_net_text(a).skip(2) =~= nat_digits(a));
    assert(auto_net_text(b).skip(2) =~= nat_digits(b));
    lemma_nat_digits(a);
    lemma_nat_digits(b);
}

/// Among `names`, no more automatic names after `start` can be taken in a
/// row than there are names.
proof fn lemma_taken_bound(names: Seq<Seq<char>>, start: nat, m: nat)
    requires forall|k: int| start < k <= start + m ==> names.contains(#[trigger] auto_net_text(k as nat)),
    ensures m <= names.len(),
{
    let x = set_int_range(start + 1int, start + m + 1int);
    lemma_int_range(start + 1int, start + m + 1int);
    let f = |k: int| choose|i: int| 0 <= i < names.len() && names[i] == auto_net_text(k as nat);
    assert forall|k: int| x.contains(k) implies 0 <= #[trigger] f(k) < names.len() && names[f(k)] == auto_net_text(k as nat) by {
        assert(names.contains(auto_net_text(k as nat)));
    }
    assert(vstd::relations::injective_on(f, x)) by {
        assert forall|a: int, b: int| x.contains(a) && x.contains(b) && #[trigger] f(a) == #[trigger] f(b) implies a == b by {
            lemma_auto_injective(a as nat, b as nat);
        }
    }
    let y = x.map(f);
    lemma_map_size(x, y, f);
    let r = set_int_range(0, names.len() as int);
    lemma_int_range(0, names.len() as int);
    assert(y.subset_of(r)) by {
        assert forall|i: int| y.contains(i) implies r.contains(i) by {
            let k = choose|k: int| x.contains(k) && f(k) == i;
        }
    }
    lemma_len_subset(y, r);
}

fn has_net(nets: &Vec<(String, Net)>, name: &str) -> (r: bool)
    ensures r == net_names(nets@).contains(name@),
{
    let ghost nv = net_names(nets@);
    let mut i: usize = 0;
    while i < nets.len()
        invariant i <= nets@.len(), nv == net_names(nets@), forall|j: int| 0 <= j < i ==> nv[j] != name@,
        decreases nets@.len() - i,
    {
        if same_str(nets[i].0.as_str(), name) {
            proof { assert(nv[i as int] == name@); }
            return true;
        }
        i += 1;
    }
    false
}

/// The next automatic net name: `N$<k>` for the first `k` after `next_id`
/// that names no net; `next_id` becomes `k`.
pub fn fresh_net_name(next_id: &mut u32, nets: &Vec<(String, Net)>) -> (r: String)
    requires *old(next_id) + nets.len() + 1 <= u32::MAX,
    ensures
        *old(next_id) < *final(next_id),
        r@ == auto_net_text(*final(next_id) as nat),
        !net_names(nets@).contains(r@),
        forall|k: int| *old(next_id) < k < *final(next_id) ==> net_names(nets@).contains(#[trigger] auto_net_text(k as nat)),
{
    let ghost start = *next_id;
    let ghost nv = net_names(nets@);
    loop
        invariant
            start <= *next_id <= start + nets@.len(), start + nets@.len() + 1 <= u32::MAX,
            nv == net_names(nets@), start == *old(next_id),
            forall|k: int| start < k <= *next_id ==> nv.contains(#[trigger] auto_net_text(k as nat)),
        decreases start + nets@.len() + 1 - *next_id,
    {
        *next_id = *next_id + 1;
        let mut name = "N$".to_owned();
        push_nat(&mut name, *next_id as u64);
        proof { reveal_strlit("N$"); }
        if !has_net(nets, name.as_str()) {
            return name;
        }
        proof { lemma_taken_bound(nv, start as nat, (*next_id - start) as nat); }
    }
}

/// A net as the rules read it: its name, its pins and its class.
pub type NetView = (Seq<char>, Seq<Seq<char>>, Option<Seq<char>>);

/// The nets as views.
pub open spec fn nets_view(nets: Seq<(String, Net)>) -> Seq<NetView> {
    nets.map_values(|e: (String, Net)| (e.0@, texts(e.1.pins@), net_view(e.1.class)))
}

/// The names of viewed nets.
pub open spec fn names_of(nv: Seq<NetView>) -> Seq<Seq<char>> {
    nv.map_values(|x: NetView| x.0)
}

/// Whether no name is given to two nets.
pub open spec fn unique_names(nv: Seq<NetView>) -> bool {
    forall|i: int, j: int| 0 <= i < j < nv.len() ==> nv[i].0 != nv[j].0
}

/// `acc` followed by those of `xs` it does not hold yet, each once, in order.
pub open spec fn add_new(acc: Seq<Seq<char>>, xs: Seq<Seq<char>>) -> Seq<Seq<char>>
    decreases xs.len(),
{
    if xs.len() == 0 {
        acc
    } else {
        let a = add_new(acc, xs.drop_last());
        if a.contains(xs.last()) { a } else { a.push(xs.last()) }
    }
}

/// The names of the nets that hold pin `p`, in order.
pub open spec fn nets_holding(nv: Seq<NetView>, p: Seq<char>) -> Seq<Seq<char>>
    decreases nv.len(),
{
    if nv.len() == 0 {
        Seq::empty()
    } else {
        let r = nets_holding(nv.drop_last(), p);
        if nv.last().1.contains(p) { r.push(nv.last().0) } else { r }
    }
}

/// The nets the pins are on: for each pin in turn, the nets holding it that
/// are not listed yet.
pub open spec fn nets_of_pins(nv: Seq<NetView>, pins: Seq<Seq<char>>) -> Seq<Seq<char>>
    decreases pins.len(),
{
    if pins.len() == 0 {
        Seq::empty()
    } else {
        add_new(nets_of_pins(nv, pins.drop_last()), nets_holding(nv, pins.last()))
    }
}

/// The nets a connection joins: those the pins are on, then the net it
/// names where that net exists and is not among them.
pub open spec fn joined_nets(nv: Seq<NetView>, pins: Seq<Seq<char>>, net: Option<Seq<char>>) -> Seq<Seq<char>> {
    let e = nets_of_pins(nv, pins);
    match net {
        Some(n) => if names_of(nv).contains(n) && !e.contains(n) { e.push(n) } else { e },
        None => e,
    }
}

/// The names given by hand: those not of the automatic `N$` form.
pub open spec fn hand_named(e: Seq<Seq<char>>) -> Seq<Seq<char>>
    decreases e.len(),
{
    if e.len() == 0 {
        Seq::empty()
    } else {
        let r = hand_named(e.drop_last());
        if starts(e.last(), "N$"@) { r } else { r.push(e.last()) }
    }
}

/// The net the pins end up on, where it is not a new automatic one: the net
/// named, else the first joined net named by hand, else the first joined
/// net.
pub open spec fn chosen_target(e: Seq<Seq<char>>, net: Option<Seq<char>>) -> Option<Seq<char>> {
    match net {
        Some(n) => Some(n),
        None => {
            let h = hand_named(e);
            if h.len() > 0 { Some(h[0]) } else if e.len() > 0 { Some(e[0]) } else { None }
        },
    }
}

/// When the pins are connected without naming a net, the net they end up
/// on is the first of the joined nets whose name is not an automatic `N$`
/// one, wherever it stands among them; only when every joined net is
/// automatic is it the first joined net.
pub proof fn lemma_hand_named_net_wins(e: Seq<Seq<char>>, j: int)
    requires
        0 <= j < e.len(),
        !starts(e[j], "N$"@),
        forall|l: int| 0 <= l < j ==> starts(#[trigger] e[l], "N$"@),
    ensures chosen_target(e, None) == Some(e[j]),
{
    lemma_first_hand_named(e, j);
}

/// Naming a net puts the pins on that net, whatever nets they joined.
pub proof fn lemma_named_net_target(e: Seq<Seq<char>>, n: Seq<char>)
    ensures chosen_target(e, Some(n)) == Some(n),
{
}

/// With every joined net automatic, the pins end up on the first of them.
pub proof fn lemma_auto_nets_keep_first(e: Seq<Seq<char>>)
    requires e.len() > 0, forall|l: int| 0 <= l < e.len() ==> starts(#[trigger] e[l], "N$"@),
    ensures chosen_target(e, None) == Some(e[0]),
{
    lemma_no_hand_named(e);
}

proof fn lemma_no_hand_named(e: Seq<Seq<char>>)
    requires forall|l: int| 0 <= l < e.len() ==> starts(#[trigger] e[l], "N$"@),
    ensures hand_named(e).len() == 0,
    decreases e.len(),
{
    if e.len() > 0 {
        let d = e.drop_last();
        assert forall|l: int| 0 <= l < d.len() implies starts(#[trigger] d[l], "N$"@) by { assert(d[l] == e[l]); }
        lemma_no_hand_named(d);
        assert(starts(e[e.len() - 1], "N$"@));
    }
}

proof fn lemma_first_hand_named(e: Seq<Seq<char>>, j: int)
    requires
        0 <= j < e.len(),
        !starts(e[j], "N$"@),
        forall|l: int| 0 <= l < j ==> starts(#[trigger] e[l], "N$"@),
    ensures hand_named(e).len() > 0, hand_named(e)[0] == e[j],
    decreases e.len(),
{
    let d = e.drop_last();
    if j < e.len() - 1 {
        assert(d[j] == e[j]);
        assert forall|l: int| 0 <= l < j implies starts(#[trigger] d[l], "N$"@) by { assert(d[l] == e[l]); }
        lemma_first_hand_named(d, j);
    } else {
        assert forall|l: int| 0 <= l < d.len() implies starts(#[trigger] d[l], "N$"@) by { assert(d[l] == e[l]); }
        lemma_no_hand_named(d);
        assert(e.last() == e[j]);
    }
}

/// The pins of the net named `n`; none where there is no such net.
pub open spec fn pins_named(nv: Seq<NetView>, n: Seq<char>) -> Seq<Seq<char>> {
    let i = crate::template::position_of(names_of(nv), n);
    if i < nv.len() { nv[i].1 } else { Seq::empty() }
}

/// The class of the net named `n`.
pub open spec fn class_named(nv: Seq<NetView>, n: Seq<char>) -> Option<Seq<char>> {
    let i = crate::template::position_of(names_of(nv), n);
    if i < nv.len() { nv[i].2 } else { None }
}

/// The pins of the nets `e`, each once, in order.
pub open spec fn pins_of_nets(nv: Seq<NetView>, e: Seq<Seq<char>>) -> Seq<Seq<char>>
    decreases e.len(),
{
    if e.len() == 0 { Seq::empty() } else { add_new(pins_of_nets(nv, e.drop_last()), pins_named(nv, e.last())) }
}

/// The class the joined net takes: the last class among the nets `e`.
pub open spec fn class_of_nets(nv: Seq<NetView>, e: Seq<Seq<char>>) -> Option<Seq<char>>
    decreases e.len(),
{
    if e.len() == 0 {
        None
    } else if class_named(nv, e.last()) is Some {
        class_named(nv, e.last())
    } else {
        class_of_nets(nv, e.drop_last())
    }
}

/// The nets that stay: all but those of `gone` other than `target`.
pub open spec fn kept_nets(nv: Seq<NetView>, gone: Seq<Seq<char>>, target: Seq<char>) -> Seq<NetView>
    decreases nv.len(),
{
    if nv.len() == 0 {
        Seq::empty()
    } else {
        let r = kept_nets(nv.drop_last(), gone, target);
        if gone.contains(nv.last().0) && nv.last().0 != target { r } else { r.push(nv.last()) }
    }
}

/// The nets after joining the nets `e` and the pins into `target`: the
/// others of `e` are gone, and `target` holds every pin of them and the
/// pins, with the class they had (its own where none had one); a new
/// target comes last.
pub open spec fn connected(nv: Seq<NetView>, e: Seq<Seq<char>>, pins: Seq<Seq<char>>, target: Seq<char>) -> Seq<NetView> {
    let kept = kept_nets(nv, e, target);
    let all = add_new(pins_of_nets(nv, e), pins);
    let class = class_of_nets(nv, e);
    let i = crate::template::position_of(names_of(kept), target);
    if i < kept.len() {
        kept.update(i, (target, all, if class is Some { class } else { kept[i].2 }))
    } else {
        kept.push((target, all, class))
    }
}

/// A net reference after the nets `e` other than `target` are joined into
/// `target`.
pub open spec fn moved(net: Option<Seq<char>>, e: Seq<Seq<char>>, target: Seq<char>) -> Option<Seq<char>> {
    match net {
        Some(v) => if e.contains(v) && v != target { Some(target) } else { Some(v) },
        None => None,
    }
}

fn contains_text(v: &Vec<String>, x: &str) -> (r: bool)
    ensures r == texts(v@).contains(x@),
{
    let ghost tv = texts(v@);
    let mut i: usize = 0;
    while i < v.len()
        invariant i <= v@.len(), tv == texts(v@), forall|j: int| 0 <= j < i ==> tv[j] != x@,
        decreases v@.len() - i,
    {
        if same_str(v[i].as_str(), x) {
            proof { assert(tv[i as int] == x@); }
            return true;
        }
        i += 1;
    }
    false
}

/// Appends `x` to `acc` where `acc` does not hold it yet.
fn push_new(acc: &mut Vec<String>, x: &String)
    ensures texts(final(acc)@) == add_new(texts(old(acc)@), seq![x@]),
{
    proof {
        assert(seq![x@].drop_last() =~= Seq::<Seq<char>>::empty());
        assert(seq![x@].last() == x@);
        assert(add_new(texts(acc@), Seq::<Seq<char>>::empty()) == texts(acc@));
    }
    if !contains_text(acc, x.as_str()) {
        let ghost a0 = acc@;
        acc.push(x.clone());
        proof { assert(texts(acc@) =~= texts(a0).push(x@)); }
    }
}

proof fn lemma_add_new_push(acc: Seq<Seq<char>>, xs: Seq<Seq<char>>, x: Seq<char>)
    ensures add_new(acc, xs.push(x)) == add_new(add_new(acc, xs), seq![x]),
{
    assert(xs.push(x).drop_last() =~= xs);
    assert(seq![x].drop_last() =~= Seq::<Seq<char>>::empty());
    assert(add_new(add_new(acc, xs), Seq::<Seq<char>>::empty()) == add_new(acc, xs));
}

/// The nets the pins are on, as `nets_of_pins` lists them.
fn nets_of(nets: &Vec<(String, Net)>, pins: &Vec<String>) -> (e: Vec<String>)
    ensures texts(e@) == nets_of_pins(nets_view(nets@), texts(pins@)),
{
    let ghost nv = nets_view(nets@);
    let ghost tp = texts(pins@);
    let mut e: Vec<String> = Vec::new();
    let mut k: usize = 0;
    proof { assert(tp.take(0) =~= Seq::<Seq<char>>::empty()); }
    while k < pins.len()
        invariant
            k <= pins@.len(), nv == nets_view(nets@), tp == texts(pins@),
            texts(e@) == nets_of_pins(nv, tp.take(k as int)),
        decreases pins@.len() - k,
    {
        let ghost before = texts(e@);
        let mut j: usize = 0;
        proof { assert(nv.take(0) =~= Seq::<NetView>::empty()); }
        while j < nets.len()
            invariant
                j <= nets@.len(), k < pins@.len(), nv == nets_view(nets@), tp == texts(pins@),
                texts(e@) == add_new(before, nets_holding(nv.take(j as int), tp[k as int])),
            decreases nets@.len() - j,
        {
            proof {
                assert(nv.take(j + 1).drop_last() =~= nv.take(j as int));
                assert(nv.take(j + 1).last() == nv[j as int]);
            }
            if contains_text(&nets[j].1.pins, pins[k].as_str()) {
                proof { lemma_add_new_push(before, nets_holding(nv.take(j as int), tp[k as int]), nv[j as int].0); }
                push_new(&mut e, &nets[j].0);
            }
            j += 1;
        }
        proof {
            assert(nv.take(j as int) =~= nv);
            assert(tp.take(k + 1).drop_last() =~= tp.take(k as int));
            assert(tp.take(k + 1).last() == tp[k as int]);
        }
        k += 1;
    }
    proof { assert(tp.take(k as int) =~= tp); }
    e
}

/// Where the net named `n` is, or `nets.len()`.
pub(crate) fn net_index(nets: &Vec<(String, Net)>, n: &str) -> (r: usize)
    ensures r == crate::template::position_of(names_of(nets_view(nets@)), n@), r <= nets@.len(),
{
    let ghost ns = names_of(nets_view(nets@));
    let mut i: usize = 0;
    while i < nets.len()
        invariant i <= nets@.len(), ns == names_of(nets_view(nets@)), forall|j: int| 0 <= j < i ==> ns[j] != n@,
        decreases nets@.len() - i,
    {
        if same_str(nets[i].0.as_str(), n) {
            proof { crate::template::lemma_position(ns, n@, i as int); }
            return i;
        }
        i += 1;
    }
    proof { crate::template::lemma_position(ns, n@, i as int); }
    i
}

/// Appends to `acc` those of `xs` it does not hold yet.
fn push_all_new(acc: &mut Vec<String>, xs: &Vec<String>)
    ensures texts(final(acc)@) == add_new(texts(old(acc)@), texts(xs@)),
{
    let ghost a0 = texts(acc@);
    let ghost tx = texts(xs@);
    let mut i: usize = 0;
    proof { assert(tx.take(0) =~= Seq::<Seq<char>>::empty()); }
    while i < xs.len()
        invariant i <= xs@.len(), tx == texts(xs@), a0 == texts(old(acc)@), texts(acc@) == add_new(a0, tx.take(i as int)),
        decreases xs@.len() - i,
    {
        proof {
            assert(tx.take(i + 1) =~= tx.take(i as int).push(tx[i as int]));
            lemma_add_new_push(a0, tx.take(i as int), tx[i as int]);
        }
        push_new(acc, &xs[i]);
        i += 1;
    }
    proof { assert(tx.take(i as int) =~= tx); }
}

/// The pins of the nets `e`, as `pins_of_nets` lists them.
fn pins_of(nets: &Vec<(String, Net)>, e: &Vec<String>) -> (r: Vec<String>)
    ensures texts(r@) == pins_of_nets(nets_view(nets@), texts(e@)),
{
    let ghost nv = nets_view(nets@);
    let ghost te = texts(e@);
    let mut r: Vec<String> = Vec::new();
    let mut k: usize = 0;
    proof { assert(te.take(0) =~= Seq::<Seq<char>>::empty()); }
    while k < e.len()
        invariant k <= e@.len(), nv == nets_view(nets@), te == texts(e@), texts(r@) == pins_of_nets(nv, te.take(k as int)),
        decreases e@.len() - k,
    {
        let i = net_index(nets, e[k].as_str());
        proof {
            assert(te.take(k + 1).drop_last() =~= te.take(k as int));
            assert(te.take(k + 1).last() == te[k as int]);
        }
        if i < nets.len() {
            push_all_new(&mut r, &nets[i].1.pins);
        } else {
            proof { assert(add_new(texts(r@), Seq::<Seq<char>>::empty()) == texts(r@)); }
        }
        k += 1;
    }
    proof { assert(te.take(k as int) =~= te); }
    r
}

/// The class of the nets `e`, as `class_of_nets` gives it.
fn class_of(nets: &Vec<(String, Net)>, e: &Vec<String>) -> (r: Option<String>)
    ensures net_view(r) == class_of_nets(nets_view(nets@), texts(e@)),
{
    let ghost nv = nets_view(nets@);
    let ghost te = texts(e@);
    let mut r: Option<String> = None;
    let mut k: usize = 0;
    proof { assert(te.take(0) =~= Seq::<Seq<char>>::empty()); }
    while k < e.len()
        invariant k <= e@.len(), nv == nets_view(nets@), te == texts(e@), net_view(r) == class_of_nets(nv, te.take(k as int)),
        decreases e@.len() - k,
    {
        let i = net_index(nets, e[k].as_str());
        proof {
            assert(te.take(k + 1).drop_last() =~= te.take(k as int));
            assert(te.take(k + 1).last() == te[k as int]);
        }
        if i < nets.len() {
            match &nets[i].1.class {
                Some(c) => { r = Some(c.clone()); },
                None => {},
            }
        }
        k += 1;
    }
    proof { assert(te.take(k as int) =~= te); }
    r
}

/// The names of `e` other than `target`, in order.
pub open spec fn others(e: Seq<Seq<char>>, target: Seq<char>) -> Seq<Seq<char>>
    decreases e.len(),
{
    if e.len() == 0 {
        Seq::empty()
    } else {
        let r = others(e.drop_last(), target);
        if e.last() == target { r } else { r.push(e.last()) }
    }
}

/// Takes out the nets of `e` other than `target`.
fn drop_joined(nets: &mut Vec<(String, Net)>, e: &Vec<String>, target: &str)
    ensures nets_view(final(nets)@) == kept_nets(nets_view(old(nets)@), texts(e@), target@),
{
    let ghost nv = nets_view(nets@);
    let ghost te = texts(e@);
    let mut src: Vec<(String, Net)> = Vec::new();
    std::mem::swap(&mut src, nets);
    let ghost orig = src@;
    assert(orig.len() == src.len());
    let mut c: usize = 0;
    proof { assert(nv.take(0) =~= Seq::<NetView>::empty()); assert(orig.skip(0) =~= orig); }
    while src.len() > 0
        invariant
            c <= orig.len(), orig.len() <= usize::MAX, nv == nets_view(orig), te == texts(e@), src@ == orig.skip(c as int),
            nets_view(nets@) == kept_nets(nv.take(c as int), te, target@),
        decreases src@.len(),
    {
        let item = src.remove(0);
        proof {
            assert(item == orig[c as int]);
            assert(src@ =~= orig.skip(c + 1));
            assert(nv.take(c + 1).drop_last() =~= nv.take(c as int));
            assert(nv.take(c + 1).last() == nv[c as int]);
        }
        if !(contains_text(e, item.0.as_str()) && !same_str(item.0.as_str(), target)) {
            let ghost n0 = nets@;
            nets.push(item);
            proof { assert(nets_view(nets@) =~= nets_view(n0).push(nv[c as int])); }
        }
        c += 1;
    }
    proof { assert(nv.take(c as int) =~= nv); }
}

/// Whether a trace, via, pour or hole list went from `a` to `b` by joining
/// the nets `e` into `target`, all else unchanged.
pub open spec fn traces_moved(a: Seq<Trace>, b: Seq<Trace>, e: Seq<Seq<char>>, t: Seq<char>) -> bool {
    &&& b.len() == a.len()
    &&& forall|i: int| 0 <= i < a.len() ==> {
        &&& net_view(#[trigger] b[i].net) == moved(net_view(a[i].net), e, t)
        &&& b[i].layer == a[i].layer && b[i].width == a[i].width && b[i].points == a[i].points && b[i].routed == a[i].routed && b[i].fanout == a[i].fanout
    }
}

pub open spec fn vias_moved(a: Seq<Via>, b: Seq<Via>, e: Seq<Seq<char>>, t: Seq<char>) -> bool {
    &&& b.len() == a.len()
    &&& forall|i: int| 0 <= i < a.len() ==> {
        &&& net_view(#[trigger] b[i].net) == moved(net_view(a[i].net), e, t)
        &&& b[i].at == a[i].at && b[i].drill == a[i].drill && b[i].diameter == a[i].diameter
        &&& b[i].layers == a[i].layers && b[i].routed == a[i].routed && b[i].fanout == a[i].fanout
    }
}

pub open spec fn pours_moved(a: Seq<Pour>, b: Seq<Pour>, e: Seq<Seq<char>>, t: Seq<char>) -> bool {
    &&& b.len() == a.len()
    &&& forall|i: int| 0 <= i < a.len() ==> {
        &&& net_view(#[trigger] b[i].net) == moved(net_view(a[i].net), e, t)
        &&& b[i].name == a[i].name && b[i].layer == a[i].layer && b[i].edges == a[i].edges
        &&& b[i].clearance == a[i].clearance && b[i].priority == a[i].priority && b[i].thermal == a[i].thermal
    }
}

pub open spec fn holes_moved(a: Seq<Hole>, b: Seq<Hole>, e: Seq<Seq<char>>, t: Seq<char>) -> bool {
    &&& b.len() == a.len()
    &&& forall|i: int| 0 <= i < a.len() ==> {
        &&& net_view(#[trigger] b[i].net) == moved(net_view(a[i].net), e, t)
        &&& b[i].at == a[i].at && b[i].drill == a[i].drill && b[i].plated == a[i].plated && b[i].diameter == a[i].diameter
    }
}

proof fn lemma_moved_step(x: Option<Seq<char>>, e: Seq<Seq<char>>, k: int, t: Seq<char>)
    requires 0 <= k < e.len(), e[k] != t,
    ensures
        crate::edit::renamed_view(moved(x, e.take(k), t), e[k], t) == moved(x, e.take(k + 1), t),
{
    let a = e.take(k);
    let b = e.take(k + 1);
    assert(b =~= a.push(e[k]));
    assert forall|v: Seq<char>| b.contains(v) <==> (a.contains(v) || v == e[k]) by {
        if b.contains(v) {
            let i = choose|i: int| 0 <= i < b.len() && b[i] == v;
            if i < k { assert(a[i] == v); }
        }
        if a.contains(v) {
            let i = choose|i: int| 0 <= i < a.len() && a[i] == v;
            assert(b[i] == v);
        }
        if v == e[k] { assert(b[k] == v); }
    }
}

/// Points the references to the nets `e` other than `target` at `target`.
fn move_refs(traces: &mut Vec<Trace>, vias: &mut Vec<Via>, pours: &mut Vec<Pour>, holes: &mut Vec<Hole>,
    e: &Vec<String>, target: &str)
    ensures
        traces_moved(old(traces)@, final(traces)@, texts(e@), target@),
        vias_moved(old(vias)@, final(vias)@, texts(e@), target@),
        pours_moved(old(pours)@, final(pours)@, texts(e@), target@),
        holes_moved(old(holes)@, final(holes)@, texts(e@), target@),
{
    let ghost te = texts(e@);
    let ghost (t0, v0, p0, h0) = (traces@, vias@, pours@, holes@);
    let mut k: usize = 0;
    proof {
        assert(te.take(0) =~= Seq::<Seq<char>>::empty());
        assert forall|x: Option<Seq<char>>| moved(x, Seq::<Seq<char>>::empty(), target@) == x by {}
    }
    while k < e.len()
        invariant
            k <= e@.len(), te == texts(e@),
            traces_moved(t0, traces@, te.take(k as int), target@),
            vias_moved(v0, vias@, te.take(k as int), target@),
            pours_moved(p0, pours@, te.take(k as int), target@),
            holes_moved(h0, holes@, te.take(k as int), target@),
        decreases e@.len() - k,
    {
        if !same_str(e[k].as_str(), target) {
            let ghost (t1, v1, p1, h1) = (traces@, vias@, pours@, holes@);
            rename_net_refs(traces, vias, pours, holes, e[k].as_str(), target);
            proof {
                assert forall|x: Option<Seq<char>>| crate::edit::renamed_view(moved(x, te.take(k as int), target@), te[k as int], target@)
                    == #[trigger] moved(x, te.take(k + 1), target@) by {
                    lemma_moved_step(x, te, k as int, target@);
                }
            }
        } else {
            proof {
                assert(te.take(k + 1) =~= te.take(k as int).push(te[k as int]));
                assert forall|x: Option<Seq<char>>| moved(x, te.take(k as int), target@) == #[trigger] moved(x, te.take(k + 1), target@) by {}
            }
        }
        k += 1;
    }
    proof { assert(te.take(k as int) =~= te); }
}

/// What a connection did: the net the pins are on, how many pins it has,
/// and the nets merged into it.
#[derive(Debug)]
pub struct Connected {
    pub target: String,
    pub pins: usize,
    pub merged: Vec<String>,
}

fn hand_named_of(e: &Vec<String>) -> (r: Vec<String>)
    ensures texts(r@) == hand_named(texts(e@)),
{
    let ghost te = texts(e@);
    let mut r: Vec<String> = Vec::new();
    let mut k: usize = 0;
    proof { assert(te.take(0) =~= Seq::<Seq<char>>::empty()); }
    while k < e.len()
        invariant k <= e@.len(), te == texts(e@), texts(r@) == hand_named(te.take(k as int)),
        decreases e@.len() - k,
    {
        proof {
            assert(te.take(k + 1).drop_last() =~= te.take(k as int));
            assert(te.take(k + 1).last() == te[k as int]);
        }
        if !crate::gerber::has_prefix(&crate::text::chars_of(e[k].as_str()), "N$") {
            let ghost r0 = r@;
            r.push(e[k].clone());
            proof { assert(texts(r@) =~= texts(r0).push(te[k as int])); }
        }
        k += 1;
    }
    proof { assert(te.take(k as int) =~= te); }
    r
}

fn others_of(e: &Vec<String>, target: &str) -> (r: Vec<String>)
    ensures texts(r@) == others(texts(e@), target@),
{
    let ghost te = texts(e@);
    let mut r: Vec<String> = Vec::new();
    let mut k: usize = 0;
    proof { assert(te.take(0) =~= Seq::<Seq<char>>::empty()); }
    while k < e.len()
        invariant k <= e@.len(), te == texts(e@), texts(r@) == others(te.take(k as int), target@),
        decreases e@.len() - k,
    {
        proof {
            assert(te.take(k + 1).drop_last() =~= te.take(k as int));
            assert(te.take(k + 1).last() == te[k as int]);
        }
        if !same_str(e[k].as_str(), target) {
            let ghost r0 = r@;
            r.push(e[k].clone());
            proof { assert(texts(r@) =~= texts(r0).push(te[k as int])); }
        }
        k += 1;
    }
    proof { assert(te.take(k as int) =~= te); }
    r
}

/// Joins `pins` (references already checked) into one net: the net `net`
/// where given, else the hand-named net they are on, else the first net
/// they are on, else a new automatic net. The nets they were on are merged
/// into it, and the traces, vias, pours and holes of those nets follow.
pub fn connect_pins(nets: &mut Vec<(String, Net)>, traces: &mut Vec<Trace>, vias: &mut Vec<Via>,
    pours: &mut Vec<Pour>, holes: &mut Vec<Hole>, next_id: &mut u32, pins: &Vec<String>, net: &Option<String>,
    merge: bool) -> (r: Result<Connected, Error>)
    requires
        unique_names(nets_view(old(nets)@)),
        *old(next_id) + old(nets)@.len() + 1 <= u32::MAX,
    ensures
        ({
            let nv = nets_view(old(nets)@);
            let tp = texts(pins@);
            let e = joined_nets(nv, tp, net_view(*net));
            let h = hand_named(e);
            if pins@.len() < 2 && net is None {
                &&& r matches Err(x) && x.message@ == "connect needs at least two pins"@
                    && (x.help matches Some(hp) && hp@ == "e.g. `pcb connect R1.1 U1.VCC` (or one pin with `--net GND`)"@)
                &&& *final(nets) == *old(nets) && *final(next_id) == *old(next_id)
            } else if net is Some && bad_net_name(net.unwrap()@) {
                &&& r matches Err(x) && x.message@ == "`"@ + net.unwrap()@ + "` is not a valid net name"@
                &&& *final(nets) == *old(nets) && *final(next_id) == *old(next_id)
            } else if h.len() > 1 && !merge {
                &&& r matches Err(x)
                    && x.message@ == "these pins span different named nets: "@ + names_text(h)
                    && (x.help matches Some(hp) && hp@ == "pass --merge to join them (the result is called `"@
                        + (match net_view(*net) { Some(n) => n, None => h[0] }) + "`), or check the pin references"@)
                &&& *final(nets) == *old(nets) && *final(next_id) == *old(next_id)
            } else {
                &&& r matches Ok(c)
                &&& match chosen_target(e, net_view(*net)) {
                    Some(t) => c.target@ == t && *final(next_id) == *old(next_id),
                    None => {
                        &&& c.target@ == auto_net_text(*final(next_id) as nat)
                        &&& *old(next_id) < *final(next_id)
                        &&& !names_of(nv).contains(c.target@)
                        &&& forall|k: int| *old(next_id) < k < *final(next_id)
                            ==> names_of(nv).contains(#[trigger] auto_net_text(k as nat))
                    },
                }
                &&& nets_view(final(nets)@) == connected(nv, e, tp, c.target@)
                &&& c.pins == add_new(pins_of_nets(nv, e), tp).len()
                &&& texts(c.merged@) == others(e, c.target@)
                &&& traces_moved(old(traces)@, final(traces)@, e, c.target@)
                &&& vias_moved(old(vias)@, final(vias)@, e, c.target@)
                &&& pours_moved(old(pours)@, final(pours)@, e, c.target@)
                &&& holes_moved(old(holes)@, final(holes)@, e, c.target@)
            }
        }),
{
    let ghost nv = nets_view(nets@);
    if pins.len() < 2 && net.is_none() {
        return Err(Error::with_help("connect needs at least two pins".to_owned(),
            "e.g. `pcb connect R1.1 U1.VCC` (or one pin with `--net GND`)".to_owned()));
    }
    if let Some(n) = net {
        match check_net_name(n.as_str()) {
            Ok(()) => {},
            Err(x) => return Err(x),
        }
    }
    let mut existing = nets_of(nets, pins);
    if let Some(n) = net {
        if has_net(nets, n.as_str()) && !contains_text(&existing, n.as_str()) {
            let ghost e0 = existing@;
            existing.push(n.clone());
            proof { assert(texts(existing@) =~= texts(e0).push(n@)); }
        }
    }
    proof {
        assert(names_of(nv) == net_names(nets@)) by { assert(names_of(nv) =~= net_names(nets@)); }
        assert(texts(existing@) == joined_nets(nv, texts(pins@), net_view(*net)));
    }
    let named = hand_named_of(&existing);
    if named.len() > 1 && !merge {
        let mut m = "these pins span different named nets: ".to_owned();
        push_str(&mut m, list_names(&named).as_str());
        let mut hp = "pass --merge to join them (the result is called `".to_owned();
        match net {
            Some(n) => push_str(&mut hp, n.as_str()),
            None => push_str(&mut hp, named[0].as_str()),
        }
        push_str(&mut hp, "`), or check the pin references");
        return Err(Error::with_help(m, hp));
    }
    let target: String = match net {
        Some(n) => n.clone(),
        None => if named.len() > 0 {
            named[0].clone()
        } else if existing.len() > 0 {
            existing[0].clone()
        } else {
            fresh_net_name(next_id, nets)
        },
    };
    let all0 = pins_of(nets, &existing);
    let mut all = all0;
    push_all_new(&mut all, pins);
    let class = class_of(nets, &existing);
    drop_joined(nets, &existing, target.as_str());
    move_refs(traces, vias, pours, holes, &existing, target.as_str());
    let count = all.len();
    proof { assert(texts(all@).len() == all@.len()); }
    let i = net_index(nets, target.as_str());
    if i < nets.len() {
        let ghost n0 = nets@;
        proof {
            crate::template::lemma_position_found(names_of(nets_view(nets@)), target@);
            assert(nets@[i as int].0@ == names_of(nets_view(nets@))[i as int]);
        }
        let has_class = class.is_some();
        nets[i].1.pins = all;
        if has_class {
            nets[i].1.class = class;
        }
        proof {
            assert(nets_view(nets@) =~= nets_view(n0).update(i as int,
                (target@, add_new(pins_of_nets(nv, texts(existing@)), texts(pins@)),
                 if class_of_nets(nv, texts(existing@)) is Some { class_of_nets(nv, texts(existing@)) } else { nets_view(n0)[i as int].2 })));
        }
    } else {
        let ghost n0 = nets@;
        nets.push((target.clone(), Net { pins: all, class }));
        proof {
            assert(nets_view(nets@) =~= nets_view(n0).push(
                (target@, add_new(pins_of_nets(nv, texts(existing@)), texts(pins@)), class_of_nets(nv, texts(existing@)))));
        }
    }
    let merged = others_of(&existing, target.as_str());
    Ok(Connected { target, pins: count, merged })
}

proof fn lemma_add_new_holds(acc: Seq<Seq<char>>, xs: Seq<Seq<char>>)
    ensures
        forall|x: Seq<char>| acc.contains(x) ==> #[trigger] add_new(acc, xs).contains(x),
        forall|x: Seq<char>| xs.contains(x) ==> #[trigger] add_new(acc, xs).contains(x),
    decreases xs.len(),
{
    if xs.len() > 0 {
        lemma_add_new_holds(acc, xs.drop_last());
        let a = add_new(acc, xs.drop_last());
        assert forall|x: Seq<char>| a.contains(x) implies #[trigger] add_new(acc, xs).contains(x) by {
            if !a.contains(xs.last()) {
                let i = choose|i: int| 0 <= i < a.len() && a[i] == x;
                assert(a.push(xs.last())[i] == x);
            }
        }
        assert(add_new(acc, xs).contains(xs.last())) by {
            if !a.contains(xs.last()) { assert(a.push(xs.last())[a.len() as int] == xs.last()); }
        }
        assert forall|x: Seq<char>| xs.contains(x) implies #[trigger] add_new(acc, xs).contains(x) by {
            let i = choose|i: int| 0 <= i < xs.len() && xs[i] == x;
            if i < xs.len() - 1 {
                assert(xs.drop_last()[i] == x);
                assert(a.contains(x));
            }
        }
        assert forall|x: Seq<char>| a.contains(x) implies #[trigger] add_new(acc, xs).contains(x) by {
            if !a.contains(xs.last()) {
                let i = choose|i: int| 0 <= i < a.len() && a[i] == x;
                assert(a.push(xs.last())[i] == x);
            }
        }
    }
}

proof fn lemma_holding(nv: Seq<NetView>, p: Seq<char>, k: int)
    requires 0 <= k < nv.len(), nv[k].1.contains(p),
    ensures nets_holding(nv, p).contains(nv[k].0),
    decreases nv.len(),
{
    let r = nets_holding(nv.drop_last(), p);
    if k == nv.len() - 1 {
        assert(r.push(nv.last().0)[r.len() as int] == nv[k].0);
    } else {
        assert(nv.drop_last()[k] == nv[k]);
        lemma_holding(nv.drop_last(), p, k);
        if nv.last().1.contains(p) {
            let i = choose|i: int| 0 <= i < r.len() && r[i] == nv[k].0;
            assert(r.push(nv.last().0)[i] == nv[k].0);
        }
    }
}

proof fn lemma_pins_nets(nv: Seq<NetView>, tp: Seq<Seq<char>>, j: int, k: int)
    requires 0 <= j < tp.len(), 0 <= k < nv.len(), nv[k].1.contains(tp[j]),
    ensures nets_of_pins(nv, tp).contains(nv[k].0),
    decreases tp.len(),
{
    let prev = nets_of_pins(nv, tp.drop_last());
    if j == tp.len() - 1 {
        lemma_holding(nv, tp[j], k);
        lemma_add_new_holds(prev, nets_holding(nv, tp.last()));
    } else {
        assert(tp.drop_last()[j] == tp[j]);
        lemma_pins_nets(nv, tp.drop_last(), j, k);
        lemma_add_new_holds(prev, nets_holding(nv, tp.last()));
    }
}

proof fn lemma_kept(nv: Seq<NetView>, gone: Seq<Seq<char>>, t: Seq<char>)
    requires unique_names(nv),
    ensures
        unique_names(kept_nets(nv, gone, t)),
        forall|j: int| 0 <= j < kept_nets(nv, gone, t).len() ==> {
            &&& nv.contains(#[trigger] kept_nets(nv, gone, t)[j])
            &&& !(gone.contains(kept_nets(nv, gone, t)[j].0) && kept_nets(nv, gone, t)[j].0 != t)
        },
        forall|k: int| 0 <= k < nv.len() && !(gone.contains(nv[k].0) && nv[k].0 != t)
            ==> #[trigger] kept_nets(nv, gone, t).contains(nv[k]),
    decreases nv.len(),
{
    if nv.len() > 0 {
        let d = nv.drop_last();
        assert(unique_names(d)) by {
            assert forall|i: int, j: int| 0 <= i < j < d.len() implies d[i].0 != d[j].0 by { assert(d[i] == nv[i] && d[j] == nv[j]); }
        }
        lemma_kept(d, gone, t);
        let r = kept_nets(d, gone, t);
        let x = nv.last();
        assert forall|j: int| 0 <= j < r.len() implies nv.contains(#[trigger] r[j]) by {
            let k = choose|k: int| 0 <= k < d.len() && d[k] == r[j];
            assert(nv[k] == r[j]);
        }
        assert forall|j: int| 0 <= j < r.len() implies r[j].0 != x.0 by {
            let k = choose|k: int| 0 <= k < d.len() && d[k] == r[j];
            assert(nv[k] == r[j]);
        }
        if !(gone.contains(x.0) && x.0 != t) {
            let q = r.push(x);
            assert(q[r.len() as int] == x);
            assert forall|j: int| 0 <= j < q.len() implies nv.contains(#[trigger] q[j]) by {
                if j < r.len() { assert(q[j] == r[j]); } else { assert(nv[nv.len() - 1] == x); }
            }
            assert forall|k: int| 0 <= k < nv.len() && !(gone.contains(nv[k].0) && nv[k].0 != t)
                implies #[trigger] q.contains(nv[k]) by {
                if k < nv.len() - 1 {
                    assert(d[k] == nv[k]);
                    assert(r.contains(d[k]));
                    let i = choose|i: int| 0 <= i < r.len() && r[i] == d[k];
                    assert(q[i] == nv[k]);
                }
            }
        } else {
            assert forall|k: int| 0 <= k < nv.len() && !(gone.contains(nv[k].0) && nv[k].0 != t)
                implies #[trigger] r.contains(nv[k]) by {
                assert(k < nv.len() - 1);
                assert(d[k] == nv[k]);
            }
        }
    }
}

proof fn lemma_pins_of_nets_holds(nv: Seq<NetView>, e: Seq<Seq<char>>, k: int, p: Seq<char>)
    requires 0 <= k < e.len(), pins_named(nv, e[k]).contains(p),
    ensures pins_of_nets(nv, e).contains(p),
    decreases e.len(),
{
    let prev = pins_of_nets(nv, e.drop_last());
    lemma_add_new_holds(prev, pins_named(nv, e.last()));
    if k < e.len() - 1 {
        assert(e.drop_last()[k] == e[k]);
        lemma_pins_of_nets_holds(nv, e.drop_last(), k, p);
    }
}

/// After pins are joined into `t`: the net `t` is there, it holds every
/// pin joined and every pin of the nets merged, no other net holds any of
/// the pins joined, and no name is given twice.
pub proof fn lemma_connect_joins(nv: Seq<NetView>, tp: Seq<Seq<char>>, net: Option<Seq<char>>, t: Seq<char>)
    requires unique_names(nv),
    ensures
        ({
            let e = joined_nets(nv, tp, net);
            let c = connected(nv, e, tp, t);
            let i = crate::template::position_of(names_of(c), t);
            &&& 0 <= i < c.len() && c[i].0 == t
            &&& forall|p: Seq<char>| tp.contains(p) ==> #[trigger] c[i].1.contains(p)
            &&& forall|k: int, p: Seq<char>| 0 <= k < e.len() && #[trigger] pins_named(nv, e[k]).contains(p)
                ==> c[i].1.contains(p)
            &&& forall|j: int, p: Seq<char>| 0 <= j < c.len() && j != i && tp.contains(p)
                ==> !(#[trigger] c[j].1.contains(p))
            &&& forall|j: int| 0 <= j < c.len() && j != i ==> nv.contains(#[trigger] c[j]) && !e.contains(c[j].0)
            &&& unique_names(c)
        }),
{
    let e = joined_nets(nv, tp, net);
    let kept = kept_nets(nv, e, t);
    let all = add_new(pins_of_nets(nv, e), tp);
    let class = class_of_nets(nv, e);
    lemma_kept(nv, e, t);
    lemma_add_new_holds(pins_of_nets(nv, e), tp);
    let ik = crate::template::position_of(names_of(kept), t);
    crate::template::lemma_position_found(names_of(kept), t);
    let c = connected(nv, e, tp, t);
    assert(names_of(c) =~= (if ik < kept.len() { names_of(kept) } else { names_of(kept).push(t) }));
    if ik < kept.len() {
        assert(names_of(kept)[ik] == t);
        assert(c[ik].0 == t);
        assert forall|j: int| 0 <= j < ik implies names_of(c)[j] != t by {
            assert(names_of(c)[j] == names_of(kept)[j]);
            if names_of(kept)[j] == t {
                assert(names_of(kept)[ik] == t);
                assert(kept[j].0 == kept[ik].0);
            }
        }
        crate::template::lemma_position(names_of(c), t, ik);
    } else {
        assert(!names_of(kept).contains(t));
        assert forall|j: int| 0 <= j < kept.len() implies names_of(c)[j] != t by {
            assert(names_of(c)[j] == names_of(kept)[j]);
            if names_of(kept)[j] == t { assert(names_of(kept).contains(t)); }
        }
        crate::template::lemma_position(names_of(c), t, kept.len() as int);
    }
    let i = crate::template::position_of(names_of(c), t);
    assert(c[i].1 == all);
    assert forall|k: int, p: Seq<char>| 0 <= k < e.len() && #[trigger] pins_named(nv, e[k]).contains(p)
        implies c[i].1.contains(p) by {
        lemma_pins_of_nets_holds(nv, e, k, p);
    }
    assert forall|j: int, p: Seq<char>| 0 <= j < c.len() && j != i && tp.contains(p)
        implies !(#[trigger] c[j].1.contains(p)) by {
        assert(j < kept.len());
        assert(c[j] == kept[j]);
        assert(nv.contains(kept[j]));
        let k = choose|k: int| 0 <= k < nv.len() && nv[k] == kept[j];
        if kept[j].1.contains(p) {
            let q = choose|q: int| 0 <= q < tp.len() && tp[q] == p;
            lemma_pins_nets(nv, tp, q, k);
            assert(e.contains(nv[k].0)) by {
                let e0 = nets_of_pins(nv, tp);
                let w = choose|w: int| 0 <= w < e0.len() && e0[w] == nv[k].0;
                match net {
                    Some(n) => if names_of(nv).contains(n) && !e0.contains(n) { assert(e0.push(n)[w] == nv[k].0); },
                    None => {},
                }
            }
            assert(kept[j].0 != t) by {
                if kept[j].0 == t {
                    assert(names_of(kept)[j] == t);
                    if ik < kept.len() {
                        assert(names_of(kept)[ik] == t);
                        assert(j != ik);
                    } else {
                        assert(names_of(kept).contains(t));
                    }
                }
            }
        }
    }
    assert forall|j: int| 0 <= j < c.len() && j != i implies nv.contains(#[trigger] c[j]) && !e.contains(c[j].0) by {
        assert(j < kept.len());
        assert(c[j] == kept[j]);
        if kept[j].0 == t {
            assert(names_of(kept)[j] == t);
            if ik < kept.len() {
                assert(names_of(kept)[ik] == t);
                assert(kept[j].0 == kept[ik].0);
            } else {
                assert(names_of(kept).contains(t));
            }
        }
    }
    assert(unique_names(c)) by {
        assert forall|a: int, b: int| 0 <= a < b < c.len() implies c[a].0 != c[b].0 by {
            assert(names_of(c)[a] == c[a].0 && names_of(c)[b] == c[b].0);
            if b < kept.len() {
                assert(names_of(c)[a] == names_of(kept)[a] && names_of(c)[b] == names_of(kept)[b]);
            } else {
                assert(names_of(c)[a] == names_of(kept)[a]);
                assert(!names_of(kept).contains(t));
                if names_of(kept)[a] == t { assert(names_of(kept).contains(t)); }
            }
        }
    }
}

/// The pins without the first `p`.
pub open spec fn without_first(ps: Seq<Seq<char>>, p: Seq<char>) -> Seq<Seq<char>> {
    let i = crate::template::position_of(ps, p);
    if i < ps.len() { ps.remove(i) } else { ps }
}

/// The nets with pin `p` taken off each.
pub open spec fn take_off(nv: Seq<NetView>, p: Seq<char>) -> Seq<NetView> {
    nv.map_values(|x: NetView| (x.0, without_first(x.1, p), x.2))
}

/// The place of the last net holding `p`, or -1.
pub open spec fn last_holding(nv: Seq<NetView>, p: Seq<char>) -> int
    decreases nv.len(),
{
    if nv.len() == 0 {
        -1
    } else if nv.last().1.contains(p) {
        nv.len() - 1
    } else {
        last_holding(nv.drop_last(), p)
    }
}

/// What taking a pin off its nets comes to.
pub enum DisconnectStep {
    /// The nets after, and the line that reports it.
    Done(Seq<NetView>, Seq<char>),
    /// The text is not a pin reference.
    NotPinRef,
    /// No net holds the pin.
    NotConnected,
}

/// Taking pin `p` off every net that holds it; the last of those is dropped
/// where it is left empty.
pub open spec fn disconnect_step(nv: Seq<NetView>, p: Seq<char>) -> DisconnectStep {
    if crate::model::pin_ref_parts(p) is None {
        DisconnectStep::NotPinRef
    } else {
        let i = last_holding(nv, p);
        if i < 0 {
            DisconnectStep::NotConnected
        } else {
            let t = take_off(nv, p);
            if t[i].1.len() == 0 {
                DisconnectStep::Done(t.remove(i), "removed "@ + p + " from "@ + nv[i].0 + " (net is now empty and was dropped)"@)
            } else {
                DisconnectStep::Done(t, "removed "@ + p + " from "@ + nv[i].0)
            }
        }
    }
}

/// What taking pins off in turn comes to.
pub enum DisconnectOutcome {
    /// The nets after and the report lines.
    Done(Seq<NetView>, Seq<Seq<char>>),
    /// The nets when pin `k` failed, and whether it was no pin reference.
    Failed(Seq<NetView>, int, bool),
}

pub open spec fn disconnect_all(nv: Seq<NetView>, pins: Seq<Seq<char>>) -> DisconnectOutcome
    decreases pins.len(),
{
    if pins.len() == 0 {
        DisconnectOutcome::Done(nv, Seq::empty())
    } else {
        match disconnect_all(nv, pins.drop_last()) {
            DisconnectOutcome::Failed(s, k, b) => DisconnectOutcome::Failed(s, k, b),
            DisconnectOutcome::Done(s, lines) => match disconnect_step(s, pins.last()) {
                DisconnectStep::Done(s2, l) => DisconnectOutcome::Done(s2, lines.push(l)),
                DisconnectStep::NotPinRef => DisconnectOutcome::Failed(s, pins.len() - 1, true),
                DisconnectStep::NotConnected => DisconnectOutcome::Failed(s, pins.len() - 1, false),
            },
        }
    }
}

proof fn lemma_last_holding(nv: Seq<NetView>, p: Seq<char>)
    ensures
        -1 <= last_holding(nv, p) < nv.len(),
        last_holding(nv, p) >= 0 ==> nv[last_holding(nv, p)].1.contains(p),
        forall|j: int| last_holding(nv, p) < j < nv.len() ==> !(#[trigger] nv[j]).1.contains(p),
    decreases nv.len(),
{
    if nv.len() > 0 && !nv.last().1.contains(p) {
        lemma_last_holding(nv.drop_last(), p);
        assert forall|j: int| last_holding(nv, p) < j < nv.len() implies !(#[trigger] nv[j]).1.contains(p) by {
            if j < nv.len() - 1 { assert(nv.drop_last()[j] == nv[j]); }
        }
    }
}

proof fn lemma_failed_sticks(nv: Seq<NetView>, pins: Seq<Seq<char>>, k: int)
    requires 0 <= k <= pins.len(), disconnect_all(nv, pins.take(k)) is Failed,
    ensures disconnect_all(nv, pins) == disconnect_all(nv, pins.take(k)),
    decreases pins.len(),
{
    if pins.len() > k {
        assert(pins.drop_last().take(k) =~= pins.take(k));
        lemma_failed_sticks(nv, pins.drop_last(), k);
    } else {
        assert(pins.take(k) =~= pins);
    }
}

/// Takes `p` off the pins, where they hold it; says whether they did.
fn take_first(ps: &mut Vec<String>, p: &str) -> (r: bool)
    ensures
        texts(final(ps)@) == without_first(texts(old(ps)@), p@),
        r == texts(old(ps)@).contains(p@),
{
    let k = crate::template::position_in(ps, p);
    proof {
        crate::template::lemma_position_found(texts(ps@), p@);
        assert(crate::template::names_view(ps@) == texts(ps@));
    }
    if k < ps.len() {
        let ghost p0 = ps@;
        ps.remove(k);
        proof {
            assert(texts(p0).contains(p@)) by { assert(texts(p0)[k as int] == p@); }
            assert(texts(ps@) =~= texts(p0).remove(k as int));
        }
        true
    } else {
        false
    }
}

/// Takes each of `pins` (in turn) off the nets that hold it, dropping the
/// last such net where it is left empty; gives the report lines. A text
/// that is no pin reference, or a pin on no net, stops it with an error.
pub fn disconnect_pins(nets: &mut Vec<(String, Net)>, pins: &Vec<String>) -> (r: Result<Vec<String>, Error>)
    ensures
        match disconnect_all(nets_view(old(nets)@), texts(pins@)) {
            DisconnectOutcome::Done(s, lines) => r matches Ok(ls) && texts(ls@) == lines && nets_view(final(nets)@) == s,
            DisconnectOutcome::Failed(s, k, bad) => r matches Err(e) && nets_view(final(nets)@) == s
                && e.message@ == (if bad { "`"@ + pins@[k]@ + "` is not a pin reference"@ }
                    else { "pin `"@ + pins@[k]@ + "` is not connected to any net"@ }),
        },
{
    let ghost nv0 = nets_view(nets@);
    let ghost tp = texts(pins@);
    let mut lines: Vec<String> = Vec::new();
    let mut q: usize = 0;
    proof {
        assert(tp.take(0) =~= Seq::<Seq<char>>::empty());
        assert(texts(lines@) =~= Seq::<Seq<char>>::empty());
    }
    while q < pins.len()
        invariant
            q <= pins@.len(), tp == texts(pins@), nv0 == nets_view(old(nets)@),
            disconnect_all(nv0, tp.take(q as int)) == DisconnectOutcome::Done(nets_view(nets@), texts(lines@)),
        decreases pins@.len() - q,
    {
        let p = pins[q].as_str();
        proof {
            assert(tp.take(q + 1).drop_last() =~= tp.take(q as int));
            assert(tp.take(q + 1).last() == p@);
        }
        match crate::model::parse_pin_ref(p) {
            Ok(_) => {},
            Err(e) => {
                proof { lemma_failed_sticks(nv0, tp, q + 1); }
                return Err(e);
            },
        }
        let ghost s = nets_view(nets@);
        let mut found: usize = nets.len();
        let mut j: usize = 0;
        while j < nets.len()
            invariant
                j <= nets@.len() == s.len(), found == s.len() || found < j,
                found < s.len() ==> s[found as int].1.contains(p@),
                forall|x: int| found < x < j ==> !(#[trigger] s[x]).1.contains(p@),
                found == s.len() ==> forall|x: int| 0 <= x < j ==> !(#[trigger] s[x]).1.contains(p@),
                forall|x: int| 0 <= x < j ==> #[trigger] nets_view(nets@)[x] == take_off(s, p@)[x],
                forall|x: int| j <= x < s.len() ==> #[trigger] nets_view(nets@)[x] == s[x],
            decreases s.len() - j,
        {
            let ghost n0 = nets@;
            proof {
                assert(nets_view(n0)[j as int] == s[j as int]);
                assert(s[j as int].1 == texts(n0[j as int].1.pins@));
            }
            if take_first(&mut nets[j].1.pins, p) {
                found = j;
            }
            proof {
                assert(nets@[j as int].0 == n0[j as int].0 && nets@[j as int].1.class == n0[j as int].1.class);
                assert(texts(nets@[j as int].1.pins@) == without_first(s[j as int].1, p@));
                assert(nets_view(nets@)[j as int].1 == take_off(s, p@)[j as int].1);
                assert(nets_view(nets@)[j as int] == take_off(s, p@)[j as int]);
                assert forall|x: int| 0 <= x < nets@.len() && x != j implies #[trigger] nets_view(nets@)[x] == nets_view(n0)[x] by {
                    assert(nets@[x] == n0[x]);
                }
            }
            j += 1;
        }
        proof {
            lemma_last_holding(s, p@);
            assert(nets_view(nets@) =~= take_off(s, p@));
            if found < s.len() {
                assert(last_holding(s, p@) == found as int) by {
                    if last_holding(s, p@) > found as int {
                        assert(!s[last_holding(s, p@)].1.contains(p@));
                    } else if last_holding(s, p@) < found as int {
                        assert(s[found as int].1.contains(p@));
                    }
                }
            } else {
                if last_holding(s, p@) >= 0 { assert(s[last_holding(s, p@)].1.contains(p@)); }
                assert forall|x: int| 0 <= x < s.len() implies #[trigger] take_off(s, p@)[x] == s[x] by {
                    crate::template::lemma_position_found(s[x].1, p@);
                }
                assert(take_off(s, p@) =~= s);
            }
        }
        if found == nets.len() {
            let mut m = "pin `".to_owned();
            push_str(&mut m, p);
            push_str(&mut m, "` is not connected to any net");
            proof { lemma_failed_sticks(nv0, tp, q + 1); }
            return Err(Error::msg(m));
        }
        let ghost t = nets_view(nets@);
        let ghost prev_lines = texts(lines@);
        let mut line = "removed ".to_owned();
        push_str(&mut line, p);
        push_str(&mut line, " from ");
        push_str(&mut line, nets[found].0.as_str());
        proof {
            assert(t[found as int].0 == s[found as int].0);
            assert(nets@[found as int].0@ == s[found as int].0);
        }
        if nets[found].1.pins.len() == 0 {
            proof { assert(t[found as int].1.len() == 0); }
            let ghost n1 = nets@;
            nets.remove(found);
            push_str(&mut line, " (net is now empty and was dropped)");
            proof { assert(nets_view(nets@) =~= t.remove(found as int)); }
        } else {
            proof { assert(t[found as int].1.len() != 0); }
        }
        let ghost lv = line@;
        let ghost l0 = lines@;
        lines.push(line);
        proof {
            assert(texts(lines@) =~= prev_lines.push(lv));
            match disconnect_all(nv0, tp.take(q as int)) {
                DisconnectOutcome::Done(s0, ls0) => {
                    assert(s0 == s && ls0 == prev_lines);
                    assert(crate::model::pin_ref_parts(p@) is Some);
                    assert(disconnect_all(nv0, tp.take(q + 1)) == DisconnectOutcome::Done(nets_view(nets@), texts(lines@)));
                },
                _ => {},
            }
        }
        q += 1;
    }
    proof { assert(tp.take(q as int) =~= tp); }
    Ok(lines)
}

/// Why a net edit was refused.
#[derive(Debug)]
pub enum NetEditError {
    /// A bad name or a clash, as the error says.
    Invalid(Error),
    /// No net has the name given; `names` are the nets there are, for a
    /// suggestion.
    NoSuchNet { error: Error, name: String, names: Vec<String> },
}

/// The message for a net name that names no net.
pub open spec fn no_net_text(name: Seq<char>, names: Seq<Seq<char>>) -> Seq<char> {
    "no net named `"@ + name + "`; nets are "@ + names_text(names)
}

/// Whether `r` is the refusal for the net name `name` among nets `nv`.
pub open spec fn is_no_such_net(r: NetEditError, name: Seq<char>, nv: Seq<NetView>) -> bool {
    r matches NetEditError::NoSuchNet { error, name: n, names }
        && n@ == name && texts(names@) == names_of(nv)
        && error.message@ == no_net_text(name, names_of(nv)) && error.help is None
}

fn net_name_list(nets: &Vec<(String, Net)>) -> (r: Vec<String>)
    ensures texts(r@) == names_of(nets_view(nets@)),
{
    let mut r: Vec<String> = Vec::new();
    let mut i: usize = 0;
    while i < nets.len()
        invariant i <= nets@.len(), texts(r@) == names_of(nets_view(nets@)).take(i as int),
        decreases nets@.len() - i,
    {
        let ghost r0 = r@;
        r.push(nets[i].0.clone());
        proof {
            assert(texts(r@) =~= texts(r0).push(nets@[i as int].0@));
            assert(names_of(nets_view(nets@)).take(i + 1) =~= names_of(nets_view(nets@)).take(i as int).push(nets@[i as int].0@));
        }
        i += 1;
    }
    proof { assert(names_of(nets_view(nets@)).take(i as int) =~= names_of(nets_view(nets@))); }
    r
}

pub(crate) fn unknown_net(nets: &Vec<(String, Net)>, name: &str) -> (r: NetEditError)
    ensures is_no_such_net(r, name@, nets_view(nets@)),
{
    let names = net_name_list(nets);
    let mut m = "no net named `".to_owned();
    push_str(&mut m, name);
    push_str(&mut m, "`; nets are ");
    push_str(&mut m, list_names(&names).as_str());
    NetEditError::NoSuchNet { error: Error::msg(m), name: name.to_owned(), names }
}

/// Renames net `from` to `to`, in its place, and every reference to it.
pub fn rename_net(nets: &mut Vec<(String, Net)>, traces: &mut Vec<Trace>, vias: &mut Vec<Via>,
    pours: &mut Vec<Pour>, holes: &mut Vec<Hole>, from: &str, to: &str) -> (r: Result<(), NetEditError>)
    ensures
        ({
            let nv = nets_view(old(nets)@);
            let i = crate::template::position_of(names_of(nv), from@);
            if bad_net_name(to@) {
                &&& r matches Err(NetEditError::Invalid(e)) && e.message@ == "`"@ + to@ + "` is not a valid net name"@
                &&& *final(nets) == *old(nets)
            } else if names_of(nv).contains(to@) {
                &&& r matches Err(NetEditError::Invalid(e)) && e.message@ == "a net named `"@ + to@ + "` already exists"@
                    && (e.help matches Some(h) && h@ == "use `pcb connect --merge` to join nets"@)
                &&& *final(nets) == *old(nets)
            } else if i >= nv.len() {
                &&& r matches Err(x) && is_no_such_net(x, from@, nv)
                &&& *final(nets) == *old(nets)
            } else {
                &&& r is Ok
                &&& nets_view(final(nets)@) == nv.update(i, (to@, nv[i].1, nv[i].2))
                &&& traces_moved(old(traces)@, final(traces)@, seq![from@], to@)
                &&& vias_moved(old(vias)@, final(vias)@, seq![from@], to@)
                &&& pours_moved(old(pours)@, final(pours)@, seq![from@], to@)
                &&& holes_moved(old(holes)@, final(holes)@, seq![from@], to@)
            }
        }),
{
    proof { assert(names_of(nets_view(nets@)) =~= net_names(nets@)); }
    match check_net_name(to) {
        Ok(()) => {},
        Err(e) => return Err(NetEditError::Invalid(e)),
    }
    if has_net(nets, to) {
        let mut m = "a net named `".to_owned();
        push_str(&mut m, to);
        push_str(&mut m, "` already exists");
        return Err(NetEditError::Invalid(Error::with_help(m, "use `pcb connect --merge` to join nets".to_owned())));
    }
    let i = net_index(nets, from);
    if i >= nets.len() {
        return Err(unknown_net(nets, from));
    }
    proof {
        assert(names_of(nets_view(nets@)) =~= net_names(nets@));
        crate::template::lemma_position_found(names_of(nets_view(nets@)), from@);
        assert(from@ != to@);
    }
    let ghost n0 = nets@;
    nets[i].0 = to.to_owned();
    proof { assert(nets_view(nets@) =~= nets_view(n0).update(i as int, (to@, nets_view(n0)[i as int].1, nets_view(n0)[i as int].2))); }
    let ghost (t0, v0, p0, h0) = (traces@, vias@, pours@, holes@);
    rename_net_refs(traces, vias, pours, holes, from, to);
    proof {
        assert forall|x: Option<Seq<char>>| crate::edit::renamed_view(x, from@, to@) == #[trigger] moved(x, seq![from@], to@) by {
            match x {
                Some(v) => {
                    if v == from@ { assert(seq![from@][0] == v); }
                    if seq![from@].contains(v) { let k = choose|k: int| 0 <= k < 1 && seq![from@][k] == v; }
                },
                None => {},
            }
        }
    }
    Ok(())
}

/// Sets the class of net `net`: a class the rules define, or none for `-`.
pub fn set_net_class(nets: &mut Vec<(String, Net)>, classes: &Vec<String>, net: &str, class: &str) -> (r: Result<(), NetEditError>)
    ensures
        ({
            let nv = nets_view(old(nets)@);
            let i = crate::template::position_of(names_of(nv), net@);
            if i >= nv.len() {
                &&& r matches Err(x) && is_no_such_net(x, net@, nv)
                &&& *final(nets) == *old(nets)
            } else if class@ != "-"@ && !texts(classes@).contains(class@) {
                &&& r matches Err(NetEditError::Invalid(e))
                    && e.message@ == "no net class `"@ + class@ + "`; classes are "@ + names_text(texts(classes@))
                    && (e.help matches Some(h) && h@ == "define it with `pcb rules class "@ + class@ + " --width <w> --clearance <c>`"@)
                &&& *final(nets) == *old(nets)
            } else {
                &&& r is Ok
                &&& nets_view(final(nets)@) == nv.update(i, (nv[i].0, nv[i].1, if class@ == "-"@ { None } else { Some(class@) }))
            }
        }),
{
    let i = net_index(nets, net);
    if i >= nets.len() {
        return Err(unknown_net(nets, net));
    }
    let clear = same_str(class, "-");
    if !clear && !contains_text(classes, class) {
        let mut m = "no net class `".to_owned();
        push_str(&mut m, class);
        push_str(&mut m, "`; classes are ");
        push_str(&mut m, list_names(classes).as_str());
        let mut h = "define it with `pcb rules class ".to_owned();
        push_str(&mut h, class);
        push_str(&mut h, " --width <w> --clearance <c>`");
        return Err(NetEditError::Invalid(Error::with_help(m, h)));
    }
    let ghost n0 = nets@;
    if clear {
        nets[i].1.class = None;
    } else {
        nets[i].1.class = Some(class.to_owned());
    }
    proof {
        assert(nets_view(nets@) =~= nets_view(n0).update(i as int,
            (nets_view(n0)[i as int].0, nets_view(n0)[i as int].1, if class@ == "-"@ { None } else { Some(class@) })));
    }
    Ok(())
}

/// The traces not on net `name`, in order.
pub open spec fn traces_off(ts: Seq<Trace>, name: Seq<char>) -> Seq<Trace>
    decreases ts.len(),
{
    if ts.len() == 0 {
        Seq::empty()
    } else {
        let r = traces_off(ts.drop_last(), name);
        if net_view(ts.last().net) == Some(name) { r } else { r.push(ts.last()) }
    }
}

/// The vias not on net `name`, in order.
pub open spec fn vias_off(vs: Seq<Via>, name: Seq<char>) -> Seq<Via>
    decreases vs.len(),
{
    if vs.len() == 0 {
        Seq::empty()
    } else {
        let r = vias_off(vs.drop_last(), name);
        if net_view(vs.last().net) == Some(name) { r } else { r.push(vs.last()) }
    }
}

fn drop_traces_on(traces: &mut Vec<Trace>, name: &str)
    ensures final(traces)@ == traces_off(old(traces)@, name@),
{
    let mut src: Vec<Trace> = Vec::new();
    std::mem::swap(&mut src, traces);
    let ghost orig = src@;
    assert(orig.len() == src.len());
    let mut c: usize = 0;
    proof { assert(orig.take(0) =~= Seq::<Trace>::empty()); assert(orig.skip(0) =~= orig); }
    while src.len() > 0
        invariant
            c <= orig.len(), orig.len() <= usize::MAX, src@ == orig.skip(c as int),
            traces@ == traces_off(orig.take(c as int), name@),
        decreases src@.len(),
    {
        let item = src.remove(0);
        proof {
            assert(src@ =~= orig.skip(c + 1));
            assert(orig.take(c + 1).drop_last() =~= orig.take(c as int));
            assert(orig.take(c + 1).last() == item);
        }
        let on = match &item.net {
            Some(n) => same_str(n.as_str(), name),
            None => false,
        };
        if !on {
            traces.push(item);
        }
        c += 1;
    }
    proof { assert(orig.take(c as int) =~= orig); }
}

fn drop_vias_on(vias: &mut Vec<Via>, name: &str)
    ensures final(vias)@ == vias_off(old(vias)@, name@),
{
    let mut src: Vec<Via> = Vec::new();
    std::mem::swap(&mut src, vias);
    let ghost orig = src@;
    assert(orig.len() == src.len());
    let mut c: usize = 0;
    proof { assert(orig.take(0) =~= Seq::<Via>::empty()); assert(orig.skip(0) =~= orig); }
    while src.len() > 0
        invariant
            c <= orig.len(), orig.len() <= usize::MAX, src@ == orig.skip(c as int),
            vias@ == vias_off(orig.take(c as int), name@),
        decreases src@.len(),
    {
        let item = src.remove(0);
        proof {
            assert(src@ =~= orig.skip(c + 1));
            assert(orig.take(c + 1).drop_last() =~= orig.take(c as int));
            assert(orig.take(c + 1).last() == item);
        }
        let on = match &item.net {
            Some(n) => same_str(n.as_str(), name),
            None => false,
        };
        if !on {
            vias.push(item);
        }
        c += 1;
    }
    proof { assert(orig.take(c as int) =~= orig); }
}

/// Removes net `name`: its traces and vias go, its pours keep their copper
/// on no net.
pub fn remove_net(nets: &mut Vec<(String, Net)>, traces: &mut Vec<Trace>, vias: &mut Vec<Via>,
    pours: &mut Vec<Pour>, name: &str) -> (r: Result<(), NetEditError>)
    ensures
        ({
            let nv = nets_view(old(nets)@);
            let i = crate::template::position_of(names_of(nv), name@);
            if i >= nv.len() {
                &&& r matches Err(x) && is_no_such_net(x, name@, nv)
                &&& *final(nets) == *old(nets) && *final(traces) == *old(traces)
                &&& *final(vias) == *old(vias) && *final(pours) == *old(pours)
            } else {
                &&& r is Ok
                &&& nets_view(final(nets)@) == nv.remove(i)
                &&& final(traces)@ == traces_off(old(traces)@, name@)
                &&& final(vias)@ == vias_off(old(vias)@, name@)
                &&& final(pours)@.len() == old(pours)@.len()
                &&& forall|k: int| 0 <= k < old(pours)@.len() ==> {
                    let (a, b) = (old(pours)@[k], #[trigger] final(pours)@[k]);
                    &&& net_view(b.net) == (if net_view(a.net) == Some(name@) { None } else { net_view(a.net) })
                    &&& b.name == a.name && b.layer == a.layer && b.edges == a.edges
                    &&& b.clearance == a.clearance && b.priority == a.priority && b.thermal == a.thermal
                }
            }
        }),
{
    let i = net_index(nets, name);
    if i >= nets.len() {
        return Err(unknown_net(nets, name));
    }
    let ghost n0 = nets@;
    nets.remove(i);
    proof { assert(nets_view(nets@) =~= nets_view(n0).remove(i as int)); }
    drop_traces_on(traces, name);
    drop_vias_on(vias, name);
    let ghost p0 = pours@;
    let mut k: usize = 0;
    while k < pours.len()
        invariant
            k <= pours@.len() == p0.len(),
            forall|j: int| 0 <= j < p0.len() ==> {
                let (a, b) = (p0[j], #[trigger] pours@[j]);
                &&& net_view(b.net) == (if j < k && net_view(a.net) == Some(name@) { None } else { net_view(a.net) })
                &&& b.name == a.name && b.layer == a.layer && b.edges == a.edges
                &&& b.clearance == a.clearance && b.priority == a.priority && b.thermal == a.thermal
            },
        decreases p0.len() - k,
    {
        let on = match &pours[k].net {
            Some(n) => same_str(n.as_str(), name),
            None => false,
        };
        if on {
            pours[k].net = None;
        }
        k += 1;
    }
    Ok(())
}

/// How many of the references are to net `name`.
pub open spec fn count_on(refs: Seq<Option<Seq<char>>>, name: Seq<char>) -> nat
    decreases refs.len(),
{
    if refs.len() == 0 {
        0
    } else {
        count_on(refs.drop_last(), name) + (if refs.last() == Some(name) { 1nat } else { 0nat })
    }
}

/// The names of the pours on net `name`, in order.
pub open spec fn pours_on(ps: Seq<Pour>, name: Seq<char>) -> Seq<Seq<char>>
    decreases ps.len(),
{
    if ps.len() == 0 {
        Seq::empty()
    } else {
        let r = pours_on(ps.drop_last(), name);
        if net_view(ps.last().net) == Some(name) { r.push(ps.last().name@) } else { r }
    }
}

/// The lines that list the nets: each name, its class in brackets, and its
/// pins; a hint where there are none.
pub open spec fn list_text(nv: Seq<NetView>) -> Seq<Seq<char>> {
    if nv.len() == 0 {
        seq!["no nets yet; create them with `pcb connect <pin> <pin>`"@]
    } else {
        nv.map_values(|x: NetView| x.0 + (match x.2 { Some(c) => " ["@ + c + "]"@, None => Seq::empty() })
            + ": "@ + join_text(x.1, " "@))
    }
}

/// The lines that list the nets.
pub fn list_nets(nets: &Vec<(String, Net)>) -> (r: Vec<String>)
    ensures texts(r@) == list_text(nets_view(nets@)),
{
    let ghost nv = nets_view(nets@);
    let mut r: Vec<String> = Vec::new();
    if nets.len() == 0 {
        r.push("no nets yet; create them with `pcb connect <pin> <pin>`".to_owned());
        proof { assert(texts(r@) =~= list_text(nv)); }
        return r;
    }
    let mut i: usize = 0;
    while i < nets.len()
        invariant i <= nets@.len(), nv == nets_view(nets@), nv.len() > 0, texts(r@) == list_text(nv).take(i as int),
        decreases nets@.len() - i,
    {
        let mut line = nets[i].0.clone();
        match &nets[i].1.class {
            Some(c) => {
                push_str(&mut line, " [");
                push_str(&mut line, c.as_str());
                push_str(&mut line, "]");
            },
            None => {},
        }
        push_str(&mut line, ": ");
        push_str(&mut line, join_strings(&nets[i].1.pins, " ").as_str());
        let ghost r0 = r@;
        proof {
            assert(nets@[i as int].1.pins@.map_values(|s: String| s@) == texts(nets@[i as int].1.pins@));
            assert(nv[i as int].1 == texts(nets@[i as int].1.pins@));
            assert(nv[i as int].0 == nets@[i as int].0@);
            assert(nv[i as int].2 == net_view(nets@[i as int].1.class));
            assert(line@ =~= list_text(nv)[i as int]);
        }
        r.push(line);
        proof {
            assert(texts(r@) =~= texts(r0).push(list_text(nv)[i as int]));
            assert(list_text(nv).take(i + 1) =~= list_text(nv).take(i as int).push(list_text(nv)[i as int]));
        }
        i += 1;
    }
    proof { assert(list_text(nv).take(i as int) =~= list_text(nv)); }
    r
}

/// The net references of traces.
pub open spec fn trace_refs(ts: Seq<Trace>) -> Seq<Option<Seq<char>>> {
    ts.map_values(|t: Trace| net_view(t.net))
}

/// The net references of vias.
pub open spec fn via_refs(vs: Seq<Via>) -> Seq<Option<Seq<char>>> {
    vs.map_values(|v: Via| net_view(v.net))
}

/// The lines that show net `name` (at `i`): its pin count, each pin, and
/// how many traces and vias and which pours are on it.
pub open spec fn show_text(nv: Seq<NetView>, i: int, ts: Seq<Trace>, vs: Seq<Via>, ps: Seq<Pour>, name: Seq<char>)
    -> Seq<Seq<char>> {
    let pn = pours_on(ps, name);
    seq![name + ": "@ + nat_digits(nv[i].1.len()) + " pin(s)"@]
        + nv[i].1.map_values(|p: Seq<char>| "  "@ + p)
        + seq!["  traces: "@ + nat_digits(count_on(trace_refs(ts), name)) + ", vias: "@
            + nat_digits(count_on(via_refs(vs), name)) + ", pours: "@
            + (if pn.len() == 0 { "-"@ } else { join_text(pn, ", "@) })]
}

fn count_refs(refs: &Vec<Option<String>>, name: &str) -> (r: usize)
    ensures r == count_on(refs@.map_values(|o: Option<String>| net_view(o)), name@),
{
    let ghost rv = refs@.map_values(|o: Option<String>| net_view(o));
    let mut c: usize = 0;
    let mut i: usize = 0;
    proof { assert(rv.take(0) =~= Seq::<Option<Seq<char>>>::empty()); }
    while i < refs.len()
        invariant i <= refs@.len(), rv == refs@.map_values(|o: Option<String>| net_view(o)),
            c == count_on(rv.take(i as int), name@), c <= i,
        decreases refs@.len() - i,
    {
        proof {
            assert(rv.take(i + 1).drop_last() =~= rv.take(i as int));
            assert(rv.take(i + 1).last() == rv[i as int]);
        }
        let on = match &refs[i] {
            Some(n) => same_str(n.as_str(), name),
            None => false,
        };
        if on {
            c += 1;
        }
        i += 1;
    }
    proof { assert(rv.take(i as int) =~= rv); }
    c
}

/// Shows net `name`.
pub fn show_net(nets: &Vec<(String, Net)>, traces: &Vec<Trace>, vias: &Vec<Via>, pours: &Vec<Pour>, name: &str)
    -> (r: Result<Vec<String>, NetEditError>)
    ensures
        ({
            let nv = nets_view(nets@);
            let i = crate::template::position_of(names_of(nv), name@);
            if i >= nv.len() {
                r matches Err(x) && is_no_such_net(x, name@, nv)
            } else {
                r matches Ok(ls) && texts(ls@) == show_text(nv, i, traces@, vias@, pours@, name@)
            }
        }),
{
    let ghost nv = nets_view(nets@);
    let i = net_index(nets, name);
    if i >= nets.len() {
        return Err(unknown_net(nets, name));
    }
    let pins = &nets[i].1.pins;
    let mut out: Vec<String> = Vec::new();
    let mut head = name.to_owned();
    push_str(&mut head, ": ");
    push_nat(&mut head, pins.len() as u64);
    push_str(&mut head, " pin(s)");
    let ghost h = head@;
    out.push(head);
    let ghost tp = texts(pins@);
    let mut k: usize = 0;
    proof { assert(texts(out@) =~= seq![h] + tp.take(0).map_values(|p: Seq<char>| "  "@ + p)); }
    while k < pins.len()
        invariant
            k <= pins@.len(), tp == texts(pins@),
            texts(out@) == seq![h] + tp.take(k as int).map_values(|p: Seq<char>| "  "@ + p),
        decreases pins@.len() - k,
    {
        let mut l = "  ".to_owned();
        push_str(&mut l, pins[k].as_str());
        let ghost o0 = texts(out@);
        let ghost lv = l@;
        out.push(l);
        proof {
            assert(lv == "  "@ + tp[k as int]);
            assert(tp.take(k + 1) =~= tp.take(k as int).push(tp[k as int]));
            assert(texts(out@) =~= o0.push(lv));
            assert(texts(out@) =~= seq![h] + tp.take(k + 1).map_values(|p: Seq<char>| "  "@ + p));
        }
        k += 1;
    }
    let mut trefs: Vec<Option<String>> = Vec::new();
    let mut j: usize = 0;
    while j < traces.len()
        invariant j <= traces@.len(), trefs@.map_values(|o: Option<String>| net_view(o)) == trace_refs(traces@).take(j as int),
        decreases traces@.len() - j,
    {
        let r: Option<String> = match &traces[j].net {
            Some(n) => Some(n.clone()),
            None => None,
        };
        let ghost rv = net_view(r);
        let ghost t0 = trefs@;
        trefs.push(r);
        proof {
            assert(rv == trace_refs(traces@)[j as int]);
            assert(trefs@.map_values(|o: Option<String>| net_view(o)) =~= t0.map_values(|o: Option<String>| net_view(o)).push(rv));
            assert(trace_refs(traces@).take(j + 1) =~= trace_refs(traces@).take(j as int).push(trace_refs(traces@)[j as int]));
            assert(trefs@.map_values(|o: Option<String>| net_view(o)) =~= trace_refs(traces@).take(j + 1));
        }
        j += 1;
    }
    proof { assert(trace_refs(traces@).take(j as int) =~= trace_refs(traces@)); }
    let mut vrefs: Vec<Option<String>> = Vec::new();
    let mut j: usize = 0;
    while j < vias.len()
        invariant j <= vias@.len(), vrefs@.map_values(|o: Option<String>| net_view(o)) == via_refs(vias@).take(j as int),
        decreases vias@.len() - j,
    {
        let r: Option<String> = match &vias[j].net {
            Some(n) => Some(n.clone()),
            None => None,
        };
        let ghost rv = net_view(r);
        let ghost t0 = vrefs@;
        vrefs.push(r);
        proof {
            assert(rv == via_refs(vias@)[j as int]);
            assert(vrefs@.map_values(|o: Option<String>| net_view(o)) =~= t0.map_values(|o: Option<String>| net_view(o)).push(rv));
            assert(via_refs(vias@).take(j + 1) =~= via_refs(vias@).take(j as int).push(via_refs(vias@)[j as int]));
            assert(vrefs@.map_values(|o: Option<String>| net_view(o)) =~= via_refs(vias@).take(j + 1));
        }
        j += 1;
    }
    proof { assert(via_refs(vias@).take(j as int) =~= via_refs(vias@)); }
    let mut pn: Vec<String> = Vec::new();
    let mut j: usize = 0;
    proof { assert(pours@.take(0) =~= Seq::<Pour>::empty()); }
    while j < pours.len()
        invariant j <= pours@.len(), texts(pn@) == pours_on(pours@.take(j as int), name@),
        decreases pours@.len() - j,
    {
        proof {
            assert(pours@.take(j + 1).drop_last() =~= pours@.take(j as int));
            assert(pours@.take(j + 1).last() == pours@[j as int]);
        }
        let on = match &pours[j].net {
            Some(n) => same_str(n.as_str(), name),
            None => false,
        };
        if on {
            let ghost q0 = pn@;
            pn.push(pours[j].name.clone());
            proof { assert(texts(pn@) =~= texts(q0).push(pours@[j as int].name@)); }
        }
        j += 1;
    }
    proof { assert(pours@.take(j as int) =~= pours@); }
    let mut last = "  traces: ".to_owned();
    push_nat(&mut last, count_refs(&trefs, name) as u64);
    push_str(&mut last, ", vias: ");
    push_nat(&mut last, count_refs(&vrefs, name) as u64);
    push_str(&mut last, ", pours: ");
    if pn.len() == 0 {
        push_str(&mut last, "-");
    } else {
        push_str(&mut last, join_strings(&pn, ", ").as_str());
    }
    let ghost o1 = texts(out@);
    let ghost lv = last@;
    out.push(last);
    proof {
        assert(texts(out@) =~= o1.push(lv));
        assert(tp.take(k as int) =~= tp);
        assert(nv[i as int].1 == tp);
        assert(texts(pn@) == pn@.map_values(|s: String| s@));
        assert(texts(out@) =~= show_text(nv, i as int, traces@, vias@, pours@, name@));
    }
    Ok(out)
}

} // verus!
