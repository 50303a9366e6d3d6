//! Comparing the board's netlist with an external one, and reading an
//! external netlist written as text: `NET: PIN PIN ...` lines, `#` comments.

use vstd::prelude::*;
use crate::text::{is_ws, is_whitespace, trim, trim_bounds, lines_of, lines, string_of};
use crate::decimal::find_char;
use crate::canon::{texts, sorted, clone_strings, lemma_sorted_ignores_order};
use crate::text::{push_str, same_str};
use crate::netlist::{NetView, nets_view};
use crate::schema::Net;

verus! {

/// The words of `s`: its runs of characters other than Unicode whitespace,
/// as `str::split_whitespace` gives them.
pub open spec fn words(s: Seq<char>) -> Seq<Seq<char>>
    decreases s.len(),
{
    if s.len() == 0 {
        Seq::empty()
    } else {
        let w = words(s.drop_last());
        let c = s.last();
        if is_ws(c) {
            w
        } else if s.len() >= 2 && !is_ws(s[s.len() - 2]) && w.len() > 0 {
            w.update(w.len() - 1, w.last().push(c))
        } else {
            w.push(seq![c])
        }
    }
}

/// The place of the first entry with key `k`, or `m.len()`.
pub open spec fn key_pos<V>(m: Seq<(Seq<char>, V)>, k: Seq<char>) -> int
    decreases m.len(),
{
    if m.len() == 0 { 0 } else if m[0].0 == k { 0 } else { 1 + key_pos(m.drop_first(), k) }
}

/// `m` with `k` set to `v`: in its place where `m` has `k`, else at the end.
pub open spec fn ins<V>(m: Seq<(Seq<char>, V)>, k: Seq<char>, v: V) -> Seq<(Seq<char>, V)> {
    let i = key_pos(m, k);
    if i < m.len() { m.update(i, (k, v)) } else { m.push((k, v)) }
}

proof fn lemma_key_pos<V>(m: Seq<(Seq<char>, V)>, k: Seq<char>)
    ensures
        0 <= key_pos(m, k) <= m.len(),
        key_pos(m, k) < m.len() ==> m[key_pos(m, k)].0 == k,
        forall|j: int| 0 <= j < key_pos(m, k) ==> m[j].0 != k,
    decreases m.len(),
{
    if m.len() > 0 && m[0].0 != k {
        lemma_key_pos(m.drop_first(), k);
        assert forall|j: int| 0 <= j < key_pos(m, k) implies m[j].0 != k by {
            if j > 0 { assert(m.drop_first()[j - 1] == m[j]); }
        }
    }
}

proof fn lemma_key_pos_at<V>(m: Seq<(Seq<char>, V)>, k: Seq<char>, i: int)
    requires 0 <= i <= m.len(), forall|j: int| 0 <= j < i ==> m[j].0 != k, i == m.len() || m[i].0 == k,
    ensures key_pos(m, k) == i,
    decreases m.len(),
{
    if m.len() > 0 && i > 0 {
        let t = m.drop_first();
        assert forall|j: int| 0 <= j < i - 1 implies t[j].0 != k by { assert(t[j] == m[j + 1]); }
        lemma_key_pos_at(t, k, i - 1);
    }
}

/// The view of a map from texts to texts.
pub open spec fn text_map(m: Seq<(String, String)>) -> Seq<(Seq<char>, Seq<char>)> {
    m.map_values(|e: (String, String)| (e.0@, e.1@))
}

/// The view of a map from texts to lists of texts.
pub open spec fn list_map(m: Seq<(String, Vec<String>)>) -> Seq<(Seq<char>, Seq<Seq<char>>)> {
    m.map_values(|e: (String, Vec<String>)| (e.0@, texts(e.1@)))
}

fn find_key_text(m: &Vec<(String, String)>, k: &str) -> (r: usize)
    ensures r == key_pos(text_map(m@), k@),
{
    let ghost mv = text_map(m@);
    let mut i: usize = 0;
    while i < m.len()
        invariant i <= m@.len(), mv == text_map(m@), forall|j: int| 0 <= j < i ==> mv[j].0 != k@,
        decreases m@.len() - i,
    {
        if crate::text::same_str(m[i].0.as_str(), k) {
            proof { lemma_key_pos_at(mv, k@, i as int); }
            return i;
        }
        i += 1;
    }
    proof { lemma_key_pos_at(mv, k@, i as int); }
    i
}

fn find_key_list(m: &Vec<(String, Vec<String>)>, k: &str) -> (r: usize)
    ensures r == key_pos(list_map(m@), k@),
{
    let ghost mv = list_map(m@);
    let mut i: usize = 0;
    while i < m.len()
        invariant i <= m@.len(), mv == list_map(m@), forall|j: int| 0 <= j < i ==> mv[j].0 != k@,
        decreases m@.len() - i,
    {
        if crate::text::same_str(m[i].0.as_str(), k) {
            proof { lemma_key_pos_at(mv, k@, i as int); }
            return i;
        }
        i += 1;
    }
    proof { lemma_key_pos_at(mv, k@, i as int); }
    i
}

fn insert_text(m: &mut Vec<(String, String)>, k: String, v: String)
    ensures text_map(final(m)@) == ins(text_map(old(m)@), k@, v@),
{
    let i = find_key_text(m, k.as_str());
    let ghost m0 = text_map(m@);
    proof { lemma_key_pos(m0, k@); }
    if i < m.len() {
        m[i].1 = v;
        proof { assert(text_map(m@) =~= m0.update(i as int, (k@, v@))); }
    } else {
        let ghost kv = (k@, v@);
        m.push((k, v));
        proof { assert(text_map(m@) =~= m0.push(kv)); }
    }
}

fn insert_list(m: &mut Vec<(String, Vec<String>)>, k: String, v: Vec<String>)
    ensures list_map(final(m)@) == ins(list_map(old(m)@), k@, texts(v@)),
{
    let i = find_key_list(m, k.as_str());
    let ghost m0 = list_map(m@);
    proof { lemma_key_pos(m0, k@); }
    if i < m.len() {
        let ghost vv = texts(v@);
        m[i].1 = v;
        proof { assert(list_map(m@) =~= m0.update(i as int, (k@, vv))); }
    } else {
        let ghost kv = (k@, texts(v@));
        m.push((k, v));
        proof { assert(list_map(m@) =~= m0.push(kv)); }
    }
}

/// The words of `v[lo..hi]`.
fn words_in(v: &Vec<char>, lo: usize, hi: usize) -> (r: Vec<String>)
    requires lo <= hi <= v@.len(),
    ensures texts(r@) == words(v@.subrange(lo as int, hi as int)),
{
    let ghost s = v@.subrange(lo as int, hi as int);
    let mut out: Vec<String> = Vec::new();
    let mut start: usize = lo;
    let mut i: usize = lo;
    proof { assert(s.take(0) =~= Seq::<char>::empty()); }
    while i < hi
        invariant
            lo <= start <= i <= hi <= v@.len(), s == v@.subrange(lo as int, hi as int),
            forall|j: int| start <= j < i ==> !is_ws(v@[j]),
            start == lo || is_ws(v@[start - 1]),
            words(s.take(i - lo)) == (if start < i { texts(out@).push(v@.subrange(start as int, i as int)) } else { texts(out@) }),
        decreases hi - i,
    {
        let ghost w = words(s.take(i - lo));
        proof {
            assert(s.take(i - lo + 1).drop_last() =~= s.take(i - lo));
            assert(s.take(i - lo + 1).last() == v@[i as int]);
        }
        if is_whitespace(v[i]) {
            if start < i {
                let ghost o0 = texts(out@);
                out.push(string_of(v.as_slice(), start, i));
                proof { assert(texts(out@) =~= o0.push(v@.subrange(start as int, i as int))); }
            }
            i += 1;
            start = i;
        } else {
            proof {
                if start < i {
                    assert(s.take(i - lo + 1)[i - lo - 1] == v@[i - 1]);
                    assert(v@.subrange(start as int, i + 1) =~= v@.subrange(start as int, i as int).push(v@[i as int]));
                } else {
                    if i > lo { assert(s.take(i - lo + 1)[i - lo - 1] == v@[i - 1]); }
                    assert(v@.subrange(start as int, i + 1) =~= seq![v@[i as int]]);
                }
            }
            i += 1;
        }
    }
    if start < hi {
        let ghost o0 = texts(out@);
        out.push(string_of(v.as_slice(), start, hi));
        proof { assert(texts(out@) =~= o0.push(v@.subrange(start as int, hi as int))); }
    }
    proof { assert(s.take(hi - lo) =~= s); }
    out
}

/// What one line of a text netlist gives: a net and its pins, or nothing
/// for a blank line, a `#` comment or a line without `:`.
pub open spec fn netlist_line(l: Seq<char>) -> Option<(Seq<char>, Seq<Seq<char>>)> {
    let t = trim(l);
    if t.len() == 0 || t[0] == '#' {
        None
    } else {
        let j = find_char(t, ':');
        if j >= t.len() { None } else { Some((trim(t.take(j)), words(t.skip(j + 1)))) }
    }
}

/// A text netlist: each line's net in turn; a later line for a net gives
/// its pins, in the place of the first.
pub open spec fn netlist_of_lines(ls: Seq<Seq<char>>) -> Seq<(Seq<char>, Seq<Seq<char>>)>
    decreases ls.len(),
{
    if ls.len() == 0 {
        Seq::empty()
    } else {
        let m = netlist_of_lines(ls.drop_last());
        match netlist_line(ls.last()) {
            Some((n, ps)) => ins(m, n, ps),
            None => m,
        }
    }
}

/// Reads a netlist written as text: `NET: PIN PIN ...` lines.
pub fn parse_netlist_text(text: &str) -> (r: Vec<(String, Vec<String>)>)
    ensures list_map(r@) == netlist_of_lines(lines_of(text@)),
{
    let ls = lines(text);
    let ghost lv = ls@.map_values(|x: Vec<char>| x@);
    let mut m: Vec<(String, Vec<String>)> = Vec::new();
    let mut k: usize = 0;
    proof { assert(lv.take(0) =~= Seq::<Seq<char>>::empty()); }
    while k < ls.len()
        invariant
            k <= ls@.len(), lv == ls@.map_values(|x: Vec<char>| x@), lv == lines_of(text@),
            list_map(m@) == netlist_of_lines(lv.take(k as int)),
        decreases ls@.len() - k,
    {
        let l = &ls[k];
        proof {
            assert(lv.take(k + 1).drop_last() =~= lv.take(k as int));
            assert(lv.take(k + 1).last() == l@);
            assert(l@.subrange(0, l@.len() as int) =~= l@);
        }
        let (a, b) = trim_bounds(l.as_slice(), 0, l.len());
        if a < b && l[a] != '#' {
            let j = crate::text::find_in(l.as_slice(), a, b, ':');
            if j < b {
                let (c, d) = trim_bounds(l.as_slice(), a, j);
                let name = string_of(l.as_slice(), c, d);
                let pins = words_in(l, j + 1, b);
                proof {
                    let t = l@.subrange(a as int, b as int);
                    assert(t.take(j - a) =~= l@.subrange(a as int, j as int));
                    assert(t.skip(j - a + 1) =~= l@.subrange(j + 1, b as int));
                    assert(t[0] == l@[a as int]);
                }
                insert_list(&mut m, name, pins);
            }
        }
        k += 1;
    }
    proof { assert(lv.take(k as int) =~= lv); }
    m
}

/// The value of key `k` in `m`, where `m` has it.
pub open spec fn get<V>(m: Seq<(Seq<char>, V)>, k: Seq<char>) -> Option<V> {
    let i = key_pos(m, k);
    if i < m.len() { Some(m[i].1) } else { None }
}

/// `acc` with each of `pins` mapped to `net`.
pub open spec fn pins_into(acc: Seq<(Seq<char>, Seq<char>)>, pins: Seq<Seq<char>>, net: Seq<char>)
    -> Seq<(Seq<char>, Seq<char>)>
    decreases pins.len(),
{
    if pins.len() == 0 { acc } else { ins(pins_into(acc, pins.drop_last(), net), pins.last(), net) }
}

/// Pin to net over a netlist: for each net in turn, each of its pins; a pin
/// on two nets goes to the later, in the place of the first.
pub open spec fn pin_map(m: Seq<(Seq<char>, Seq<Seq<char>>)>) -> Seq<(Seq<char>, Seq<char>)>
    decreases m.len(),
{
    if m.len() == 0 { Seq::empty() } else { pins_into(pin_map(m.drop_last()), m.last().1, m.last().0) }
}

/// The board's nets as a netlist: names and pins.
pub open spec fn board_list(nv: Seq<NetView>) -> Seq<(Seq<char>, Seq<Seq<char>>)> {
    nv.map_values(|x: NetView| (x.0, x.1))
}

/// A line of the comparison, and whether it is a difference.
pub type Finding = (Seq<char>, bool);

/// Pins of the file on another net on the board, or on none; a pin whose
/// file net has the same pins as its board net is not reported.
pub open spec fn pin_findings(xp: Seq<(Seq<char>, Seq<char>)>, bp: Seq<(Seq<char>, Seq<char>)>,
    e: Seq<(Seq<char>, Seq<Seq<char>>)>, b: Seq<(Seq<char>, Seq<Seq<char>>)>) -> Seq<Finding>
    decreases xp.len(),
{
    if xp.len() == 0 {
        Seq::empty()
    } else {
        let prev = pin_findings(xp.drop_last(), bp, e, b);
        let (pin, enet) = xp.last();
        match get(bp, pin) {
            None => prev.push((pin + ": on net "@ + enet + " in the file, on no net on the board"@, true)),
            Some(bnet) => {
                let same = match (get(e, enet), get(b, bnet)) {
                    (Some(x), Some(y)) => x.to_multiset() == y.to_multiset(),
                    _ => false,
                };
                if bnet != enet && !same {
                    prev.push((pin + ": on net "@ + enet + " in the file, on net "@ + bnet + " on the board"@, true))
                } else {
                    prev
                }
            },
        }
    }
}

/// Pins on the board that the file does not have.
pub open spec fn board_pin_findings(bp: Seq<(Seq<char>, Seq<char>)>, xp: Seq<(Seq<char>, Seq<char>)>) -> Seq<Finding>
    decreases bp.len(),
{
    if bp.len() == 0 {
        Seq::empty()
    } else {
        let prev = board_pin_findings(bp.drop_last(), xp);
        let (pin, bnet) = bp.last();
        if get(xp, pin) is None {
            prev.push((pin + ": on net "@ + bnet + " on the board, absent from the file"@, true))
        } else {
            prev
        }
    }
}

/// Nets of the file the board has no net of that name for: under another
/// name where the board has their first pin (no difference), else missing.
pub open spec fn file_net_findings(e: Seq<(Seq<char>, Seq<Seq<char>>)>, b: Seq<(Seq<char>, Seq<Seq<char>>)>,
    bp: Seq<(Seq<char>, Seq<char>)>) -> Seq<Finding>
    decreases e.len(),
{
    if e.len() == 0 {
        Seq::empty()
    } else {
        let prev = file_net_findings(e.drop_last(), b, bp);
        let (net, pins) = e.last();
        if get(b, net) is None {
            let renamed = if pins.len() > 0 { get(bp, pins[0]) } else { None };
            match renamed {
                Some(bn) => prev.push(("net "@ + net + " in the file is called "@ + bn + " on the board"@, false)),
                None => prev.push(("net "@ + net + " in the file is missing from the board"@, true)),
            }
        } else {
            prev
        }
    }
}

/// Nets of the board the file neither names nor has a pin of.
pub open spec fn board_net_findings(b: Seq<(Seq<char>, Seq<Seq<char>>)>, e: Seq<(Seq<char>, Seq<Seq<char>>)>,
    xp: Seq<(Seq<char>, Seq<char>)>) -> Seq<Finding>
    decreases b.len(),
{
    if b.len() == 0 {
        Seq::empty()
    } else {
        let prev = board_net_findings(b.drop_last(), e, xp);
        let (net, pins) = b.last();
        if get(e, net) is None && !(exists|i: int| 0 <= i < pins.len() && #[trigger] get(xp, pins[i]) is Some) {
            prev.push(("net "@ + net + " is on the board only"@, true))
        } else {
            prev
        }
    }
}

/// Everything the comparison of the board's nets `nv` with the netlist `e`
/// reports, in order.
pub open spec fn compare_findings(e: Seq<(Seq<char>, Seq<Seq<char>>)>, nv: Seq<NetView>) -> Seq<Finding> {
    let b = board_list(nv);
    let xp = pin_map(e);
    let bp = pin_map(b);
    pin_findings(xp, bp, e, b) + board_pin_findings(bp, xp) + file_net_findings(e, b, bp) + board_net_findings(b, e, xp)
}

/// How many findings are differences.
pub open spec fn differences(f: Seq<Finding>) -> nat
    decreases f.len(),
{
    if f.len() == 0 { 0 } else { differences(f.drop_last()) + (if f.last().1 { 1nat } else { 0nat }) }
}

/// The lines of findings.
pub open spec fn finding_lines(f: Seq<Finding>) -> Seq<Seq<char>> {
    f.map_values(|x: Finding| x.0)
}

fn push_finding(lines: &mut Vec<String>, problems: &mut usize, text: String, problem: bool, Ghost(f): Ghost<Seq<Finding>>)
    requires
        texts(old(lines)@) == finding_lines(f), *old(problems) == differences(f), *old(problems) <= old(lines)@.len(),
    ensures
        texts(final(lines)@) == finding_lines(f.push((text@, problem))),
        *final(problems) == differences(f.push((text@, problem))),
        *final(problems) <= final(lines)@.len(),
{
    let ghost t = text@;
    let ghost l0 = texts(lines@);
    lines.push(text);
    let n = lines.len();
    if problem {
        *problems = *problems + 1;
    }
    proof {
        let g = f.push((t, problem));
        assert(g.drop_last() =~= f);
        assert(texts(lines@) =~= l0.push(t));
        assert(finding_lines(g) =~= finding_lines(f).push(t));
    }
}

fn find_board_net(nets: &Vec<(String, Net)>, k: &str) -> (r: usize)
    ensures r == key_pos(board_list(nets_view(nets@)), k@), r <= nets@.len(),
{
    let ghost mv = board_list(nets_view(nets@));
    let mut i: usize = 0;
    while i < nets.len()
        invariant i <= nets@.len(), mv == board_list(nets_view(nets@)), forall|j: int| 0 <= j < i ==> mv[j].0 != k@,
        decreases nets@.len() - i,
    {
        if same_str(nets[i].0.as_str(), k) {
            proof { lemma_key_pos_at(mv, k@, i as int); }
            return i;
        }
        i += 1;
    }
    proof { lemma_key_pos_at(mv, k@, i as int); }
    i
}

/// Adds each of `pins` to the pin map as on `net`.
fn add_pins(m: &mut Vec<(String, String)>, pins: &Vec<String>, net: &String)
    ensures text_map(final(m)@) == pins_into(text_map(old(m)@), texts(pins@), net@),
{
    let ghost m0 = text_map(m@);
    let ghost tp = texts(pins@);
    let mut j: usize = 0;
    proof { assert(tp.take(0) =~= Seq::<Seq<char>>::empty()); }
    while j < pins.len()
        invariant j <= pins@.len(), tp == texts(pins@), m0 == text_map(old(m)@),
            text_map(m@) == pins_into(m0, tp.take(j as int), net@),
        decreases pins@.len() - j,
    {
        proof {
            assert(tp.take(j + 1).drop_last() =~= tp.take(j as int));
            assert(tp.take(j + 1).last() == tp[j as int]);
        }
        insert_text(m, pins[j].clone(), net.clone());
        j += 1;
    }
    proof { assert(tp.take(j as int) =~= tp); }
}

fn file_pin_map(e: &Vec<(String, Vec<String>)>) -> (r: Vec<(String, String)>)
    ensures text_map(r@) == pin_map(list_map(e@)),
{
    let ghost ev = list_map(e@);
    let mut m: Vec<(String, String)> = Vec::new();
    let mut k: usize = 0;
    proof { assert(ev.take(0) =~= Seq::<(Seq<char>, Seq<Seq<char>>)>::empty()); assert(text_map(m@) =~= Seq::<(Seq<char>, Seq<char>)>::empty()); }
    while k < e.len()
        invariant k <= e@.len(), ev == list_map(e@), text_map(m@) == pin_map(ev.take(k as int)),
        decreases e@.len() - k,
    {
        proof {
            assert(ev.take(k + 1).drop_last() =~= ev.take(k as int));
            assert(ev.take(k + 1).last() == ev[k as int]);
        }
        add_pins(&mut m, &e[k].1, &e[k].0);
        k += 1;
    }
    proof { assert(ev.take(k as int) =~= ev); }
    m
}

fn board_pin_map(nets: &Vec<(String, Net)>) -> (r: Vec<(String, String)>)
    ensures text_map(r@) == pin_map(board_list(nets_view(nets@))),
{
    let ghost bv = board_list(nets_view(nets@));
    let mut m: Vec<(String, String)> = Vec::new();
    let mut k: usize = 0;
    proof { assert(bv.take(0) =~= Seq::<(Seq<char>, Seq<Seq<char>>)>::empty()); assert(text_map(m@) =~= Seq::<(Seq<char>, Seq<char>)>::empty()); }
    while k < nets.len()
        invariant k <= nets@.len(), bv == board_list(nets_view(nets@)), text_map(m@) == pin_map(bv.take(k as int)),
        decreases nets@.len() - k,
    {
        proof {
            assert(bv.take(k + 1).drop_last() =~= bv.take(k as int));
            assert(bv.take(k + 1).last() == bv[k as int]);
        }
        add_pins(&mut m, &nets[k].1.pins, &nets[k].0);
        k += 1;
    }
    proof { assert(bv.take(k as int) =~= bv); }
    m
}

/// Whether two lists hold the same texts equally often.
fn same_pins(a: &Vec<String>, b: &Vec<String>) -> (r: bool)
    ensures r == (texts(a@).to_multiset() == texts(b@).to_multiset()),
{
    let sa = sorted(clone_strings(a));
    let sb = sorted(clone_strings(b));
    proof {
        if texts(a@).to_multiset() == texts(b@).to_multiset() {
            lemma_sorted_ignores_order(texts(a@), texts(b@), texts(sa@), texts(sb@));
        }
    }
    if sa.len() != sb.len() {
        proof { assert(texts(sa@).len() != texts(sb@).len()); }
        return false;
    }
    let mut i: usize = 0;
    while i < sa.len()
        invariant
            i <= sa@.len() == sb@.len(), forall|j: int| 0 <= j < i ==> texts(sa@)[j] == texts(sb@)[j],
            texts(sa@).to_multiset() == texts(a@).to_multiset(), texts(sb@).to_multiset() == texts(b@).to_multiset(),
            (texts(a@).to_multiset() == texts(b@).to_multiset()) ==> texts(sa@) == texts(sb@),
        decreases sa@.len() - i,
    {
        if !same_str(sa[i].as_str(), sb[i].as_str()) {
            proof { assert(texts(sa@)[i as int] != texts(sb@)[i as int]); }
            return false;
        }
        i += 1;
    }
    proof { assert(texts(sa@) =~= texts(sb@)); }
    true
}

fn pin_section(lines: &mut Vec<String>, problems: &mut usize, Ghost(f): Ghost<Seq<Finding>>,
    xp: &Vec<(String, String)>, bp: &Vec<(String, String)>, e: &Vec<(String, Vec<String>)>, nets: &Vec<(String, Net)>)
    requires
        texts(old(lines)@) == finding_lines(f), *old(problems) == differences(f), *old(problems) <= old(lines)@.len(),
    ensures
        ({
            let g = f + pin_findings(text_map(xp@), text_map(bp@), list_map(e@), board_list(nets_view(nets@)));
            texts(final(lines)@) == finding_lines(g) && *final(problems) == differences(g) && *final(problems) <= final(lines)@.len()
        }),
{
    let ghost xv = text_map(xp@);
    let ghost bpv = text_map(bp@);
    let ghost ev = list_map(e@);
    let ghost bv = board_list(nets_view(nets@));
    let mut k: usize = 0;
    proof { assert(xv.take(0) =~= Seq::<(Seq<char>, Seq<char>)>::empty()); assert(f + Seq::<Finding>::empty() =~= f); }
    while k < xp.len()
        invariant
            k <= xp@.len(), xv == text_map(xp@), bpv == text_map(bp@), ev == list_map(e@), bv == board_list(nets_view(nets@)),
            texts(lines@) == finding_lines(f + pin_findings(xv.take(k as int), bpv, ev, bv)),
            *problems == differences(f + pin_findings(xv.take(k as int), bpv, ev, bv)),
            *problems <= lines@.len(),
        decreases xp@.len() - k,
    {
        let ghost g = f + pin_findings(xv.take(k as int), bpv, ev, bv);
        proof {
            assert(xv.take(k + 1).drop_last() =~= xv.take(k as int));
            assert(xv.take(k + 1).last() == xv[k as int]);
        }
        let pin = &xp[k].0;
        let enet = &xp[k].1;
        let bi = find_key_text(bp, pin.as_str());
        proof { lemma_key_pos(bpv, pin@); }
        if bi >= bp.len() {
            let mut t = pin.clone();
            push_str(&mut t, ": on net ");
            push_str(&mut t, enet.as_str());
            push_str(&mut t, " in the file, on no net on the board");
            let ghost x = (t@, true);
            push_finding(lines, problems, t, true, Ghost(g));
            proof { assert(g.push(x) =~= f + pin_findings(xv.take(k + 1), bpv, ev, bv)); }
        } else {
            let bnet = &bp[bi].1;
            let ei = find_key_list(e, enet.as_str());
            let ni = find_board_net(nets, bnet.as_str());
            proof { lemma_key_pos(ev, enet@); lemma_key_pos(bv, bnet@); }
            let same = if ei < e.len() && ni < nets.len() { same_pins(&e[ei].1, &nets[ni].1.pins) } else { false };
            if !same_str(bnet.as_str(), enet.as_str()) && !same {
                let mut t = pin.clone();
                push_str(&mut t, ": on net ");
                push_str(&mut t, enet.as_str());
                push_str(&mut t, " in the file, on net ");
                push_str(&mut t, bnet.as_str());
                push_str(&mut t, " on the board");
                let ghost x = (t@, true);
                push_finding(lines, problems, t, true, Ghost(g));
                proof { assert(g.push(x) =~= f + pin_findings(xv.take(k + 1), bpv, ev, bv)); }
            } else {
                proof { assert(g =~= f + pin_findings(xv.take(k + 1), bpv, ev, bv)); }
            }
        }
        k += 1;
    }
    proof { assert(xv.take(k as int) =~= xv); }
}

fn board_pin_section(lines: &mut Vec<String>, problems: &mut usize, Ghost(f): Ghost<Seq<Finding>>,
    bp: &Vec<(String, String)>, xp: &Vec<(String, String)>)
    requires
        texts(old(lines)@) == finding_lines(f), *old(problems) == differences(f), *old(problems) <= old(lines)@.len(),
    ensures
        ({
            let g = f + board_pin_findings(text_map(bp@), text_map(xp@));
            texts(final(lines)@) == finding_lines(g) && *final(problems) == differences(g) && *final(problems) <= final(lines)@.len()
        }),
{
    let ghost xv = text_map(xp@);
    let ghost bpv = text_map(bp@);
    let mut k: usize = 0;
    proof { assert(bpv.take(0) =~= Seq::<(Seq<char>, Seq<char>)>::empty()); assert(f + Seq::<Finding>::empty() =~= f); }
    while k < bp.len()
        invariant
            k <= bp@.len(), xv == text_map(xp@), bpv == text_map(bp@),
            texts(lines@) == finding_lines(f + board_pin_findings(bpv.take(k as int), xv)),
            *problems == differences(f + board_pin_findings(bpv.take(k as int), xv)),
            *problems <= lines@.len(),
        decreases bp@.len() - k,
    {
        let ghost g = f + board_pin_findings(bpv.take(k as int), xv);
        proof {
            assert(bpv.take(k + 1).drop_last() =~= bpv.take(k as int));
            assert(bpv.take(k + 1).last() == bpv[k as int]);
        }
        let xi = find_key_text(xp, bp[k].0.as_str());
        if xi >= xp.len() {
            let mut t = bp[k].0.clone();
            push_str(&mut t, ": on net ");
            push_str(&mut t, bp[k].1.as_str());
            push_str(&mut t, " on the board, absent from the file");
            let ghost x = (t@, true);
            push_finding(lines, problems, t, true, Ghost(g));
            proof { assert(g.push(x) =~= f + board_pin_findings(bpv.take(k + 1), xv)); }
        } else {
            proof { assert(g =~= f + board_pin_findings(bpv.take(k + 1), xv)); }
        }
        k += 1;
    }
    proof { assert(bpv.take(k as int) =~= bpv); }
}

fn file_net_section(lines: &mut Vec<String>, problems: &mut usize, Ghost(f): Ghost<Seq<Finding>>,
    e: &Vec<(String, Vec<String>)>, nets: &Vec<(String, Net)>, bp: &Vec<(String, String)>)
    requires
        texts(old(lines)@) == finding_lines(f), *old(problems) == differences(f), *old(problems) <= old(lines)@.len(),
    ensures
        ({
            let g = f + file_net_findings(list_map(e@), board_list(nets_view(nets@)), text_map(bp@));
            texts(final(lines)@) == finding_lines(g) && *final(problems) == differences(g) && *final(problems) <= final(lines)@.len()
        }),
{
    let ghost ev = list_map(e@);
    let ghost bv = board_list(nets_view(nets@));
    let ghost bpv = text_map(bp@);
    let mut k: usize = 0;
    proof { assert(ev.take(0) =~= Seq::<(Seq<char>, Seq<Seq<char>>)>::empty()); assert(f + Seq::<Finding>::empty() =~= f); }
    while k < e.len()
        invariant
            k <= e@.len(), ev == list_map(e@), bv == board_list(nets_view(nets@)), bpv == text_map(bp@),
            texts(lines@) == finding_lines(f + file_net_findings(ev.take(k as int), bv, bpv)),
            *problems == differences(f + file_net_findings(ev.take(k as int), bv, bpv)),
            *problems <= lines@.len(),
        decreases e@.len() - k,
    {
        let ghost g = f + file_net_findings(ev.take(k as int), bv, bpv);
        proof {
            assert(ev.take(k + 1).drop_last() =~= ev.take(k as int));
            assert(ev.take(k + 1).last() == ev[k as int]);
        }
        let net = &e[k].0;
        let pins = &e[k].1;
        let ni = find_board_net(nets, net.as_str());
        if ni >= nets.len() {
            let bi = if pins.len() > 0 { find_key_text(bp, pins[0].as_str()) } else { bp.len() };
            if bi < bp.len() {
                let mut t = "net ".to_owned();
                push_str(&mut t, net.as_str());
                push_str(&mut t, " in the file is called ");
                push_str(&mut t, bp[bi].1.as_str());
                push_str(&mut t, " on the board");
                let ghost x = (t@, false);
                push_finding(lines, problems, t, false, Ghost(g));
                proof { assert(g.push(x) =~= f + file_net_findings(ev.take(k + 1), bv, bpv)); }
            } else {
                let mut t = "net ".to_owned();
                push_str(&mut t, net.as_str());
                push_str(&mut t, " in the file is missing from the board");
                let ghost x = (t@, true);
                push_finding(lines, problems, t, true, Ghost(g));
                proof { assert(g.push(x) =~= f + file_net_findings(ev.take(k + 1), bv, bpv)); }
            }
        } else {
            proof { assert(g =~= f + file_net_findings(ev.take(k + 1), bv, bpv)); }
        }
        k += 1;
    }
    proof { assert(ev.take(k as int) =~= ev); }
}

fn board_net_section(lines: &mut Vec<String>, problems: &mut usize, Ghost(f): Ghost<Seq<Finding>>,
    nets: &Vec<(String, Net)>, e: &Vec<(String, Vec<String>)>, xp: &Vec<(String, String)>)
    requires
        texts(old(lines)@) == finding_lines(f), *old(problems) == differences(f), *old(problems) <= old(lines)@.len(),
    ensures
        ({
            let g = f + board_net_findings(board_list(nets_view(nets@)), list_map(e@), text_map(xp@));
            texts(final(lines)@) == finding_lines(g) && *final(problems) == differences(g) && *final(problems) <= final(lines)@.len()
        }),
{
    let ghost ev = list_map(e@);
    let ghost bv = board_list(nets_view(nets@));
    let ghost xv = text_map(xp@);
    let mut k: usize = 0;
    proof { assert(bv.take(0) =~= Seq::<(Seq<char>, Seq<Seq<char>>)>::empty()); assert(f + Seq::<Finding>::empty() =~= f); }
    while k < nets.len()
        invariant
            k <= nets@.len(), ev == list_map(e@), bv == board_list(nets_view(nets@)), xv == text_map(xp@),
            texts(lines@) == finding_lines(f + board_net_findings(bv.take(k as int), ev, xv)),
            *problems == differences(f + board_net_findings(bv.take(k as int), ev, xv)),
            *problems <= lines@.len(),
        decreases nets@.len() - k,
    {
        let ghost g = f + board_net_findings(bv.take(k as int), ev, xv);
        proof {
            assert(bv.take(k + 1).drop_last() =~= bv.take(k as int));
            assert(bv.take(k + 1).last() == bv[k as int]);
        }
        let name = &nets[k].0;
        let pins = &nets[k].1.pins;
        let ghost tp = texts(pins@);
        let ei = find_key_list(e, name.as_str());
        let mut any = false;
        let mut j: usize = 0;
        while j < pins.len() && !any
            invariant
                j <= pins@.len(), tp == texts(pins@), xv == text_map(xp@),
                any == exists|i: int| 0 <= i < j && #[trigger] get(xv, tp[i]) is Some,
            decreases pins@.len() - j,
        {
            let xi = find_key_text(xp, pins[j].as_str());
            if xi < xp.len() {
                any = true;
                proof { assert(get(xv, tp[j as int]) is Some); }
            }
            j += 1;
        }
        proof {
            assert(bv[k as int].1 == tp);
            if !any {
                assert(j == pins@.len());
            }
        }
        if ei >= e.len() && !any {
            let mut t = "net ".to_owned();
            push_str(&mut t, name.as_str());
            push_str(&mut t, " is on the board only");
            let ghost x = (t@, true);
            push_finding(lines, problems, t, true, Ghost(g));
            proof { assert(g.push(x) =~= f + board_net_findings(bv.take(k + 1), ev, xv)); }
        } else {
            proof { assert(g =~= f + board_net_findings(bv.take(k + 1), ev, xv)); }
        }
        k += 1;
    }
    proof { assert(bv.take(k as int) =~= bv); }
}

/// Compares the board's nets with an external netlist: the report lines,
/// in order, and how many of them are differences.
pub fn compare_netlists(external: &Vec<(String, Vec<String>)>, nets: &Vec<(String, Net)>) -> (r: (Vec<String>, usize))
    ensures
        texts(r.0@) == finding_lines(compare_findings(list_map(external@), nets_view(nets@))),
        r.1 == differences(compare_findings(list_map(external@), nets_view(nets@))),
{
    let xp = file_pin_map(external);
    let bp = board_pin_map(nets);
    let mut lines: Vec<String> = Vec::new();
    let mut problems: usize = 0;
    let ghost ev = list_map(external@);
    let ghost bv = board_list(nets_view(nets@));
    let ghost xv = pin_map(ev);
    let ghost bpv = pin_map(bv);
    proof { assert(texts(lines@) =~= finding_lines(Seq::<Finding>::empty())); }
    let ghost f0 = Seq::<Finding>::empty();
    pin_section(&mut lines, &mut problems, Ghost(f0), &xp, &bp, external, nets);
    let ghost f1 = f0 + pin_findings(xv, bpv, ev, bv);
    board_pin_section(&mut lines, &mut problems, Ghost(f1), &bp, &xp);
    let ghost f2 = f1 + board_pin_findings(bpv, xv);
    file_net_section(&mut lines, &mut problems, Ghost(f2), external, nets, &bp);
    let ghost f3 = f2 + file_net_findings(ev, bv, bpv);
    board_net_section(&mut lines, &mut problems, Ghost(f3), nets, external, &xp);
    proof {
        assert(f3 + board_net_findings(bv, ev, xv) =~= compare_findings(ev, nets_view(nets@)));
    }
    (lines, problems)
}

} // verus!
