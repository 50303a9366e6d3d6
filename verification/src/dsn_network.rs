//! The network section of a Specctra design file: each net with its pins,
//! then each net class (in the order its first net appears) with its nets,
//! its via and its width and clearance.

use vstd::prelude::*;
use crate::units::Length;
use crate::schema::NetClass;
use crate::sexpr::{quote, quoted_token};
use crate::emit::{um, um_text, via_name, via_text};
use crate::text::{push_str, same_str, join_text, join_strings};
use crate::template::position_of;
use crate::wiring::{class_names, class_width, width_of_class};
use crate::route_plan::{class_clearance, clearance_of_class};

verus! {

/// A net as the network section lists it: its name, its pins as the
/// router names them (`R1-2`, `HOLE3-1`) and its class.
pub struct DsnNet {
    pub name: String,
    pub pins: Vec<String>,
    pub class: Option<String>,
}

/// The class a net is grouped under: its own, or `default`.
pub open spec fn class_key(c: Option<String>) -> Seq<char> {
    match c {
        Some(x) => x@,
        None => "default"@,
    }
}

/// The line of a net with pins.
pub open spec fn net_line(n: DsnNet) -> Seq<char> {
    "    (net "@ + quoted_token(n.name@) + " (pins "@
        + join_text(n.pins@.map_values(|p: String| quoted_token(p@)), " "@) + "))\n"@
}

/// The lines of the nets among the first `k` that have pins.
pub open spec fn net_lines(nets: Seq<DsnNet>, k: int) -> Seq<char>
    decreases k,
{
    if k <= 0 {
        Seq::empty()
    } else {
        net_lines(nets, k - 1) + (if nets[k - 1].pins@.len() > 0 { net_line(nets[k - 1]) } else { Seq::empty() })
    }
}

/// Where class `key` stands among `keys`, or `keys.len()`.
pub open spec fn key_index(keys: Seq<Seq<char>>, key: Seq<char>) -> int {
    position_of(keys, key)
}

/// The classes of the nets with pins among the first `k`, each once, in
/// the order their first net appears, each with its nets' quoted names.
pub open spec fn class_groups(nets: Seq<DsnNet>, k: int) -> Seq<(Seq<char>, Seq<Seq<char>>)>
    decreases k,
{
    if k <= 0 {
        Seq::empty()
    } else {
        let g = class_groups(nets, k - 1);
        let n = nets[k - 1];
        if n.pins@.len() == 0 {
            g
        } else {
            let key = class_key(n.class);
            let i = key_index(g.map_values(|e: (Seq<char>, Seq<Seq<char>>)| e.0), key);
            if i < g.len() { g.update(i, (key, g[i].1.push(quoted_token(n.name@)))) } else { g.push((key, seq![quoted_token(n.name@)])) }
        }
    }
}

/// The via of a class: the class's own sizes where it sets them, else the
/// defaults; the defaults for a class not defined.
pub open spec fn class_via(classes: Seq<(String, NetClass)>, key: Seq<char>, d: Length, h: Length) -> (Length, Length) {
    let i = position_of(class_names(classes), key);
    if i < classes.len() {
        (match classes[i].1.via_diameter { Some(v) => v, None => d }, match classes[i].1.via_drill { Some(v) => v, None => h })
    } else {
        (d, h)
    }
}

/// The class a key looks up for width and clearance: none for `default`.
pub open spec fn lookup_key(key: Seq<char>) -> Option<Seq<char>> {
    if key == "default"@ { None } else { Some(key) }
}

/// The block of one class.
pub open spec fn class_block(key: Seq<char>, members: Seq<Seq<char>>, classes: Seq<(String, NetClass)>,
    width: Length, clearance: Length, via_d: Length, via_h: Length, n: int) -> Seq<char> {
    let (vd, vh) = class_via(classes, key, via_d, via_h);
    "    (class "@ + quoted_token(key) + " "@ + join_text(members, " "@)
        + "\n      (circuit (use_via "@ + quoted_token(via_text(vd.0 as int, vh.0 as int, n)) + "))"@
        + "\n      (rule (width "@ + um_text(class_width(classes, lookup_key(key), width).0 as int)
        + ") (clearance "@ + um_text(class_clearance(classes, lookup_key(key), clearance).0 as int) + "))\n    )\n"@
}

/// The blocks of the first `k` class groups.
pub open spec fn class_blocks(g: Seq<(Seq<char>, Seq<Seq<char>>)>, classes: Seq<(String, NetClass)>,
    width: Length, clearance: Length, via_d: Length, via_h: Length, n: int, k: int) -> Seq<char>
    decreases k,
{
    if k <= 0 {
        Seq::empty()
    } else {
        class_blocks(g, classes, width, clearance, via_d, via_h, n, k - 1)
            + class_block(g[k - 1].0, g[k - 1].1, classes, width, clearance, via_d, via_h, n)
    }
}

/// The whole network section.
pub open spec fn network_text(nets: Seq<DsnNet>, classes: Seq<(String, NetClass)>,
    width: Length, clearance: Length, via_d: Length, via_h: Length, n: int) -> Seq<char> {
    let g = class_groups(nets, nets.len() as int);
    "  (network\n"@ + net_lines(nets, nets.len() as int)
        + class_blocks(g, classes, width, clearance, via_d, via_h, n, g.len() as int) + "  )\n"@
}

fn key_of(c: &Option<String>) -> (r: String)
    ensures r@ == class_key(*c),
{
    match c {
        Some(x) => x.clone(),
        None => String::from_str("default"),
    }
}

fn via_of_class(classes: &Vec<(String, NetClass)>, key: &String, d: Length, h: Length) -> (r: (Length, Length))
    ensures r == class_via(classes@, key@, d, h),
{
    let ghost names = class_names(classes@);
    let mut i: usize = 0;
    while i < classes.len()
        invariant i <= classes@.len(), names == class_names(classes@), forall|j: int| 0 <= j < i ==> names[j] != key@,
        decreases classes@.len() - i,
    {
        proof { assert(names[i as int] == classes@[i as int].0@); }
        if same_str(classes[i].0.as_str(), key.as_str()) {
            proof { crate::template::lemma_position(names, key@, i as int); }
            let c = &classes[i].1;
            return (match c.via_diameter { Some(v) => v, None => d }, match c.via_drill { Some(v) => v, None => h });
        }
        i += 1;
    }
    proof { assert(names.len() == classes@.len()); crate::template::lemma_position(names, key@, i as int); }
    (d, h)
}

fn quoted_all(v: &Vec<String>) -> (r: Vec<String>)
    ensures r@.map_values(|s: String| s@) == v@.map_values(|p: String| quoted_token(p@)),
{
    let mut r: Vec<String> = Vec::new();
    let mut i: usize = 0;
    while i < v.len()
        invariant i <= v@.len(), r@.map_values(|s: String| s@) == v@.take(i as int).map_values(|p: String| quoted_token(p@)),
        decreases v@.len() - i,
    {
        let ghost b = r@;
        r.push(quote(v[i].as_str()));
        proof {
            assert(r@.map_values(|s: String| s@) =~= b.map_values(|s: String| s@).push(quoted_token(v@[i as int]@)));
            assert(v@.take(i + 1).map_values(|p: String| quoted_token(p@)) =~= v@.take(i as int).map_values(|p: String| quoted_token(p@)).push(quoted_token(v@[i as int]@)));
        }
        i += 1;
    }
    proof { assert(v@.take(v@.len() as int) =~= v@); }
    r
}

fn net_text(n: &DsnNet) -> (r: String)
    ensures r@ == net_line(*n),
{
    let mut s = String::new();
    push_str(&mut s, "    (net ");
    push_str(&mut s, &quote(n.name.as_str()));
    push_str(&mut s, " (pins ");
    let q = quoted_all(&n.pins);
    push_str(&mut s, &join_strings(&q, " "));
    push_str(&mut s, "))\n");
    s
}

/// The view of the class groups built so far.
pub open spec fn groups_seen(keys: Seq<String>, members: Seq<Vec<String>>) -> Seq<(Seq<char>, Seq<Seq<char>>)> {
    Seq::new(keys.len(), |i: int| (keys[i]@, members[i]@.map_values(|s: String| s@)))
}

fn find_key(keys: &Vec<String>, key: &String) -> (r: usize)
    ensures
        r as int == position_of(keys@.map_values(|s: String| s@), key@), r <= keys@.len(),
        r < keys@.len() ==> keys@[r as int]@ == key@,
{
    let ghost names = keys@.map_values(|s: String| s@);
    let mut i: usize = 0;
    while i < keys.len()
        invariant i <= keys@.len(), names == keys@.map_values(|s: String| s@), forall|j: int| 0 <= j < i ==> names[j] != key@,
        decreases keys@.len() - i,
    {
        if same_str(keys[i].as_str(), key.as_str()) {
            proof { crate::template::lemma_position(names, key@, i as int); }
            return i;
        }
        i += 1;
    }
    proof { crate::template::lemma_position(names, key@, i as int); }
    i
}

fn pushed(v: &Vec<String>, x: String) -> (r: Vec<String>)
    ensures r@.map_values(|s: String| s@) == v@.map_values(|s: String| s@).push(x@),
{
    let mut r: Vec<String> = Vec::new();
    let mut i: usize = 0;
    while i < v.len()
        invariant i <= v@.len(), r@.map_values(|s: String| s@) == v@.take(i as int).map_values(|s: String| s@),
        decreases v@.len() - i,
    {
        let ghost b = r@;
        r.push(v[i].clone());
        proof {
            assert(r@.map_values(|s: String| s@) =~= b.map_values(|s: String| s@).push(v@[i as int]@));
            assert(v@.take(i + 1).map_values(|s: String| s@) =~= v@.take(i as int).map_values(|s: String| s@).push(v@[i as int]@));
        }
        i += 1;
    }
    proof { assert(v@.take(v@.len() as int) =~= v@); }
    let ghost b = r@;
    r.push(x);
    proof { assert(r@.map_values(|s: String| s@) =~= b.map_values(|s: String| s@).push(x@)); }
    r
}

fn class_text(key: &String, members: &Vec<String>, classes: &Vec<(String, NetClass)>,
    width: Length, clearance: Length, via_d: Length, via_h: Length, n: usize) -> (r: String)
    ensures r@ == class_block(key@, members@.map_values(|s: String| s@), classes@, width, clearance, via_d, via_h, n as int),
{
    let (vd, vh) = via_of_class(classes, key, via_d, via_h);
    let look: Option<String> = if same_str(key.as_str(), "default") { None } else { Some(key.clone()) };
    proof { assert(crate::edit::net_view(look) == lookup_key(key@)); }
    let w = width_of_class(classes, &look, width);
    let c = clearance_of_class(classes, &look, clearance);
    let mut s = String::new();
    push_str(&mut s, "    (class ");
    push_str(&mut s, &quote(key.as_str()));
    push_str(&mut s, " ");
    push_str(&mut s, &join_strings(members, " "));
    push_str(&mut s, "\n      (circuit (use_via ");
    let vn = via_name(vd, vh, n);
    push_str(&mut s, &quote(vn.as_str()));
    push_str(&mut s, "))");
    push_str(&mut s, "\n      (rule (width ");
    push_str(&mut s, &um(w));
    push_str(&mut s, ") (clearance ");
    push_str(&mut s, &um(c));
    push_str(&mut s, "))\n    )\n");
    s
}

/// The network section: the nets with pins, then the classes of those
/// nets with their nets, via, width and clearance (`default` for nets
/// without a class, which take the default width and clearance).
pub fn dsn_network(nets: &Vec<DsnNet>, classes: &Vec<(String, NetClass)>,
    width: Length, clearance: Length, via_d: Length, via_h: Length, n_layers: usize) -> (r: String)
    ensures r@ == network_text(nets@, classes@, width, clearance, via_d, via_h, n_layers as int),
{
    let mut s = String::new();
    push_str(&mut s, "  (network\n");
    let ghost head = s@;
    let mut keys: Vec<String> = Vec::new();
    let mut members: Vec<Vec<String>> = Vec::new();
    let mut i: usize = 0;
    while i < nets.len()
        invariant
            i <= nets@.len(), keys@.len() == members@.len(),
            s@ == head + net_lines(nets@, i as int),
            groups_seen(keys@, members@) == class_groups(nets@, i as int),
        decreases nets@.len() - i,
    {
        let nt = &nets[i];
        if nt.pins.len() > 0 {
            let line = net_text(nt);
            push_str(&mut s, &line);
            let key = key_of(&nt.class);
            let at = find_key(&keys, &key);
            let ghost g = groups_seen(keys@, members@);
            proof { assert(keys@.map_values(|s: String| s@) =~= g.map_values(|e: (Seq<char>, Seq<Seq<char>>)| e.0)); }
            let qn = quote(nt.name.as_str());
            let ghost om = members@;
            let ghost ok = keys@;
            if at < keys.len() {
                let nm = pushed(&members[at], qn);
                members.set(at, nm);
                proof {
                    let want = g.update(at as int, (key@, g[at as int].1.push(quoted_token(nt.name@))));
                    assert forall|j: int| 0 <= j < keys@.len() implies #[trigger] groups_seen(keys@, members@)[j] == want[j] by {
                        if j == at as int {
                            assert(g[j].1 == om[j]@.map_values(|s: String| s@));
                        } else {
                            assert(members@[j] == om[j]);
                        }
                    }
                    assert(groups_seen(keys@, members@) =~= want);
                }
            } else {
                keys.push(key);
                let mut one: Vec<String> = Vec::new();
                one.push(qn);
                members.push(one);
                proof {
                    let want = g.push((key@, seq![quoted_token(nt.name@)]));
                    assert forall|j: int| 0 <= j < keys@.len() implies #[trigger] groups_seen(keys@, members@)[j] == want[j] by {
                        if j < ok.len() {
                            assert(members@[j] == om[j]);
                            assert(keys@[j] == ok[j]);
                        } else {
                            assert(members@[j]@.map_values(|s: String| s@) =~= seq![quoted_token(nt.name@)]);
                        }
                    }
                    assert(groups_seen(keys@, members@) =~= want);
                }
            }
        }
        i += 1;
    }
    let ghost g = groups_seen(keys@, members@);
    let ghost mid = s@;
    let mut k: usize = 0;
    while k < keys.len()
        invariant
            k <= keys@.len(), keys@.len() == members@.len(), g == groups_seen(keys@, members@),
            s@ == mid + class_blocks(g, classes@, width, clearance, via_d, via_h, n_layers as int, k as int),
        decreases keys@.len() - k,
    {
        let block = class_text(&keys[k], &members[k], classes, width, clearance, via_d, via_h, n_layers);
        push_str(&mut s, &block);
        k += 1;
    }
    push_str(&mut s, "  )\n");
    s
}

} // verus!
