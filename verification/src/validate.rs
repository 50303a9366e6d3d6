//! Checking a whole project before it is saved or built: a copper stack,
//! pins that are written right and in one net each, defined net classes,
//! and holes, traces, vias and pours on known layers and nets. The first
//! problem found, in that order, is reported.

use vstd::prelude::*;
use crate::units::point_text;
use crate::schema::{Net, Hole, Trace, Via, Pour};
use crate::canon::texts;
use crate::edit::net_view;
use crate::error::{Error, list_names, names_text};
use crate::text::{same_str, push_str};
use crate::model::{pin_ref_parts, parse_pin_ref};
use crate::netlist::{nets_view, names_of, NetView};
use crate::template::position_of;

verus! {

/// A problem: its message and its hint.
pub type Problem = (Seq<char>, Option<Seq<char>>);

pub open spec fn problem_view(o: Option<(String, Option<String>)>) -> Option<Problem> {
    match o { Some((m, h)) => Some((m@, net_view(h))), None => None }
}

/// The pins of the nets, each with its net's name, in order.
pub open spec fn flat_pins(nv: Seq<NetView>) -> Seq<(Seq<char>, Seq<char>)>
    decreases nv.len(),
{
    if nv.len() == 0 {
        Seq::empty()
    } else {
        flat_pins(nv.drop_last()) + nv.last().1.map_values(|p: Seq<char>| (p, nv.last().0))
    }
}

/// The first pin, from number `k` on, that is not a pin reference or was
/// listed before.
pub open spec fn pin_problem(flat: Seq<(Seq<char>, Seq<char>)>, k: int) -> Option<Problem>
    decreases flat.len() - k,
{
    if k < 0 || k >= flat.len() {
        None
    } else {
        let (p, net) = flat[k];
        let earlier = flat.take(k).map_values(|e: (Seq<char>, Seq<char>)| e.0);
        let j = position_of(earlier, p);
        if pin_ref_parts(p) is None {
            Some(("`"@ + p + "` is not a pin reference"@, Some("pins are written `<instance>.<pin>`, e.g. `R1.1` or `U1.VCC`"@)))
        } else if j < k {
            Some(("pin `"@ + p + "` is listed in both net `"@ + flat[j].1 + "` and net `"@ + net + "`"@, None))
        } else {
            pin_problem(flat, k + 1)
        }
    }
}

/// The first net, from number `k` on, whose class is not defined.
pub open spec fn class_problem(nv: Seq<NetView>, classes: Seq<Seq<char>>, k: int) -> Option<Problem>
    decreases nv.len() - k,
{
    if k < 0 || k >= nv.len() {
        None
    } else {
        match nv[k].2 {
            Some(c) => if !classes.contains(c) {
                Some(("net `"@ + nv[k].0 + "` has class `"@ + c + "` but no such class is defined in design_rules.net_classes"@,
                    Some("add it with `pcb rules class "@ + c + " --width ... --clearance ...`"@)))
            } else {
                class_problem(nv, classes, k + 1)
            },
            None => class_problem(nv, classes, k + 1),
        }
    }
}

/// The problem of a feature on `layer` that the stack lacks.
pub open spec fn layer_problem(layers: Seq<Seq<char>>, layer: Seq<char>, what: Seq<char>) -> Option<Problem> {
    if layers.contains(layer) {
        None
    } else {
        Some((what + " is on layer `"@ + layer + "` but the stackup only has "@ + names_text(layers), None))
    }
}

/// The first hole, from number `k` on, with an unknown net or a net but no
/// plating.
pub open spec fn hole_problem(holes: Seq<Hole>, names: Seq<Seq<char>>, k: int) -> Option<Problem>
    decreases holes.len() - k,
{
    if k < 0 || k >= holes.len() {
        None
    } else {
        let h = holes[k];
        match h.net {
            Some(n) => if !names.contains(n@) {
                Some(("hole at "@ + point_text(h.at) + " references unknown net `"@ + n@ + "`"@, None))
            } else if !h.plated {
                Some(("hole at "@ + point_text(h.at) + " has a net but is not plated"@, None))
            } else {
                hole_problem(holes, names, k + 1)
            },
            None => hole_problem(holes, names, k + 1),
        }
    }
}

/// The first trace, from number `k` on, off the stack, on an unknown net,
/// or of fewer than two points.
pub open spec fn trace_problem(traces: Seq<Trace>, layers: Seq<Seq<char>>, names: Seq<Seq<char>>, k: int) -> Option<Problem>
    decreases traces.len() - k,
{
    if k < 0 || k >= traces.len() {
        None
    } else {
        let t = traces[k];
        if layer_problem(layers, t.layer@, "trace"@) is Some {
            layer_problem(layers, t.layer@, "trace"@)
        } else if t.net is Some && !names.contains(t.net->0@) {
            Some(("trace on `"@ + t.layer@ + "` references unknown net `"@ + t.net->0@ + "`"@, None))
        } else if t.points@.len() < 2 {
            Some(("a trace on `"@ + t.layer@ + "` has fewer than 2 points"@, None))
        } else {
            trace_problem(traces, layers, names, k + 1)
        }
    }
}

/// The first of `ls`, from number `k` on, that the stack lacks.
pub open spec fn layers_problem(layers: Seq<Seq<char>>, ls: Seq<Seq<char>>, what: Seq<char>, k: int) -> Option<Problem>
    decreases ls.len() - k,
{
    if k < 0 || k >= ls.len() {
        None
    } else if layer_problem(layers, ls[k], what) is Some {
        layer_problem(layers, ls[k], what)
    } else {
        layers_problem(layers, ls, what, k + 1)
    }
}

/// The first via, from number `k` on, spanning a layer off the stack or on
/// an unknown net.
pub open spec fn via_problem(vias: Seq<Via>, layers: Seq<Seq<char>>, names: Seq<Seq<char>>, k: int) -> Option<Problem>
    decreases vias.len() - k,
{
    if k < 0 || k >= vias.len() {
        None
    } else {
        let v = vias[k];
        if layers_problem(layers, texts(v.layers@), "via"@, 0) is Some {
            layers_problem(layers, texts(v.layers@), "via"@, 0)
        } else if v.net is Some && !names.contains(v.net->0@) {
            Some(("via at "@ + point_text(v.at) + " references unknown net `"@ + v.net->0@ + "`"@, None))
        } else {
            via_problem(vias, layers, names, k + 1)
        }
    }
}

/// The first pour, from number `k` on, off the stack or on an unknown net.
pub open spec fn pour_problem(pours: Seq<Pour>, layers: Seq<Seq<char>>, names: Seq<Seq<char>>, k: int) -> Option<Problem>
    decreases pours.len() - k,
{
    if k < 0 || k >= pours.len() {
        None
    } else {
        let p = pours[k];
        let what = "pour `"@ + p.name@ + "`"@;
        if layer_problem(layers, p.layer@, what) is Some {
            layer_problem(layers, p.layer@, what)
        } else if p.net is Some && !names.contains(p.net->0@) {
            Some(("pour `"@ + p.name@ + "` references unknown net `"@ + p.net->0@ + "`"@, None))
        } else {
            pour_problem(pours, layers, names, k + 1)
        }
    }
}

/// The first problem of the project, checked in this order: the stack,
/// the pins, the classes, the holes, the traces, the vias, the pours.
pub open spec fn project_problem(layers: Seq<Seq<char>>, nv: Seq<NetView>, classes: Seq<Seq<char>>, holes: Seq<Hole>,
    traces: Seq<Trace>, vias: Seq<Via>, pours: Seq<Pour>) -> Option<Problem> {
    let names = names_of(nv);
    if layers.len() == 0 {
        Some(("the stackup has no copper layers"@,
            Some("set `stackup.copper_layers` in pcb.json, e.g. [\"F.Cu\", \"B.Cu\"] or [\"B.Cu\"] for a single-sided board"@)))
    } else if pin_problem(flat_pins(nv), 0) is Some {
        pin_problem(flat_pins(nv), 0)
    } else if class_problem(nv, classes, 0) is Some {
        class_problem(nv, classes, 0)
    } else if hole_problem(holes, names, 0) is Some {
        hole_problem(holes, names, 0)
    } else if trace_problem(traces, layers, names, 0) is Some {
        trace_problem(traces, layers, names, 0)
    } else if via_problem(vias, layers, names, 0) is Some {
        via_problem(vias, layers, names, 0)
    } else {
        pour_problem(pours, layers, names, 0)
    }
}

/// A project with a via on a net it does not define is refused: whatever
/// else it holds, validating it reports a problem (so `validate_project`
/// returns an error).
pub proof fn lemma_unknown_via_net_refused(layers: Seq<Seq<char>>, nv: Seq<NetView>, classes: Seq<Seq<char>>,
    holes: Seq<Hole>, traces: Seq<Trace>, vias: Seq<Via>, pours: Seq<Pour>, k: int)
    requires
        0 <= k < vias.len(),
        vias[k].net is Some,
        !names_of(nv).contains(vias[k].net->0@),
    ensures project_problem(layers, nv, classes, holes, traces, vias, pours) is Some,
{
    lemma_via_problem_reaches(vias, layers, names_of(nv), 0, k);
}

proof fn lemma_via_problem_reaches(vias: Seq<Via>, layers: Seq<Seq<char>>, names: Seq<Seq<char>>, j: int, k: int)
    requires 0 <= j <= k < vias.len(), vias[k].net is Some, !names.contains(vias[k].net->0@),
    ensures via_problem(vias, layers, names, j) is Some,
    decreases k - j,
{
    if j < k {
        lemma_via_problem_reaches(vias, layers, names, j + 1, k);
    }
}

/// A project that validates is consistent: it has copper layers; every
/// pin is a pin reference listed in one net only; every net's class is
/// defined; every hole with a net names a known net and is plated; every
/// trace lies on a layer of the stack, names a known net (if any) and has
/// two points or more; every via spans only layers of the stack and names
/// a known net (if any); every pour lies on a layer of the stack and names
/// a known net (if any).
pub proof fn lemma_valid_project(layers: Seq<Seq<char>>, nv: Seq<NetView>, classes: Seq<Seq<char>>,
    holes: Seq<Hole>, traces: Seq<Trace>, vias: Seq<Via>, pours: Seq<Pour>)
    requires project_problem(layers, nv, classes, holes, traces, vias, pours) is None,
    ensures ({
        let names = names_of(nv);
        let flat = flat_pins(nv);
        &&& layers.len() > 0
        &&& forall|k: int| 0 <= k < flat.len() ==> pin_ref_parts((#[trigger] flat[k]).0) is Some
        &&& forall|j: int, k: int| 0 <= j < k < flat.len() ==> (#[trigger] flat[j]).0 != (#[trigger] flat[k]).0
        &&& forall|k: int| 0 <= k < nv.len() && (#[trigger] nv[k]).2 is Some ==> classes.contains(nv[k].2->0)
        &&& forall|k: int| 0 <= k < holes.len() && (#[trigger] holes[k]).net is Some
            ==> names.contains(holes[k].net->0@) && holes[k].plated
        &&& forall|k: int| 0 <= k < traces.len() ==> layers.contains((#[trigger] traces[k]).layer@)
            && (traces[k].net is Some ==> names.contains(traces[k].net->0@)) && traces[k].points@.len() >= 2
        &&& forall|k: int, i: int| 0 <= k < vias.len() && 0 <= i < (#[trigger] vias[k]).layers@.len()
            ==> layers.contains(#[trigger] vias[k].layers@[i]@)
        &&& forall|k: int| 0 <= k < vias.len() && (#[trigger] vias[k]).net is Some ==> names.contains(vias[k].net->0@)
        &&& forall|k: int| 0 <= k < pours.len() ==> layers.contains((#[trigger] pours[k]).layer@)
            && (pours[k].net is Some ==> names.contains(pours[k].net->0@))
    }),
{
    let names = names_of(nv);
    lemma_no_pin_problem(flat_pins(nv), 0);
    lemma_no_class_problem(nv, classes, 0);
    lemma_no_hole_problem(holes, names, 0);
    lemma_no_trace_problem(traces, layers, names, 0);
    lemma_no_via_problem(vias, layers, names, 0);
    lemma_no_pour_problem(pours, layers, names, 0);
}

proof fn lemma_no_pin_problem(flat: Seq<(Seq<char>, Seq<char>)>, j: int)
    requires 0 <= j, pin_problem(flat, j) is None,
    ensures
        forall|k: int| j <= k < flat.len() ==> pin_ref_parts((#[trigger] flat[k]).0) is Some,
        forall|i: int, k: int| 0 <= i < k && j <= k < flat.len() ==> (#[trigger] flat[i]).0 != (#[trigger] flat[k]).0,
    decreases flat.len() - j,
{
    if j < flat.len() {
        lemma_no_pin_problem(flat, j + 1);
        let earlier = flat.take(j).map_values(|e: (Seq<char>, Seq<char>)| e.0);
        crate::template::lemma_position_found(earlier, flat[j].0);
        assert forall|i: int| 0 <= i < j implies flat[i].0 != flat[j].0 by {
            assert(earlier[i] == flat[i].0);
        }
    }
}

proof fn lemma_no_class_problem(nv: Seq<NetView>, classes: Seq<Seq<char>>, j: int)
    requires 0 <= j, class_problem(nv, classes, j) is None,
    ensures forall|k: int| j <= k < nv.len() && (#[trigger] nv[k]).2 is Some ==> classes.contains(nv[k].2->0),
    decreases nv.len() - j,
{
    if j < nv.len() {
        lemma_no_class_problem(nv, classes, j + 1);
    }
}

proof fn lemma_no_hole_problem(holes: Seq<Hole>, names: Seq<Seq<char>>, j: int)
    requires 0 <= j, hole_problem(holes, names, j) is None,
    ensures forall|k: int| j <= k < holes.len() && (#[trigger] holes[k]).net is Some
        ==> names.contains(holes[k].net->0@) && holes[k].plated,
    decreases holes.len() - j,
{
    if j < holes.len() {
        lemma_no_hole_problem(holes, names, j + 1);
    }
}

proof fn lemma_no_trace_problem(traces: Seq<Trace>, layers: Seq<Seq<char>>, names: Seq<Seq<char>>, j: int)
    requires 0 <= j, trace_problem(traces, layers, names, j) is None,
    ensures forall|k: int| j <= k < traces.len() ==> layers.contains((#[trigger] traces[k]).layer@)
        && (traces[k].net is Some ==> names.contains(traces[k].net->0@)) && traces[k].points@.len() >= 2,
    decreases traces.len() - j,
{
    if j < traces.len() {
        lemma_no_trace_problem(traces, layers, names, j + 1);
    }
}

proof fn lemma_no_layers_problem(layers: Seq<Seq<char>>, ls: Seq<Seq<char>>, what: Seq<char>, j: int)
    requires 0 <= j, layers_problem(layers, ls, what, j) is None,
    ensures forall|i: int| j <= i < ls.len() ==> layers.contains(#[trigger] ls[i]),
    decreases ls.len() - j,
{
    if j < ls.len() {
        lemma_no_layers_problem(layers, ls, what, j + 1);
    }
}

proof fn lemma_no_via_problem(vias: Seq<Via>, layers: Seq<Seq<char>>, names: Seq<Seq<char>>, j: int)
    requires 0 <= j, via_problem(vias, layers, names, j) is None,
    ensures
        forall|k: int, i: int| j <= k < vias.len() && 0 <= i < (#[trigger] vias[k]).layers@.len()
            ==> layers.contains(#[trigger] vias[k].layers@[i]@),
        forall|k: int| j <= k < vias.len() && (#[trigger] vias[k]).net is Some ==> names.contains(vias[k].net->0@),
    decreases vias.len() - j,
{
    if j < vias.len() {
        lemma_no_via_problem(vias, layers, names, j + 1);
        let ls = texts(vias[j].layers@);
        lemma_no_layers_problem(layers, ls, "via"@, 0);
        assert forall|i: int| 0 <= i < vias[j].layers@.len() implies layers.contains(#[trigger] vias[j].layers@[i]@) by {
            assert(ls[i] == vias[j].layers@[i]@);
        }
    }
}

proof fn lemma_no_pour_problem(pours: Seq<Pour>, layers: Seq<Seq<char>>, names: Seq<Seq<char>>, j: int)
    requires 0 <= j, pour_problem(pours, layers, names, j) is None,
    ensures forall|k: int| j <= k < pours.len() ==> layers.contains((#[trigger] pours[k]).layer@)
        && (pours[k].net is Some ==> names.contains(pours[k].net->0@)),
    decreases pours.len() - j,
{
    if j < pours.len() {
        lemma_no_pour_problem(pours, layers, names, j + 1);
    }
}

/// Whether `v` holds the text `x`.
fn has_text(v: &Vec<String>, x: &str) -> (r: bool)
    ensures r == texts(v@).contains(x@),
{
    let mut i: usize = 0;
    while i < v.len()
        invariant i <= v@.len(), forall|j: int| 0 <= j < i ==> v@[j]@ != x@,
        decreases v@.len() - i,
    {
        if same_str(v[i].as_str(), x) {
            proof { assert(texts(v@)[i as int] == x@); }
            return true;
        }
        i += 1;
    }
    proof {
        if texts(v@).contains(x@) {
            let j = choose|j: int| 0 <= j < texts(v@).len() && texts(v@)[j] == x@;
            assert(v@[j]@ == x@);
        }
    }
    false
}

fn msg(m: String) -> (r: Option<(String, Option<String>)>)
    ensures problem_view(r) == Some((m@, None::<Seq<char>>)),
{
    Some((m, None))
}

fn layer_check(layers: &Vec<String>, layer: &str, what: &str) -> (r: Option<(String, Option<String>)>)
    ensures problem_view(r) == layer_problem(texts(layers@), layer@, what@),
{
    if has_text(layers, layer) {
        return None;
    }
    let mut m = String::new();
    push_str(&mut m, what);
    push_str(&mut m, " is on layer `");
    push_str(&mut m, layer);
    push_str(&mut m, "` but the stackup only has ");
    push_str(&mut m, list_names(layers).as_str());
    proof { assert(layers@.map_values(|s: String| s@) =~= texts(layers@)); }
    msg(m)
}

fn flat_pin_list(nets: &Vec<(String, Net)>) -> (r: Vec<(String, String)>)
    ensures r@.map_values(|e: (String, String)| (e.0@, e.1@)) == flat_pins(nets_view(nets@)),
{
    let ghost nv = nets_view(nets@);
    let mut r: Vec<(String, String)> = Vec::new();
    let mut i: usize = 0;
    while i < nets.len()
        invariant i <= nets@.len(), nv == nets_view(nets@),
            r@.map_values(|e: (String, String)| (e.0@, e.1@)) == flat_pins(nv.take(i as int)),
        decreases nets@.len() - i,
    {
        proof {
            assert(nv.take(i + 1).drop_last() =~= nv.take(i as int));
            assert(nv.take(i + 1).last() == nv[i as int]);
        }
        let ghost base = r@.map_values(|e: (String, String)| (e.0@, e.1@));
        let pins = &nets[i].1.pins;
        let mut j: usize = 0;
        while j < pins.len()
            invariant j <= pins@.len(), pins == nets@[i as int].1.pins, nv == nets_view(nets@), i < nets@.len(),
                r@.map_values(|e: (String, String)| (e.0@, e.1@)) == base + texts(pins@).take(j as int).map_values(|p: Seq<char>| (p, nets@[i as int].0@)),
            decreases pins@.len() - j,
        {
            let ghost before = r@.map_values(|e: (String, String)| (e.0@, e.1@));
            r.push((pins[j].clone(), nets[i].0.clone()));
            proof {
                assert(r@.map_values(|e: (String, String)| (e.0@, e.1@)) =~= before.push((pins@[j as int]@, nets@[i as int].0@)));
                assert(texts(pins@).take(j + 1).map_values(|p: Seq<char>| (p, nets@[i as int].0@))
                    =~= texts(pins@).take(j as int).map_values(|p: Seq<char>| (p, nets@[i as int].0@)).push((pins@[j as int]@, nets@[i as int].0@)));
            }
            j += 1;
        }
        proof {
            assert(texts(pins@).take(pins@.len() as int) =~= texts(pins@));
            assert(nv[i as int].1 == texts(pins@));
            assert(nv[i as int].0 == nets@[i as int].0@);
        }
        i += 1;
    }
    proof { assert(nv.take(nv.len() as int) =~= nv); }
    r
}

fn pin_check(nets: &Vec<(String, Net)>) -> (r: Option<(String, Option<String>)>)
    ensures problem_view(r) == pin_problem(flat_pins(nets_view(nets@)), 0),
{
    let flat = flat_pin_list(nets);
    let ghost fv = flat@.map_values(|e: (String, String)| (e.0@, e.1@));
    let mut k: usize = 0;
    while k < flat.len()
        invariant k <= flat@.len(), fv == flat@.map_values(|e: (String, String)| (e.0@, e.1@)),
            fv == flat_pins(nets_view(nets@)),
            pin_problem(fv, 0) == pin_problem(fv, k as int),
        decreases flat@.len() - k,
    {
        let p = flat[k].0.as_str();
        let ghost earlier = fv.take(k as int).map_values(|e: (Seq<char>, Seq<char>)| e.0);
        match parse_pin_ref(p) {
            Err(e) => {
                return Some((e.message, Some("pins are written `<instance>.<pin>`, e.g. `R1.1` or `U1.VCC`".to_owned())));
            },
            Ok(_) => {},
        }
        let mut j: usize = 0;
        while j < k
            invariant j <= k, k < flat@.len(), fv == flat@.map_values(|e: (String, String)| (e.0@, e.1@)),
                earlier == fv.take(k as int).map_values(|e: (Seq<char>, Seq<char>)| e.0),
                forall|m: int| 0 <= m < j ==> earlier[m] != p@, p@ == fv[k as int].0,
                fv == flat_pins(nets_view(nets@)), pin_problem(fv, 0) == pin_problem(fv, k as int),
                pin_ref_parts(p@) is Some,
            decreases k - j,
        {
            proof { assert(earlier[j as int] == flat@[j as int].0@); }
            if same_str(flat[j].0.as_str(), p) {
                proof {
                    crate::template::lemma_position(earlier, p@, j as int);
                    assert(fv[j as int].1 == flat@[j as int].1@);
                    assert(fv[k as int].1 == flat@[k as int].1@);
                }
                let mut m = String::new();
                push_str(&mut m, "pin `");
                push_str(&mut m, p);
                push_str(&mut m, "` is listed in both net `");
                push_str(&mut m, flat[j].1.as_str());
                push_str(&mut m, "` and net `");
                push_str(&mut m, flat[k].1.as_str());
                push_str(&mut m, "`");
                return msg(m);
            }
            j += 1;
        }
        proof { crate::template::lemma_position(earlier, p@, k as int); }
        k += 1;
    }
    None
}

fn class_check(nets: &Vec<(String, Net)>, classes: &Vec<String>) -> (r: Option<(String, Option<String>)>)
    ensures problem_view(r) == class_problem(nets_view(nets@), texts(classes@), 0),
{
    let ghost nv = nets_view(nets@);
    let mut k: usize = 0;
    while k < nets.len()
        invariant k <= nets@.len(), nv == nets_view(nets@),
            class_problem(nv, texts(classes@), 0) == class_problem(nv, texts(classes@), k as int),
        decreases nets@.len() - k,
    {
        proof { assert(nv[k as int].2 == net_view(nets@[k as int].1.class)); assert(nv[k as int].0 == nets@[k as int].0@); }
        match &nets[k].1.class {
            Some(c) => {
                if !has_text(classes, c.as_str()) {
                    let mut m = String::new();
                    push_str(&mut m, "net `");
                    push_str(&mut m, nets[k].0.as_str());
                    push_str(&mut m, "` has class `");
                    push_str(&mut m, c.as_str());
                    push_str(&mut m, "` but no such class is defined in design_rules.net_classes");
                    let mut h = String::new();
                    push_str(&mut h, "add it with `pcb rules class ");
                    push_str(&mut h, c.as_str());
                    push_str(&mut h, " --width ... --clearance ...`");
                    return Some((m, Some(h)));
                }
            },
            None => {},
        }
        k += 1;
    }
    None
}

fn hole_check(holes: &Vec<Hole>, names: &Vec<String>) -> (r: Option<(String, Option<String>)>)
    ensures problem_view(r) == hole_problem(holes@, texts(names@), 0),
{
    let mut k: usize = 0;
    while k < holes.len()
        invariant k <= holes@.len(), hole_problem(holes@, texts(names@), 0) == hole_problem(holes@, texts(names@), k as int),
        decreases holes@.len() - k,
    {
        let h = &holes[k];
        match &h.net {
            Some(n) => {
                if !has_text(names, n.as_str()) {
                    let mut m = String::new();
                    push_str(&mut m, "hole at ");
                    push_str(&mut m, h.at.to_string().as_str());
                    push_str(&mut m, " references unknown net `");
                    push_str(&mut m, n.as_str());
                    push_str(&mut m, "`");
                    return msg(m);
                }
                if !h.plated {
                    let mut m = String::new();
                    push_str(&mut m, "hole at ");
                    push_str(&mut m, h.at.to_string().as_str());
                    push_str(&mut m, " has a net but is not plated");
                    return msg(m);
                }
            },
            None => {},
        }
        k += 1;
    }
    None
}

fn trace_check(traces: &Vec<Trace>, layers: &Vec<String>, names: &Vec<String>) -> (r: Option<(String, Option<String>)>)
    ensures problem_view(r) == trace_problem(traces@, texts(layers@), texts(names@), 0),
{
    let mut k: usize = 0;
    while k < traces.len()
        invariant k <= traces@.len(),
            trace_problem(traces@, texts(layers@), texts(names@), 0) == trace_problem(traces@, texts(layers@), texts(names@), k as int),
        decreases traces@.len() - k,
    {
        let t = &traces[k];
        let lp = layer_check(layers, t.layer.as_str(), "trace");
        if lp.is_some() {
            return lp;
        }
        match &t.net {
            Some(n) => {
                if !has_text(names, n.as_str()) {
                    let mut m = String::new();
                    push_str(&mut m, "trace on `");
                    push_str(&mut m, t.layer.as_str());
                    push_str(&mut m, "` references unknown net `");
                    push_str(&mut m, n.as_str());
                    push_str(&mut m, "`");
                    return msg(m);
                }
            },
            None => {},
        }
        if t.points.len() < 2 {
            let mut m = String::new();
            push_str(&mut m, "a trace on `");
            push_str(&mut m, t.layer.as_str());
            push_str(&mut m, "` has fewer than 2 points");
            return msg(m);
        }
        k += 1;
    }
    None
}

fn via_check(vias: &Vec<Via>, layers: &Vec<String>, names: &Vec<String>) -> (r: Option<(String, Option<String>)>)
    ensures problem_view(r) == via_problem(vias@, texts(layers@), texts(names@), 0),
{
    let mut k: usize = 0;
    while k < vias.len()
        invariant k <= vias@.len(),
            via_problem(vias@, texts(layers@), texts(names@), 0) == via_problem(vias@, texts(layers@), texts(names@), k as int),
        decreases vias@.len() - k,
    {
        let v = &vias[k];
        let mut i: usize = 0;
        while i < v.layers.len()
            invariant i <= v.layers@.len(), k < vias@.len(), *v == vias@[k as int],
                via_problem(vias@, texts(layers@), texts(names@), 0) == via_problem(vias@, texts(layers@), texts(names@), k as int),
                layers_problem(texts(layers@), texts(v.layers@), "via"@, 0) == layers_problem(texts(layers@), texts(v.layers@), "via"@, i as int),
            decreases v.layers@.len() - i,
        {
            proof { assert(texts(v.layers@)[i as int] == v.layers@[i as int]@); }
            let lp = layer_check(layers, v.layers[i].as_str(), "via");
            if lp.is_some() {
                return lp;
            }
            i += 1;
        }
        match &v.net {
            Some(n) => {
                if !has_text(names, n.as_str()) {
                    let mut m = String::new();
                    push_str(&mut m, "via at ");
                    push_str(&mut m, v.at.to_string().as_str());
                    push_str(&mut m, " references unknown net `");
                    push_str(&mut m, n.as_str());
                    push_str(&mut m, "`");
                    return msg(m);
                }
            },
            None => {},
        }
        k += 1;
    }
    None
}

fn pour_check(pours: &Vec<Pour>, layers: &Vec<String>, names: &Vec<String>) -> (r: Option<(String, Option<String>)>)
    ensures problem_view(r) == pour_problem(pours@, texts(layers@), texts(names@), 0),
{
    let mut k: usize = 0;
    while k < pours.len()
        invariant k <= pours@.len(),
            pour_problem(pours@, texts(layers@), texts(names@), 0) == pour_problem(pours@, texts(layers@), texts(names@), k as int),
        decreases pours@.len() - k,
    {
        let p = &pours[k];
        let mut what = String::new();
        push_str(&mut what, "pour `");
        push_str(&mut what, p.name.as_str());
        push_str(&mut what, "`");
        let lp = layer_check(layers, p.layer.as_str(), what.as_str());
        if lp.is_some() {
            return lp;
        }
        match &p.net {
            Some(n) => {
                if !has_text(names, n.as_str()) {
                    let mut m = String::new();
                    push_str(&mut m, "pour `");
                    push_str(&mut m, p.name.as_str());
                    push_str(&mut m, "` references unknown net `");
                    push_str(&mut m, n.as_str());
                    push_str(&mut m, "`");
                    return msg(m);
                }
            },
            None => {},
        }
        k += 1;
    }
    None
}

fn net_names(nets: &Vec<(String, Net)>) -> (r: Vec<String>)
    ensures texts(r@) == names_of(nets_view(nets@)),
{
    let mut r: Vec<String> = Vec::new();
    let mut i: usize = 0;
    while i < nets.len()
        invariant i <= nets@.len(), texts(r@) == names_of(nets_view(nets@)).take(i as int),
        decreases nets@.len() - i,
    {
        let ghost before = texts(r@);
        r.push(nets[i].0.clone());
        proof {
            assert(nets_view(nets@)[i as int].0 == nets@[i as int].0@);
            assert(names_of(nets_view(nets@))[i as int] == nets@[i as int].0@);
            assert(texts(r@) =~= before.push(nets@[i as int].0@));
            let nm = names_of(nets_view(nets@));
            assert(nm.take(i + 1) =~= nm.take(i as int).push(nm[i as int]));
            assert(texts(r@) =~= names_of(nets_view(nets@)).take(i + 1));
        }
        i += 1;
    }
    proof { assert(names_of(nets_view(nets@)).take(nets@.len() as int) =~= names_of(nets_view(nets@))); }
    r
}

/// Checks a whole project: refused with the first problem found, in the
/// order `project_problem` checks them. (The spelling hints some of these
/// messages get are added by the caller.)
pub fn validate_project(layers: &Vec<String>, nets: &Vec<(String, Net)>, classes: &Vec<String>, holes: &Vec<Hole>,
    traces: &Vec<Trace>, vias: &Vec<Via>, pours: &Vec<Pour>) -> (r: Result<(), Error>)
    ensures
        match project_problem(texts(layers@), nets_view(nets@), texts(classes@), holes@, traces@, vias@, pours@) {
            None => r is Ok,
            Some((m, h)) => r matches Err(e) && e.message@ == m && net_view(e.help) == h,
        },
{
    if layers.len() == 0 {
        return Err(Error::with_help("the stackup has no copper layers".to_owned(),
            "set `stackup.copper_layers` in pcb.json, e.g. [\"F.Cu\", \"B.Cu\"] or [\"B.Cu\"] for a single-sided board".to_owned()));
    }
    let names = net_names(nets);
    let found = match pin_check(nets) {
        Some(p) => Some(p),
        None => match class_check(nets, classes) {
            Some(p) => Some(p),
            None => match hole_check(holes, &names) {
                Some(p) => Some(p),
                None => match trace_check(traces, layers, &names) {
                    Some(p) => Some(p),
                    None => match via_check(vias, layers, &names) {
                        Some(p) => Some(p),
                        None => pour_check(pours, layers, &names),
                    },
                },
            },
        },
    };
    match found {
        None => Ok(()),
        Some((m, h)) => Err(Error { message: m, help: h }),
    }
}

} // verus!
