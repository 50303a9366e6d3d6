//! The decisions `pcb route <pin> <pin>` makes before it searches: the
//! net both pins must share, the width and clearance from the net's
//! class, the layers it may use, and the box the search aims at.

use vstd::prelude::*;
use crate::units::Length;
use crate::schema::{Net, NetClass};
use crate::edit::net_view;
use crate::canon::texts;
use crate::error::Error;
use crate::text::{same_str, push_str, join_text, join_strings};
use crate::netlist::{nets_view, names_of, class_named, net_index};
use crate::template::position_of;
use crate::wiring::{class_names, class_width, width_of_class};
use crate::route_search::Cell;
use crate::units::Point;
use crate::geom::{overlaps, has_area, clipper_intersection, rings_view};

verus! {

/// What a pin-to-pin route is drawn with.
pub struct PinPlan {
    pub net: String,
    pub width: Length,
    pub clearance: Length,
    pub layers: Vec<String>,
}

/// The clearance of a net class: its own where it sets one, else the
/// default; the default too for no class or a class not defined.
pub open spec fn class_clearance(classes: Seq<(String, NetClass)>, class: Option<Seq<char>>, default_clearance: Length) -> Length {
    match class {
        Some(c) => {
            let i = position_of(class_names(classes), c);
            if i < classes.len() {
                match classes[i].1.clearance { Some(w) => w, None => default_clearance }
            } else {
                default_clearance
            }
        },
        None => default_clearance,
    }
}

/// Why a pin-to-pin route is refused before searching, or what it is drawn
/// with.
pub open spec fn plan_of(from: Seq<char>, to: Seq<char>, from_net: Option<Seq<char>>, to_net: Option<Seq<char>>,
    nv: Seq<(Seq<char>, Seq<Seq<char>>, Option<Seq<char>>)>, classes: Seq<(String, NetClass)>,
    default_width: Length, default_clearance: Length, width: Option<Length>, layers: Seq<Seq<char>>,
    layer: Option<Seq<char>>) -> Result<(Seq<char>, Length, Length, Seq<Seq<char>>), (Seq<char>, Seq<char>)> {
    match (from_net, to_net) {
        (Some(a), Some(b)) => if a != b {
            Err((from + " is on net "@ + a + " but "@ + to + " is on net "@ + b,
                "a trace joins pins of one net; `pcb connect` them first"@))
        } else {
            let class = class_named(nv, a);
            let w = match width { Some(w) => w, None => class_width(classes, class, default_width) };
            let c = class_clearance(classes, class, default_clearance);
            match layer {
                Some(l) => if !layers.contains(l) {
                    Err(("no copper layer `"@ + l + "`"@, "layers are "@ + join_text(layers, ", "@)))
                } else {
                    Ok((a, w, c, seq![l]))
                },
                None => Ok((a, w, c, layers)),
            }
        },
        _ => Err(("both pins must be on a net"@, "`pcb connect "@ + from + " "@ + to + " --net <name>`"@)),
    }
}

pub(crate) fn clearance_of_class(classes: &Vec<(String, NetClass)>, class: &Option<String>, default_clearance: Length) -> (r: Length)
    ensures r == class_clearance(classes@, net_view(*class), default_clearance),
{
    match class {
        None => default_clearance,
        Some(c) => {
            let ghost names = class_names(classes@);
            let mut i: usize = 0;
            while i < classes.len()
                invariant i <= classes@.len(), names == class_names(classes@), net_view(*class) == Some(c@),
                    forall|j: int| 0 <= j < i ==> names[j] != c@,
                decreases classes@.len() - i,
            {
                proof { assert(names[i as int] == classes@[i as int].0@); }
                if same_str(classes[i].0.as_str(), c.as_str()) {
                    proof { crate::template::lemma_position(names, c@, i as int); }
                    return match classes[i].1.clearance { Some(w) => w, None => default_clearance };
                }
                i += 1;
            }
            proof { assert(names.len() == classes@.len()); crate::template::lemma_position(names, c@, i as int); }
            default_clearance
        },
    }
}

/// The plan of a pin-to-pin route from `from` to `to` (pin references as
/// written), whose pads are on `from_net` and `to_net`: refused unless both
/// are on the same net, and where `layer` names no copper layer of the
/// board; else the net, the width (`width` or the class's), the class's
/// clearance, and the layers it may use (`layer`, or all).
pub fn pin_route_plan(from: &str, to: &str, from_net: &Option<String>, to_net: &Option<String>,
    nets: &Vec<(String, Net)>, classes: &Vec<(String, NetClass)>, default_width: Length, default_clearance: Length,
    width: Option<Length>, layers: &Vec<String>, layer: &Option<String>) -> (r: Result<PinPlan, Error>)
    ensures
        match plan_of(from@, to@, net_view(*from_net), net_view(*to_net), nets_view(nets@), classes@,
            default_width, default_clearance, width, texts(layers@), net_view(*layer)) {
            Ok((n, w, c, ls)) => r matches Ok(p) && p.net@ == n && p.width == w && p.clearance == c && texts(p.layers@) == ls,
            Err((m, h)) => r matches Err(e) && e.message@ == m && (e.help matches Some(x) && x@ == h),
        },
{
    let net: String = match (from_net, to_net) {
        (Some(a), Some(b)) => {
            if !same_str(a.as_str(), b.as_str()) {
                let mut m = from.to_owned();
                push_str(&mut m, " is on net ");
                push_str(&mut m, a.as_str());
                push_str(&mut m, " but ");
                push_str(&mut m, to);
                push_str(&mut m, " is on net ");
                push_str(&mut m, b.as_str());
                return Err(Error::with_help(m, "a trace joins pins of one net; `pcb connect` them first".to_owned()));
            }
            a.clone()
        },
        _ => {
            let mut h = "`pcb connect ".to_owned();
            push_str(&mut h, from);
            push_str(&mut h, " ");
            push_str(&mut h, to);
            push_str(&mut h, " --net <name>`");
            return Err(Error::with_help("both pins must be on a net".to_owned(), h));
        },
    };
    let i = net_index(nets, net.as_str());
    let class: Option<String> = if i < nets.len() { nets[i].1.class.clone() } else { None };
    proof {
        let nv = nets_view(nets@);
        if i < nets@.len() { assert(nv[i as int].2 == net_view(nets@[i as int].1.class)); }
    }
    let w = match width { Some(w) => w, None => width_of_class(classes, &class, default_width) };
    let c = clearance_of_class(classes, &class, default_clearance);
    let mut out: Vec<String> = Vec::new();
    match layer {
        Some(l) => {
            let mut found = false;
            let mut k: usize = 0;
            while k < layers.len()
                invariant k <= layers@.len(), found == texts(layers@.take(k as int)).contains(l@),
                decreases layers@.len() - k,
            {
                proof {
                    assert(texts(layers@.take(k + 1)) =~= texts(layers@.take(k as int)).push(layers@[k as int]@));
                }
                let ghost t0 = texts(layers@.take(k as int));
                let ghost t1 = texts(layers@.take(k + 1));
                if same_str(layers[k].as_str(), l.as_str()) { found = true; }
                proof {
                    assert(t1[k as int] == layers@[k as int]@);
                    if t1.contains(l@) {
                        let j = choose|j: int| 0 <= j < t1.len() && t1[j] == l@;
                        if j < k { assert(t0[j] == t1[j]); }
                    }
                    if t0.contains(l@) {
                        let j = choose|j: int| 0 <= j < t0.len() && t0[j] == l@;
                        assert(t1[j] == t0[j]);
                    }
                }
                k += 1;
            }
            proof { assert(layers@.take(layers@.len() as int) =~= layers@); }
            if !found {
                let mut m = "no copper layer `".to_owned();
                push_str(&mut m, l.as_str());
                push_str(&mut m, "`");
                let mut h = "layers are ".to_owned();
                push_str(&mut h, join_strings(layers, ", ").as_str());
                proof { assert(layers@.map_values(|s: String| s@) =~= texts(layers@)); }
                return Err(Error::with_help(m, h));
            }
            out.push(l.clone());
            proof { assert(texts(out@) =~= seq![l@]); }
        },
        None => {
            out = crate::canon::clone_strings(layers);
        },
    }
    Ok(PinPlan { net, width: w, clearance: c, layers: out })
}

/// The least and greatest of the columns and rows of `cells`.
pub open spec fn is_cell_box(cells: Seq<Cell>, b: (usize, usize, usize, usize)) -> bool {
    &&& forall|i: int| 0 <= i < cells.len() ==> b.0 <= #[trigger] cells[i].1 <= b.2 && b.1 <= cells[i].2 <= b.3
    &&& exists|i: int| 0 <= i < cells.len() && #[trigger] cells[i].1 == b.0
    &&& exists|i: int| 0 <= i < cells.len() && #[trigger] cells[i].2 == b.1
    &&& exists|i: int| 0 <= i < cells.len() && #[trigger] cells[i].1 == b.2
    &&& exists|i: int| 0 <= i < cells.len() && #[trigger] cells[i].2 == b.3
}

/// The box the search aims at: the columns and rows the goal cells span.
pub fn goal_box(cells: &Vec<Cell>) -> (r: (usize, usize, usize, usize))
    requires cells@.len() > 0,
    ensures is_cell_box(cells@, r),
{
    let mut b = (cells[0].1, cells[0].2, cells[0].1, cells[0].2);
    let mut i: usize = 1;
    proof { assert(cells@.take(1)[0] == cells@[0]); }
    while i < cells.len()
        invariant 1 <= i <= cells@.len(), is_cell_box(cells@.take(i as int), b),
        decreases cells@.len() - i,
    {
        let c = cells[i];
        let ghost t = cells@.take(i as int);
        if c.1 < b.0 { b.0 = c.1; }
        if c.2 < b.1 { b.1 = c.2; }
        if c.1 > b.2 { b.2 = c.1; }
        if c.2 > b.3 { b.3 = c.2; }
        proof {
            let t2 = cells@.take(i + 1);
            assert(t2[i as int] == c);
            assert forall|j: int| 0 <= j < t.len() implies #[trigger] t2[j] == t[j] by {}
            assert forall|j: int| 0 <= j < t2.len() implies b.0 <= #[trigger] t2[j].1 <= b.2 && b.1 <= t2[j].2 <= b.3 by {
                if j < t.len() { assert(t2[j] == t[j]); }
            }
            if c.1 == b.0 { assert(t2[i as int].1 == b.0); } else { let j = choose|j: int| 0 <= j < t.len() && #[trigger] t[j].1 == b.0; assert(t2[j] == t[j]); }
            if c.2 == b.1 { assert(t2[i as int].2 == b.1); } else { let j = choose|j: int| 0 <= j < t.len() && #[trigger] t[j].2 == b.1; assert(t2[j] == t[j]); }
            if c.1 == b.2 { assert(t2[i as int].1 == b.2); } else { let j = choose|j: int| 0 <= j < t.len() && #[trigger] t[j].1 == b.2; assert(t2[j] == t[j]); }
            if c.2 == b.3 { assert(t2[i as int].2 == b.3); } else { let j = choose|j: int| 0 <= j < t.len() && #[trigger] t[j].2 == b.3; assert(t2[j] == t[j]); }
        }
        i += 1;
    }
    proof { assert(cells@.take(cells@.len() as int) =~= cells@); }
    b
}


/// Whether the start and goal islands meet: on some layer named by both,
/// both have copper and Clipper2 finds their intersection has area.
pub open spec fn islands_meet(start: Seq<(String, Vec<Vec<Point>>)>, goal: Seq<(String, Vec<Vec<Point>>)>) -> bool {
    exists|i: int, j: int| 0 <= i < start.len() && 0 <= j < goal.len()
        && #[trigger] start[i].0@ == #[trigger] goal[j].0@
        && start[i].1@.len() > 0 && goal[j].1@.len() > 0
        && has_area(clipper_intersection(rings_view(start[i].1@), rings_view(goal[j].1@)))
}

/// The message when the two pins are already joined.
pub open spec fn joined_message(from: Seq<char>, to: Seq<char>) -> Seq<char> {
    from + " and "@ + to + " are already connected"@
}

/// Refuses a route between pins whose copper islands already meet: the
/// islands of the start pin and of the goal pin, each per layer.
pub fn check_not_joined(from: &str, to: &str, start: &Vec<(String, Vec<Vec<Point>>)>, goal: &Vec<(String, Vec<Vec<Point>>)>) -> (r: Result<(), Error>)
    ensures
        r is Ok <==> !islands_meet(start@, goal@),
        r matches Err(e) ==> e.message@ == joined_message(from@, to@) && e.help is None,
{
    let mut i: usize = 0;
    while i < start.len()
        invariant
            i <= start@.len(),
            forall|a: int, b: int| 0 <= a < i && 0 <= b < goal@.len() ==> !(
                #[trigger] start@[a].0@ == #[trigger] goal@[b].0@
                && start@[a].1@.len() > 0 && goal@[b].1@.len() > 0
                && has_area(clipper_intersection(rings_view(start@[a].1@), rings_view(goal@[b].1@)))),
        decreases start@.len() - i,
    {
        let mut j: usize = 0;
        while j < goal.len()
            invariant
                i < start@.len(), j <= goal@.len(),
                forall|a: int, b: int| 0 <= a < i && 0 <= b < goal@.len() ==> !(
                    #[trigger] start@[a].0@ == #[trigger] goal@[b].0@
                    && start@[a].1@.len() > 0 && goal@[b].1@.len() > 0
                    && has_area(clipper_intersection(rings_view(start@[a].1@), rings_view(goal@[b].1@)))),
                forall|b: int| 0 <= b < j ==> !(
                    start@[i as int].0@ == #[trigger] goal@[b].0@
                    && start@[i as int].1@.len() > 0 && goal@[b].1@.len() > 0
                    && has_area(clipper_intersection(rings_view(start@[i as int].1@), rings_view(goal@[b].1@)))),
            decreases goal@.len() - j,
        {
            if same_str(start[i].0.as_str(), goal[j].0.as_str()) && overlaps(&start[i].1, &goal[j].1) {
                proof { assert(islands_meet(start@, goal@)); }
                let mut m = String::new();
                push_str(&mut m, from);
                push_str(&mut m, " and ");
                push_str(&mut m, to);
                push_str(&mut m, " are already connected");
                return Err(Error::msg(m));
            }
            j += 1;
        }
        i += 1;
    }
    Ok(())
}

} // verus!
