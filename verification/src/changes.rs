//! Where a change list lives next to a project, and how changes describe
//! the traces they touch, for people and for Python scripts.

use vstd::prelude::*;
use crate::units::{Point, point_text, length_text};
use crate::numfmt::{signed_fixed_text, signed_fixed};
use crate::schema::{Trace, Via};
use crate::units::Length;
use crate::error::Error;
use crate::numfmt::{nat_digits, push_nat};
use crate::route_pieces::copy_points;
use crate::template::position_of;
use crate::store::{join_path, base_dir, join_chars, base_dir_of};
use crate::text::{push_str, push_char, chars_of, join_text, join_strings};
use crate::canon::{arrow_points, arrow_text, net_or, texts};

verus! {

/// The change list of the project at `p`: `build/changes.json` beside it.
pub open spec fn changes_text(p: Seq<char>) -> Seq<char> {
    join_path(join_path(base_dir(p), "build"@), "changes.json"@)
}

/// The change list of the project file at `project_path`.
pub fn changes_path(project_path: &str) -> (r: String)
    ensures r@ == changes_text(project_path@),
{
    let dir = base_dir_of(&chars_of(project_path));
    let b = join_chars(&chars_of(&dir), &chars_of("build"));
    join_chars(&chars_of(&b), &chars_of("changes.json"))
}

/// The target file beside the project file at `p`.
pub open spec fn target_text(p: Seq<char>) -> Seq<char> {
    join_path(base_dir(p), "pcb-target.json"@)
}

/// The target file of the project file at `project_path`.
pub fn target_path(project_path: &str) -> (r: String)
    ensures r@ == target_text(project_path@),
{
    let dir = base_dir_of(&chars_of(project_path));
    join_chars(&chars_of(&dir), &chars_of("pcb-target.json"))
}

/// Points in millimetres joined by ` -> `.
pub fn pts(points: &Vec<Point>) -> (r: String)
    ensures r@ == arrow_text(points@),
{
    arrow_points(points)
}

/// A trace as a change list names it.
pub open spec fn change_trace_text(t: Trace) -> Seq<char> {
    net_or(t.net, "(no net)"@) + " trace on "@ + t.layer@ + " w "@ + length_text(t.width.0 as int) + " "@
        + arrow_text(t.points@)
}

/// A trace as a change list names it.
pub fn trace_desc(t: &Trace) -> (r: String)
    ensures r@ == change_trace_text(*t),
{
    let mut s = String::new();
    match &t.net {
        Some(n) => push_str(&mut s, n.as_str()),
        None => push_str(&mut s, "(no net)"),
    }
    push_str(&mut s, " trace on ");
    push_str(&mut s, t.layer.as_str());
    push_str(&mut s, " w ");
    push_str(&mut s, t.width.to_string().as_str());
    push_str(&mut s, " ");
    push_str(&mut s, pts(&t.points).as_str());
    s
}

/// A point as a Python tuple of millimetres.
pub open spec fn py_pt_text(p: Point) -> Seq<char> {
    "("@ + signed_fixed_text(p.x.0 as int, 6) + ", "@ + signed_fixed_text(p.y.0 as int, 6) + ")"@
}

/// A point as a Python tuple of millimetres.
pub fn py_pt(p: Point) -> (r: String)
    ensures r@ == py_pt_text(p),
{
    let mut s = String::from_str("(");
    push_str(&mut s, &signed_fixed(p.x.0, 6));
    push_str(&mut s, ", ");
    push_str(&mut s, &signed_fixed(p.y.0, 6));
    push_str(&mut s, ")");
    s
}

/// Points as a Python list of tuples.
pub open spec fn py_pts_text(ps: Seq<Point>) -> Seq<char> {
    "["@ + join_text(ps.map_values(|p: Point| py_pt_text(p)), ", "@) + "]"@
}

/// Points as a Python list of tuples.
pub fn py_pts(points: &Vec<Point>) -> (r: String)
    ensures r@ == py_pts_text(points@),
{
    let mut parts: Vec<String> = Vec::new();
    let mut i: usize = 0;
    while i < points.len()
        invariant i <= points@.len(), texts(parts@) == points@.take(i as int).map_values(|p: Point| py_pt_text(p)),
        decreases points@.len() - i,
    {
        let t = py_pt(points[i]);
        let ghost prev = texts(parts@);
        let ghost tv = t@;
        parts.push(t);
        proof {
            assert(texts(parts@) =~= prev.push(tv));
            assert(texts(parts@) =~= points@.take(i + 1).map_values(|p: Point| py_pt_text(p)));
        }
        i += 1;
    }
    proof { assert(points@.take(points@.len() as int) =~= points@); }
    let mut s = String::from_str("[");
    push_str(&mut s, &join_strings(&parts, ", "));
    push_str(&mut s, "]");
    s
}


/// A change to the copper of a project, as a change list records it.
pub enum Change {
    /// Place or move a part (its rotation, a float, is applied by the
    /// caller, which holds the placements).
    MovePart { refdes: String },
    /// Replace the points (and optionally the width) of trace `trace`.
    SetTracePoints { trace: usize, points: Vec<Point>, width: Option<Length> },
    AddTrace { layer: String, net: Option<String>, width: Length, points: Vec<Point> },
    DeleteTrace { trace: usize },
    MoveVia { via: usize, to: Point },
    AddVia { at: Point, net: Option<String>, drill: Option<Length>, diameter: Option<Length> },
    DeleteVia { via: usize },
    /// Free text for the agent: changes nothing.
    Note,
}

/// `prefix`, the number `n`, and `suffix`.
pub open spec fn numbered(prefix: Seq<char>, n: nat, suffix: Seq<char>) -> Seq<char> {
    prefix + nat_digits(n) + suffix
}

fn numbered_msg(prefix: &str, n: usize, suffix: &str) -> (r: String)
    ensures r@ == numbered(prefix@, n as nat, suffix@),
{
    let mut m = String::new();
    push_str(&mut m, prefix);
    push_nat(&mut m, n as u64);
    push_str(&mut m, suffix);
    m
}

/// The place of `name` among `parts`, or their number where it is not there.
fn part_index(parts: &Vec<String>, name: &str) -> (r: usize)
    ensures r == position_of(texts(parts@), name@), r <= parts@.len(),
{
    let ghost names = texts(parts@);
    let mut i: usize = 0;
    while i < parts.len()
        invariant i <= parts@.len(), names == texts(parts@), forall|j: int| 0 <= j < i ==> names[j] != name@,
        decreases parts@.len() - i,
    {
        proof { assert(names[i as int] == parts@[i as int]@); }
        if crate::text::same_str(parts[i].as_str(), name) {
            proof { crate::template::lemma_position(names, name@, i as int); }
            return i;
        }
        i += 1;
    }
    proof { crate::template::lemma_position(names, name@, i as int); }
    i
}

/// Applies one change to the traces and vias, in place; a via added
/// without a drill or diameter takes the design rules' `via_drill` and
/// `via_diameter`. A change naming a trace or via that is not there, or a
/// trace of fewer than two points, is refused and changes nothing.
/// Moving a part names it among `parts`: refused where no part has that
/// name, else the number of the part whose placement the caller sets.
pub fn apply_one(traces: &mut Vec<Trace>, vias: &mut Vec<Via>, parts: &Vec<String>, via_drill: Length, via_diameter: Length,
    c: &Change) -> (r: Result<Option<usize>, Error>)
    ensures
        match c {
            Change::MovePart { refdes } => {
                let i = position_of(texts(parts@), refdes@);
                if i >= parts@.len() {
                    r matches Err(e) && e.message@ == "no instance named `"@ + refdes@ + "`"@ && e.help is None
                } else {
                    r matches Ok(Some(k)) && k == i
                }
            },
            _ => r matches Ok(x) ==> x is None,
        },
        match c {
            Change::SetTracePoints { trace, points, width } => {
                if *trace >= old(traces)@.len() {
                    r matches Err(e) && e.message@ == numbered("no trace #"@, *trace as nat, ""@) && e.help is None
                        && final(traces)@ == old(traces)@
                } else if points@.len() < 2 {
                    r matches Err(e) && e.message@ == numbered("trace #"@, *trace as nat, " needs two points"@)
                        && e.help is None && final(traces)@ == old(traces)@
                } else {
                    let t = old(traces)@[*trace as int];
                    &&& r is Ok
                    &&& final(traces)@.len() == old(traces)@.len()
                    &&& forall|i: int| 0 <= i < old(traces)@.len() && i != *trace ==> #[trigger] final(traces)@[i] == old(traces)@[i]
                    &&& final(traces)@[*trace as int].points@ == points@
                    &&& final(traces)@[*trace as int].width == (match *width { Some(w) => w, None => t.width })
                    &&& final(traces)@[*trace as int].layer == t.layer && final(traces)@[*trace as int].net == t.net
                    &&& final(traces)@[*trace as int].routed == t.routed && final(traces)@[*trace as int].fanout == t.fanout
                }
            },
            Change::AddTrace { layer, net, width, points } => {
                if points@.len() < 2 {
                    r matches Err(e) && e.message@ == "a trace needs two points"@ && e.help is None
                        && final(traces)@ == old(traces)@
                } else {
                    &&& r is Ok
                    &&& final(traces)@.len() == old(traces)@.len() + 1
                    &&& final(traces)@.drop_last() == old(traces)@
                    &&& final(traces)@.last().layer@ == layer@
                    &&& final(traces)@.last().net == *net
                    &&& final(traces)@.last().width == *width
                    &&& final(traces)@.last().points@ == points@
                    &&& !final(traces)@.last().routed && !final(traces)@.last().fanout
                }
            },
            Change::DeleteTrace { trace } => {
                if *trace >= old(traces)@.len() {
                    r matches Err(e) && e.message@ == numbered("no trace #"@, *trace as nat, ""@) && e.help is None
                        && final(traces)@ == old(traces)@
                } else {
                    r is Ok && final(traces)@ == old(traces)@.remove(*trace as int)
                }
            },
            _ => final(traces)@ == old(traces)@,
        },
        match c {
            Change::MoveVia { via, to } => {
                if *via >= old(vias)@.len() {
                    r matches Err(e) && e.message@ == numbered("no via #"@, *via as nat, ""@) && e.help is None
                        && final(vias)@ == old(vias)@
                } else {
                    r is Ok && final(vias)@ == old(vias)@.update(*via as int, Via { at: *to, ..old(vias)@[*via as int] })
                }
            },
            Change::AddVia { at, net, drill, diameter } => {
                &&& r is Ok
                &&& final(vias)@.len() == old(vias)@.len() + 1
                &&& final(vias)@.drop_last() == old(vias)@
                &&& final(vias)@.last().at == *at
                &&& final(vias)@.last().net == *net
                &&& final(vias)@.last().drill == (match *drill { Some(d) => d, None => via_drill })
                &&& final(vias)@.last().diameter == (match *diameter { Some(d) => d, None => via_diameter })
                &&& final(vias)@.last().layers@.len() == 0
                &&& !final(vias)@.last().routed && !final(vias)@.last().fanout
            },
            Change::DeleteVia { via } => {
                if *via >= old(vias)@.len() {
                    r matches Err(e) && e.message@ == numbered("no via #"@, *via as nat, ""@) && e.help is None
                        && final(vias)@ == old(vias)@
                } else {
                    r is Ok && final(vias)@ == old(vias)@.remove(*via as int)
                }
            },
            Change::Note => r is Ok && final(vias)@ == old(vias)@,
            _ => final(vias)@ == old(vias)@,
        },
{
    match c {
        Change::MovePart { refdes } => {
            let i = part_index(parts, refdes.as_str());
            if i < parts.len() {
                return Ok(Some(i));
            }
            let mut m = String::new();
            push_str(&mut m, "no instance named `");
            push_str(&mut m, refdes.as_str());
            push_str(&mut m, "`");
            return Err(Error::msg(m));
        },
        Change::SetTracePoints { trace, points, width } => {
            if *trace >= traces.len() {
                return Err(Error::msg(numbered_msg("no trace #", *trace, "")));
            }
            if points.len() < 2 {
                return Err(Error::msg(numbered_msg("trace #", *trace, " needs two points")));
            }
            let pts = copy_points(points, 0);
            proof { assert(points@.skip(0) =~= points@); }
            traces[*trace].points = pts;
            match width {
                Some(w) => { traces[*trace].width = *w; },
                None => {},
            }
        },
        Change::AddTrace { layer, net, width, points } => {
            if points.len() < 2 {
                return Err(Error::msg("a trace needs two points".to_owned()));
            }
            let pts = copy_points(points, 0);
            proof { assert(points@.skip(0) =~= points@); }
            traces.push(Trace { layer: layer.clone(), net: net.clone(), width: *width, points: pts, routed: false, fanout: false });
        },
        Change::DeleteTrace { trace } => {
            if *trace >= traces.len() {
                return Err(Error::msg(numbered_msg("no trace #", *trace, "")));
            }
            traces.remove(*trace);
        },
        Change::MoveVia { via, to } => {
            if *via >= vias.len() {
                return Err(Error::msg(numbered_msg("no via #", *via, "")));
            }
            vias[*via].at = *to;
        },
        Change::AddVia { at, net, drill, diameter } => {
            let d = match drill { Some(d) => *d, None => via_drill };
            let dia = match diameter { Some(d) => *d, None => via_diameter };
            vias.push(Via { at: *at, net: net.clone(), drill: d, diameter: dia, layers: Vec::new(), routed: false, fanout: false });
        },
        Change::DeleteVia { via } => {
            if *via >= vias.len() {
                return Err(Error::msg(numbered_msg("no via #", *via, "")));
            }
            vias.remove(*via);
        },
        Change::Note => {},
    }
    Ok(None)
}

} // verus!
