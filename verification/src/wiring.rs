//! Copper drawn by hand and copper drawn by the router: what a routing run
//! keeps, what `trace clear` takes away, and drawing a trace by hand.

use vstd::prelude::*;
use crate::schema::{Trace, Via, Net, NetClass};
use crate::units::{Length, Point};
use crate::edit::net_view;
use crate::text::same_str;
use crate::canon::texts;
use crate::error::Error;
use crate::geom::{contains, coords, clipper_inside};
use crate::netlist::{NetEditError, nets_view, names_of, class_named, is_no_such_net, net_index, unknown_net};
use crate::template::position_of;

verus! {

/// Keeps the items of `v` whose flag is set, in order.
pub(crate) fn retain_flagged<T>(v: &mut Vec<T>, flags: &Vec<bool>, Ghost(pred): Ghost<spec_fn(T) -> bool>)
    requires
        flags@.len() == old(v)@.len(),
        forall|i: int| 0 <= i < flags@.len() ==> #[trigger] flags@[i] == pred(old(v)@[i]),
    ensures final(v)@ == old(v)@.filter(pred),
{
    let ghost s = v@;
    let mut src: Vec<T> = Vec::new();
    std::mem::swap(v, &mut src);
    proof { assert(s.take(0).filter(pred) =~= Seq::<T>::empty()) by { reveal(Seq::filter); } }
    let mut k: usize = 0;
    while k < flags.len()
        invariant
            k <= flags@.len(), flags@.len() == s.len(),
            src@ == s.skip(k as int), v@ == s.take(k as int).filter(pred),
            forall|i: int| 0 <= i < flags@.len() ==> #[trigger] flags@[i] == pred(s[i]),
        decreases flags@.len() - k,
    {
        let ghost before = v@;
        let t = src.remove(0);
        proof {
            reveal(Seq::filter);
            assert(s.take(k + 1).drop_last() =~= s.take(k as int));
            assert(s.take(k + 1).last() == s[k as int]);
            assert(s.skip(k + 1) =~= s.skip(k as int).remove(0));
            assert(flags@[k as int] == pred(s[k as int]));
        }
        if flags[k] {
            v.push(t);
        }
        k += 1;
    }
    proof { assert(s.take(s.len() as int) =~= s); }
}

/// Whether a trace was drawn by hand: neither by the router nor as a plane
/// fanout stub.
pub open spec fn hand_drawn_trace(t: Trace) -> bool {
    !t.routed && !t.fanout
}

/// Whether a via was placed by hand: neither by the router nor as a plane
/// fanout via.
pub open spec fn hand_drawn_via(v: Via) -> bool {
    !v.routed && !v.fanout
}

/// Before a routing run: the router's traces and vias, and the plane fanout,
/// are dropped to be drawn anew; hand-drawn copper stays, in order.
pub fn keep_hand_drawn(traces: &mut Vec<Trace>, vias: &mut Vec<Via>)
    ensures
        final(traces)@ == old(traces)@.filter(|t: Trace| hand_drawn_trace(t)),
        final(vias)@ == old(vias)@.filter(|v: Via| hand_drawn_via(v)),
{
    let mut tf: Vec<bool> = Vec::new();
    let mut i: usize = 0;
    while i < traces.len()
        invariant i <= traces@.len(), tf@.len() == i,
            forall|j: int| 0 <= j < i ==> #[trigger] tf@[j] == hand_drawn_trace(traces@[j]),
        decreases traces@.len() - i,
    {
        tf.push(!traces[i].routed && !traces[i].fanout);
        i += 1;
    }
    retain_flagged(traces, &tf, Ghost(|t: Trace| hand_drawn_trace(t)));
    let mut vf: Vec<bool> = Vec::new();
    let mut i: usize = 0;
    while i < vias.len()
        invariant i <= vias@.len(), vf@.len() == i,
            forall|j: int| 0 <= j < i ==> #[trigger] vf@[j] == hand_drawn_via(vias@[j]),
        decreases vias@.len() - i,
    {
        vf.push(!vias[i].routed && !vias[i].fanout);
        i += 1;
    }
    retain_flagged(vias, &vf, Ghost(|v: Via| hand_drawn_via(v)));
}

/// Whether two net references name the same net, or both none.
fn same_net(a: &Option<String>, b: &Option<String>) -> (r: bool)
    ensures r == (net_view(*a) == net_view(*b)),
{
    match (a, b) {
        (Some(x), Some(y)) => same_str(x.as_str(), y.as_str()),
        (None, None) => true,
        _ => false,
    }
}

/// Whether `trace clear` keeps an item on net `item_net`, routed or not:
/// with `routed_only` it keeps what was drawn by hand, and with a net it
/// keeps what lies on other nets; with neither it keeps nothing.
pub open spec fn clear_keeps(routed_only: bool, net: Option<Seq<char>>, routed: bool, item_net: Option<Seq<char>>) -> bool {
    (routed_only && !routed) || (net is Some && item_net != net)
}

/// `trace clear`: drops traces and vias, all of them, the routed ones
/// (`routed_only`), those of one net, or the routed ones of one net; the
/// rest stay in order. Returns how many traces and how many vias were
/// dropped.
pub fn clear_traces(traces: &mut Vec<Trace>, vias: &mut Vec<Via>, routed_only: bool, net: &Option<String>) -> (r: (usize, usize))
    ensures
        final(traces)@ == old(traces)@.filter(|t: Trace| clear_keeps(routed_only, net_view(*net), t.routed, net_view(t.net))),
        final(vias)@ == old(vias)@.filter(|v: Via| clear_keeps(routed_only, net_view(*net), v.routed, net_view(v.net))),
        r.0 == old(traces)@.len() - final(traces)@.len(),
        r.1 == old(vias)@.len() - final(vias)@.len(),
{
    let ghost nv = net_view(*net);
    let before_t = traces.len();
    let before_v = vias.len();
    let mut tf: Vec<bool> = Vec::new();
    let mut i: usize = 0;
    while i < traces.len()
        invariant i <= traces@.len(), tf@.len() == i, nv == net_view(*net),
            forall|j: int| 0 <= j < i ==> #[trigger] tf@[j] == clear_keeps(routed_only, nv, traces@[j].routed, net_view(traces@[j].net)),
        decreases traces@.len() - i,
    {
        let keep = (routed_only && !traces[i].routed) || (net.is_some() && !same_net(&traces[i].net, net));
        tf.push(keep);
        i += 1;
    }
    retain_flagged(traces, &tf, Ghost(|t: Trace| clear_keeps(routed_only, nv, t.routed, net_view(t.net))));
    let mut vf: Vec<bool> = Vec::new();
    let mut i: usize = 0;
    while i < vias.len()
        invariant i <= vias@.len(), vf@.len() == i, nv == net_view(*net),
            forall|j: int| 0 <= j < i ==> #[trigger] vf@[j] == clear_keeps(routed_only, nv, vias@[j].routed, net_view(vias@[j].net)),
        decreases vias@.len() - i,
    {
        let keep = (routed_only && !vias[i].routed) || (net.is_some() && !same_net(&vias[i].net, net));
        vf.push(keep);
        i += 1;
    }
    retain_flagged(vias, &vf, Ghost(|v: Via| clear_keeps(routed_only, nv, v.routed, net_view(v.net))));
    proof {
        broadcast use vstd::seq_lib::group_filter_ensures;
    }
    (before_t - traces.len(), before_v - vias.len())
}


/// A pad's copper as drawing a trace reads it: the layers it is on, its
/// outline and its net.
pub struct PadAt {
    pub layers: Vec<String>,
    pub copper: Vec<Point>,
    pub net: Option<String>,
}

/// The points with each run of repeats kept once.
pub open spec fn dedup_points(s: Seq<Point>) -> Seq<Point>
    decreases s.len(),
{
    if s.len() == 0 {
        s
    } else {
        let r = dedup_points(s.drop_last());
        if s.len() >= 2 && s[s.len() - 2] == s.last() { r } else { r.push(s.last()) }
    }
}

/// Whether the pad lends its net to a trace end at `at` on `layer`: it is
/// on the layer, its copper holds the point, and it has a net.
pub open spec fn pad_takes(p: PadAt, layer: Seq<char>, at: Point) -> bool {
    &&& texts(p.layers@).contains(layer)
    &&& clipper_inside(coords(p.copper@), (at.x.0, at.y.0))
    &&& p.net is Some
}

/// The net of the last pad in `pads` that lends its net to `at`.
pub open spec fn last_pad_net(pads: Seq<PadAt>, layer: Seq<char>, at: Point) -> Option<Seq<char>>
    decreases pads.len(),
{
    if pads.len() == 0 {
        None
    } else if pad_takes(pads.last(), layer, at) {
        net_view(pads.last().net)
    } else {
        last_pad_net(pads.drop_last(), layer, at)
    }
}

/// The net a trace from `first` to `last` takes from the pads at its ends:
/// that of a pad at the last point, else of one at the first point.
pub open spec fn inferred_net(pads: Seq<PadAt>, layer: Seq<char>, first: Point, last: Point) -> Option<Seq<char>> {
    match last_pad_net(pads, layer, last) {
        Some(n) => Some(n),
        None => last_pad_net(pads, layer, first),
    }
}

/// The names of the net classes.
pub open spec fn class_names(classes: Seq<(String, NetClass)>) -> Seq<Seq<char>> {
    classes.map_values(|e: (String, NetClass)| e.0@)
}

/// The trace width of a net class: its own where it sets one, else the
/// default; the default too for no class or a class not defined.
pub open spec fn class_width(classes: Seq<(String, NetClass)>, class: Option<Seq<char>>, default_width: Length) -> Length {
    match class {
        Some(c) => {
            let i = position_of(class_names(classes), c);
            if i < classes.len() {
                match classes[i].1.trace_width {
                    Some(w) => w,
                    None => default_width,
                }
            } else {
                default_width
            }
        },
        None => default_width,
    }
}

/// The points with each run of repeats kept once.
pub(crate) fn dedup(points: &Vec<Point>) -> (r: Vec<Point>)
    ensures r@ == dedup_points(points@),
{
    let mut r: Vec<Point> = Vec::new();
    let mut i: usize = 0;
    while i < points.len()
        invariant i <= points@.len(), r@ == dedup_points(points@.take(i as int)),
            i > 0 ==> r@.len() > 0 && r@.last() == points@[i - 1],
        decreases points@.len() - i,
    {
        proof {
            assert(points@.take(i + 1).drop_last() =~= points@.take(i as int));
            assert(points@.take(i + 1).last() == points@[i as int]);
            if i > 0 {
                assert(points@.take(i + 1)[i - 1] == points@[i - 1]);
            }
            lemma_dedup_last(points@.take(i as int));
        }
        if i == 0 || points[i - 1] != points[i] {
            r.push(points[i]);
        }
        i += 1;
    }
    proof { assert(points@.take(points@.len() as int) =~= points@); }
    r
}

proof fn lemma_dedup_last(s: Seq<Point>)
    ensures s.len() > 0 ==> dedup_points(s).len() > 0 && dedup_points(s).last() == s.last(),
    decreases s.len(),
{
    if s.len() > 1 {
        lemma_dedup_last(s.drop_last());
    }
}

/// Whether a pad is on `layer`.
fn pad_on_layer(p: &PadAt, layer: &str) -> (r: bool)
    ensures r == texts(p.layers@).contains(layer@),
{
    let mut i: usize = 0;
    while i < p.layers.len()
        invariant i <= p.layers@.len(), forall|j: int| 0 <= j < i ==> p.layers@[j]@ != layer@,
        decreases p.layers@.len() - i,
    {
        if same_str(p.layers[i].as_str(), layer) {
            proof { assert(texts(p.layers@)[i as int] == layer@); }
            return true;
        }
        i += 1;
    }
    proof {
        if texts(p.layers@).contains(layer@) {
            let j = choose|j: int| 0 <= j < texts(p.layers@).len() && texts(p.layers@)[j] == layer@;
            assert(p.layers@[j]@ == layer@);
        }
    }
    false
}

/// The net the pads at `at` lend, over `prev`: the last such pad's, else
/// `prev`.
fn pads_net_at(pads: &Vec<PadAt>, layer: &str, at: Point, prev: Option<String>) -> (r: Option<String>)
    ensures
        net_view(r) == (match last_pad_net(pads@, layer@, at) {
            Some(n) => Some(n),
            None => net_view(prev),
        }),
{
    let mut found = prev;
    let ghost p0 = net_view(found);
    let mut j: usize = 0;
    while j < pads.len()
        invariant
            j <= pads@.len(), p0 == net_view(prev),
            net_view(found) == (match last_pad_net(pads@.take(j as int), layer@, at) {
                Some(n) => Some(n),
                None => p0,
            }),
        decreases pads@.len() - j,
    {
        proof {
            assert(pads@.take(j + 1).drop_last() =~= pads@.take(j as int));
            assert(pads@.take(j + 1).last() == pads@[j as int]);
        }
        let pad = &pads[j];
        if pad_on_layer(pad, layer) && contains(&pad.copper, at) {
            match &pad.net {
                Some(n) => { found = Some(n.clone()); },
                None => {},
            }
        }
        j += 1;
    }
    proof { assert(pads@.take(pads@.len() as int) =~= pads@); }
    found
}

/// The width of the class `class` names, as `class_width` gives it.
pub(crate) fn width_of_class(classes: &Vec<(String, NetClass)>, class: &Option<String>, default_width: Length) -> (r: Length)
    ensures r == class_width(classes@, net_view(*class), default_width),
{
    match class {
        None => default_width,
        Some(c) => {
            let ghost names = class_names(classes@);
            let mut i: usize = 0;
            while i < classes.len()
                invariant i <= classes@.len(), names == class_names(classes@), net_view(*class) == Some(c@),
                    forall|j: int| 0 <= j < i ==> names[j] != c@,
                decreases classes@.len() - i,
            {
                proof { assert(names[i as int] == classes@[i as int].0@); }
                if same_str(classes[i].0.as_str(), c.as_str()) {
                    proof {
                        crate::template::lemma_position(names, c@, i as int);
                    }
                    return match classes[i].1.trace_width {
                        Some(w) => w,
                        None => default_width,
                    };
                }
                i += 1;
            }
            proof {
                assert(names.len() == classes@.len());
                crate::template::lemma_position(names, c@, i as int);
            }
            default_width
        },
    }
}

/// `trace add`: draws a hand-made trace on `layer` through `points` (runs
/// of repeated points kept once). The net is `net` where given, which must
/// be a net of the project; else the net of a pad at the last point, else
/// of one at the first. The width is `width` where given, else that of the
/// net's class. Returns the net the trace took; refuses fewer than two
/// distinct points and an unknown net, drawing nothing.
pub fn add_trace(traces: &mut Vec<Trace>, nets: &Vec<(String, Net)>, classes: &Vec<(String, NetClass)>,
    default_width: Length, pads: &Vec<PadAt>, layer: &str, points: &Vec<Point>, width: Option<Length>,
    net: &Option<String>) -> (r: Result<Option<String>, NetEditError>)
    ensures
        ({
            let pts = dedup_points(points@);
            let nv = nets_view(nets@);
            if pts.len() < 2 {
                &&& r matches Err(NetEditError::Invalid(e)) && e.message@ == "a trace needs two distinct points"@
                    && e.help is None
                &&& final(traces)@ == old(traces)@
            } else if *net is Some && position_of(names_of(nv), (*net)->0@) >= nv.len() {
                &&& r matches Err(x) && is_no_such_net(x, (*net)->0@, nv)
                &&& final(traces)@ == old(traces)@
            } else {
                let chosen = match *net {
                    Some(n) => Some(n@),
                    None => inferred_net(pads@, layer@, pts[0], pts.last()),
                };
                let w = match width {
                    Some(w) => w,
                    None => class_width(classes@, match chosen { Some(c) => class_named(nv, c), None => None }, default_width),
                };
                &&& r matches Ok(got) && net_view(got) == chosen
                &&& final(traces)@.len() == old(traces)@.len() + 1
                &&& final(traces)@.drop_last() == old(traces)@
                &&& final(traces)@.last().layer@ == layer@
                &&& net_view(final(traces)@.last().net) == chosen
                &&& final(traces)@.last().width == w
                &&& final(traces)@.last().points@ == pts
                &&& !final(traces)@.last().routed && !final(traces)@.last().fanout
            }
        }),
{
    let pts = dedup(points);
    if pts.len() < 2 {
        return Err(NetEditError::Invalid(Error::msg("a trace needs two distinct points".to_owned())));
    }
    let chosen: Option<String> = match net {
        Some(n) => {
            let i = net_index(nets, n.as_str());
            if i >= nets.len() {
                return Err(unknown_net(nets, n.as_str()));
            }
            Some(n.clone())
        },
        None => {
            let first = pads_net_at(pads, layer, pts[0], None);
            pads_net_at(pads, layer, pts[pts.len() - 1], first)
        },
    };
    let w = match width {
        Some(w) => w,
        None => {
            let class: Option<String> = match &chosen {
                Some(c) => {
                    let i = net_index(nets, c.as_str());
                    if i < nets.len() { nets[i].1.class.clone() } else { None }
                },
                None => None,
            };
            width_of_class(classes, &class, default_width)
        },
    };
    let got = chosen.clone();
    traces.push(Trace { layer: layer.to_owned(), net: chosen, width: w, points: pts, routed: false, fanout: false });
    Ok(got)
}

} // verus!
