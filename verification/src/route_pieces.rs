//! Turning the router's cell paths into copper: a leg splits into runs on
//! one layer each with a via at every layer change, and the runs, once
//! pulled straight into points, join into traces that land on the pad
//! centres.

use vstd::prelude::*;
use crate::units::{Length, Point};
use crate::schema::Trace;
use crate::geom::{contains, coords, clipper_inside};
use crate::wiring::{dedup, dedup_points};
use crate::route_search::Cell;

verus! {

/// The runs of a leg: its stretches on one layer, in order, each with the
/// columns and rows of its cells.
pub open spec fn runs_of(leg: Seq<Cell>) -> Seq<(usize, Seq<(usize, usize)>)>
    decreases leg.len(),
{
    if leg.len() == 0 {
        Seq::empty()
    } else {
        let r = runs_of(leg.drop_last());
        let c = leg.last();
        if r.len() > 0 && r.last().0 == c.0 {
            r.update(r.len() - 1, (c.0, r.last().1.push((c.1, c.2))))
        } else {
            r.push((c.0, seq![(c.1, c.2)]))
        }
    }
}

/// Where a leg changes layer: the last cell before each change.
pub open spec fn vias_of(leg: Seq<Cell>) -> Seq<(usize, usize)>
    decreases leg.len(),
{
    if leg.len() < 2 {
        Seq::empty()
    } else {
        let r = vias_of(leg.drop_last());
        let p = leg[leg.len() - 2];
        if p.0 != leg.last().0 { r.push((p.1, p.2)) } else { r }
    }
}

/// A run as views.
pub open spec fn runs_view(v: Seq<(usize, Vec<(usize, usize)>)>) -> Seq<(usize, Seq<(usize, usize)>)> {
    v.map_values(|r: (usize, Vec<(usize, usize)>)| (r.0, r.1@))
}

/// Splits a leg into its runs and the cells where vias go.
pub fn leg_runs(leg: &Vec<Cell>) -> (r: (Vec<(usize, Vec<(usize, usize)>)>, Vec<(usize, usize)>))
    ensures runs_view(r.0@) == runs_of(leg@), r.1@ == vias_of(leg@),
{
    let mut done: Vec<(usize, Vec<(usize, usize)>)> = Vec::new();
    let mut vias: Vec<(usize, usize)> = Vec::new();
    if leg.len() == 0 {
        proof { assert(runs_view(done@) =~= runs_of(leg@)); }
        return (done, vias);
    }
    let mut cur_layer = leg[0].0;
    let mut cur: Vec<(usize, usize)> = Vec::new();
    cur.push((leg[0].1, leg[0].2));
    proof {
        assert(leg@.take(1).drop_last() =~= Seq::<Cell>::empty());
        assert(runs_of(Seq::<Cell>::empty()) =~= Seq::<(usize, Seq<(usize, usize)>)>::empty());
        assert(leg@.take(1).last() == leg@[0]);
        assert(runs_of(leg@.take(1)) =~= seq![(cur_layer, cur@)]);
        assert(vias_of(leg@.take(1)) =~= Seq::<(usize, usize)>::empty());
    }
    let mut k: usize = 1;
    while k < leg.len()
        invariant
            1 <= k <= leg@.len(),
            runs_of(leg@.take(k as int)) == runs_view(done@).push((cur_layer, cur@)),
            vias_of(leg@.take(k as int)) == vias@,
            cur_layer == leg@[k - 1].0,
            cur@.len() > 0 && cur@.last() == (leg@[k - 1].1, leg@[k - 1].2),
        decreases leg@.len() - k,
    {
        let c = leg[k];
        proof {
            assert(leg@.take(k + 1).drop_last() =~= leg@.take(k as int));
            assert(leg@.take(k + 1).last() == c);
            assert(leg@.take(k + 1)[k - 1] == leg@[k - 1]);
        }
        if c.0 == cur_layer {
            cur.push((c.1, c.2));
        } else {
            let (px, py) = cur[cur.len() - 1];
            vias.push((px, py));
            let ghost old_done = runs_view(done@);
            let mut old_cur: Vec<(usize, usize)> = Vec::new();
            old_cur.push((c.1, c.2));
            std::mem::swap(&mut cur, &mut old_cur);
            done.push((cur_layer, old_cur));
            proof { assert(runs_view(done@) =~= old_done.push((cur_layer, old_cur@))); }
            cur_layer = c.0;
        }
        k += 1;
    }
    proof { assert(leg@.take(leg@.len() as int) =~= leg@); }
    let ghost before = runs_view(done@);
    done.push((cur_layer, cur));
    proof { assert(runs_view(done@) =~= before.push((cur_layer, done@.last().1@))); }
    (done, vias)
}


/// The last point of a polyline, if any.
pub open spec fn last_point(s: Seq<Point>) -> Option<Point> {
    if s.len() == 0 { None } else { Some(s.last()) }
}

/// The first point of a polyline, if any.
pub open spec fn first_point(s: Seq<Point>) -> Option<Point> {
    if s.len() == 0 { None } else { Some(s[0]) }
}

/// Pieces on one layer, in order, joined where one begins where the one
/// before it on the same layer ends (the shared point kept once).
pub open spec fn joined(ps: Seq<(Seq<char>, Seq<Point>)>) -> Seq<(Seq<char>, Seq<Point>)>
    decreases ps.len(),
{
    if ps.len() == 0 {
        Seq::empty()
    } else {
        let acc = joined(ps.drop_last());
        let p = ps.last();
        if acc.len() > 0 && acc.last().0 == p.0 && last_point(acc.last().1) == first_point(p.1) {
            acc.update(acc.len() - 1, (p.0, acc.last().1 + p.1.skip(1)))
        } else {
            acc.push(p)
        }
    }
}

/// The point as Clipper2 coordinates.
pub open spec fn xy_of(p: Point) -> (i64, i64) {
    (p.x.0, p.y.0)
}

/// The traces landed on the pad centres: the first point moves to the
/// first pad's centre where that pad holds it, and the last point to the
/// second pad's centre where that pad holds it.
pub open spec fn landed(js: Seq<(Seq<char>, Seq<Point>)>, from_copper: Seq<Point>, from_center: Point,
    to_copper: Seq<Point>, to_center: Point) -> Seq<(Seq<char>, Seq<Point>)> {
    let a = if js.len() > 0 && clipper_inside(coords(from_copper), xy_of(js[0].1[0])) {
        js.update(0, (js[0].0, js[0].1.update(0, from_center)))
    } else {
        js
    };
    if a.len() > 0 && clipper_inside(coords(to_copper), xy_of(a.last().1.last())) {
        a.update(a.len() - 1, (a.last().0, a.last().1.update(a.last().1.len() - 1, to_center)))
    } else {
        a
    }
}

/// Each polyline with repeated points kept once; those left with fewer
/// than two points dropped.
pub open spec fn kept_polylines(js: Seq<(Seq<char>, Seq<Point>)>) -> Seq<(Seq<char>, Seq<Point>)>
    decreases js.len(),
{
    if js.len() == 0 {
        Seq::empty()
    } else {
        let r = kept_polylines(js.drop_last());
        let d = dedup_points(js.last().1);
        if d.len() >= 2 { r.push((js.last().0, d)) } else { r }
    }
}

/// Traces as their layer and points.
pub open spec fn traces_view(ts: Seq<Trace>) -> Seq<(Seq<char>, Seq<Point>)> {
    ts.map_values(|t: Trace| (t.layer@, t.points@))
}

/// Pieces as their layer and points.
pub open spec fn pieces_view(ps: Seq<(String, Vec<Point>)>) -> Seq<(Seq<char>, Seq<Point>)> {
    ps.map_values(|p: (String, Vec<Point>)| (p.0@, p.1@))
}

pub(crate) fn copy_points(v: &Vec<Point>, from: usize) -> (r: Vec<Point>)
    requires from <= v@.len(),
    ensures r@ == v@.skip(from as int),
{
    let mut r: Vec<Point> = Vec::new();
    let mut i = from;
    while i < v.len()
        invariant from <= i <= v@.len(), r@ == v@.subrange(from as int, i as int),
        decreases v@.len() - i,
    {
        r.push(v[i]);
        proof { assert(r@ =~= v@.subrange(from as int, i + 1)); }
        i += 1;
    }
    proof { assert(v@.subrange(from as int, v@.len() as int) =~= v@.skip(from as int)); }
    r
}

/// The route's copper on one net: pieces (a layer and the points of a
/// run pulled straight, none empty) joined into traces of the given width
/// where they meet on one layer, landed on the pad centres, with repeated
/// points dropped and traces of fewer than two points left out.
pub fn finish_traces(pieces: &Vec<(String, Vec<Point>)>, net: &str, width: Length,
    from_copper: &Vec<Point>, from_center: Point, to_copper: &Vec<Point>, to_center: Point) -> (r: Vec<Trace>)
    requires forall|i: int| 0 <= i < pieces@.len() ==> (#[trigger] pieces@[i]).1@.len() > 0,
    ensures
        traces_view(r@) == kept_polylines(landed(joined(pieces_view(pieces@)), from_copper@, from_center, to_copper@, to_center)),
        forall|i: int| 0 <= i < r@.len() ==> {
            let t = #[trigger] r@[i];
            &&& t.net matches Some(n) && n@ == net@
            &&& t.width == width && !t.routed && !t.fanout
        },
{
    let ghost pv = pieces_view(pieces@);
    let mut js: Vec<(String, Vec<Point>)> = Vec::new();
    let mut k: usize = 0;
    while k < pieces.len()
        invariant
            k <= pieces@.len(), pv == pieces_view(pieces@),
            pieces_view(js@) == joined(pv.take(k as int)),
            forall|i: int| 0 <= i < pieces@.len() ==> (#[trigger] pieces@[i]).1@.len() > 0,
            forall|i: int| 0 <= i < js@.len() ==> (#[trigger] js@[i]).1@.len() > 0,
        decreases pieces@.len() - k,
    {
        proof {
            assert(pv.take(k + 1).drop_last() =~= pv.take(k as int));
            assert(pv.take(k + 1).last() == pv[k as int]);
            assert(pieces@[k as int].1@.len() > 0);
        }
        let (pl, pp) = (&pieces[k].0, &pieces[k].1);
        let mut extend = false;
        if js.len() > 0 {
            let n = js.len();
            let lp = &js[n - 1].1;
            if crate::text::same_str(js[n - 1].0.as_str(), pl.as_str()) && lp[lp.len() - 1] == pp[0] {
                extend = true;
            }
        }
        let ghost before = pieces_view(js@);
        if extend {
            let (l, mut pts) = js.pop().unwrap();
            let rest = copy_points(pp, 1);
            let ghost p0 = pts@;
            let mut i: usize = 0;
            while i < rest.len()
                invariant i <= rest@.len(), pts@ == p0 + rest@.take(i as int),
                decreases rest@.len() - i,
            {
                pts.push(rest[i]);
                proof { assert(pts@ =~= p0 + rest@.take(i + 1)); }
                i += 1;
            }
            proof { assert(rest@.take(rest@.len() as int) =~= rest@); }
            js.push((l, pts));
            proof {
                assert(pieces_view(js@) =~= before.update(before.len() - 1, (pv[k as int].0, before.last().1 + pv[k as int].1.skip(1))));
            }
        } else {
            let l2 = pl.clone();
            let pts = copy_points(pp, 0);
            proof { assert(pp@.skip(0) =~= pp@); }
            js.push((l2, pts));
            proof { assert(pieces_view(js@) =~= before.push(pv[k as int])); }
        }
        k += 1;
    }
    proof { assert(pv.take(pv.len() as int) =~= pv); }
    let ghost jv = pieces_view(js@);
    if js.len() > 0 && contains(from_copper, js[0].1[0]) {
        let (l, mut pts) = js.remove(0);
        pts.set(0, from_center);
        js.insert(0, (l, pts));
        proof { assert(pieces_view(js@) =~= jv.update(0, (jv[0].0, jv[0].1.update(0, from_center)))); }
    }
    let ghost av = pieces_view(js@);
    if js.len() > 0 {
        let n = js.len();
        let m = js[n - 1].1.len();
        if contains(to_copper, js[n - 1].1[m - 1]) {
            let (l, mut pts) = js.pop().unwrap();
            pts.set(m - 1, to_center);
            js.push((l, pts));
            proof { assert(pieces_view(js@) =~= av.update(av.len() - 1, (av.last().0, av.last().1.update(av.last().1.len() - 1, to_center)))); }
        }
    }
    let ghost lv = pieces_view(js@);
    let mut out: Vec<Trace> = Vec::new();
    let mut i: usize = 0;
    while i < js.len()
        invariant
            i <= js@.len(), lv == pieces_view(js@),
            traces_view(out@) == kept_polylines(lv.take(i as int)),
            forall|j: int| 0 <= j < out@.len() ==> {
                let t = #[trigger] out@[j];
                &&& t.net matches Some(n) && n@ == net@
                &&& t.width == width && !t.routed && !t.fanout
            },
        decreases js@.len() - i,
    {
        proof {
            assert(lv.take(i + 1).drop_last() =~= lv.take(i as int));
            assert(lv.take(i + 1).last() == lv[i as int]);
        }
        let d = dedup(&js[i].1);
        if d.len() >= 2 {
            let ghost before = traces_view(out@);
            out.push(Trace { layer: js[i].0.clone(), net: Some(net.to_owned()), width, points: d, routed: false, fanout: false });
            proof { assert(traces_view(out@) =~= before.push((lv[i as int].0, dedup_points(lv[i as int].1)))); }
        }
        i += 1;
    }
    proof { assert(lv.take(lv.len() as int) =~= lv); }
    out
}

} // verus!
