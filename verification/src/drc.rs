//! Small rules of the design-rule checker: findings, side names, feature
//! centres and the bounding-box test that keeps the pairwise checks cheap.

use vstd::prelude::*;
use crate::units::{Length, Point};
use crate::schema::{Feature, Severity, Side, Where, Relation};
use crate::text::same_str;
use crate::geom::{bounds, in_rings};

verus! {

/// One result of a design-rule check.
#[derive(Clone, Debug)]
pub struct Finding {
    pub rule: String,
    pub severity: Severity,
    pub message: String,
    pub at: Option<Point>,
    /// Ids a waiver can name: the feature id(s), reference designator(s), net(s).
    pub features: Vec<String>,
    pub waived: Option<String>,
}

/// The name of a board side in reports.
pub fn side_name(s: Side) -> (r: &'static str)
    ensures r@ == (match s { Side::Top => "top"@, Side::Bottom => "bottom"@ }),
{
    match s {
        Side::Top => "top",
        Side::Bottom => "bottom",
    }
}

/// The middle of two coordinates, rounded toward zero.
pub open spec fn mid(a: int, b: int) -> int {
    let s = a + b;
    if s >= 0 { s / 2 } else { -((-s) / 2) }
}

fn mid_exec(a: i64, b: i64) -> (r: i64)
    ensures r == mid(a as int, b as int),
{
    let s = a as i128 + b as i128;
    if s >= 0 { (s / 2) as i64 } else { (-((-s) / 2)) as i64 }
}

/// The centre of the bounding box of `rings`, or the origin where they hold
/// no point.
pub fn centre(rings: &Vec<Vec<Point>>) -> (r: Point)
    ensures
        match bounds_spec(rings@) {
            Some((lo, hi)) => r.x.0 == mid(lo.x.0 as int, hi.x.0 as int) && r.y.0 == mid(lo.y.0 as int, hi.y.0 as int),
            None => r.x.0 == 0 && r.y.0 == 0,
        },
{
    match bounds(rings) {
        Some((lo, hi)) => {
            proof { lemma_bounds_unique(rings@, lo, hi); }
            Point::nm(mid_exec(lo.x.0, hi.x.0), mid_exec(lo.y.0, hi.y.0))
        },
        None => Point::nm(0, 0),
    }
}

/// The box `bounds` reports, as a function of the rings.
pub open spec fn bounds_spec(rings: Seq<Vec<Point>>) -> Option<(Point, Point)> {
    if exists|lo: Point, hi: Point| #[trigger] is_bounds(rings, lo, hi) {
        let (lo, hi) = choose|lo: Point, hi: Point| #[trigger] is_bounds(rings, lo, hi);
        Some((lo, hi))
    } else {
        None
    }
}

/// `lo` and `hi` are the lowest and highest coordinates of the points of
/// `rings`.
pub open spec fn is_bounds(rings: Seq<Vec<Point>>, lo: Point, hi: Point) -> bool {
    &&& forall|i: int, j: int| #[trigger] in_rings(rings, i, j) ==> {
        let p = rings[i]@[j];
        lo.x.0 <= p.x.0 <= hi.x.0 && lo.y.0 <= p.y.0 <= hi.y.0
    }
    &&& exists|i: int, j: int| #[trigger] in_rings(rings, i, j) && rings[i]@[j].x == lo.x
    &&& exists|i: int, j: int| #[trigger] in_rings(rings, i, j) && rings[i]@[j].y == lo.y
    &&& exists|i: int, j: int| #[trigger] in_rings(rings, i, j) && rings[i]@[j].x == hi.x
    &&& exists|i: int, j: int| #[trigger] in_rings(rings, i, j) && rings[i]@[j].y == hi.y
}

proof fn lemma_bounds_unique(rings: Seq<Vec<Point>>, lo: Point, hi: Point)
    requires is_bounds(rings, lo, hi),
    ensures bounds_spec(rings) == Some((lo, hi)),
{
    let (a, b) = choose|a: Point, b: Point| #[trigger] is_bounds(rings, a, b);
    let (i1, j1) = choose|i: int, j: int| #[trigger] in_rings(rings, i, j) && rings[i]@[j].x == lo.x;
    let (i2, j2) = choose|i: int, j: int| #[trigger] in_rings(rings, i, j) && rings[i]@[j].x == a.x;
    let (i3, j3) = choose|i: int, j: int| #[trigger] in_rings(rings, i, j) && rings[i]@[j].y == lo.y;
    let (i4, j4) = choose|i: int, j: int| #[trigger] in_rings(rings, i, j) && rings[i]@[j].y == a.y;
    let (i5, j5) = choose|i: int, j: int| #[trigger] in_rings(rings, i, j) && rings[i]@[j].x == hi.x;
    let (i6, j6) = choose|i: int, j: int| #[trigger] in_rings(rings, i, j) && rings[i]@[j].x == b.x;
    let (i7, j7) = choose|i: int, j: int| #[trigger] in_rings(rings, i, j) && rings[i]@[j].y == hi.y;
    let (i8, j8) = choose|i: int, j: int| #[trigger] in_rings(rings, i, j) && rings[i]@[j].y == b.y;
    assert(a == lo);
    assert(b == hi);
}

/// Whether a feature kind is copper.
pub fn is_copper(k: Feature) -> (r: bool)
    ensures r == (k == Feature::Trace || k == Feature::Via || k == Feature::Pad || k == Feature::Pour),
{
    match k {
        Feature::Trace | Feature::Via | Feature::Pad | Feature::Pour => true,
        _ => false,
    }
}

/// Whether the bounding boxes of `a` and `b`, grown by `d`, touch; `false`
/// where either has no point.
pub open spec fn boxes_near(a: Option<(Point, Point)>, b: Option<(Point, Point)>, d: int) -> bool {
    match (a, b) {
        (Some((alo, ahi)), Some((blo, bhi))) => !(ahi.x.0 + d < blo.x.0 || bhi.x.0 + d < alo.x.0
            || ahi.y.0 + d < blo.y.0 || bhi.y.0 + d < alo.y.0),
        _ => false,
    }
}

/// Whether `a` and `b` may lie within `d` of each other, by their boxes.
pub fn bbox_near(a: &Vec<Vec<Point>>, b: &Vec<Vec<Point>>, d: Length) -> (r: bool)
    ensures r == boxes_near(bounds_spec(a@), bounds_spec(b@), d.0 as int),
{
    match (bounds(a), bounds(b)) {
        (Some((alo, ahi)), Some((blo, bhi))) => {
            proof { lemma_bounds_unique(a@, alo, ahi); lemma_bounds_unique(b@, blo, bhi); }
            let dd = d.0 as i128;
            !((ahi.x.0 as i128) + dd < blo.x.0 as i128 || (bhi.x.0 as i128) + dd < alo.x.0 as i128
                || (ahi.y.0 as i128) + dd < blo.y.0 as i128 || (bhi.y.0 as i128) + dd < alo.y.0 as i128)
        },
        (ra, rb) => {
            proof {
                if ra is Some { let (lo, hi) = ra->0; lemma_bounds_unique(a@, lo, hi); }
                if rb is Some { let (lo, hi) = rb->0; lemma_bounds_unique(b@, lo, hi); }
                if ra is None { assert(bounds_spec(a@) is None) by { lemma_no_bounds(a@); } }
                if rb is None { assert(bounds_spec(b@) is None) by { lemma_no_bounds(b@); } }
            }
            false
        },
    }
}

proof fn lemma_no_bounds(rings: Seq<Vec<Point>>)
    requires forall|i: int| 0 <= i < rings.len() ==> (#[trigger] rings[i])@.len() == 0,
    ensures bounds_spec(rings) is None,
{
    if exists|lo: Point, hi: Point| #[trigger] is_bounds(rings, lo, hi) {
        let (lo, hi) = choose|lo: Point, hi: Point| #[trigger] is_bounds(rings, lo, hi);
        let (i, j) = choose|i: int, j: int| #[trigger] in_rings(rings, i, j) && rings[i]@[j].x == lo.x;
        assert(rings[i]@.len() == 0);
    }
}

/// One checkable thing on the board, as the selection rules read it.
#[derive(Clone, Debug)]
pub struct Item {
    pub kind: Feature,
    /// Human-readable, stable enough to waive: `R1.2`, `trace VIN at 4,6.5`.
    pub id: String,
    pub refdes: Option<String>,
    pub net: Option<String>,
    /// Copper layers occupied, or `top`/`bottom` for side features; empty = all.
    pub layers: Vec<String>,
    pub geom: Vec<Vec<Point>>,
    pub plated: Option<bool>,
    /// `smd` or `through_hole`, for pads.
    pub pad_kind: Option<String>,
    pub footprint: Option<String>,
    pub component: Option<String>,
    pub class: Option<String>,
    pub center: Point,
    /// Copper text keeps its stroke points here.
    pub extra: Vec<Point>,
}

/// Whether an optional text is present and equal to `t`.
pub open spec fn text_is(o: Option<String>, t: Seq<char>) -> bool {
    o matches Some(x) && x@ == t
}

/// Two optional texts, compared by their contents.
pub open spec fn same_opt(a: Option<String>, b: Option<String>) -> bool {
    match (a, b) {
        (Some(x), Some(y)) => x@ == y@,
        (None, None) => true,
        _ => false,
    }
}

/// Whether an item is copper: a copper kind, or text that carries strokes.
pub open spec fn copper_item(it: Item) -> bool {
    (it.kind == Feature::Trace || it.kind == Feature::Via || it.kind == Feature::Pad || it.kind == Feature::Pour)
        || (it.kind == Feature::Text && it.extra@.len() > 0)
}

/// Whether a rule `for` feature `f` selects the item: `copper` any copper,
/// `silk_text` silk text and free text without copper strokes, any other
/// kind itself.
pub open spec fn selects_spec(f: Feature, it: Item) -> bool {
    match f {
        Feature::Copper => copper_item(it),
        Feature::SilkText => it.kind == Feature::SilkText || (it.kind == Feature::Text && it.extra@.len() == 0),
        _ => it.kind == f,
    }
}

/// Whether the item meets every filter of a rule's `where`; an item on all
/// layers meets any layer filter.
pub open spec fn matches_where_spec(w: Option<Where>, it: Item) -> bool {
    match w {
        None => true,
        Some(w) => {
            &&& (w.layer matches Some(l) ==> it.layers@.len() == 0 || exists|i: int| 0 <= i < it.layers@.len() && #[trigger] it.layers@[i]@ == l@)
            &&& (w.net matches Some(n) ==> text_is(it.net, n@))
            &&& (w.class matches Some(c) ==> text_is(it.class, c@))
            &&& (w.plated matches Some(p) ==> it.plated == Some(p))
            &&& (w.kind matches Some(k) ==> text_is(it.pad_kind, k@))
            &&& (w.refdes matches Some(r) ==> text_is(it.refdes, r@))
            &&& (w.footprint matches Some(f) ==> text_is(it.footprint, f@))
            &&& (w.component matches Some(c) ==> text_is(it.component, c@))
        },
    }
}

/// Whether two items can meet: one is on all layers, or they share one.
pub open spec fn share_layer_spec(a: Item, b: Item) -> bool {
    a.layers@.len() == 0 || b.layers@.len() == 0
        || exists|i: int, j: int| 0 <= i < a.layers@.len() && 0 <= j < b.layers@.len() && #[trigger] a.layers@[i]@ == #[trigger] b.layers@[j]@
}

/// Whether a pair of items is one a clearance rule with relation `rel`
/// measures.
pub open spec fn related_spec(rel: Relation, a: Item, b: Item) -> bool {
    match rel {
        Relation::DifferentNet => !(a.net is Some && same_opt(a.net, b.net)),
        Relation::Any => true,
        Relation::DifferentPart => !(a.refdes is Some && same_opt(a.refdes, b.refdes)),
        Relation::SameNet => a.net is Some && same_opt(a.net, b.net),
    }
}

/// Whether an item is copper.
pub fn is_copper_item(it: &Item) -> (r: bool)
    ensures r == copper_item(*it),
{
    is_copper(it.kind) || (it.kind == Feature::Text && it.extra.len() > 0)
}

/// Whether a rule for feature `f` selects the item.
pub fn selects(f: Feature, it: &Item) -> (r: bool)
    ensures r == selects_spec(f, *it),
{
    match f {
        Feature::Copper => is_copper_item(it),
        Feature::SilkText => it.kind == Feature::SilkText || (it.kind == Feature::Text && it.extra.len() == 0),
        _ => it.kind == f,
    }
}

fn opt_is(o: &Option<String>, t: &String) -> (r: bool)
    ensures r == text_is(*o, t@),
{
    match o {
        Some(x) => same_str(x.as_str(), t.as_str()),
        None => false,
    }
}

pub(crate) fn opt_same(a: &Option<String>, b: &Option<String>) -> (r: bool)
    ensures r == same_opt(*a, *b),
{
    match (a, b) {
        (Some(x), Some(y)) => same_str(x.as_str(), y.as_str()),
        (None, None) => true,
        _ => false,
    }
}

fn on_layer(layers: &Vec<String>, l: &String) -> (r: bool)
    ensures r == exists|i: int| 0 <= i < layers@.len() && #[trigger] layers@[i]@ == l@,
{
    let mut i: usize = 0;
    while i < layers.len()
        invariant i <= layers@.len(), forall|j: int| 0 <= j < i ==> layers@[j]@ != l@,
        decreases layers@.len() - i,
    {
        if same_str(layers[i].as_str(), l.as_str()) {
            return true;
        }
        i += 1;
    }
    false
}

/// Whether the item meets the filters of a rule's `where`.
pub fn matches_where(w: &Option<Where>, it: &Item) -> (r: bool)
    ensures r == matches_where_spec(*w, *it),
{
    let w = match w {
        None => return true,
        Some(w) => w,
    };
    if let Some(l) = &w.layer {
        if it.layers.len() > 0 && !on_layer(&it.layers, l) {
            return false;
        }
    }
    if let Some(n) = &w.net {
        if !opt_is(&it.net, n) {
            return false;
        }
    }
    if let Some(c) = &w.class {
        if !opt_is(&it.class, c) {
            return false;
        }
    }
    if let Some(p) = w.plated {
        match it.plated {
            Some(q) => {
                if q != p {
                    return false;
                }
            },
            None => return false,
        }
    }
    if let Some(k) = &w.kind {
        if !opt_is(&it.pad_kind, k) {
            return false;
        }
    }
    if let Some(r) = &w.refdes {
        if !opt_is(&it.refdes, r) {
            return false;
        }
    }
    if let Some(f) = &w.footprint {
        if !opt_is(&it.footprint, f) {
            return false;
        }
    }
    if let Some(c) = &w.component {
        if !opt_is(&it.component, c) {
            return false;
        }
    }
    true
}

/// Whether two items can meet on a layer.
pub fn share_layer(a: &Item, b: &Item) -> (r: bool)
    ensures r == share_layer_spec(*a, *b),
{
    if a.layers.len() == 0 || b.layers.len() == 0 {
        return true;
    }
    let mut i: usize = 0;
    while i < a.layers.len()
        invariant
            i <= a.layers@.len(),
            forall|x: int, y: int| 0 <= x < i && 0 <= y < b.layers@.len() ==> a.layers@[x]@ != b.layers@[y]@,
        decreases a.layers@.len() - i,
    {
        if on_layer(&b.layers, &a.layers[i]) {
            return true;
        }
        i += 1;
    }
    false
}

/// Whether a clearance rule with relation `rel` measures the pair.
pub fn related(rel: Relation, a: &Item, b: &Item) -> (r: bool)
    ensures r == related_spec(rel, *a, *b),
{
    match rel {
        Relation::DifferentNet => !(a.net.is_some() && opt_same(&a.net, &b.net)),
        Relation::Any => true,
        Relation::DifferentPart => !(a.refdes.is_some() && opt_same(&a.refdes, &b.refdes)),
        Relation::SameNet => a.net.is_some() && opt_same(&a.net, &b.net),
    }
}

/// The names a waiver can give an item's findings: its id, then its
/// reference and its net where it has them.
pub open spec fn features_text(it: Item) -> Seq<Seq<char>> {
    seq![it.id@] + (match it.refdes { Some(r) => seq![r@], None => Seq::empty() })
        + (match it.net { Some(n) => seq![n@], None => Seq::empty() })
}

/// The names a waiver can give an item's findings.
pub fn features_of(it: &Item) -> (r: Vec<String>)
    ensures r@.map_values(|s: String| s@) == features_text(*it),
{
    let mut v: Vec<String> = Vec::new();
    v.push(it.id.clone());
    if let Some(r) = &it.refdes {
        v.push(r.clone());
    }
    if let Some(n) = &it.net {
        v.push(n.clone());
    }
    proof { assert(v@.map_values(|s: String| s@) =~= features_text(*it)); }
    v
}

} // verus!
