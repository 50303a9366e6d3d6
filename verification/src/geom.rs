//! Board geometry in integer nanometres: outline edges and the check that
//! they close, bounding boxes, rectangles, exact polygon areas, and Clipper2's
//! boolean operations on rings.

use vstd::prelude::*;
use crate::units::{Length, Point, point_text, length_text, dist2, close_enough};
use crate::text::{push_str, push_char};
use crate::numfmt::{nat_digits, push_nat};
use crate::error::Error;
use crate::decimal::clamp_i64;
use crate::isqrt::round_sqrt;
use clipper2::{Clipper, FillRule, One, Paths, PointInPolygonResult};
use clipper2::Point as CPoint;

verus! {

/// One edge of an outline: a straight line or a circular arc.
#[derive(Clone, Copy, PartialEq, Eq, Structural, Debug)]
pub enum Edge {
    Line { from: Point, to: Point },
    Arc { from: Point, to: Point, center: Point, clockwise: bool },
}

/// Where an edge starts.
pub open spec fn edge_from(e: Edge) -> Point {
    match e {
        Edge::Line { from, .. } => from,
        Edge::Arc { from, .. } => from,
    }
}

/// Where an edge ends.
pub open spec fn edge_to(e: Edge) -> Point {
    match e {
        Edge::Line { to, .. } => to,
        Edge::Arc { to, .. } => to,
    }
}

/// An edge as a user reads it.
pub open spec fn edge_text(e: Edge) -> Seq<char> {
    match e {
        Edge::Line { from, to } => "line "@ + point_text(from) + " -> "@ + point_text(to),
        Edge::Arc { from, to, center, clockwise } => "arc "@ + point_text(from) + " -> "@ + point_text(to)
            + " about "@ + point_text(center) + " ("@ + (if clockwise { "cw"@ } else { "ccw"@ }) + ")"@,
    }
}

impl Edge {
    /// Where the edge starts.
    pub fn from(&self) -> (r: Point)
        ensures r == edge_from(*self),
    {
        match self {
            Edge::Line { from, .. } => *from,
            Edge::Arc { from, .. } => *from,
        }
    }

    /// Where the edge ends.
    pub fn to(&self) -> (r: Point)
        ensures r == edge_to(*self),
    {
        match self {
            Edge::Line { to, .. } => *to,
            Edge::Arc { to, .. } => *to,
        }
    }

    /// The edge as a user reads it.
    pub fn describe(&self) -> (r: String)
        ensures r@ == edge_text(*self),
    {
        let mut s = String::new();
        match self {
            Edge::Line { from, to } => {
                push_str(&mut s, "line ");
                push_str(&mut s, &from.to_string());
                push_str(&mut s, " -> ");
                push_str(&mut s, &to.to_string());
            },
            Edge::Arc { from, to, center, clockwise } => {
                push_str(&mut s, "arc ");
                push_str(&mut s, &from.to_string());
                push_str(&mut s, " -> ");
                push_str(&mut s, &to.to_string());
                push_str(&mut s, " about ");
                push_str(&mut s, &center.to_string());
                push_str(&mut s, " (");
                if *clockwise { push_str(&mut s, "cw"); } else { push_str(&mut s, "ccw"); }
                push_str(&mut s, ")");
            },
        }
        s
    }
}

/// The gap between edge `i` and the edge after it (the first after the
/// last), rounded to the nanometre.
pub open spec fn gap_nm(edges: Seq<Edge>, i: int) -> i64 {
    let next = edges[(i + 1) % (edges.len() as int)];
    clamp_i64(round_sqrt(dist2(edge_to(edges[i]), edge_from(next))) as int)
}

/// Consecutive edges are close enough that their gap can be measured.
pub open spec fn gaps_measurable(edges: Seq<Edge>) -> bool {
    forall|i: int| 0 <= i < edges.len() ==>
        close_enough(edge_to(#[trigger] edges[i]), edge_from(edges[(i + 1) % (edges.len() as int)]))
}

/// The first edge from `k` on that does not meet the next one within 1 µm,
/// or the number of edges where every one does.
pub open spec fn first_gap(edges: Seq<Edge>, k: int) -> int
    decreases edges.len() - k,
{
    if k < 0 || k >= edges.len() {
        edges.len() as int
    } else if gap_nm(edges, k) > 1000 {
        k
    } else {
        first_gap(edges, k + 1)
    }
}

/// The message for an outline that is open after edge `i`.
pub open spec fn gap_message(edges: Seq<Edge>, i: int, what: Seq<char>) -> Seq<char> {
    let next = edges[(i + 1) % (edges.len() as int)];
    let gap = length_text(gap_nm(edges, i) as int);
    if i + 1 == edges.len() {
        what + " is not closed: last edge ends at "@ + point_text(edge_to(edges[i]))
            + " but first edge starts at "@ + point_text(edge_from(next)) + " ("@ + gap + " apart)"@
    } else {
        what + " has a gap between edge "@ + nat_digits(i as nat) + " ("@ + edge_text(edges[i]) + ") and edge "@
            + nat_digits((i + 1) as nat) + " ("@ + edge_text(next) + "): "@ + gap + " apart"@
    }
}

/// The index after `i` in a cycle of `n`.
proof fn lemma_next_index(i: int, n: int)
    requires 0 <= i < n,
    ensures (i + 1) % n == (if i + 1 == n { 0 } else { i + 1 }),
{
    if i + 1 < n {
        vstd::arithmetic::div_mod::lemma_small_mod((i + 1) as nat, n as nat);
    } else {
        vstd::arithmetic::div_mod::lemma_mod_self_0(n);
    }
}

/// Check that edges form one closed loop, each starting within 1 µm of where
/// the one before it ends. `what` names the loop for the messages.
pub fn check_closed(edges: &Vec<Edge>, what: &str) -> (r: Result<(), Error>)
    requires gaps_measurable(edges@),
    ensures
        edges@.len() == 0 ==> (r matches Err(e) && e.message@ == what@ + " has no edges"@),
        edges@.len() > 0 && first_gap(edges@, 0) == edges@.len() ==> r is Ok,
        edges@.len() > 0 && first_gap(edges@, 0) < edges@.len() ==> (r matches Err(e)
            && e.message@ == gap_message(edges@, first_gap(edges@, 0), what@)
            && (e.help matches Some(h) && h@ == "edges must be listed in order, each starting where the previous one ends"@)),
{
    let n = edges.len();
    if n == 0 {
        let mut m = String::new();
        push_str(&mut m, what);
        push_str(&mut m, " has no edges");
        return Err(Error::with_help(m, String::from_str(
            "add edges with `pcb outline add line x1,y1 x2,y2` / `pcb outline add arc ...` or `pcb outline rect`")));
    }
    let mut i: usize = 0;
    while i < n
        invariant
            i <= n, n == edges@.len(), gaps_measurable(edges@),
            first_gap(edges@, 0) == first_gap(edges@, i as int),
        decreases n - i,
    {
        let j = if i + 1 == n { 0 } else { i + 1 };
        proof {
            lemma_next_index(i as int, n as int);
            assert(j == (i + 1) % (n as int));
            assert(close_enough(edge_to(edges@[i as int]), edge_from(edges@[(i + 1) % (n as int)])));
        }
        let a = edges[i].to();
        let b = edges[j].from();
        let gap = a.distance(b);
        if gap.0 > 1000 {
            let mut m = String::new();
            push_str(&mut m, what);
            if i + 1 == n {
                push_str(&mut m, " is not closed: last edge ends at ");
                push_str(&mut m, &a.to_string());
                push_str(&mut m, " but first edge starts at ");
                push_str(&mut m, &b.to_string());
                push_str(&mut m, " (");
                push_str(&mut m, &gap.to_string());
                push_str(&mut m, " apart)");
            } else {
                push_str(&mut m, " has a gap between edge ");
                push_nat(&mut m, i as u64);
                push_str(&mut m, " (");
                push_str(&mut m, &edges[i].describe());
                push_str(&mut m, ") and edge ");
                push_nat(&mut m, (i + 1) as u64);
                push_str(&mut m, " (");
                push_str(&mut m, &edges[j].describe());
                push_str(&mut m, "): ");
                push_str(&mut m, &gap.to_string());
                push_str(&mut m, " apart");
            }
            return Err(Error::with_help(m, String::from_str(
                "edges must be listed in order, each starting where the previous one ends")));
        }
        i += 1;
    }
    Ok(())
}

/// Whether some point of `rings` has the given `x` (or `y`) as its smallest
/// or largest coordinate is said by `bounds`.
pub open spec fn in_rings(rings: Seq<Vec<Point>>, i: int, j: int) -> bool {
    0 <= i < rings.len() && 0 <= j < rings[i]@.len()
}

/// The corners of the box that holds every point of `rings`, or `None`
/// where there is no point.
pub fn bounds(rings: &Vec<Vec<Point>>) -> (r: Option<(Point, Point)>)
    ensures
        r is None <==> forall|i: int| 0 <= i < rings@.len() ==> (#[trigger] rings@[i])@.len() == 0,
        r matches Some((lo, hi)) ==> {
            &&& forall|i: int, j: int| #[trigger] in_rings(rings@, i, j) ==> {
                let p = rings@[i]@[j];
                lo.x.0 <= p.x.0 <= hi.x.0 && lo.y.0 <= p.y.0 <= hi.y.0
            }
            &&& exists|i: int, j: int| #[trigger] in_rings(rings@, i, j) && rings@[i]@[j].x == lo.x
            &&& exists|i: int, j: int| #[trigger] in_rings(rings@, i, j) && rings@[i]@[j].y == lo.y
            &&& exists|i: int, j: int| #[trigger] in_rings(rings@, i, j) && rings@[i]@[j].x == hi.x
            &&& exists|i: int, j: int| #[trigger] in_rings(rings@, i, j) && rings@[i]@[j].y == hi.y
        },
{
    let mut found = false;
    let mut lo = Point::nm(0, 0);
    let mut hi = Point::nm(0, 0);
    let mut i: usize = 0;
    while i < rings.len()
        invariant
            i <= rings@.len(),
            !found ==> forall|a: int| 0 <= a < i ==> (#[trigger] rings@[a])@.len() == 0,
            found ==> {
                &&& forall|a: int, b: int| #[trigger] in_rings(rings@, a, b) && a < i ==> {
                    let p = rings@[a]@[b];
                    lo.x.0 <= p.x.0 <= hi.x.0 && lo.y.0 <= p.y.0 <= hi.y.0
                }
                &&& exists|a: int, b: int| #[trigger] in_rings(rings@, a, b) && rings@[a]@[b].x == lo.x
                &&& exists|a: int, b: int| #[trigger] in_rings(rings@, a, b) && rings@[a]@[b].y == lo.y
                &&& exists|a: int, b: int| #[trigger] in_rings(rings@, a, b) && rings@[a]@[b].x == hi.x
                &&& exists|a: int, b: int| #[trigger] in_rings(rings@, a, b) && rings@[a]@[b].y == hi.y
            },
        decreases rings@.len() - i,
    {
        let ring = &rings[i];
        let mut j: usize = 0;
        while j < ring.len()
            invariant
                i < rings@.len(), j <= ring@.len(), *ring == rings@[i as int],
                !found ==> forall|a: int| 0 <= a < i ==> (#[trigger] rings@[a])@.len() == 0,
                !found ==> j == 0,
                found ==> {
                    &&& forall|a: int, b: int| #[trigger] in_rings(rings@, a, b) && (a < i || (a == i && b < j)) ==> {
                        let p = rings@[a]@[b];
                        lo.x.0 <= p.x.0 <= hi.x.0 && lo.y.0 <= p.y.0 <= hi.y.0
                    }
                    &&& exists|a: int, b: int| #[trigger] in_rings(rings@, a, b) && rings@[a]@[b].x == lo.x
                    &&& exists|a: int, b: int| #[trigger] in_rings(rings@, a, b) && rings@[a]@[b].y == lo.y
                    &&& exists|a: int, b: int| #[trigger] in_rings(rings@, a, b) && rings@[a]@[b].x == hi.x
                    &&& exists|a: int, b: int| #[trigger] in_rings(rings@, a, b) && rings@[a]@[b].y == hi.y
                },
            decreases ring@.len() - j,
        {
            let p = ring[j];
            proof { assert(in_rings(rings@, i as int, j as int)); }
            if !found {
                found = true;
                lo = p;
                hi = p;
            } else {
                if p.x.0 < lo.x.0 { lo.x = p.x; }
                if p.y.0 < lo.y.0 { lo.y = p.y; }
                if p.x.0 > hi.x.0 { hi.x = p.x; }
                if p.y.0 > hi.y.0 { hi.y = p.y; }
            }
            j += 1;
        }
        i += 1;
    }
    if found { Some((lo, hi)) } else { None }
}

/// Half of `v`, rounded toward zero as integer division does.
pub open spec fn half(v: int) -> int {
    if v >= 0 { v / 2 } else { -((-v) / 2) }
}

/// The corners of a `w` by `h` rectangle centred on `c`, counter-clockwise
/// from the lower left; half sizes are rounded toward zero.
pub open spec fn rect_ring(c: Point, w: int, h: int) -> Seq<Point> {
    let (hw, hh) = (half(w), half(h));
    let (cx, cy) = (c.x.0 as int, c.y.0 as int);
    seq![
        Point { x: Length((cx - hw) as i64), y: Length((cy - hh) as i64) },
        Point { x: Length((cx + hw) as i64), y: Length((cy - hh) as i64) },
        Point { x: Length((cx + hw) as i64), y: Length((cy + hh) as i64) },
        Point { x: Length((cx - hw) as i64), y: Length((cy + hh) as i64) },
    ]
}

/// The corners of the rectangle stay within the coordinate range.
pub open spec fn rect_fits(c: Point, w: int, h: int) -> bool {
    &&& i64::MIN <= c.x.0 - half(w) <= i64::MAX && i64::MIN <= c.x.0 + half(w) <= i64::MAX
    &&& i64::MIN <= c.y.0 - half(h) <= i64::MAX && i64::MIN <= c.y.0 + half(h) <= i64::MAX
}

/// A `w` by `h` rectangle centred on `center`.
pub fn rect(center: Point, w: Length, h: Length) -> (r: Vec<Point>)
    requires rect_fits(center, w.0 as int, h.0 as int),
    ensures r@ == rect_ring(center, w.0 as int, h.0 as int),
{
    let hw = w.0 / 2;
    let hh = h.0 / 2;
    let cx = center.x.0;
    let cy = center.y.0;
    proof {
        assert(hw == half(w.0 as int));
        assert(hh == half(h.0 as int));
    }
    let mut r: Vec<Point> = Vec::new();
    r.push(Point::nm(cx - hw, cy - hh));
    r.push(Point::nm(cx + hw, cy - hh));
    r.push(Point::nm(cx + hw, cy + hh));
    r.push(Point::nm(cx - hw, cy + hh));
    proof { assert(r@ =~= rect_ring(center, w.0 as int, h.0 as int)); }
    r
}

/// Twice the signed area of a ring, exactly: positive when it winds
/// counter-clockwise in a y-up frame.
pub open spec fn twice_area(r: Seq<Point>) -> int {
    area_sum(r, r.len() as int)
}

/// The shoelace terms of the first `k` edges of the ring.
pub open spec fn area_sum(r: Seq<Point>, k: int) -> int
    decreases k,
{
    if k <= 0 || r.len() == 0 {
        0
    } else {
        let p = r[k - 1];
        let q = r[k % (r.len() as int)];
        area_sum(r, k - 1) + (p.x.0 * q.y.0 - q.x.0 * p.y.0)
    }
}

/// 2^64, the base of the wide sums below.
pub open spec fn base64() -> int {
    0x1_0000_0000_0000_0000
}

/// `hi * 2^64 + lo + p`, with the low word kept in `[0, 2^64)`.
fn add_wide(hi: i128, lo: i128, p: i128) -> (r: (i128, i128))
    requires
        0 <= lo < base64(),
        -0x4000_0000_0000_0000_0000_0000_0000_0000 <= p <= 0x4000_0000_0000_0000_0000_0000_0000_0000,
        -0x7000_0000_0000_0000_0000_0000_0000_0000 <= hi <= 0x7000_0000_0000_0000_0000_0000_0000_0000,
    ensures
        0 <= r.1 < base64(),
        r.0 * base64() + r.1 == hi * base64() + lo + p,
        hi - 0x4000_0000_0000_0001 <= r.0 <= hi + 0x4000_0000_0000_0001,
{
    let m: i128 = 0x1_0000_0000_0000_0000;
    let (phi, plo): (i128, i128) = if p >= 0 {
        let q = p / m;
        let r = p % m;
        assert(p == q * m + r && 0 <= r < m) by (nonlinear_arith) requires p >= 0, m > 0, q == p / m, r == p % m;
        assert(q <= 0x4000_0000_0000_0000) by (nonlinear_arith)
            requires q == p / m, m == 0x1_0000_0000_0000_0000, 0 <= p <= 0x4000_0000_0000_0000_0000_0000_0000_0000;
        (q, r)
    } else {
        let a = -p;
        let q = a / m;
        let r = a % m;
        assert(a == q * m + r && 0 <= r < m) by (nonlinear_arith) requires a >= 0, m > 0, q == a / m, r == a % m;
        assert(q <= 0x4000_0000_0000_0000) by (nonlinear_arith)
            requires q == a / m, m == 0x1_0000_0000_0000_0000, 0 <= a <= 0x4000_0000_0000_0000_0000_0000_0000_0000;
        if r == 0 { (-q, 0) } else { (-q - 1, m - r) }
    };
    let s = lo + plo;
    if s >= m { (hi + phi + 1, s - m) } else { (hi + phi, s) }
}

/// The sign of twice the area of `ring`, computed exactly: `1` where it winds
/// counter-clockwise (y up), `-1` clockwise, `0` where it encloses nothing.
pub fn area_sign(ring: &Vec<Point>) -> (r: i8)
    ensures
        r == 1 <==> twice_area(ring@) > 0,
        r == -1 <==> twice_area(ring@) < 0,
        r == 0 <==> twice_area(ring@) == 0,
{
    let n = ring.len();
    // Two wide sums, one for each product of the shoelace terms.
    let mut ha: i128 = 0;
    let mut la: i128 = 0;
    let mut hb: i128 = 0;
    let mut lb: i128 = 0;
    let mut i: usize = 0;
    while i < n
        invariant
            i <= n, n == ring@.len(),
            0 <= la < base64(), 0 <= lb < base64(),
            ha * base64() + la + hb * base64() + lb == area_sum(ring@, i as int),
            -(i as int) * 0x4000_0000_0000_0001 <= ha <= (i as int) * 0x4000_0000_0000_0001,
            -(i as int) * 0x4000_0000_0000_0001 <= hb <= (i as int) * 0x4000_0000_0000_0001,
        decreases n - i,
    {
        let p = ring[i];
        let q = ring[if i + 1 == n { 0 } else { i + 1 }];
        proof { lemma_next_index(i as int, n as int); }
        let (px, py, qx, qy) = (p.x.0 as i128, p.y.0 as i128, q.x.0 as i128, q.y.0 as i128);
        let lim: i128 = 0x8000_0000_0000_0000;
        assert(-0x4000_0000_0000_0000_0000_0000_0000_0000 <= px * qy <= 0x4000_0000_0000_0000_0000_0000_0000_0000) by (nonlinear_arith)
            requires -lim <= px <= lim, -lim <= qy <= lim, lim == 0x8000_0000_0000_0000;
        assert(-0x4000_0000_0000_0000_0000_0000_0000_0000 <= qx * py <= 0x4000_0000_0000_0000_0000_0000_0000_0000) by (nonlinear_arith)
            requires -lim <= qx <= lim, -lim <= py <= lim, lim == 0x8000_0000_0000_0000;
        assert((i as int) * 0x4000_0000_0000_0001 <= 0x1_0000_0000_0000_0000 * 0x4000_0000_0000_0001) by (nonlinear_arith)
            requires i < 0x1_0000_0000_0000_0000;
        let a = px * qy;
        let b = -(qx * py);
        let (h1, l1) = add_wide(ha, la, a);
        let (h2, l2) = add_wide(hb, lb, b);
        ha = h1;
        la = l1;
        hb = h2;
        lb = l2;
        i += 1;
    }
    let m: i128 = 0x1_0000_0000_0000_0000;
    let lsum = la + lb;
    let (carry, low): (i128, i128) = if lsum >= m { (1, lsum - m) } else { (0, lsum) };
    // The sum's high word is `ha + carry + hb`; compare without forming it.
    let x = ha + carry;
    let y = -hb;
    proof {
        assert((ha + carry + hb) * base64() + low == twice_area(ring@));
        if x > y {
            assert((ha + carry + hb) * base64() >= base64()) by (nonlinear_arith) requires ha + carry + hb >= 1;
        } else if x < y {
            assert((ha + carry + hb) * base64() <= -base64()) by (nonlinear_arith) requires ha + carry + hb <= -1;
        }
    }
    if x > y || (x == y && low > 0) { 1 } else if x == y && low == 0 { 0 } else { -1 }
}

/// A ring's points as coordinate pairs.
pub open spec fn coords(r: Seq<Point>) -> Seq<(i64, i64)> {
    r.map_values(|p: Point| (p.x.0, p.y.0))
}

/// Rings as sequences of coordinate pairs.
pub open spec fn rings_view(rs: Seq<Vec<Point>>) -> Seq<Seq<(i64, i64)>> {
    rs.map_values(|r: Vec<Point>| coords(r@))
}

/// What Clipper2 returns for the union of `subject` and `clip` with the
/// non-zero fill rule (`None` for its error).
pub uninterp spec fn clipper_union(subject: Seq<Seq<(i64, i64)>>, clip: Seq<Seq<(i64, i64)>>) -> Option<Seq<Seq<(i64, i64)>>>;

/// What Clipper2 returns for `subject` minus `clip` with the non-zero fill
/// rule (`None` for its error).
pub uninterp spec fn clipper_difference(subject: Seq<Seq<(i64, i64)>>, clip: Seq<Seq<(i64, i64)>>) -> Option<Seq<Seq<(i64, i64)>>>;

/// What Clipper2 returns for the intersection of `subject` and `clip` with
/// the non-zero fill rule (`None` for its error).
pub uninterp spec fn clipper_intersection(subject: Seq<Seq<(i64, i64)>>, clip: Seq<Seq<(i64, i64)>>) -> Option<Seq<Seq<(i64, i64)>>>;

/// Whether Clipper2 finds the point inside the ring or on its boundary.
pub uninterp spec fn clipper_inside(ring: Seq<(i64, i64)>, p: (i64, i64)) -> bool;

/// Calls Clipper2's `union` on rings given in raw nanometres (scaler `One`,
/// points made with `from_scaled`). Claimed: the result is the one Clipper2
/// gives for these coordinates, `None` for its error.
#[verifier::external_body]
fn clip_union(subject: &Vec<Vec<Point>>, clip: &Vec<Vec<Point>>) -> (r: Option<Vec<Vec<Point>>>)
    ensures
        match clipper_union(rings_view(subject@), rings_view(clip@)) {
            Some(out) => r matches Some(v) && rings_view(v@) == out,
            None => r is None,
        },
{
    let s: Paths<One> = subject.iter().map(|r| r.iter().map(|q| CPoint::from_scaled(q.x.0, q.y.0)).collect()).collect();
    let c: Paths<One> = clip.iter().map(|r| r.iter().map(|q| CPoint::from_scaled(q.x.0, q.y.0)).collect()).collect();
    let out = Clipper::new().add_subject(s).add_clip(c).union(FillRule::NonZero).ok();
    out.map(|p| p.iter().map(|r| r.iter().map(|q| Point::nm(q.x_scaled(), q.y_scaled())).collect()).collect())
}

/// Calls Clipper2's `difference`, as [`clip_union`] does `union`.
#[verifier::external_body]
fn clip_difference(subject: &Vec<Vec<Point>>, clip: &Vec<Vec<Point>>) -> (r: Option<Vec<Vec<Point>>>)
    ensures
        match clipper_difference(rings_view(subject@), rings_view(clip@)) {
            Some(out) => r matches Some(v) && rings_view(v@) == out,
            None => r is None,
        },
{
    let s: Paths<One> = subject.iter().map(|r| r.iter().map(|q| CPoint::from_scaled(q.x.0, q.y.0)).collect()).collect();
    let c: Paths<One> = clip.iter().map(|r| r.iter().map(|q| CPoint::from_scaled(q.x.0, q.y.0)).collect()).collect();
    let out = Clipper::new().add_subject(s).add_clip(c).difference(FillRule::NonZero).ok();
    out.map(|p| p.iter().map(|r| r.iter().map(|q| Point::nm(q.x_scaled(), q.y_scaled())).collect()).collect())
}

/// Calls Clipper2's `intersect`, as [`clip_union`] does `union`.
#[verifier::external_body]
fn clip_intersection(subject: &Vec<Vec<Point>>, clip: &Vec<Vec<Point>>) -> (r: Option<Vec<Vec<Point>>>)
    ensures
        match clipper_intersection(rings_view(subject@), rings_view(clip@)) {
            Some(out) => r matches Some(v) && rings_view(v@) == out,
            None => r is None,
        },
{
    let s: Paths<One> = subject.iter().map(|r| r.iter().map(|q| CPoint::from_scaled(q.x.0, q.y.0)).collect()).collect();
    let c: Paths<One> = clip.iter().map(|r| r.iter().map(|q| CPoint::from_scaled(q.x.0, q.y.0)).collect()).collect();
    let out = Clipper::new().add_subject(s).add_clip(c).intersect(FillRule::NonZero).ok();
    out.map(|p| p.iter().map(|r| r.iter().map(|q| Point::nm(q.x_scaled(), q.y_scaled())).collect()).collect())
}

/// Calls Clipper2's `Path::is_point_inside` on a ring in raw nanometres.
/// Claimed: `true` unless Clipper2 answers `IsOutside`.
#[verifier::external_body]
fn clip_inside(ring: &Vec<Point>, p: Point) -> (r: bool)
    ensures r == clipper_inside(coords(ring@), (p.x.0, p.y.0)),
{
    let path: clipper2::Path<One> = ring.iter().map(|q| CPoint::from_scaled(q.x.0, q.y.0)).collect();
    match path.is_point_inside(CPoint::from_scaled(p.x.0, p.y.0)) {
        PointInPolygonResult::IsOutside => false,
        PointInPolygonResult::IsOn => true,
        PointInPolygonResult::IsInside => true,
    }
}

/// The rings of at least three points.
pub open spec fn real_rings(rs: Seq<Seq<(i64, i64)>>) -> Seq<Seq<(i64, i64)>> {
    rs.filter(|r: Seq<(i64, i64)>| r.len() >= 3)
}

/// The message when Clipper2 fails.
pub open spec fn clip_failure() -> Seq<char> {
    "geometry operation failed: FailedBooleanOperation"@
}

/// Keep the rings of at least three points.
fn keep_real(rs: Vec<Vec<Point>>) -> (r: Vec<Vec<Point>>)
    ensures rings_view(r@) == real_rings(rings_view(rs@)),
{
    let ghost sv = rings_view(rs@);
    let mut out: Vec<Vec<Point>> = Vec::new();
    let mut rest = rs;
    let mut i: usize = 0;
    let n = rest.len();
    proof { reveal(Seq::filter); assert(sv.take(0) =~= Seq::<Seq<(i64, i64)>>::empty()); }
    while i < n
        invariant
            i <= n, n == rest@.len(), sv == rings_view(rest@),
            rings_view(out@) == real_rings(sv.take(i as int)),
        decreases n - i,
    {
        let ghost prev = rings_view(out@);
        proof {
            reveal(Seq::filter);
            assert(sv.take(i + 1).drop_last() =~= sv.take(i as int));
            assert(sv.take(i + 1).last() == coords(rest@[i as int]@));
        }
        if rest[i].len() >= 3 {
            let ring = clone_ring(&rest[i]);
            out.push(ring);
            proof { assert(rings_view(out@) =~= prev.push(coords(rest@[i as int]@))); }
        }
        i += 1;
    }
    proof { assert(sv.take(n as int) =~= sv); }
    out
}

/// A copy of a ring.
pub fn clone_ring(r: &Vec<Point>) -> (c: Vec<Point>)
    ensures c@ == r@,
{
    let mut c: Vec<Point> = Vec::new();
    let mut i: usize = 0;
    while i < r.len()
        invariant i <= r@.len(), c@ == r@.take(i as int),
        decreases r@.len() - i,
    {
        c.push(r[i]);
        proof { assert(r@.take(i + 1) =~= r@.take(i as int).push(r@[i as int])); }
        i += 1;
    }
    proof { assert(r@.take(r@.len() as int) =~= r@); }
    c
}

/// The result of a Clipper2 operation as the geometry functions report it.
fn clip_result(out: Option<Vec<Vec<Point>>>) -> (r: Result<Vec<Vec<Point>>, Error>)
    ensures
        match out {
            Some(v) => r matches Ok(w) && rings_view(w@) == real_rings(rings_view(v@)),
            None => r matches Err(e) && e.message@ == clip_failure(),
        },
{
    match out {
        Some(v) => Ok(keep_real(v)),
        None => Err(Error::msg(String::from_str("geometry operation failed: FailedBooleanOperation"))),
    }
}

/// What a boolean operation reports for the Clipper2 result `out`.
pub open spec fn clip_outcome(out: Option<Seq<Seq<(i64, i64)>>>, r: Result<Vec<Vec<Point>>, Error>) -> bool {
    match out {
        Some(v) => r matches Ok(w) && rings_view(w@) == real_rings(v),
        None => r matches Err(e) && e.message@ == clip_failure(),
    }
}

/// Union of all rings (non-zero fill).
pub fn union(rings: &Vec<Vec<Point>>) -> (r: Result<Vec<Vec<Point>>, Error>)
    ensures
        rings@.len() == 0 ==> (r matches Ok(v) && v@.len() == 0),
        rings@.len() > 0 ==> clip_outcome(clipper_union(rings_view(rings@), Seq::empty()), r),
{
    if rings.len() == 0 {
        return Ok(Vec::new());
    }
    let empty: Vec<Vec<Point>> = Vec::new();
    proof { assert(rings_view(empty@) =~= Seq::<Seq<(i64, i64)>>::empty()); }
    clip_result(clip_union(rings, &empty))
}

/// `subject` minus `clip` (non-zero fill).
pub fn difference(subject: &Vec<Vec<Point>>, clip: &Vec<Vec<Point>>) -> (r: Result<Vec<Vec<Point>>, Error>)
    ensures
        subject@.len() == 0 ==> (r matches Ok(v) && v@.len() == 0),
        subject@.len() > 0 && clip@.len() == 0 ==> clip_outcome(clipper_union(rings_view(subject@), Seq::empty()), r),
        subject@.len() > 0 && clip@.len() > 0 ==> clip_outcome(clipper_difference(rings_view(subject@), rings_view(clip@)), r),
{
    if subject.len() == 0 {
        return Ok(Vec::new());
    }
    if clip.len() == 0 {
        return union(subject);
    }
    clip_result(clip_difference(subject, clip))
}

/// The intersection of `subject` and `clip` (non-zero fill).
pub fn intersection(subject: &Vec<Vec<Point>>, clip: &Vec<Vec<Point>>) -> (r: Result<Vec<Vec<Point>>, Error>)
    ensures
        subject@.len() == 0 || clip@.len() == 0 ==> (r matches Ok(v) && v@.len() == 0),
        subject@.len() > 0 && clip@.len() > 0 ==> clip_outcome(clipper_intersection(rings_view(subject@), rings_view(clip@)), r),
{
    if subject.len() == 0 || clip.len() == 0 {
        return Ok(Vec::new());
    }
    clip_result(clip_intersection(subject, clip))
}

/// Twice the area of a ring given as coordinate pairs.
pub open spec fn pairs_area(r: Seq<(i64, i64)>) -> int {
    pairs_sum(r, r.len() as int)
}

/// The shoelace terms of the first `k` edges of a ring of coordinate pairs.
pub open spec fn pairs_sum(r: Seq<(i64, i64)>, k: int) -> int
    decreases k,
{
    if k <= 0 || r.len() == 0 {
        0
    } else {
        let p = r[k - 1];
        let q = r[k % (r.len() as int)];
        pairs_sum(r, k - 1) + (p.0 * q.1 - q.0 * p.1)
    }
}

pub proof fn lemma_pairs_sum(r: Seq<Point>, k: int)
    requires k <= r.len(),
    ensures pairs_sum(coords(r), k) == area_sum(r, k),
    decreases k,
{
    if k > 0 && r.len() > 0 {
        lemma_pairs_sum(r, k - 1);
        let n = r.len() as int;
        let j = k % n;
        assert(0 <= j < n) by { vstd::arithmetic::div_mod::lemma_mod_bound(k, n); }
        assert(coords(r)[k - 1] == (r[k - 1].x.0, r[k - 1].y.0));
        assert(coords(r)[j] == (r[j].x.0, r[j].y.0));
    }
}

/// Whether a Clipper2 result holds a ring of at least three points with a
/// non-zero area.
pub open spec fn has_area(out: Option<Seq<Seq<(i64, i64)>>>) -> bool {
    &&& out is Some
    &&& exists|i: int| 0 <= i < real_rings(out->0).len() && pairs_area(#[trigger] real_rings(out->0)[i]) != 0
}

/// Whether any of `a` overlaps any of `b`: their intersection holds a ring
/// with a non-zero area. A failed intersection counts as no overlap.
pub fn overlaps(a: &Vec<Vec<Point>>, b: &Vec<Vec<Point>>) -> (r: bool)
    ensures
        a@.len() == 0 || b@.len() == 0 ==> !r,
        a@.len() > 0 && b@.len() > 0 ==> r == has_area(clipper_intersection(rings_view(a@), rings_view(b@))),
{
    if a.len() == 0 || b.len() == 0 {
        return false;
    }
    match intersection(a, b) {
        Err(_) => false,
        Ok(rs) => {
            let ghost rv = rings_view(rs@);
            let ghost v = clipper_intersection(rings_view(a@), rings_view(b@))->0;
            let mut i: usize = 0;
            while i < rs.len()
                invariant
                    i <= rs@.len(), rv == rings_view(rs@),
                    a@.len() > 0, b@.len() > 0,
                    clipper_intersection(rings_view(a@), rings_view(b@)) == Some(v), rv == real_rings(v),
                    forall|k: int| 0 <= k < i ==> pairs_area(#[trigger] rv[k]) == 0,
                decreases rs@.len() - i,
            {
                proof {
                    lemma_pairs_sum(rs@[i as int]@, rs@[i as int]@.len() as int);
                    assert(rv[i as int] == coords(rs@[i as int]@));
                }
                if area_sign(&rs[i]) != 0 {
                    proof {
                        assert(rv.len() == rs@.len());
                        let o = Some(v);
                        assert(o->0 == v);
                        assert(pairs_area(real_rings(o->0)[i as int]) != 0);
                    }
                    return true;
                }
                i += 1;
            }
            false
        },
    }
}

/// Does `ring` contain `p` (edges count as inside)?
pub fn contains(ring: &Vec<Point>, p: Point) -> (r: bool)
    ensures r == clipper_inside(coords(ring@), (p.x.0, p.y.0)),
{
    clip_inside(ring, p)
}

} // verus!
