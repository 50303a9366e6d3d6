//! The checks and shapes behind the editing commands: `key=value` pairs,
//! instance and net names, outline edges for rectangles and circles, and
//! CSV fields for assembly files.

use vstd::prelude::*;
use crate::units::{Length, Point, length_text, close_enough};
use crate::geom::Edge;
use crate::error::Error;
use crate::schema::{Trace, Via, Pour, Hole};
use crate::text::{push_str, push_char, chars_of, is_ws, is_whitespace, trim, trim_bounds, copy_range, string_from, same_str};
use crate::decimal::{find_char, clamp_i64};
use crate::isqrt::round_sqrt;

verus! {

/// What `key=value` reads as: the trimmed key and value around the first
/// `=`, where the key is not blank.
pub open spec fn kv_parts(s: Seq<char>) -> Option<(Seq<char>, Seq<char>)> {
    let i = find_char(s, '=');
    if i < s.len() && trim(s.take(i)).len() > 0 {
        Some((trim(s.take(i)), trim(s.skip(i + 1))))
    } else {
        None
    }
}

/// Read a `key=value` pair.
pub fn parse_kv(s: &str) -> (r: Result<(String, String), Error>)
    ensures
        match kv_parts(s@) {
            Some((k, v)) => r matches Ok((a, b)) && a@ == k && b@ == v,
            None => r matches Err(e) && e.message@ == "`"@ + s@ + "` is not a `key=value` pair"@,
        },
{
    let v = chars_of(s);
    let n = v.len();
    proof { assert(v@.subrange(0, n as int) =~= v@); }
    let i = crate::text::find_in(v.as_slice(), 0, n, '=');
    proof { crate::emit::lemma_find_char_le(v@, '='); }
    if i < n {
        let (a, b) = trim_bounds(v.as_slice(), 0, i);
        proof { assert(v@.subrange(0, i as int) =~= v@.take(i as int)); }
        if a < b {
            let (c, d) = trim_bounds(v.as_slice(), i + 1, n);
            proof { assert(v@.subrange(i + 1, n as int) =~= v@.skip(i + 1)); }
            let k = string_from(copy_range(v.as_slice(), a, b).as_slice());
            let val = string_from(copy_range(v.as_slice(), c, d).as_slice());
            return Ok((k, val));
        }
    }
    let mut m = String::from_str("`");
    push_str(&mut m, s);
    push_str(&mut m, "` is not a `key=value` pair");
    Err(Error::with_help(m, String::from_str("e.g. `value=10k`")))
}

/// Whether some character of `s` is whitespace, `.` or `:`.
pub open spec fn bad_refdes(s: Seq<char>) -> bool {
    s.len() == 0 || exists|i: int| 0 <= i < s.len() && (is_ws(#[trigger] s[i]) || s[i] == '.' || s[i] == ':')
}

/// Check an instance name: not empty, with no `.`, `:` or whitespace.
pub fn check_refdes(name: &str) -> (r: Result<(), Error>)
    ensures
        !bad_refdes(name@) ==> r is Ok,
        bad_refdes(name@) ==> (r matches Err(e) && e.message@ == "`"@ + name@ + "` is not a valid instance name"@),
{
    let v = chars_of(name);
    let mut bad = v.len() == 0;
    let mut i: usize = 0;
    while i < v.len()
        invariant
            i <= v@.len(), v@ == name@,
            bad == (v@.len() == 0 || exists|j: int| 0 <= j < i && (is_ws(#[trigger] v@[j]) || v@[j] == '.' || v@[j] == ':')),
        decreases v@.len() - i,
    {
        let c = v[i];
        if is_whitespace(c) || c == '.' || c == ':' {
            bad = true;
        }
        i += 1;
    }
    if bad {
        let mut m = String::from_str("`");
        push_str(&mut m, name);
        push_str(&mut m, "` is not a valid instance name");
        return Err(Error::with_help(m, String::from_str(
            "instance names must be non-empty with no `.`, `:` or spaces, e.g. `R1`, `U3`, `J_PWR`")));
    }
    Ok(())
}

/// Whether a net name is empty or holds whitespace, quotes or parentheses.
pub open spec fn bad_net_name(s: Seq<char>) -> bool {
    s.len() == 0 || exists|i: int| 0 <= i < s.len()
        && (is_ws(#[trigger] s[i]) || s[i] == '"' || s[i] == '(' || s[i] == ')')
}

/// Check a net name: not empty, with no whitespace, quotes or parentheses.
pub fn check_net_name(name: &str) -> (r: Result<(), Error>)
    ensures
        !bad_net_name(name@) ==> r is Ok,
        bad_net_name(name@) ==> (r matches Err(e) && e.message@ == "`"@ + name@ + "` is not a valid net name"@),
{
    let v = chars_of(name);
    let mut bad = v.len() == 0;
    let mut i: usize = 0;
    while i < v.len()
        invariant
            i <= v@.len(), v@ == name@,
            bad == (v@.len() == 0 || exists|j: int| 0 <= j < i
                && (is_ws(#[trigger] v@[j]) || v@[j] == '"' || v@[j] == '(' || v@[j] == ')')),
        decreases v@.len() - i,
    {
        let c = v[i];
        if is_whitespace(c) || c == '"' || c == '(' || c == ')' {
            bad = true;
        }
        i += 1;
    }
    if bad {
        let mut m = String::from_str("`");
        push_str(&mut m, name);
        push_str(&mut m, "` is not a valid net name");
        return Err(Error::with_help(m, String::from_str(
            "net names must be non-empty with no spaces, quotes or parentheses, e.g. `GND`, `VCC_3V3`")));
    }
    Ok(())
}

/// The point `(x, y)` in nanometres.
pub open spec fn pt(x: int, y: int) -> Point {
    Point { x: Length(x as i64), y: Length(y as i64) }
}

/// The outline of a rectangle with its lower left corner at `at`, counter-
/// clockwise: four lines, or with corner radius `r > 0` four lines and four
/// quarter arcs.
pub open spec fn rect_outline(at: Point, w: int, h: int, r: int) -> Seq<Edge> {
    let (x0, y0, x1, y1) = (at.x.0 as int, at.y.0 as int, at.x.0 + w, at.y.0 + h);
    if r <= 0 {
        seq![
            Edge::Line { from: pt(x0, y0), to: pt(x1, y0) },
            Edge::Line { from: pt(x1, y0), to: pt(x1, y1) },
            Edge::Line { from: pt(x1, y1), to: pt(x0, y1) },
            Edge::Line { from: pt(x0, y1), to: pt(x0, y0) },
        ]
    } else {
        seq![
            Edge::Line { from: pt(x0 + r, y0), to: pt(x1 - r, y0) },
            Edge::Arc { from: pt(x1 - r, y0), to: pt(x1, y0 + r), center: pt(x1 - r, y0 + r), clockwise: false },
            Edge::Line { from: pt(x1, y0 + r), to: pt(x1, y1 - r) },
            Edge::Arc { from: pt(x1, y1 - r), to: pt(x1 - r, y1), center: pt(x1 - r, y1 - r), clockwise: false },
            Edge::Line { from: pt(x1 - r, y1), to: pt(x0 + r, y1) },
            Edge::Arc { from: pt(x0 + r, y1), to: pt(x0, y1 - r), center: pt(x0 + r, y1 - r), clockwise: false },
            Edge::Line { from: pt(x0, y1 - r), to: pt(x0, y0 + r) },
            Edge::Arc { from: pt(x0, y0 + r), to: pt(x0 + r, y0), center: pt(x0 + r, y0 + r), clockwise: false },
        ]
    }
}

/// The corner coordinates of the rectangle fit in 64 bits.
pub open spec fn rect_fits(at: Point, w: int, h: int, r: int) -> bool {
    &&& at.x.0 + w <= i64::MAX && at.y.0 + h <= i64::MAX
    &&& 2 * r <= i64::MAX
}

/// The outline of a `w` by `h` rectangle whose lower left corner is `at`,
/// with corners rounded to `radius` where one is given.
pub fn rect_edges(at: Point, w: Length, h: Length, radius: Option<Length>) -> (res: Result<Vec<Edge>, Error>)
    requires rect_fits(at, w.0 as int, h.0 as int, match radius { Some(r) => r.0 as int, None => 0 }),
    ensures
        ({
            let r = match radius { Some(r) => r.0 as int, None => 0 };
            &&& (w.0 <= 0 || h.0 <= 0) ==> (res matches Err(e) && e.message@ == "width and height must be positive"@)
            &&& (w.0 > 0 && h.0 > 0 && r > 0 && (2 * r > w.0 || 2 * r > h.0)) ==> (res matches Err(e)
                && e.message@ == "corner radius "@ + length_text(r) + " is too large for a "@ + length_text(w.0 as int)
                    + " x "@ + length_text(h.0 as int) + " rectangle"@)
            &&& (w.0 > 0 && h.0 > 0 && (r <= 0 || (2 * r <= w.0 && 2 * r <= h.0))) ==> (res matches Ok(v)
                && v@ == rect_outline(at, w.0 as int, h.0 as int, r))
        }),
{
    if w.0 <= 0 || h.0 <= 0 {
        return Err(Error::msg(String::from_str("width and height must be positive")));
    }
    let (x0, y0) = (at.x.0, at.y.0);
    let (x1, y1) = (at.x.0 + w.0, at.y.0 + h.0);
    let r: i64 = match radius { Some(r) => r.0, None => 0 };
    let mut v: Vec<Edge> = Vec::new();
    if r <= 0 {
        v.push(Edge::Line { from: Point::nm(x0, y0), to: Point::nm(x1, y0) });
        v.push(Edge::Line { from: Point::nm(x1, y0), to: Point::nm(x1, y1) });
        v.push(Edge::Line { from: Point::nm(x1, y1), to: Point::nm(x0, y1) });
        v.push(Edge::Line { from: Point::nm(x0, y1), to: Point::nm(x0, y0) });
        proof { assert(v@ =~= rect_outline(at, w.0 as int, h.0 as int, r as int)); }
        return Ok(v);
    }
    if r * 2 > w.0 || r * 2 > h.0 {
        let mut m = String::from_str("corner radius ");
        push_str(&mut m, &Length(r).to_string());
        push_str(&mut m, " is too large for a ");
        push_str(&mut m, &w.to_string());
        push_str(&mut m, " x ");
        push_str(&mut m, &h.to_string());
        push_str(&mut m, " rectangle");
        return Err(Error::msg(m));
    }
    v.push(Edge::Line { from: Point::nm(x0 + r, y0), to: Point::nm(x1 - r, y0) });
    v.push(Edge::Arc { from: Point::nm(x1 - r, y0), to: Point::nm(x1, y0 + r), center: Point::nm(x1 - r, y0 + r), clockwise: false });
    v.push(Edge::Line { from: Point::nm(x1, y0 + r), to: Point::nm(x1, y1 - r) });
    v.push(Edge::Arc { from: Point::nm(x1, y1 - r), to: Point::nm(x1 - r, y1), center: Point::nm(x1 - r, y1 - r), clockwise: false });
    v.push(Edge::Line { from: Point::nm(x1 - r, y1), to: Point::nm(x0 + r, y1) });
    v.push(Edge::Arc { from: Point::nm(x0 + r, y1), to: Point::nm(x0, y1 - r), center: Point::nm(x0 + r, y1 - r), clockwise: false });
    v.push(Edge::Line { from: Point::nm(x0, y1 - r), to: Point::nm(x0, y0 + r) });
    v.push(Edge::Arc { from: Point::nm(x0, y0 + r), to: Point::nm(x0 + r, y0), center: Point::nm(x0 + r, y0 + r), clockwise: false });
    proof { assert(v@ =~= rect_outline(at, w.0 as int, h.0 as int, r as int)); }
    Ok(v)
}

/// Half of `v`, rounded toward zero as integer division does.
pub open spec fn half_toward_zero(v: int) -> int {
    if v >= 0 { v / 2 } else { -((-v) / 2) }
}

/// A circle as two counter-clockwise half arcs through its leftmost and
/// rightmost points; the radius is half the diameter rounded toward zero.
pub open spec fn circle_outline(c: Point, d: int) -> Seq<Edge> {
    let r = half_toward_zero(d);
    let a = pt(c.x.0 + r, c.y.0 as int);
    let b = pt(c.x.0 - r, c.y.0 as int);
    seq![
        Edge::Arc { from: a, to: b, center: c, clockwise: false },
        Edge::Arc { from: b, to: a, center: c, clockwise: false },
    ]
}

/// A circle of diameter `d` about `center`, as outline edges.
pub fn circle_edges(center: Point, d: Length) -> (r: Vec<Edge>)
    requires
        i64::MIN <= center.x.0 + half_toward_zero(d.0 as int) <= i64::MAX,
        i64::MIN <= center.x.0 - half_toward_zero(d.0 as int) <= i64::MAX,
    ensures r@ == circle_outline(center, d.0 as int),
{
    let rad = d.0 / 2;
    let a = Point::nm(center.x.0 + rad, center.y.0);
    let b = Point::nm(center.x.0 - rad, center.y.0);
    let mut v: Vec<Edge> = Vec::new();
    v.push(Edge::Arc { from: a, to: b, center, clockwise: false });
    v.push(Edge::Arc { from: b, to: a, center, clockwise: false });
    proof { assert(v@ =~= circle_outline(center, d.0 as int)); }
    v
}

/// A straight outline edge, refused where its ends are the same point.
pub fn line_edge(from: Point, to: Point) -> (r: Result<Edge, Error>)
    ensures
        from == to ==> (r matches Err(e) && e.message@ == "a line edge needs two distinct points"@),
        from != to ==> r == Ok::<Edge, Error>(Edge::Line { from, to }),
{
    if from.x.0 == to.x.0 && from.y.0 == to.y.0 {
        return Err(Error::msg(String::from_str("a line edge needs two distinct points")));
    }
    Ok(Edge::Line { from, to })
}

/// The distance from `a` to `b` in nanometres, rounded.
pub open spec fn dist_nm(a: Point, b: Point) -> int {
    clamp_i64(round_sqrt(crate::units::dist2(a, b)) as int) as int
}

/// An arc about a given center, refused where its ends lie at radii more
/// than 10 µm apart.
pub fn arc_about(from: Point, to: Point, center: Point, clockwise: bool) -> (r: Result<Edge, Error>)
    requires close_enough(from, center), close_enough(to, center),
    ensures
        ({
            let (r0, r1) = (dist_nm(from, center), dist_nm(to, center));
            &&& (r0 - r1 > 10_000 || r1 - r0 > 10_000) ==> (r matches Err(e)
                && e.message@ == "arc endpoints are not equidistant from the center ("@ + length_text(r0) + " vs "@
                    + length_text(r1) + ")"@)
            &&& !(r0 - r1 > 10_000 || r1 - r0 > 10_000) ==> r == Ok::<Edge, Error>(Edge::Arc { from, to, center, clockwise })
        }),
{
    let r0 = from.distance(center);
    let r1 = to.distance(center);
    if r0.0 - r1.0 > 10_000 || r1.0 - r0.0 > 10_000 {
        let mut m = String::from_str("arc endpoints are not equidistant from the center (");
        push_str(&mut m, &r0.to_string());
        push_str(&mut m, " vs ");
        push_str(&mut m, &r1.to_string());
        push_str(&mut m, ")");
        return Err(Error::with_help(m, String::from_str(
            "check the center, or use `--through x,y` to specify a point on the arc instead")));
    }
    Ok(Edge::Arc { from, to, center, clockwise })
}

/// A CSV field: quoted, with quotes doubled, where it holds a comma, a quote
/// or a line break.
pub open spec fn csv_text(s: Seq<char>) -> Seq<char> {
    if s.contains(',') || s.contains('"') || s.contains('\n') {
        seq!['"'] + double_quotes(s) + seq!['"']
    } else {
        s
    }
}

/// `s` with every `"` doubled.
pub open spec fn double_quotes(s: Seq<char>) -> Seq<char>
    decreases s.len(),
{
    if s.len() == 0 {
        Seq::empty()
    } else {
        double_quotes(s.drop_last()) + (if s.last() == '"' { seq!['"', '"'] } else { seq![s.last()] })
    }
}

/// A field of a CSV file.
pub fn csv_field(s: &str) -> (r: String)
    ensures r@ == csv_text(s@),
{
    let v = chars_of(s);
    let mut special = false;
    let mut i: usize = 0;
    while i < v.len()
        invariant
            i <= v@.len(), v@ == s@,
            special == exists|j: int| 0 <= j < i && (v@[j] == ',' || v@[j] == '"' || v@[j] == '\n'),
        decreases v@.len() - i,
    {
        if v[i] == ',' || v[i] == '"' || v[i] == '\n' {
            special = true;
        }
        i += 1;
    }
    proof {
        if special {
            let j = choose|j: int| 0 <= j < i && (v@[j] == ',' || v@[j] == '"' || v@[j] == '\n');
            assert(s@.contains(v@[j]));
        } else {
            assert(!s@.contains(',') && !s@.contains('"') && !s@.contains('\n'));
        }
    }
    if !special {
        return s.to_string();
    }
    let mut out = String::new();
    push_char(&mut out, '"');
    let mut k: usize = 0;
    while k < v.len()
        invariant k <= v@.len(), v@ == s@, out@ == seq!['"'] + double_quotes(v@.take(k as int)),
        decreases v@.len() - k,
    {
        let c = v[k];
        proof {
            assert(v@.take(k + 1).drop_last() =~= v@.take(k as int));
            assert(v@.take(k + 1).last() == c);
        }
        if c == '"' {
            push_char(&mut out, '"');
        }
        push_char(&mut out, c);
        proof { assert(out@ =~= seq!['"'] + double_quotes(v@.take(k + 1))); }
        k += 1;
    }
    push_char(&mut out, '"');
    proof { assert(v@.take(v@.len() as int) =~= v@); }
    out
}

/// The assembly file formats.
#[derive(Clone, Copy, PartialEq, Eq, Structural, Debug)]
pub enum Format {
    /// JLCPCB SMT assembly upload format.
    Jlcpcb,
    /// Generic CSV with every field.
    Csv,
}

/// A net reference as text.
pub open spec fn net_view(net: Option<String>) -> Option<Seq<char>> {
    match net {
        Some(n) => Some(n@),
        None => None,
    }
}

/// A net reference, as text, after the net `from` is renamed `to`.
pub open spec fn renamed_view(net: Option<Seq<char>>, from: Seq<char>, to: Seq<char>) -> Option<Seq<char>> {
    match net {
        Some(n) => if n == from { Some(to) } else { Some(n) },
        None => None,
    }
}

/// A net reference after the net `from` is renamed `to`.
pub open spec fn renamed(net: Option<String>, from: Seq<char>, to: Seq<char>) -> Option<Seq<char>> {
    renamed_view(net_view(net), from, to)
}

fn names_net(net: &Option<String>, name: &str) -> (r: bool)
    ensures r == (net_view(*net) == Some(name@)),
{
    match net {
        Some(n) => same_str(n.as_str(), name),
        None => false,
    }
}

/// Points every trace, via, pour and hole on net `from` at net `to`; all
/// else stays as it was.
pub fn rename_net_refs(traces: &mut Vec<Trace>, vias: &mut Vec<Via>, pours: &mut Vec<Pour>, holes: &mut Vec<Hole>,
    from: &str, to: &str)
    ensures
        final(traces)@.len() == old(traces)@.len(),
        forall|i: int| 0 <= i < old(traces)@.len() ==> {
            let (a, b) = (old(traces)@[i], #[trigger] final(traces)@[i]);
            &&& net_view(b.net) == renamed(a.net, from@, to@)
            &&& b.layer == a.layer && b.width == a.width && b.points == a.points && b.routed == a.routed && b.fanout == a.fanout
        },
        final(vias)@.len() == old(vias)@.len(),
        forall|i: int| 0 <= i < old(vias)@.len() ==> {
            let (a, b) = (old(vias)@[i], #[trigger] final(vias)@[i]);
            &&& net_view(b.net) == renamed(a.net, from@, to@)
            &&& b.at == a.at && b.drill == a.drill && b.diameter == a.diameter && b.layers == a.layers && b.routed == a.routed && b.fanout == a.fanout
        },
        final(pours)@.len() == old(pours)@.len(),
        forall|i: int| 0 <= i < old(pours)@.len() ==> {
            let (a, b) = (old(pours)@[i], #[trigger] final(pours)@[i]);
            &&& net_view(b.net) == renamed(a.net, from@, to@)
            &&& b.name == a.name && b.layer == a.layer && b.edges == a.edges && b.clearance == a.clearance
            &&& b.priority == a.priority && b.thermal == a.thermal
        },
        final(holes)@.len() == old(holes)@.len(),
        forall|i: int| 0 <= i < old(holes)@.len() ==> {
            let (a, b) = (old(holes)@[i], #[trigger] final(holes)@[i]);
            &&& net_view(b.net) == renamed(a.net, from@, to@)
            &&& b.at == a.at && b.drill == a.drill && b.plated == a.plated && b.diameter == a.diameter
        },
{
    let ghost t0 = traces@;
    let mut i: usize = 0;
    while i < traces.len()
        invariant
            i <= traces@.len() == t0.len(),
            forall|j: int| 0 <= j < t0.len() ==> {
                let (a, b) = (t0[j], #[trigger] traces@[j]);
                &&& net_view(b.net) == (if j < i { renamed(a.net, from@, to@) } else { net_view(a.net) })
                &&& b.layer == a.layer && b.width == a.width && b.points == a.points && b.routed == a.routed && b.fanout == a.fanout
            },
        decreases t0.len() - i,
    {
        if names_net(&traces[i].net, from) {
            traces[i].net = Some(to.to_owned());
        }
        i += 1;
    }
    let ghost v0 = vias@;
    let mut i: usize = 0;
    while i < vias.len()
        invariant
            i <= vias@.len() == v0.len(),
            forall|j: int| 0 <= j < v0.len() ==> {
                let (a, b) = (v0[j], #[trigger] vias@[j]);
                &&& net_view(b.net) == (if j < i { renamed(a.net, from@, to@) } else { net_view(a.net) })
                &&& b.at == a.at && b.drill == a.drill && b.diameter == a.diameter && b.layers == a.layers && b.routed == a.routed && b.fanout == a.fanout
            },
        decreases v0.len() - i,
    {
        if names_net(&vias[i].net, from) {
            vias[i].net = Some(to.to_owned());
        }
        i += 1;
    }
    let ghost p0 = pours@;
    let mut i: usize = 0;
    while i < pours.len()
        invariant
            i <= pours@.len() == p0.len(),
            forall|j: int| 0 <= j < p0.len() ==> {
                let (a, b) = (p0[j], #[trigger] pours@[j]);
                &&& net_view(b.net) == (if j < i { renamed(a.net, from@, to@) } else { net_view(a.net) })
                &&& b.name == a.name && b.layer == a.layer && b.edges == a.edges && b.clearance == a.clearance
                &&& b.priority == a.priority && b.thermal == a.thermal
            },
        decreases p0.len() - i,
    {
        if names_net(&pours[i].net, from) {
            pours[i].net = Some(to.to_owned());
        }
        i += 1;
    }
    let ghost h0 = holes@;
    let mut i: usize = 0;
    while i < holes.len()
        invariant
            i <= holes@.len() == h0.len(),
            forall|j: int| 0 <= j < h0.len() ==> {
                let (a, b) = (h0[j], #[trigger] holes@[j]);
                &&& net_view(b.net) == (if j < i { renamed(a.net, from@, to@) } else { net_view(a.net) })
                &&& b.at == a.at && b.drill == a.drill && b.plated == a.plated && b.diameter == a.diameter
            },
        decreases h0.len() - i,
    {
        if names_net(&holes[i].net, from) {
            holes[i].net = Some(to.to_owned());
        }
        i += 1;
    }
}

/// Renaming a net and renaming it back restores every reference, where no
/// reference was to the new name before.
pub proof fn lemma_rename_back(net: Option<String>, n2: Option<String>, from: Seq<char>, to: Seq<char>)
    requires
        net_view(net) != Some(to),
        net_view(n2) == renamed(net, from, to),
    ensures
        renamed(n2, to, from) == net_view(net),
{
}

} // verus!
