//! The primitives of a Gerber file: the subset of RS-274X that `pcb gerbers`
//! writes (circle apertures, flashes, linear strokes and G36/G37 regions,
//! with the X2 `TO.P` pad attribute). Reading is a state machine over the
//! lines of the file; `gerber_lines` states it, `parse_gerber` runs it.

use vstd::prelude::*;
use crate::units::{Length, Point};
use crate::text::{trim, lines_of, lines, is_ascii_digit, push_str, string_from, string_of, find_in, copy_range, trim_bounds, cat3};
use crate::error::Error;
use crate::decimal::{all_digits, digit, pow10, find_char, decimal_to_units, digit_of, scan_decimal, scale_decimal};
use crate::gerber::{starts, ends, read_unsigned, read_i64, strip_all_suffix, parse_unsigned, parse_i64, has_prefix, has_suffix, is_text};
use crate::geom::{twice_area, area_sign};

verus! {

/// A pad attribute: the part's reference and the pad's name.
pub type PadTag = (Seq<char>, Seq<char>);

/// One dark object drawn by a Gerber file, as plain values.
pub enum PrimView {
    /// A polyline drawn with a round aperture of the given diameter.
    Stroke(Seq<Point>, Length, Option<PadTag>),
    /// A filled region, its ring counter-clockwise.
    Region(Seq<Point>, Option<PadTag>),
    /// A round flash of the given diameter.
    Flash(Point, Length, Option<PadTag>),
}

/// The reader's state between two lines of a Gerber file.
pub struct GerberScan {
    /// Nanometres per file unit, on each axis.
    pub scale_x: i64,
    pub scale_y: i64,
    /// The aperture definitions so far; a later one wins.
    pub apertures: Seq<(u32, Length)>,
    /// The aperture selected by the last D code.
    pub current: Option<u32>,
    /// The pad attribute in force.
    pub pad: Option<PadTag>,
    /// The objects drawn so far.
    pub prims: Seq<PrimView>,
    pub in_region: bool,
    pub region: Seq<Point>,
    pub pos: Point,
    /// The stroke being drawn and the width it was last given.
    pub stroke: Seq<Point>,
    pub width: Option<Length>,
    /// Whether the polarity is dark.
    pub dark: bool,
    /// Whether `M02` ended the file.
    pub stopped: bool,
}

/// The state before the first line.
pub open spec fn scan_start() -> GerberScan {
    GerberScan {
        scale_x: 1, scale_y: 1, apertures: Seq::empty(), current: None, pad: None,
        prims: Seq::empty(), in_region: false, region: Seq::empty(),
        pos: Point { x: Length(0), y: Length(0) }, stroke: Seq::empty(), width: None,
        dark: true, stopped: false,
    }
}

/// The diameter of aperture `code`: its last definition.
pub open spec fn aperture(aps: Seq<(u32, Length)>, code: u32) -> Option<Length>
    decreases aps.len(),
{
    if aps.len() == 0 {
        None
    } else if aps.last().0 == code {
        Some(aps.last().1)
    } else {
        aperture(aps.drop_last(), code)
    }
}

/// The diameter of the selected aperture.
pub open spec fn current_aperture(st: GerberScan) -> Option<Length> {
    match st.current {
        Some(c) => aperture(st.apertures, c),
        None => None,
    }
}

/// The state after the stroke being drawn is ended: it becomes an object
/// when it has two points and a width.
pub open spec fn flushed(st: GerberScan) -> GerberScan {
    let prims = if st.stroke.len() >= 2 && st.width is Some {
        st.prims.push(PrimView::Stroke(st.stroke, st.width->0, st.pad))
    } else {
        st.prims
    };
    GerberScan { prims, stroke: Seq::empty(), ..st }
}

/// The state after `G37` closes a region: a dark region of three points or
/// more, without a repeated closing point, becomes an object when it has an
/// area, turned counter-clockwise.
pub open spec fn region_closed(st: GerberScan) -> GerberScan {
    let r0 = st.region;
    let ring = if r0.len() > 0 && r0[0] == r0.last() { r0.drop_last() } else { r0 };
    let a = twice_area(ring);
    let prims = if r0.len() >= 3 && st.dark && a != 0 {
        st.prims.push(PrimView::Region(if a < 0 { ring.reverse() } else { ring }, st.pad))
    } else {
        st.prims
    };
    GerberScan { in_region: false, region: Seq::empty(), prims, ..st }
}

/// The digits of a format statement after `FSLAX`, such as `46Y46`: the
/// decimals of X (its second character) and of Y (the second character
/// after the first `Y`, before any other `Y`).
pub open spec fn format_digits(fs: Seq<char>) -> Option<(nat, nat)> {
    let yi = find_char(fs, 'Y');
    if fs.len() >= 2 && is_ascii_digit(fs[1]) && yi + 2 < fs.len() && fs[yi + 1] != 'Y'
        && is_ascii_digit(fs[yi + 2]) {
        Some((digit(fs[1]), digit(fs[yi + 2])))
    } else {
        None
    }
}

/// Nanometres per file unit for a format with `d` decimals of millimetres.
pub open spec fn unit_scale(d: nat) -> i64 {
    pow10((6 - if d < 6 { d } else { 6 }) as nat) as i64
}

/// Where the leading digits of `s` end.
pub open spec fn digits_end(s: Seq<char>) -> int
    decreases s.len(),
{
    if s.len() == 0 || !is_ascii_digit(s[0]) { 0 } else { 1 + digits_end(s.drop_first()) }
}

/// What an aperture definition `ADD<code>C,<mm>` adds: its code and
/// diameter, or the message refusing it.
pub open spec fn aperture_def(ad: Seq<char>) -> Result<(u32, Length), Seq<char>> {
    let k = digits_end(ad);
    let rest = ad.skip(k);
    match read_unsigned(ad.take(k), u32::MAX as nat) {
        None => Err("bad aperture `"@ + ad + "`"@),
        Some(code) => if starts(rest, "C,"@) {
            match decimal_to_units(rest.skip(2), 1_000_000) {
                Some(w) => Ok((code as u32, Length(w))),
                None => Err("bad aperture `"@ + ad + "`"@),
            }
        } else {
            Err("aperture `"@ + ad + "` is not a circle; the verifier reads only what pcb writes"@)
        },
    }
}

/// The pad attribute `TO.P,<ref>,<pad>` sets.
pub open spec fn pad_attribute(p: Seq<char>) -> PadTag {
    let i = find_char(p, ',');
    (p.take(i), if i < p.len() { p.skip(i + 1) } else { Seq::empty() })
}

/// An extended command `%...*%`, given what stands between the marks.
pub open spec fn ext_step(st: GerberScan, ext: Seq<char>) -> Result<GerberScan, Seq<char>> {
    if starts(ext, "FSLAX"@) {
        match format_digits(ext.skip(5)) {
            Some((xd, yd)) => Ok(GerberScan { scale_x: unit_scale(xd), scale_y: unit_scale(yd), ..st }),
            None => Err("bad FS"@),
        }
    } else if ext == "MOIN"@ {
        Err("inch units are not supported by the verifier"@)
    } else if starts(ext, "ADD"@) {
        match aperture_def(ext.skip(3)) {
            Ok(a) => Ok(GerberScan { apertures: st.apertures.push(a), ..st }),
            Err(m) => Err(m),
        }
    } else if starts(ext, "TO.P,"@) {
        Ok(GerberScan { pad: Some(pad_attribute(ext.skip(5))), ..st })
    } else if ext == "TD"@ || starts(ext, "TD,"@) {
        Ok(GerberScan { pad: None, ..st })
    } else if ext == "LPC"@ {
        Ok(GerberScan { dark: false, ..st })
    } else if ext == "LPD"@ {
        Ok(GerberScan { dark: true, ..st })
    } else {
        Ok(st)
    }
}

/// The characters a coordinate number is written with.
pub open spec fn coord_char(c: char) -> bool {
    is_ascii_digit(c) || c == '-' || c == '+'
}

/// Where a coordinate word's number ends: the first character after the
/// letter that is not a digit or a sign.
pub open spec fn coord_end(s: Seq<char>) -> int
    decreases s.len(),
{
    if s.len() <= 1 {
        s.len() as int
    } else if !coord_char(s[1]) {
        1
    } else {
        1 + coord_end(s.drop_first())
    }
}

/// The point and operation of the words in `rest`, a tail of `body`,
/// starting from `x`, `y` and `op`; or the message refusing them.
pub open spec fn coord_words(body: Seq<char>, rest: Seq<char>, sx: i64, sy: i64, x: i64, y: i64, op: Option<u32>)
    -> Result<(i64, i64, Option<u32>), Seq<char>>
    decreases rest.len(),
{
    if rest.len() == 0 {
        Ok((x, y, op))
    } else {
        let e = coord_end(rest);
        if e < 1 || e > rest.len() {
            Ok((x, y, op))
        } else {
            let num = rest.subrange(1, e);
            let c = rest[0];
            if c == 'X' || c == 'Y' {
                let s = if c == 'X' { sx } else { sy };
                match read_i64(num) {
                    Some(v) => if i64::MIN <= v * s <= i64::MAX {
                        if c == 'X' {
                            coord_words(body, rest.skip(e), sx, sy, (v * s) as i64, y, op)
                        } else {
                            coord_words(body, rest.skip(e), sx, sy, x, (v * s) as i64, op)
                        }
                    } else {
                        Err("bad coordinate `"@ + body + "`"@)
                    },
                    None => Err("bad coordinate `"@ + body + "`"@),
                }
            } else if c == 'D' {
                match read_unsigned(num, u32::MAX as nat) {
                    Some(d) => coord_words(body, rest.skip(e), sx, sy, x, y, Some(d as u32)),
                    None => Err("bad op `"@ + body + "`"@),
                }
            } else if c == 'G' || c == 'I' || c == 'J' {
                coord_words(body, rest.skip(e), sx, sy, x, y, op)
            } else {
                Err("unexpected `"@ + body + "`"@)
            }
        }
    }
}

/// The state after an operation at `p`: `D01` draws to it (a region point
/// or a stroke segment), `D02` moves to it (ending a stroke, or starting the
/// region afresh), `D03` flashes the selected aperture there.
pub open spec fn op_step(st: GerberScan, p: Point, op: Option<u32>) -> Result<GerberScan, Seq<char>> {
    if op == Some(1u32) {
        if st.in_region {
            Ok(GerberScan { region: st.region.push(p), pos: p, ..st })
        } else {
            let s0 = if st.stroke.len() == 0 { seq![st.pos] } else { st.stroke };
            Ok(GerberScan { stroke: s0.push(p), width: current_aperture(st), pos: p, ..st })
        }
    } else if op == Some(2u32) {
        if st.in_region {
            Ok(GerberScan { region: seq![p], pos: p, ..st })
        } else {
            Ok(GerberScan { pos: p, ..flushed(st) })
        }
    } else if op == Some(3u32) {
        let f = flushed(st);
        match current_aperture(st) {
            None => Err("flash without an aperture"@),
            Some(d) => Ok(GerberScan {
                prims: if st.dark { f.prims.push(PrimView::Flash(p, d, st.pad)) } else { f.prims },
                pos: p,
                ..f
            }),
        }
    } else {
        Ok(GerberScan { pos: p, ..st })
    }
}

/// Whether a trimmed line is an extended command `%...*%`.
pub open spec fn is_ext(line: Seq<char>) -> bool {
    line.len() >= 3 && line[0] == '%' && ends(line, "*%"@)
}

/// The state after one line of the file, or the message refusing it.
pub open spec fn gerber_line(st: GerberScan, raw: Seq<char>) -> Result<GerberScan, Seq<char>> {
    let line = trim(raw);
    let body = strip_all_suffix(line, seq!['*']);
    if line.len() == 0 {
        Ok(st)
    } else if is_ext(line) {
        ext_step(st, line.subrange(1, line.len() - 2))
    } else if body == "G36"@ {
        Ok(GerberScan { in_region: true, region: Seq::empty(), ..st })
    } else if body == "G37"@ {
        Ok(region_closed(st))
    } else if body == "M02"@ {
        Ok(GerberScan { stopped: true, ..st })
    } else if body.len() > 0 && body[0] == 'D' && all_digits(body.drop_first()) {
        match read_unsigned(body.drop_first(), u32::MAX as nat) {
            Some(c) => Ok(GerberScan { current: Some(c as u32), ..flushed(st) }),
            None => Err("bad D code `"@ + body + "`"@),
        }
    } else if body.len() > 0 && body[0] == 'G' && !body.contains('X') && !body.contains('Y') {
        Ok(st)
    } else {
        match coord_words(body, body, st.scale_x, st.scale_y, st.pos.x.0, st.pos.y.0, None) {
            Ok((x, y, op)) => op_step(st, Point { x: Length(x), y: Length(y) }, op),
            Err(m) => Err(m),
        }
    }
}

/// The state after the lines from `k` on, stopping at `M02`.
pub open spec fn gerber_lines(ls: Seq<Seq<char>>, k: int, st: GerberScan) -> Result<GerberScan, Seq<char>>
    decreases ls.len() - k,
{
    if k < 0 || k >= ls.len() || st.stopped {
        Ok(st)
    } else {
        match gerber_line(st, ls[k]) {
            Ok(s) => gerber_lines(ls, k + 1, s),
            Err(m) => Err(m),
        }
    }
}

/// The objects a Gerber text draws, or the message refusing it.
pub open spec fn gerber_prims(text: Seq<char>) -> Result<Seq<PrimView>, Seq<char>> {
    match gerber_lines(lines_of(text), 0, scan_start()) {
        Ok(st) => Ok(flushed(st).prims),
        Err(m) => Err(m),
    }
}

/// One dark object drawn by a Gerber file.
#[derive(Debug)]
pub enum Prim {
    /// A polyline drawn with a round aperture of diameter `width`.
    Stroke { points: Vec<Point>, width: Length, pad: Option<(String, String)> },
    /// A filled region, its ring counter-clockwise.
    Region { ring: Vec<Point>, pad: Option<(String, String)> },
    /// A round flash of the given diameter.
    Flash { at: Point, diameter: Length, pad: Option<(String, String)> },
}

/// A pad attribute as plain values.
pub open spec fn tag_view(t: Option<(String, String)>) -> Option<PadTag> {
    match t {
        Some((r, n)) => Some((r@, n@)),
        None => None,
    }
}

impl View for Prim {
    type V = PrimView;

    open spec fn view(&self) -> PrimView {
        match self {
            Prim::Stroke { points, width, pad } => PrimView::Stroke(points@, *width, tag_view(*pad)),
            Prim::Region { ring, pad } => PrimView::Region(ring@, tag_view(*pad)),
            Prim::Flash { at, diameter, pad } => PrimView::Flash(*at, *diameter, tag_view(*pad)),
        }
    }
}

/// Objects as plain values.
pub open spec fn prims_view(ps: Seq<Prim>) -> Seq<PrimView> {
    ps.map_values(|p: Prim| p@)
}

fn clone_tag(t: &Option<(String, String)>) -> (r: Option<(String, String)>)
    ensures tag_view(r) == tag_view(*t),
{
    match t {
        Some((a, b)) => Some((a.clone(), b.clone())),
        None => None,
    }
}

/// `pre`, the characters of `v`, then `post`.
fn quoted(pre: &str, v: &Vec<char>, post: &str) -> (s: String)
    ensures s@ == pre@ + v@ + post@,
{
    let mut s = String::new();
    push_str(&mut s, pre);
    push_str(&mut s, &string_from(v.as_slice()));
    push_str(&mut s, post);
    proof { assert(s@ =~= pre@ + v@ + post@); }
    s
}

/// The reader's state, held in values a program runs on.
struct Reader {
    scale_x: i64,
    scale_y: i64,
    apertures: Vec<(u32, Length)>,
    current: Option<u32>,
    pad: Option<(String, String)>,
    prims: Vec<Prim>,
    in_region: bool,
    region: Vec<Point>,
    pos: Point,
    stroke: Vec<Point>,
    width: Option<Length>,
    dark: bool,
    stopped: bool,
}

impl Reader {
    spec fn scan(&self) -> GerberScan {
        GerberScan {
            scale_x: self.scale_x,
            scale_y: self.scale_y,
            apertures: self.apertures@,
            current: self.current,
            pad: tag_view(self.pad),
            prims: prims_view(self.prims@),
            in_region: self.in_region,
            region: self.region@,
            pos: self.pos,
            stroke: self.stroke@,
            width: self.width,
            dark: self.dark,
            stopped: self.stopped,
        }
    }

    fn new() -> (r: Reader)
        ensures r.scan() == scan_start(),
    {
        let r = Reader {
            scale_x: 1, scale_y: 1, apertures: Vec::new(), current: None, pad: None,
            prims: Vec::new(), in_region: false, region: Vec::new(),
            pos: Point { x: Length(0), y: Length(0) }, stroke: Vec::new(), width: None,
            dark: true, stopped: false,
        };
        proof { assert(prims_view(r.prims@) =~= Seq::<PrimView>::empty()); }
        r
    }

    /// Ends the stroke being drawn.
    fn flush(&mut self)
        ensures final(self).scan() == flushed(old(self).scan()),
    {
        let mut s: Vec<Point> = Vec::new();
        std::mem::swap(&mut s, &mut self.stroke);
        if s.len() >= 2 {
            if let Some(w) = self.width {
                let pad = clone_tag(&self.pad);
                let ghost before = self.prims@;
                let prim = Prim::Stroke { points: s, width: w, pad };
                self.prims.push(prim);
                proof { assert(prims_view(self.prims@) =~= prims_view(before).push(prim@)); }
            }
        }
    }

    /// The diameter of the selected aperture.
    fn selected(&self) -> (r: Option<Length>)
        ensures r == current_aperture(self.scan()),
    {
        match self.current {
            None => None,
            Some(c) => {
                let mut i = self.apertures.len();
                proof { assert(self.apertures@.take(i as int) =~= self.apertures@); }
                while i > 0
                    invariant
                        i <= self.apertures@.len(), self.current == Some(c),
                        aperture(self.apertures@, c) == aperture(self.apertures@.take(i as int), c),
                    decreases i,
                {
                    proof {
                        assert(self.apertures@.take(i as int).drop_last() =~= self.apertures@.take(i - 1));
                        assert(self.apertures@.take(i as int).last() == self.apertures@[i - 1]);
                    }
                    if self.apertures[i - 1].0 == c {
                        return Some(self.apertures[i - 1].1);
                    }
                    i -= 1;
                }
                None
            },
        }
    }
}

/// The digits of a format statement.
fn read_format(fs: &Vec<char>) -> (r: Option<(u32, u32)>)
    ensures
        match format_digits(fs@) {
            Some((a, b)) => r == Some((a as u32, b as u32)),
            None => r is None,
        },
{
    let n = fs.len();
    let yi = find_in(fs.as_slice(), 0, n, 'Y');
    proof { assert(fs@.subrange(0, n as int) =~= fs@); }
    if n >= 2 && '0' <= fs[1] && fs[1] <= '9' && n >= 3 && yi < n - 2 && fs[yi + 1] != 'Y'
        && '0' <= fs[yi + 2] && fs[yi + 2] <= '9' {
        let a = digit_of(fs[1]);
        let b = digit_of(fs[yi + 2]);
        Some((a as u32, b as u32))
    } else {
        None
    }
}

/// Nanometres per file unit for a format with `d` decimals.
fn scale_of(d: u32) -> (r: i64)
    ensures r == unit_scale(d as nat),
{
    let e: u32 = if d < 6 { 6 - d } else { 0 };
    let mut r: i64 = 1;
    let mut j: u32 = 0;
    while j < e
        invariant j <= e <= 6, r == pow10(j as nat), e == 6 - (if d < 6 { d as int } else { 6 }),
        decreases e - j,
    {
        proof {
            reveal_with_fuel(pow10, 7);
            assert(pow10((j + 1) as nat) == 10 * pow10(j as nat));
            assert(pow10(j as nat) <= 100_000);
        }
        r = r * 10;
        j += 1;
    }
    r
}

pub proof fn lemma_digits_end(s: Seq<char>, i: int)
    requires 0 <= i <= s.len(), forall|j: int| 0 <= j < i ==> #[trigger] is_ascii_digit(s[j]),
    ensures digits_end(s) == i + digits_end(s.skip(i)),
    decreases i,
{
    if i > 0 {
        assert(is_ascii_digit(s[0]));
        assert forall|j: int| 0 <= j < i - 1 implies #[trigger] is_ascii_digit(s.drop_first()[j]) by {
            assert(is_ascii_digit(s[j + 1]));
        }
        lemma_digits_end(s.drop_first(), i - 1);
        assert(s.drop_first().skip(i - 1) =~= s.skip(i));
    } else {
        assert(s.skip(0) =~= s);
    }
}

/// An aperture definition after `ADD`.
fn read_aperture(ad: &Vec<char>) -> (r: Result<(u32, Length), String>)
    ensures
        match aperture_def(ad@) {
            Ok(a) => r matches Ok(b) && b == a,
            Err(m) => r matches Err(e) && e@ == m,
        },
{
    let n = ad.len();
    let mut k: usize = 0;
    while k < n && '0' <= ad[k] && ad[k] <= '9'
        invariant k <= n, n == ad@.len(), forall|j: int| 0 <= j < k ==> #[trigger] is_ascii_digit(ad@[j]),
        decreases n - k,
    {
        k += 1;
    }
    proof {
        lemma_digits_end(ad@, k as int);
        assert(digits_end(ad@.skip(k as int)) == 0);
        assert(ad@.subrange(0, k as int) =~= ad@.take(k as int));
        assert(ad@.subrange(k as int, n as int) =~= ad@.skip(k as int));
    }
    let code = copy_range(ad.as_slice(), 0, k);
    let rest = copy_range(ad.as_slice(), k, n);
    match parse_unsigned(&code, 0xffff_ffff) {
        None => Err(quoted("bad aperture `", ad, "`")),
        Some(c) => {
            if has_prefix(&rest, "C,") {
                proof { reveal_strlit("C,"); }
                let d = copy_range(rest.as_slice(), 2, rest.len());
                proof { assert(d@ =~= rest@.skip(2)); }
                match scan_decimal(d.as_slice()) {
                    None => Err(quoted("bad aperture `", ad, "`")),
                    Some(span) => Ok((c as u32, Length(scale_decimal(d.as_slice(), &span, 1_000_000)))),
                }
            } else {
                Err(quoted("aperture `", ad, "` is not a circle; the verifier reads only what pcb writes"))
            }
        },
    }
}

/// The pad attribute after `TO.P,`.
fn read_pad(p: &Vec<char>) -> (r: (String, String))
    ensures (r.0@, r.1@) == pad_attribute(p@),
{
    let n = p.len();
    let i = find_in(p.as_slice(), 0, n, ',');
    proof { assert(p@.subrange(0, n as int) =~= p@); assert(p@.subrange(0, i as int) =~= p@.take(i as int)); }
    let a = string_of(p.as_slice(), 0, i);
    let b = if i < n { string_of(p.as_slice(), i + 1, n) } else { String::new() };
    proof { if i < n { assert(p@.subrange(i + 1, n as int) =~= p@.skip(i + 1)); } }
    (a, b)
}

impl Reader {
    /// An extended command, given what stands between `%` and `*%`.
    fn ext(&mut self, ext: &Vec<char>) -> (r: Result<(), String>)
        ensures
            match ext_step(old(self).scan(), ext@) {
                Ok(st) => r is Ok && final(self).scan() == st,
                Err(m) => r matches Err(e) && e@ == m,
            },
    {
        let n = ext.len();
        if has_prefix(ext, "FSLAX") {
            proof { reveal_strlit("FSLAX"); }
            let fs = copy_range(ext.as_slice(), 5, n);
            proof { assert(fs@ =~= ext@.skip(5)); }
            match read_format(&fs) {
                Some((xd, yd)) => {
                    self.scale_x = scale_of(xd);
                    self.scale_y = scale_of(yd);
                    Ok(())
                },
                None => Err("bad FS".to_string()),
            }
        } else if is_text(ext, "MOIN") {
            Err("inch units are not supported by the verifier".to_string())
        } else if has_prefix(ext, "ADD") {
            proof { reveal_strlit("ADD"); }
            let ad = copy_range(ext.as_slice(), 3, n);
            proof { assert(ad@ =~= ext@.skip(3)); }
            match read_aperture(&ad) {
                Ok(a) => {
                    self.apertures.push(a);
                    Ok(())
                },
                Err(m) => Err(m),
            }
        } else if has_prefix(ext, "TO.P,") {
            proof { reveal_strlit("TO.P,"); }
            let pv = copy_range(ext.as_slice(), 5, n);
            proof { assert(pv@ =~= ext@.skip(5)); }
            self.pad = Some(read_pad(&pv));
            Ok(())
        } else if is_text(ext, "TD") || has_prefix(ext, "TD,") {
            self.pad = None;
            Ok(())
        } else if is_text(ext, "LPC") {
            self.dark = false;
            Ok(())
        } else if is_text(ext, "LPD") {
            self.dark = true;
            Ok(())
        } else {
            Ok(())
        }
    }
}

proof fn lemma_coord_end(s: Seq<char>)
    requires s.len() >= 1,
    ensures
        1 <= coord_end(s) <= s.len(),
        forall|j: int| 1 <= j < coord_end(s) ==> coord_char(#[trigger] s[j]),
        coord_end(s) == s.len() || !coord_char(s[coord_end(s)]),
    decreases s.len(),
{
    if s.len() > 1 && coord_char(s[1]) {
        lemma_coord_end(s.drop_first());
        assert forall|j: int| 1 <= j < coord_end(s) implies coord_char(#[trigger] s[j]) by {
            if j >= 2 { assert(s[j] == s.drop_first()[j - 1]); }
        }
    }
}

/// The point and operation of a coordinate word, from `(x0, y0)`.
fn read_coords(body: &Vec<char>, sx: i64, sy: i64, x0: i64, y0: i64) -> (r: Result<(i64, i64, Option<u32>), String>)
    ensures
        match coord_words(body@, body@, sx, sy, x0, y0, None) {
            Ok(t) => r matches Ok(u) && u == t,
            Err(m) => r matches Err(e) && e@ == m,
        },
{
    let n = body.len();
    let mut x = x0;
    let mut y = y0;
    let mut op: Option<u32> = None;
    let mut i: usize = 0;
    proof { assert(body@.skip(0) =~= body@); }
    while i < n
        invariant
            i <= n, n == body@.len(),
            coord_words(body@, body@, sx, sy, x0, y0, None) == coord_words(body@, body@.skip(i as int), sx, sy, x, y, op),
        decreases n - i,
    {
        let ghost rest = body@.skip(i as int);
        proof { lemma_coord_end(rest); }
        let mut j = i + 1;
        while j < n && (('0' <= body[j] && body[j] <= '9') || body[j] == '-' || body[j] == '+')
            invariant
                i + 1 <= j <= n, n == body@.len(), rest == body@.skip(i as int),
                forall|m: int| i + 1 <= m < j ==> coord_char(#[trigger] body@[m]),
            decreases n - j,
        {
            j += 1;
        }
        proof {
            let e = coord_end(rest);
            assert(j - i == e) by {
                if j - i < e { assert(coord_char(rest[j - i])); assert(rest[j - i] == body@[j as int]); }
                if j - i > e { assert(rest[e] == body@[i + e]); }
            }
            assert(rest.subrange(1, e) =~= body@.subrange(i + 1, j as int));
            assert(rest.skip(e) =~= body@.skip(j as int));
        }
        let c = body[i];
        let num = copy_range(body.as_slice(), i + 1, j);
        if c == 'X' || c == 'Y' {
            let s = if c == 'X' { sx } else { sy };
            match parse_i64(&num) {
                None => { return Err(quoted("bad coordinate `", body, "`")); },
                Some(v) => match v.checked_mul(s) {
                    None => { return Err(quoted("bad coordinate `", body, "`")); },
                    Some(w) => {
                        if c == 'X' {
                            x = w;
                        } else {
                            y = w;
                        }
                    },
                },
            }
        } else if c == 'D' {
            match parse_unsigned(&num, 0xffff_ffff) {
                None => { return Err(quoted("bad op `", body, "`")); },
                Some(d) => { op = Some(d as u32); },
            }
        } else if c == 'G' || c == 'I' || c == 'J' {
        } else {
            return Err(quoted("unexpected `", body, "`"));
        }
        i = j;
    }
    proof { assert(body@.skip(n as int).len() == 0); }
    Ok((x, y, op))
}

/// The points of `v` in reverse order.
fn reversed(v: &Vec<Point>) -> (r: Vec<Point>)
    ensures r@ == v@.reverse(),
{
    let n = v.len();
    let mut r: Vec<Point> = Vec::new();
    let mut i = n;
    while i > 0
        invariant i <= n, n == v@.len(), r@.len() == n - i,
            forall|j: int| 0 <= j < n - i ==> r@[j] == v@[n - 1 - j],
        decreases i,
    {
        r.push(v[i - 1]);
        i -= 1;
    }
    proof { assert(r@ =~= v@.reverse()); }
    r
}

/// `v` without its trailing `*` characters.
fn strip_stars(v: &Vec<char>) -> (r: Vec<char>)
    ensures r@ == strip_all_suffix(v@, seq!['*']),
{
    let mut k = v.len();
    proof { assert(v@.take(k as int) =~= v@); }
    while k > 0 && v[k - 1] == '*'
        invariant k <= v@.len(), strip_all_suffix(v@, seq!['*']) == strip_all_suffix(v@.take(k as int), seq!['*']),
        decreases k,
    {
        proof {
            let t = v@.take(k as int);
            assert(t.skip(t.len() - 1) =~= seq!['*']);
            assert(t.take(t.len() - 1) =~= v@.take(k - 1));
        }
        k -= 1;
    }
    proof {
        let t = v@.take(k as int);
        if k > 0 {
            assert(t.skip(t.len() - 1)[0] == v@[k - 1]);
            assert(!ends(t, seq!['*']));
        }
    }
    copy_range(v.as_slice(), 0, k)
}

proof fn lemma_find_char_contains(s: Seq<char>, c: char)
    ensures 0 <= find_char(s, c) <= s.len(), (find_char(s, c) < s.len()) == s.contains(c),
    decreases s.len(),
{
    if s.len() > 0 {
        lemma_find_char_contains(s.drop_first(), c);
        if s[0] != c {
            if s.contains(c) {
                let j = choose|j: int| 0 <= j < s.len() && s[j] == c;
                assert(s.drop_first()[j - 1] == c);
            }
            if s.drop_first().contains(c) {
                let j = choose|j: int| 0 <= j < s.drop_first().len() && s.drop_first()[j] == c;
                assert(s[j + 1] == c);
            }
        } else {
            assert(s[0] == c);
        }
    }
}

impl Reader {
    /// An operation at `p`.
    fn operate(&mut self, p: Point, op: Option<u32>) -> (r: Result<(), String>)
        ensures
            match op_step(old(self).scan(), p, op) {
                Ok(st) => r is Ok && final(self).scan() == st,
                Err(m) => r matches Err(e) && e@ == m,
            },
    {
        match op {
            Some(1) => {
                if self.in_region {
                    self.region.push(p);
                } else {
                    let ghost s_old = self.stroke@;
                    if self.stroke.len() == 0 {
                        self.stroke.push(self.pos);
                        proof { assert(self.stroke@ =~= seq![self.pos]); }
                    }
                    proof { assert(self.stroke@ == (if s_old.len() == 0 { seq![self.pos] } else { s_old })); }
                    self.stroke.push(p);
                    self.width = self.selected();
                }
                self.pos = p;
                Ok(())
            },
            Some(2) => {
                if self.in_region {
                    self.region = Vec::new();
                    self.region.push(p);
                } else {
                    self.flush();
                }
                self.pos = p;
                Ok(())
            },
            Some(3) => {
                let d = self.selected();
                self.flush();
                match d {
                    None => Err("flash without an aperture".to_string()),
                    Some(d) => {
                        if self.dark {
                            let pad = clone_tag(&self.pad);
                            let ghost before = self.prims@;
                            let prim = Prim::Flash { at: p, diameter: d, pad };
                            self.prims.push(prim);
                            proof { assert(prims_view(self.prims@) =~= prims_view(before).push(prim@)); }
                        }
                        self.pos = p;
                        Ok(())
                    },
                }
            },
            _ => {
                self.pos = p;
                Ok(())
            },
        }
    }

    /// `G37`: the region is closed.
    fn close_region(&mut self)
        ensures final(self).scan() == region_closed(old(self).scan()),
    {
        let mut r: Vec<Point> = Vec::new();
        std::mem::swap(&mut r, &mut self.region);
        self.in_region = false;
        let n0 = r.len();
        let ghost r0 = r@;
        if n0 > 0 && r[0] == r[n0 - 1] {
            r.pop();
            proof { assert(r@ =~= r0.drop_last()); }
        }
        let a = area_sign(&r);
        if n0 >= 3 && self.dark && a != 0 {
            let ring = if a < 0 { reversed(&r) } else { r };
            let pad = clone_tag(&self.pad);
            let ghost before = self.prims@;
            let prim = Prim::Region { ring, pad };
            self.prims.push(prim);
            proof { assert(prims_view(self.prims@) =~= prims_view(before).push(prim@)); }
        }
    }
}

impl Reader {
    /// One line of the file.
    fn line(&mut self, raw: &Vec<char>) -> (r: Result<(), String>)
        ensures
            match gerber_line(old(self).scan(), raw@) {
                Ok(st) => r is Ok && final(self).scan() == st,
                Err(m) => r matches Err(e) && e@ == m,
            },
    {
        let (a, b) = trim_bounds(raw.as_slice(), 0, raw.len());
        let line = copy_range(raw.as_slice(), a, b);
        proof { assert(raw@.subrange(0, raw@.len() as int) =~= raw@); }
        let n = line.len();
        if n == 0 {
            return Ok(());
        }
        if n >= 3 && line[0] == '%' && has_suffix(&line, "*%") {
            let ext = copy_range(line.as_slice(), 1, n - 2);
            return self.ext(&ext);
        }
        let body = strip_stars(&line);
        let m = body.len();
        proof { reveal_strlit("G36"); reveal_strlit("G37"); reveal_strlit("M02"); }
        if is_text(&body, "G36") {
            self.in_region = true;
            self.region = Vec::new();
            return Ok(());
        }
        if is_text(&body, "G37") {
            self.close_region();
            return Ok(());
        }
        if is_text(&body, "M02") {
            self.stopped = true;
            return Ok(());
        }
        if m > 0 && body[0] == 'D' {
            let mut i: usize = 1;
            while i < m && '0' <= body[i] && body[i] <= '9'
                invariant 1 <= i <= m, m == body@.len(), forall|j: int| 1 <= j < i ==> #[trigger] is_ascii_digit(body@[j]),
                decreases m - i,
            {
                i += 1;
            }
            if i == m {
                let d = copy_range(body.as_slice(), 1, m);
                proof {
                    assert(d@ =~= body@.drop_first());
                    assert forall|j: int| 0 <= j < d@.len() implies #[trigger] is_ascii_digit(d@[j]) by {
                        assert(is_ascii_digit(body@[j + 1]));
                    }
                }
                self.flush();
                return match parse_unsigned(&d, 0xffff_ffff) {
                    None => Err(quoted("bad D code `", &body, "`")),
                    Some(c) => {
                        self.current = Some(c as u32);
                        Ok(())
                    },
                };
            }
            proof { assert(!is_ascii_digit(body@.drop_first()[i - 1])); }
        }
        if m > 0 && body[0] == 'G' {
            let xi = find_in(body.as_slice(), 0, m, 'X');
            let yi = find_in(body.as_slice(), 0, m, 'Y');
            proof {
                assert(body@.subrange(0, m as int) =~= body@);
                lemma_find_char_contains(body@, 'X');
                lemma_find_char_contains(body@, 'Y');
            }
            if xi == m && yi == m {
                return Ok(());
            }
        }
        match read_coords(&body, self.scale_x, self.scale_y, self.pos.x.0, self.pos.y.0) {
            Err(e) => Err(e),
            Ok((x, y, op)) => self.operate(Point { x: Length(x), y: Length(y) }, op),
        }
    }
}

/// The objects a Gerber text draws: the subset of RS-274X that `pcb gerbers`
/// writes, read line by line as `gerber_lines` states. `path` names the
/// file in the error.
pub fn parse_gerber(path: &str, text: &str) -> (r: Result<Vec<Prim>, Error>)
    ensures
        match gerber_prims(text@) {
            Ok(ps) => r matches Ok(v) && prims_view(v@) == ps,
            Err(m) => r matches Err(e) && e.message@ == path@ + ": "@ + m,
        },
{
    let ls = lines(text);
    let ghost lv = ls@.map_values(|x: Vec<char>| x@);
    let mut rd = Reader::new();
    let mut k: usize = 0;
    while k < ls.len() && !rd.stopped
        invariant
            k <= ls@.len(), lv == ls@.map_values(|x: Vec<char>| x@), lv == lines_of(text@),
            gerber_lines(lv, 0, scan_start()) == gerber_lines(lv, k as int, rd.scan()),
        decreases ls@.len() - k,
    {
        proof { assert(lv[k as int] == ls@[k as int]@); }
        match rd.line(&ls[k]) {
            Ok(()) => {},
            Err(m) => {
                return Err(Error::msg(cat3(path, ": ", m.as_str())));
            },
        }
        k += 1;
    }
    rd.flush();
    Ok(rd.prims)
}

} // verus!
