//! The RS-274X writer. Coordinates are integer nanometres, which is exactly
//! the 4.6 millimetre format, so no rounding happens on output: the
//! coordinate and aperture words it writes read back to the same values
//! (`lemma_coordinate_reads_back`, `lemma_aperture_reads_back`).

use vstd::prelude::*;
use crate::units::{Length, Point};
use crate::text::push_str;
use crate::numfmt::{nat_digits, padded_digits, int_text, push_nat, push_int, push_padded};
use crate::geom::{area_sign, twice_area};
use crate::plot::{coord_words, coord_char, coord_end, aperture_def, digits_end, lemma_digits_end};
use crate::gerber::{read_i64, read_unsigned};
use crate::decimal::{all_digits, digits_val, pow10, lemma_pow10_pos, find_char, sign_split, scaled_magnitude, decimal_to_units};
use crate::text::is_ascii_digit;
use crate::emit::{lemma_nat_digits, lemma_digits_lack, lemma_find_concat};

verus! {

/// The current date and time in UTC from `time::OffsetDateTime::now_utc`:
/// year, month, day, hour, minute, second. The crate keeps years within
/// -9999..=9999 (without its `large-dates` feature) and documents the
/// ranges of the others; which instant it is, is not stated.
#[verifier::external_body]
fn utc_now() -> (r: (i32, u8, u8, u8, u8, u8))
    ensures -9999 <= r.0 <= 9999, 1 <= r.1 <= 12, 1 <= r.2 <= 31, r.3 < 24, r.4 < 60, r.5 < 60,
{
    let now = time::OffsetDateTime::now_utc();
    (now.year(), now.month() as u8, now.day(), now.hour(), now.minute(), now.second())
}

/// A year written with at least four characters, the sign counted.
pub open spec fn year_text(y: int) -> Seq<char> {
    if y >= 0 {
        if y <= 9999 { padded_digits(y as nat, 4) } else { nat_digits(y as nat) }
    } else if -y <= 999 {
        seq!['-'] + padded_digits((-y) as nat, 3)
    } else {
        seq!['-'] + nat_digits((-y) as nat)
    }
}

/// A UTC instant as the `TF.CreationDate` attribute writes it.
pub open spec fn stamp_text(t: (i32, u8, u8, u8, u8, u8)) -> Seq<char> {
    year_text(t.0 as int) + seq!['-'] + padded_digits(t.1 as nat, 2) + seq!['-'] + padded_digits(t.2 as nat, 2)
        + seq!['T'] + padded_digits(t.3 as nat, 2) + seq![':'] + padded_digits(t.4 as nat, 2) + seq![':']
        + padded_digits(t.5 as nat, 2) + "+00:00"@
}

/// Appends a UTC instant as `stamp_text` writes it.
fn push_stamp(s: &mut String, t: (i32, u8, u8, u8, u8, u8))
    requires -9999 <= t.0 <= 9999,
    ensures final(s)@ == old(s)@ + stamp_text(t),
{
    let y = t.0;
    if y >= 0 {
        push_padded(s, y as u64, 4);
    } else {
        push_str(s, "-");
        let m = (0 - y) as u64;
        if m <= 999 {
            push_padded(s, m, 3);
        } else {
            push_nat(s, m);
        }
    }
    push_str(s, "-");
    push_padded(s, t.1 as u64, 2);
    push_str(s, "-");
    push_padded(s, t.2 as u64, 2);
    push_str(s, "T");
    push_padded(s, t.3 as u64, 2);
    push_str(s, ":");
    push_padded(s, t.4 as u64, 2);
    push_str(s, ":");
    push_padded(s, t.5 as u64, 2);
    push_str(s, "+00:00");
    proof {
        reveal_strlit("-");
        reveal_strlit("T");
        reveal_strlit(":");
        assert(s@ =~= old(s)@ + stamp_text(t));
    }
}

/// The file attributes and format statements that open a Gerber file.
pub open spec fn header_text(function: Seq<char>, polarity: Seq<char>, t: (i32, u8, u8, u8, u8, u8)) -> Seq<char> {
    "%TF.GenerationSoftware,flatland,pcb,0.1*%\n"@
        + "%TF.CreationDate,"@ + stamp_text(t) + "*%\n"@
        + "%TF.FileFunction,"@ + function + "*%\n"@
        + "%TF.FilePolarity,"@ + polarity + "*%\n"@
        + "%FSLAX46Y46*%\n%MOMM*%\n"@
}

/// A point as a coordinate word: `X<x>Y<y>` in nanometres.
pub open spec fn coord_text(p: Point) -> Seq<char> {
    "X"@ + int_text(p.x.0 as int) + "Y"@ + int_text(p.y.0 as int)
}

/// The lines that move or draw through `pts`, each ending with `op`.
pub open spec fn point_lines(pts: Seq<Point>, op: Seq<char>) -> Seq<char>
    decreases pts.len(),
{
    if pts.len() == 0 {
        Seq::empty()
    } else {
        point_lines(pts.drop_last(), op) + coord_text(pts.last()) + op + "*\n"@
    }
}

/// The line that selects aperture `code`.
pub open spec fn select_text(code: u32) -> Seq<char> {
    "D"@ + nat_digits(code as nat) + "*\n"@
}

/// A circle flashed at `at` with aperture `code`.
pub open spec fn flash_text(code: u32, at: Point) -> Seq<char> {
    select_text(code) + coord_text(at) + "D03"@ + "*\n"@
}

/// A polyline of two points or more drawn with aperture `code`.
pub open spec fn polyline_text(code: u32, pts: Seq<Point>) -> Seq<char> {
    select_text(code) + coord_text(pts[0]) + "D02"@ + "*\n"@ + point_lines(pts.drop_first(), "D01"@)
}

/// A filled ring of three points or more, closed back to its first point.
pub open spec fn region_text(ring: Seq<Point>) -> Seq<char> {
    "G36*\n"@ + coord_text(ring[0]) + "D02"@ + "*\n"@ + point_lines(ring.drop_first(), "D01"@)
        + coord_text(ring[0]) + "D01"@ + "*\n"@ + "G37*\n"@
}

/// A diameter in nanometres as millimetres with six decimals.
pub open spec fn mm6_text(d: nat) -> Seq<char> {
    nat_digits(d / 1_000_000) + "."@ + padded_digits(d % 1_000_000, 6)
}

/// The aperture definitions, in the order the apertures were first used.
pub open spec fn aperture_lines(aps: Seq<(i64, u32)>) -> Seq<char>
    decreases aps.len(),
{
    if aps.len() == 0 {
        Seq::empty()
    } else {
        aperture_lines(aps.drop_last()) + "%ADD"@ + nat_digits(aps.last().1 as nat) + "C,"@
            + mm6_text(aps.last().0 as nat) + "*%\n"@
    }
}

/// Where diameter `d` stands among the apertures, or their number.
pub open spec fn aperture_index(aps: Seq<(i64, u32)>, d: i64) -> int
    decreases aps.len(),
{
    if aps.len() == 0 {
        0
    } else if aps[0].0 == d {
        0
    } else {
        1 + aperture_index(aps.drop_first(), d)
    }
}

/// The diameter an aperture is made for: at least one nanometre.
pub open spec fn aperture_size(l: Length) -> i64 {
    if l.0 < 1 { 1 } else { l.0 }
}

/// A Gerber file being written: its header, its drawing commands and the
/// circle apertures they use.
pub struct Gerber {
    header: String,
    body: String,
    /// Diameter (nm) and D code of each aperture, in the order of first use.
    apertures: Vec<(i64, u32)>,
    next_d: u32,
}

impl Gerber {
    pub closed spec fn head(&self) -> Seq<char> {
        self.header@
    }

    pub closed spec fn drawn(&self) -> Seq<char> {
        self.body@
    }

    pub closed spec fn apertures(&self) -> Seq<(i64, u32)> {
        self.apertures@
    }

    /// The apertures are numbered from 10 in the order of first use, each
    /// diameter once, and there is room for more.
    pub closed spec fn wf(&self) -> bool {
        &&& self.next_d as int == 10 + self.apertures@.len()
        &&& self.apertures@.len() < 0x1000_0000
        &&& forall|j: int| 0 <= j < self.apertures@.len() ==> (#[trigger] self.apertures@[j]).1 == 10 + j
        &&& forall|j: int| 0 <= j < self.apertures@.len() ==> (#[trigger] self.apertures@[j]).0 >= 1
        &&& forall|j: int, k: int| 0 <= j < k < self.apertures@.len()
            ==> (#[trigger] self.apertures@[j]).0 != (#[trigger] self.apertures@[k]).0
    }

    /// A new file of the given function and polarity, created at the UTC
    /// instant `t`.
    pub fn at(function: &str, polarity: &str, t: (i32, u8, u8, u8, u8, u8)) -> (g: Gerber)
        requires -9999 <= t.0 <= 9999,
        ensures
            g.wf(), g.head() == header_text(function@, polarity@, t), g.drawn().len() == 0,
            g.apertures().len() == 0,
    {
        let mut header = String::new();
        push_str(&mut header, "%TF.GenerationSoftware,flatland,pcb,0.1*%\n");
        push_str(&mut header, "%TF.CreationDate,");
        push_stamp(&mut header, t);
        push_str(&mut header, "*%\n");
        push_str(&mut header, "%TF.FileFunction,");
        push_str(&mut header, function);
        push_str(&mut header, "*%\n");
        push_str(&mut header, "%TF.FilePolarity,");
        push_str(&mut header, polarity);
        push_str(&mut header, "*%\n");
        push_str(&mut header, "%FSLAX46Y46*%\n%MOMM*%\n");
        proof { assert(header@ =~= header_text(function@, polarity@, t)); }
        Gerber { header, body: String::new(), apertures: Vec::new(), next_d: 10 }
    }

    /// A new file of the given function and polarity, created now.
    pub fn new(function: &str, polarity: &str) -> (g: Gerber)
        ensures
            g.wf(), exists|t: (i32, u8, u8, u8, u8, u8)| g.head() == header_text(function@, polarity@, t),
            g.drawn().len() == 0, g.apertures().len() == 0,
    {
        let t = utc_now();
        Gerber::at(function, polarity, t)
    }
}

impl Gerber {
    /// The D code of the circle aperture of diameter `diameter` (at least one
    /// nanometre), defined now when it is new.
    fn aperture(&mut self, diameter: Length) -> (code: u32)
        requires old(self).wf(), old(self).apertures().len() < 0x0fff_ffff,
        ensures
            final(self).wf(),
            final(self).head() == old(self).head(), final(self).drawn() == old(self).drawn(),
            code as int == 10 + aperture_index(old(self).apertures(), aperture_size(diameter)),
            final(self).apertures() == (if aperture_index(old(self).apertures(), aperture_size(diameter)) < old(self).apertures().len() {
                old(self).apertures()
            } else {
                old(self).apertures().push((aperture_size(diameter), code))
            }),
    {
        let d = if diameter.0 < 1 { 1 } else { diameter.0 };
        let ghost aps = self.apertures@;
        let mut j: usize = 0;
        proof { assert(aps.skip(0) =~= aps); }
        while j < self.apertures.len()
            invariant
                j <= aps.len(), aps == self.apertures@, d == aperture_size(diameter),
                *self == *old(self), self.wf(),
                aperture_index(aps, d) == j + aperture_index(aps.skip(j as int), d),
            decreases aps.len() - j,
        {
            proof { assert(aps.skip(j as int)[0] == aps[j as int]); }
            if self.apertures[j].0 == d {
                proof { assert(aperture_index(aps.skip(j as int), d) == 0); }
                return self.apertures[j].1;
            }
            proof { assert(aps.skip(j as int).drop_first() =~= aps.skip(j + 1)); }
            j += 1;
        }
        proof { assert(aps.skip(j as int).len() == 0); }
        let code = self.next_d;
        self.next_d = self.next_d + 1;
        self.apertures.push((d, code));
        proof {
            assert forall|j: int, k: int| 0 <= j < k < self.apertures@.len()
                implies (#[trigger] self.apertures@[j]).0 != (#[trigger] self.apertures@[k]).0 by {
                if k == self.apertures@.len() - 1 {
                    lemma_aperture_absent(aps, d, j);
                }
            }
        }
        code
    }

    /// Appends a coordinate line `X<x>Y<y><op>*`.
    fn coord_line(&mut self, p: Point, op: &str)
        ensures
            final(self).body@ == old(self).body@ + coord_text(p) + op@ + "*\n"@,
            final(self).header == old(self).header, final(self).apertures == old(self).apertures,
            final(self).next_d == old(self).next_d,
    {
        push_str(&mut self.body, "X");
        push_int(&mut self.body, p.x.0);
        push_str(&mut self.body, "Y");
        push_int(&mut self.body, p.y.0);
        push_str(&mut self.body, op);
        push_str(&mut self.body, "*\n");
        proof { assert(self.body@ =~= old(self).body@ + coord_text(p) + op@ + "*\n"@); }
    }

    /// Appends a coordinate line for each point of `pts` after the first.
    fn coord_lines_after_first(&mut self, pts: &Vec<Point>, op: &str)
        requires pts@.len() >= 1,
        ensures
            final(self).body@ == old(self).body@ + point_lines(pts@.drop_first(), op@),
            final(self).header == old(self).header, final(self).apertures == old(self).apertures,
            final(self).next_d == old(self).next_d,
    {
        let mut i: usize = 1;
        proof { assert(pts@.drop_first().take(0) =~= Seq::<Point>::empty()); }
        while i < pts.len()
            invariant
                1 <= i <= pts@.len(),
                self.body@ == old(self).body@ + point_lines(pts@.drop_first().take(i - 1), op@),
                self.header == old(self).header, self.apertures == old(self).apertures,
                self.next_d == old(self).next_d,
            decreases pts@.len() - i,
        {
            let ghost rest = pts@.drop_first().take(i as int);
            proof {
                assert(rest.drop_last() =~= pts@.drop_first().take(i - 1));
                assert(rest.last() == pts@[i as int]);
            }
            self.coord_line(pts[i], op);
            i += 1;
        }
        proof { assert(pts@.drop_first().take(pts@.len() - 1) =~= pts@.drop_first()); }
    }

    /// Flashes a circle of diameter `diameter` at `at`.
    pub fn flash_circle(&mut self, at: Point, diameter: Length)
        requires old(self).wf(), old(self).apertures().len() < 0x0fff_ffff,
        ensures
            final(self).wf(), final(self).head() == old(self).head(),
            final(self).drawn() == old(self).drawn()
                + flash_text((10 + aperture_index(old(self).apertures(), aperture_size(diameter))) as u32, at),
            final(self).apertures() == with_aperture(old(self).apertures(), aperture_size(diameter)),
    {
        let d = self.aperture(diameter);
        push_str(&mut self.body, "D");
        push_nat(&mut self.body, d as u64);
        push_str(&mut self.body, "*\n");
        self.coord_line(at, "D03");
        proof {
            assert(self.body@ =~= old(self).body@ + flash_text(d, at));
        }
    }

    /// Draws the polyline `pts` with a round aperture of diameter `width`;
    /// nothing for fewer than two points.
    pub fn polyline(&mut self, pts: &Vec<Point>, width: Length)
        requires old(self).wf(), old(self).apertures().len() < 0x0fff_ffff,
        ensures
            final(self).wf(), final(self).head() == old(self).head(),
            pts@.len() < 2 ==> final(self).drawn() == old(self).drawn() && final(self).apertures() == old(self).apertures(),
            pts@.len() >= 2 ==> final(self).drawn() == old(self).drawn()
                + polyline_text((10 + aperture_index(old(self).apertures(), aperture_size(width))) as u32, pts@)
                && final(self).apertures() == with_aperture(old(self).apertures(), aperture_size(width)),
    {
        if pts.len() < 2 {
            return;
        }
        let d = self.aperture(width);
        let ghost b0 = self.body@;
        push_str(&mut self.body, "D");
        push_nat(&mut self.body, d as u64);
        push_str(&mut self.body, "*\n");
        self.coord_line(pts[0], "D02");
        self.coord_lines_after_first(pts, "D01");
        proof {
            assert(self.body@ =~= b0 + polyline_text(d, pts@));
        }
    }

    /// Fills the ring `ring` (its outer boundary only); nothing for fewer
    /// than three points.
    pub fn region(&mut self, ring: &Vec<Point>)
        requires old(self).wf(),
        ensures
            final(self).wf(), final(self).head() == old(self).head(), final(self).apertures() == old(self).apertures(),
            final(self).drawn() == old(self).drawn() + (if ring@.len() >= 3 { region_text(ring@) } else { Seq::empty() }),
    {
        if ring.len() < 3 {
            proof { assert(self.body@ =~= old(self).body@ + Seq::<char>::empty()); }
            return;
        }
        push_str(&mut self.body, "G36*\n");
        self.coord_line(ring[0], "D02");
        self.coord_lines_after_first(ring, "D01");
        self.coord_line(ring[0], "D01");
        push_str(&mut self.body, "G37*\n");
        proof { assert(self.body@ =~= old(self).body@ + region_text(ring@)); }
    }
}

/// The apertures after one of diameter `d` is used.
pub open spec fn with_aperture(aps: Seq<(i64, u32)>, d: i64) -> Seq<(i64, u32)> {
    if aperture_index(aps, d) < aps.len() { aps } else { aps.push((d, (10 + aps.len()) as u32)) }
}

proof fn lemma_aperture_absent(aps: Seq<(i64, u32)>, d: i64, j: int)
    requires aperture_index(aps, d) >= aps.len(), 0 <= j < aps.len(),
    ensures aps[j].0 != d,
    decreases aps.len(),
{
    if aps[0].0 == d {
    } else if j > 0 {
        lemma_aperture_absent(aps.drop_first(), d, j - 1);
    }
}

/// A ring's fill, or nothing for fewer than three points.
pub open spec fn fill_text(ring: Seq<Point>) -> Seq<char> {
    if ring.len() >= 3 { region_text(ring) } else { Seq::empty() }
}

/// The fills of the rings whose orientation has the sign `sign`
/// (counter-clockwise for 1, clockwise for -1), in order.
pub open spec fn fills_text(rings: Seq<Seq<Point>>, sign: int) -> Seq<char>
    decreases rings.len(),
{
    if rings.len() == 0 {
        Seq::empty()
    } else {
        let r = rings.last();
        let keep = if sign > 0 { twice_area(r) > 0 } else { twice_area(r) < 0 };
        fills_text(rings.drop_last(), sign) + (if keep { fill_text(r) } else { Seq::empty() })
    }
}

/// Whether some ring runs clockwise (a hole).
pub open spec fn has_hole(rings: Seq<Seq<Point>>) -> bool {
    exists|i: int| 0 <= i < rings.len() && twice_area(#[trigger] rings[i]) < 0
}

/// A polygon set: the counter-clockwise rings filled, then the clockwise
/// ones (holes) cleared in clear polarity.
pub open spec fn polygons_text(rings: Seq<Seq<Point>>) -> Seq<char> {
    fills_text(rings, 1)
        + (if has_hole(rings) { "%LPC*%\n"@ + fills_text(rings, -1) + "%LPD*%\n"@ } else { Seq::empty() })
}

/// The whole file: header, aperture definitions, dark polarity, linear
/// interpolation, the drawing, end of file.
pub open spec fn file_text(head: Seq<char>, aps: Seq<(i64, u32)>, drawn: Seq<char>) -> Seq<char> {
    head + aperture_lines(aps) + "%LPD*%\nG01*\n"@ + drawn + "M02*\n"@
}

impl Gerber {
    /// Appends the fills of the rings of orientation `sign`.
    fn fills(&mut self, rings: &Vec<Vec<Point>>, sign: i8)
        requires old(self).wf(), sign == 1 || sign == -1,
        ensures
            final(self).wf(), final(self).head() == old(self).head(), final(self).apertures() == old(self).apertures(),
            final(self).drawn() == old(self).drawn() + fills_text(rings@.map_values(|r: Vec<Point>| r@), sign as int),
    {
        let ghost rv = rings@.map_values(|r: Vec<Point>| r@);
        let mut i: usize = 0;
        proof { assert(self.body@ =~= old(self).body@ + fills_text(rv.take(0), sign as int)); }
        while i < rings.len()
            invariant
                i <= rings@.len(), rv == rings@.map_values(|r: Vec<Point>| r@), sign == 1 || sign == -1,
                self.wf(), self.head() == old(self).head(), self.apertures() == old(self).apertures(),
                self.drawn() == old(self).drawn() + fills_text(rv.take(i as int), sign as int),
            decreases rings@.len() - i,
        {
            proof {
                assert(rv.take(i + 1).drop_last() =~= rv.take(i as int));
                assert(rv.take(i + 1).last() == rings@[i as int]@);
            }
            let a = area_sign(&rings[i]);
            let ghost b0 = self.drawn();
            if a == sign {
                self.region(&rings[i]);
                proof { assert(self.drawn() =~= old(self).drawn() + fills_text(rv.take(i + 1), sign as int)); }
            } else {
                proof { assert(self.drawn() =~= old(self).drawn() + fills_text(rv.take(i + 1), sign as int)); }
            }
            i += 1;
        }
        proof { assert(rv.take(rings@.len() as int) =~= rv); }
    }

    /// Fills a polygon set from Clipper: counter-clockwise rings are filled,
    /// clockwise rings (holes) are cleared with LPC.
    pub fn regions_with_holes(&mut self, rings: &Vec<Vec<Point>>)
        requires old(self).wf(),
        ensures
            final(self).wf(), final(self).head() == old(self).head(), final(self).apertures() == old(self).apertures(),
            final(self).drawn() == old(self).drawn() + polygons_text(rings@.map_values(|r: Vec<Point>| r@)),
    {
        let ghost rv = rings@.map_values(|r: Vec<Point>| r@);
        self.fills(rings, 1);
        let mut any = false;
        let mut i: usize = 0;
        while i < rings.len() && !any
            invariant
                i <= rings@.len(), rv == rings@.map_values(|r: Vec<Point>| r@),
                any ==> has_hole(rv),
                !any ==> forall|j: int| 0 <= j < i ==> twice_area(#[trigger] rv[j]) >= 0,
            decreases rings@.len() - i + (if any { 0int } else { 1int }),
        {
            let a = area_sign(&rings[i]);
            proof { assert(rv[i as int] == rings@[i as int]@); }
            if a < 0 {
                any = true;
            } else {
                i += 1;
            }
        }
        let ghost b1 = self.drawn();
        if any {
            push_str(&mut self.body, "%LPC*%\n");
            self.fills(rings, -1);
            push_str(&mut self.body, "%LPD*%\n");
            proof { assert(self.drawn() =~= old(self).drawn() + polygons_text(rv)); }
        } else {
            proof {
                assert(!has_hole(rv)) by {
                    if has_hole(rv) {
                        let j = choose|j: int| 0 <= j < rv.len() && twice_area(#[trigger] rv[j]) < 0;
                        assert(twice_area(rv[j]) >= 0);
                    }
                }
                assert(self.drawn() =~= old(self).drawn() + polygons_text(rv));
            }
        }
    }

    /// The text of the whole file.
    pub fn finish(self) -> (s: String)
        requires self.wf(),
        ensures s@ == file_text(self.head(), self.apertures(), self.drawn()),
    {
        let mut s = self.header;
        let ghost aps = self.apertures@;
        let mut i: usize = 0;
        proof { assert(s@ =~= self.header@ + aperture_lines(aps.take(0))); }
        while i < self.apertures.len()
            invariant
                i <= aps.len(), aps == self.apertures@, self.wf(),
                s@ == self.header@ + aperture_lines(aps.take(i as int)),
            decreases aps.len() - i,
        {
            let (d, code) = self.apertures[i];
            proof {
                assert(aps.take(i + 1).drop_last() =~= aps.take(i as int));
                assert(aps.take(i + 1).last() == aps[i as int]);
                assert(aps[i as int].0 >= 1);
            }
            let ghost s0 = s@;
            push_str(&mut s, "%ADD");
            push_nat(&mut s, code as u64);
            push_str(&mut s, "C,");
            push_nat(&mut s, (d / 1_000_000) as u64);
            push_str(&mut s, ".");
            push_padded(&mut s, (d % 1_000_000) as u64, 6);
            push_str(&mut s, "*%\n");
            proof { assert(s@ =~= s0 + "%ADD"@ + nat_digits(code as nat) + "C,"@ + mm6_text(d as nat) + "*%\n"@); }
            i += 1;
        }
        proof { assert(aps.take(aps.len() as int) =~= aps); }
        push_str(&mut s, "%LPD*%\nG01*\n");
        push_str(&mut s, self.body.as_str());
        push_str(&mut s, "M02*\n");
        proof { assert(s@ =~= file_text(self.header@, aps, self.body@)); }
        s
    }
}

/// The operation word the writer puts after a coordinate: `D01` (draw),
/// `D02` (move) or `D03` (flash).
pub open spec fn op_word(k: u32) -> Seq<char> {
    if k == 1 { "D01"@ } else if k == 2 { "D02"@ } else { "D03"@ }
}

proof fn lemma_int_text_reads(v: i64)
    ensures
        read_i64(int_text(v as int)) == Some(v as int),
        int_text(v as int).len() >= 1,
        forall|i: int| 0 <= i < int_text(v as int).len() ==> coord_char(#[trigger] int_text(v as int)[i]),
{
    let t = int_text(v as int);
    if v < 0 {
        let m = (-v) as nat;
        lemma_nat_digits(m);
        assert(t.drop_first() =~= nat_digits(m));
        assert forall|i: int| 0 <= i < t.len() implies coord_char(#[trigger] t[i]) by {
            if i > 0 { assert(t[i] == nat_digits(m)[i - 1]); assert(is_ascii_digit(nat_digits(m)[i - 1])); }
        }
    } else {
        lemma_nat_digits(v as nat);
        assert(is_ascii_digit(t[0]));
        assert forall|i: int| 0 <= i < t.len() implies coord_char(#[trigger] t[i]) by {
            assert(is_ascii_digit(t[i]));
        }
    }
}

proof fn lemma_coord_end_of(c: char, t: Seq<char>, u: Seq<char>)
    requires
        forall|i: int| 0 <= i < t.len() ==> coord_char(#[trigger] t[i]),
        u.len() == 0 || !coord_char(u[0]),
    ensures coord_end(seq![c] + t + u) == 1 + t.len(),
    decreases t.len(),
{
    let s = seq![c] + t + u;
    if t.len() == 0 {
        if u.len() > 0 { assert(s[1] == u[0]); } else { assert(s.len() == 1); }
    } else {
        assert(s[1] == t[0]);
        assert(coord_char(t[0]));
        let t2 = t.drop_first();
        assert forall|i: int| 0 <= i < t2.len() implies coord_char(#[trigger] t2[i]) by { assert(t2[i] == t[i + 1]); }
        lemma_coord_end_of(t[0], t2, u);
        assert(s.drop_first() =~= seq![t[0]] + t2 + u);
    }
}

/// A coordinate line the writer puts out reads back exactly: the point it
/// was given and its operation, whatever the reader's position before.
pub proof fn lemma_coordinate_reads_back(p: Point, k: u32, x0: i64, y0: i64)
    requires 1 <= k <= 3,
    ensures
        coord_words(coord_text(p) + op_word(k), coord_text(p) + op_word(k), 1, 1, x0, y0, None)
            == Ok::<(i64, i64, Option<u32>), Seq<char>>((p.x.0, p.y.0, Some(k))),
{
    reveal_strlit("X");
    reveal_strlit("Y");
    reveal_strlit("D01");
    reveal_strlit("D02");
    reveal_strlit("D03");
    let b = coord_text(p) + op_word(k);
    let tx = int_text(p.x.0 as int);
    let ty = int_text(p.y.0 as int);
    let w = op_word(k);
    lemma_int_text_reads(p.x.0);
    lemma_int_text_reads(p.y.0);
    // The X word.
    let r1 = seq!['Y'] + ty + w;
    assert(b =~= seq!['X'] + tx + r1);
    lemma_coord_end_of('X', tx, r1);
    assert(b.subrange(1, 1 + tx.len() as int) =~= tx);
    assert(b.skip(1 + tx.len() as int) =~= r1);
    // The Y word.
    assert(w[0] == 'D');
    lemma_coord_end_of('Y', ty, w);
    assert(r1.subrange(1, 1 + ty.len() as int) =~= ty);
    assert(r1.skip(1 + ty.len() as int) =~= w);
    // The operation.
    let digits = seq!['0', w[2]];
    assert(w =~= seq!['D'] + digits + Seq::<char>::empty());
    assert forall|i: int| 0 <= i < digits.len() implies coord_char(#[trigger] digits[i]) by {}
    lemma_coord_end_of('D', digits, Seq::<char>::empty());
    assert(w.subrange(1, 3) =~= digits);
    assert(w.skip(3).len() == 0);
    assert(all_digits(digits));
    reveal_with_fuel(digits_val, 3);
    assert(digits_val(digits) == k);
    assert(read_unsigned(digits, u32::MAX as nat) == Some(k as nat));
    let x = p.x.0;
    let y = p.y.0;
    assert(x * 1 == x);
    assert(coord_words(b, b, 1, 1, x0, y0, None) == coord_words(b, r1, 1, 1, x, y0, None));
    assert(coord_words(b, r1, 1, 1, x, y0, None) == coord_words(b, w, 1, 1, x, y, None));
    assert(coord_words(b, w, 1, 1, x, y, None) == coord_words(b, w.skip(3), 1, 1, x, y, Some(k)));
}

pub proof fn lemma_padded_digits(n: nat, w: nat)
    ensures
        padded_digits(n, w).len() == w,
        all_digits(padded_digits(n, w)),
        digits_val(padded_digits(n, w)) == n % pow10(w),
    decreases w,
{
    reveal_with_fuel(digits_val, 2);
    if w > 0 {
        lemma_padded_digits(n / 10, (w - 1) as nat);
        let s = padded_digits(n, w);
        assert(s.drop_last() == padded_digits(n / 10, (w - 1) as nat));
        assert(all_digits(s)) by {
            assert forall|i: int| 0 <= i < s.len() implies #[trigger] is_ascii_digit(s[i]) by {
                if i < s.len() - 1 { assert(s[i] == padded_digits(n / 10, (w - 1) as nat)[i]); }
            }
        }
        lemma_pow10_pos((w - 1) as nat);
        let q = pow10((w - 1) as nat);
        assert(digits_val(s) == (n / 10) % q * 10 + n % 10);
        assert((n / 10) % q * 10 + n % 10 == n % (10 * q)) by (nonlinear_arith) requires q > 0;
    } else {
        assert(n % 1 == 0) by (nonlinear_arith);
    }
}

/// The millimetre text of a diameter reads back as the diameter.
proof fn lemma_mm6_reads_back(d: i64)
    requires d >= 1,
    ensures
        decimal_to_units(mm6_text(d as nat), 1_000_000) == Some(d),
        mm6_text(d as nat).len() >= 1,
{
    reveal_strlit(".");
    let ip = nat_digits((d / 1_000_000) as nat);
    let fp = padded_digits((d % 1_000_000) as nat, 6);
    let mm = mm6_text(d as nat);
    lemma_nat_digits((d / 1_000_000) as nat);
    lemma_padded_digits((d % 1_000_000) as nat, 6);
    assert(pow10(6) == 1_000_000) by { reveal_with_fuel(pow10, 7); }
    assert(is_ascii_digit(mm[0])) by { assert(mm[0] == ip[0]); }
    assert(sign_split(mm) == (false, mm));
    lemma_digits_lack(ip, '.');
    lemma_find_concat(ip, seq!['.'] + fp, '.');
    assert(mm =~= ip + (seq!['.'] + fp));
    assert(find_char(mm, '.') == ip.len());
    assert(mm.take(ip.len() as int) =~= ip);
    assert(mm.skip(ip.len() as int + 1) =~= fp);
    let v = (d / 1_000_000) as nat * 1_000_000 + (d % 1_000_000) as nat;
    assert(v == d);
    assert(scaled_magnitude(ip, fp, 1_000_000) == d) by {
        assert((2 * 1_000_000 * (v as int) + 1_000_000) / (2 * 1_000_000int) == v as int) by (nonlinear_arith) requires v >= 0;
    }
}

/// An aperture definition the writer puts out reads back exactly: its code
/// and its diameter in nanometres.
pub proof fn lemma_aperture_reads_back(code: u32, d: i64)
    requires d >= 1,
    ensures aperture_def(nat_digits(code as nat) + "C,"@ + mm6_text(d as nat)) == Ok::<(u32, Length), Seq<char>>((code, Length(d))),
{
    reveal_strlit("C,");
    let cd = nat_digits(code as nat);
    let mm = mm6_text(d as nat);
    let ad = cd + "C,"@ + mm;
    lemma_nat_digits(code as nat);
    lemma_mm6_reads_back(d);
    assert forall|j: int| 0 <= j < cd.len() implies #[trigger] is_ascii_digit(ad[j]) by { assert(ad[j] == cd[j]); }
    lemma_digits_end(ad, cd.len() as int);
    assert(ad.skip(cd.len() as int) =~= "C,"@ + mm);
    assert(digits_end(ad.skip(cd.len() as int)) == 0);
    assert(ad.take(cd.len() as int) =~= cd);
    assert(read_unsigned(cd, u32::MAX as nat) == Some(code as nat));
    let rest = ad.skip(cd.len() as int);
    assert(rest.take(2) =~= "C,"@);
    assert(rest.skip(2) =~= mm);
}

} // verus!
