//! The Excellon drill file writer (metric, decimal coordinates). Holes and
//! slots are grouped by tool diameter, the tools numbered in increasing
//! diameter. Coordinates are written in millimetres with three decimals,
//! rounded to the micrometre half away from zero; what it writes reads back
//! as that rounding (`lemma_drill_coordinate_reads_back`).

use vstd::prelude::*;
use crate::units::{Length, Point};
use crate::text::push_str;
use crate::numfmt::{nat_digits, padded_digits, push_nat, push_padded};
use crate::decimal::{all_digits, digits_val, pow10, lemma_pow10_pos, find_char, sign_split, scaled_magnitude,
    decimal_to_units, clamp_i64};
use crate::gerber::{drill_xy, drill_num_end, drill_num_char};
use crate::text::is_ascii_digit;
use crate::emit::{lemma_nat_digits, lemma_digits_lack, lemma_find_concat};

verus! {

/// A length in micrometres, rounded half away from zero.
pub open spec fn um_round(nm: int) -> int {
    if nm < 0 { -((-nm + 500) / 1000) } else { (nm + 500) / 1000 }
}

/// A length in millimetres with three decimals (rounded to the
/// micrometre); a negative length keeps its sign even when it rounds to zero.
/// The nanometre count is rounded exactly: a length halfway between two
/// micrometres (such as 4500 nm) rounds away from zero.
pub open spec fn mm3_text(nm: int) -> Seq<char> {
    let u = (if nm < 0 { (-nm + 500) / 1000 } else { (nm + 500) / 1000 }) as nat;
    (if nm < 0 { seq!['-'] } else { Seq::empty() }) + nat_digits(u / 1000) + seq!['.'] + padded_digits(u % 1000, 3)
}

/// A drill coordinate: `X<x>Y<y>` in millimetres.
pub open spec fn drill_coord_text(p: Point) -> Seq<char> {
    seq!['X'] + mm3_text(p.x.0 as int) + seq!['Y'] + mm3_text(p.y.0 as int)
}

/// Appends a length as `mm3_text` writes it.
fn push_mm3(s: &mut String, nm: i64)
    ensures final(s)@ == old(s)@ + mm3_text(nm as int),
{
    let a: u64 = if nm < 0 { (0 - (nm as i128)) as u64 } else { nm as u64 };
    let u: u64 = (a / 1000) + (if a % 1000 >= 500 { 1 } else { 0 });
    proof {
        assert(u == (a + 500) / 1000) by (nonlinear_arith)
            requires u == a / 1000 + (if a % 1000 >= 500 { 1int } else { 0int }), a >= 0;
    }
    if nm < 0 {
        push_str(s, "-");
    }
    let ghost s1 = s@;
    push_nat(s, u / 1000);
    push_str(s, ".");
    push_padded(s, u % 1000, 3);
    proof {
        reveal_strlit("-");
        reveal_strlit(".");
        assert(s@ =~= old(s)@ + mm3_text(nm as int));
    }
}

/// The digits and characters of a written length read back as the length
/// rounded to the micrometre.
proof fn lemma_mm3_reads_back(nm: i64)
    ensures
        decimal_to_units(mm3_text(nm as int), 1_000_000) == Some(clamp_i64(1000 * um_round(nm as int))),
        forall|i: int| 0 <= i < mm3_text(nm as int).len() ==> drill_num_char(#[trigger] mm3_text(nm as int)[i]),
        mm3_text(nm as int).len() >= 1,
{
    let v = nm as int;
    let a: int = if v < 0 { -v } else { v };
    let u = ((a + 500) / 1000) as nat;
    let ip = nat_digits(u / 1000);
    let fp = padded_digits(u % 1000, 3);
    let body = ip + seq!['.'] + fp;
    let t = mm3_text(v);
    lemma_nat_digits(u / 1000);
    lemma_padded(u % 1000, 3);
    assert(pow10(3) == 1000) by { reveal_with_fuel(pow10, 4); }
    lemma_digits_lack(ip, '.');
    lemma_find_concat(ip, seq!['.'] + fp, '.');
    assert(body =~= ip + (seq!['.'] + fp));
    assert(find_char(body, '.') == ip.len());
    assert(body.take(ip.len() as int) =~= ip);
    assert(body.skip(ip.len() as int + 1) =~= fp);
    assert(is_ascii_digit(body[0])) by { assert(body[0] == ip[0]); }
    if v < 0 {
        assert(t =~= seq!['-'] + body);
        assert(t.drop_first() =~= body);
        assert(sign_split(t) == (true, body));
    } else {
        assert(t =~= body);
        assert(sign_split(t) == (false, body));
    }
    let val = (u / 1000) * 1000 + u % 1000;
    assert(val == u);
    assert(scaled_magnitude(ip, fp, 1_000_000) == 1000 * u) by {
        assert((2 * 1_000_000 * (val as int) * 1000 + 1000) / (2 * 1000int) == 1_000_000 * (val as int))
            by (nonlinear_arith) requires val >= 0;
        assert((2 * 1_000_000 * ((val as int) * 1000 + 0) + 1000) / (2 * 1000int) == 1000 * 1000 * (val as int)) by (nonlinear_arith) requires val >= 0;
        assert(digits_val(ip) * pow10(fp.len()) + digits_val(fp) == val);
        assert(scaled_magnitude(ip, fp, 1_000_000) == (2 * 1_000_000 * (val as int) + 1000) / (2 * 1000int));
        assert((2 * 1_000_000 * (val as int) + 1000) / (2 * 1000int) == 1000 * (val as int)) by (nonlinear_arith) requires val >= 0;
    }
    assert forall|i: int| 0 <= i < t.len() implies drill_num_char(#[trigger] t[i]) by {
        if v < 0 {
            if i > 0 { assert(t[i] == body[i - 1]); }
        }
        let j = if v < 0 { i - 1 } else { i };
        if v < 0 && i == 0 {
        } else {
            assert(t[i] == body[j]);
            if j < ip.len() {
                assert(body[j] == ip[j]);
                assert(is_ascii_digit(ip[j]));
            } else if j == ip.len() {
            } else {
                assert(body[j] == fp[j - ip.len() - 1]);
                assert(is_ascii_digit(fp[j - ip.len() - 1]));
            }
        }
    }
}

proof fn lemma_padded(n: nat, w: nat)
    ensures
        padded_digits(n, w).len() == w,
        all_digits(padded_digits(n, w)),
        digits_val(padded_digits(n, w)) == n % pow10(w),
    decreases w,
{
    reveal_with_fuel(digits_val, 2);
    if w > 0 {
        lemma_padded(n / 10, (w - 1) as nat);
        let s = padded_digits(n, w);
        assert(s.drop_last() == padded_digits(n / 10, (w - 1) as nat));
        assert(all_digits(s)) by {
            assert forall|i: int| 0 <= i < s.len() implies #[trigger] is_ascii_digit(s[i]) by {
                if i < s.len() - 1 { assert(s[i] == padded_digits(n / 10, (w - 1) as nat)[i]); }
            }
        }
        lemma_pow10_pos((w - 1) as nat);
        let q = pow10((w - 1) as nat);
        assert((n / 10) % q * 10 + n % 10 == n % (10 * q)) by (nonlinear_arith) requires q > 0;
    } else {
        assert(n % 1 == 0) by (nonlinear_arith);
    }
}

proof fn lemma_drill_end_of(c: char, t: Seq<char>, u: Seq<char>)
    requires
        forall|i: int| 0 <= i < t.len() ==> drill_num_char(#[trigger] t[i]),
        u.len() == 0 || !drill_num_char(u[0]),
    ensures drill_num_end(seq![c] + t + u) == 1 + t.len(),
    decreases t.len(),
{
    let s = seq![c] + t + u;
    if t.len() == 0 {
        if u.len() > 0 { assert(s[1] == u[0]); } else { assert(s.len() == 1); }
    } else {
        assert(s[1] == t[0]);
        let t2 = t.drop_first();
        assert forall|i: int| 0 <= i < t2.len() implies drill_num_char(#[trigger] t2[i]) by { assert(t2[i] == t[i + 1]); }
        lemma_drill_end_of(t[0], t2, u);
        assert(s.drop_first() =~= seq![t[0]] + t2 + u);
    }
}

/// A drill coordinate the writer puts out reads back as the point rounded
/// to the micrometre, half away from zero (saturated to the `i64` range).
pub proof fn lemma_drill_coordinate_reads_back(p: Point)
    ensures
        drill_xy(drill_coord_text(p), 0, 0) == Some((clamp_i64(1000 * um_round(p.x.0 as int)), clamp_i64(1000 * um_round(p.y.0 as int)))),
{
    let tx = mm3_text(p.x.0 as int);
    let ty = mm3_text(p.y.0 as int);
    lemma_mm3_reads_back(p.x.0);
    lemma_mm3_reads_back(p.y.0);
    let b = drill_coord_text(p);
    let r1 = seq!['Y'] + ty;
    assert(b =~= seq!['X'] + tx + r1);
    lemma_drill_end_of('X', tx, r1);
    assert(b.subrange(1, 1 + tx.len() as int) =~= tx);
    assert(b.skip(1 + tx.len() as int) =~= r1);
    assert(r1 =~= seq!['Y'] + ty + Seq::<char>::empty());
    lemma_drill_end_of('Y', ty, Seq::<char>::empty());
    assert(r1.subrange(1, 1 + ty.len() as int) =~= ty);
    assert(r1.skip(1 + ty.len() as int).len() == 0);
    let vx = clamp_i64(1000 * um_round(p.x.0 as int));
    let vy = clamp_i64(1000 * um_round(p.y.0 as int));
    assert(drill_xy(b, 0, 0) == drill_xy(r1, vx, 0));
    assert(drill_xy(r1, vx, 0) == drill_xy(r1.skip(1 + ty.len() as int), vx, vy));
}

/// One drilling: a round hole, or a slot milled from one end to the other.
#[derive(Clone, Copy, Debug, PartialEq, Eq)]
pub enum DrillOp {
    Hole(Point),
    Slot(Point, Point),
}

/// A drill file being written: its tools (diameter in nanometres and what
/// each drills, in the order added), in increasing diameter.
pub struct Drill {
    plated: bool,
    tools: Vec<(i64, Vec<DrillOp>)>,
}

/// Tools as plain values.
pub open spec fn tools_view(ts: Seq<(i64, Vec<DrillOp>)>) -> Seq<(i64, Seq<DrillOp>)> {
    ts.map_values(|t: (i64, Vec<DrillOp>)| (t.0, t.1@))
}

/// Where a tool of diameter `d` stands among tools of increasing diameter:
/// the first whose diameter is not smaller.
pub open spec fn tool_slot(ts: Seq<(i64, Seq<DrillOp>)>, d: i64) -> int
    decreases ts.len(),
{
    if ts.len() == 0 || ts[0].0 >= d { 0 } else { 1 + tool_slot(ts.drop_first(), d) }
}

/// The tools after `op` is drilled with diameter `d`.
pub open spec fn with_op(ts: Seq<(i64, Seq<DrillOp>)>, d: i64, op: DrillOp) -> Seq<(i64, Seq<DrillOp>)> {
    let j = tool_slot(ts, d);
    if j < ts.len() && ts[j].0 == d { ts.update(j, (d, ts[j].1.push(op))) } else { ts.insert(j, (d, seq![op])) }
}

/// Whether the tools run in strictly increasing diameter.
pub open spec fn increasing(ts: Seq<(i64, Seq<DrillOp>)>) -> bool {
    forall|j: int, k: int| 0 <= j < k < ts.len() ==> (#[trigger] ts[j]).0 < (#[trigger] ts[k]).0
}

proof fn lemma_tool_slot(ts: Seq<(i64, Seq<DrillOp>)>, d: i64)
    requires increasing(ts),
    ensures
        0 <= tool_slot(ts, d) <= ts.len(),
        forall|j: int| 0 <= j < tool_slot(ts, d) ==> (#[trigger] ts[j]).0 < d,
        tool_slot(ts, d) < ts.len() ==> ts[tool_slot(ts, d)].0 >= d,
    decreases ts.len(),
{
    if ts.len() > 0 && ts[0].0 < d {
        let t = ts.drop_first();
        assert(increasing(t)) by {
            assert forall|j: int, k: int| 0 <= j < k < t.len() implies (#[trigger] t[j]).0 < (#[trigger] t[k]).0 by {
                assert(t[j] == ts[j + 1] && t[k] == ts[k + 1]);
            }
        }
        lemma_tool_slot(t, d);
        assert forall|j: int| 0 <= j < tool_slot(ts, d) implies (#[trigger] ts[j]).0 < d by {
            if j > 0 { assert(ts[j] == t[j - 1]); }
        }
    }
}

impl Drill {
    pub closed spec fn tools(&self) -> Seq<(i64, Seq<DrillOp>)> {
        tools_view(self.tools@)
    }

    pub closed spec fn is_plated(&self) -> bool {
        self.plated
    }

    pub closed spec fn wf(&self) -> bool {
        increasing(self.tools())
    }

    /// An empty drill file for plated or non-plated holes.
    pub fn new(plated: bool) -> (d: Drill)
        ensures d.wf(), d.tools().len() == 0, d.is_plated() == plated,
    {
        let d = Drill { plated, tools: Vec::new() };
        proof { assert(d.tools() =~= Seq::<(i64, Seq<DrillOp>)>::empty()); }
        d
    }

    /// Whether nothing is to be drilled.
    pub fn is_empty(&self) -> (r: bool)
        ensures r == (self.tools().len() == 0),
    {
        self.tools.len() == 0
    }

    /// Adds `op`, drilled with a tool of diameter `d`.
    fn add(&mut self, d: i64, op: DrillOp)
        requires old(self).wf(),
        ensures final(self).wf(), final(self).tools() == with_op(old(self).tools(), d, op),
            final(self).is_plated() == old(self).is_plated(),
    {
        let ghost tv = self.tools();
        proof { lemma_tool_slot(tv, d); }
        let mut j: usize = 0;
        proof { assert(tv.skip(0) =~= tv); }
        while j < self.tools.len() && self.tools[j].0 < d
            invariant
                j <= tv.len(), tv == tools_view(self.tools@), increasing(tv),
                tool_slot(tv, d) == j + tool_slot(tv.skip(j as int), d),
            decreases tv.len() - j,
        {
            proof {
                assert(tv.skip(j as int)[0] == tv[j as int]);
                assert(tv.skip(j as int).drop_first() =~= tv.skip(j + 1));
            }
            j += 1;
        }
        proof {
            if j < tv.len() { assert(tv.skip(j as int)[0] == tv[j as int]); }
            assert(tool_slot(tv, d) == j);
        }
        if j < self.tools.len() && self.tools[j].0 == d {
            let mut t: (i64, Vec<DrillOp>) = (0, Vec::new());
            self.tools.set_and_swap(j, &mut t);
            t.1.push(op);
            self.tools.set(j, t);
            proof {
                assert(self.tools() =~= with_op(tv, d, op));
            }
        } else {
            let mut ops: Vec<DrillOp> = Vec::new();
            ops.push(op);
            self.tools.insert(j, (d, ops));
            proof {
                assert(self.tools() =~= with_op(tv, d, op));
                let nt = self.tools();
                assert forall|a: int, b: int| 0 <= a < b < nt.len() implies (#[trigger] nt[a]).0 < (#[trigger] nt[b]).0 by {
                    if a < j && b < j { assert(nt[a] == tv[a] && nt[b] == tv[b]); }
                    else if a < j && b == j { assert(nt[a] == tv[a]); }
                    else if a < j { assert(nt[a] == tv[a] && nt[b] == tv[b - 1]); }
                    else if a == j { assert(nt[b] == tv[b - 1]); }
                    else { assert(nt[a] == tv[a - 1] && nt[b] == tv[b - 1]); }
                }
            }
        }
    }

    /// A round hole of diameter `diameter` at `at`.
    pub fn hole(&mut self, at: Point, diameter: Length)
        requires old(self).wf(),
        ensures final(self).wf(), final(self).tools() == with_op(old(self).tools(), diameter.0, DrillOp::Hole(at)),
            final(self).is_plated() == old(self).is_plated(),
    {
        self.add(diameter.0, DrillOp::Hole(at));
    }

    /// A slot of width `diameter` milled from `a` to `b`.
    pub fn slot_between(&mut self, a: Point, b: Point, diameter: Length)
        requires old(self).wf(),
        ensures final(self).wf(), final(self).tools() == with_op(old(self).tools(), diameter.0, DrillOp::Slot(a, b)),
            final(self).is_plated() == old(self).is_plated(),
    {
        self.add(diameter.0, DrillOp::Slot(a, b));
    }
}

/// The line of one drilling: a hole's position, or a slot's two ends joined
/// by `G85`.
pub open spec fn op_text(op: DrillOp) -> Seq<char> {
    match op {
        DrillOp::Hole(p) => drill_coord_text(p) + "\n"@,
        DrillOp::Slot(a, b) => drill_coord_text(a) + "G85"@ + drill_coord_text(b) + "\n"@,
    }
}

/// The lines of a tool's drillings.
pub open spec fn ops_text(ops: Seq<DrillOp>) -> Seq<char>
    decreases ops.len(),
{
    if ops.len() == 0 { Seq::empty() } else { ops_text(ops.drop_last()) + op_text(ops.last()) }
}

/// The tool table: `T<n>C<diameter in mm>` for each tool, numbered from 1.
pub open spec fn tool_table(ts: Seq<(i64, Seq<DrillOp>)>) -> Seq<char>
    decreases ts.len(),
{
    if ts.len() == 0 {
        Seq::empty()
    } else {
        tool_table(ts.drop_last()) + "T"@ + nat_digits(ts.len()) + "C"@ + mm3_text(ts.last().0 as int) + "\n"@
    }
}

/// The drillings, tool by tool: `T<n>` then the tool's lines.
pub open spec fn tool_sections(ts: Seq<(i64, Seq<DrillOp>)>) -> Seq<char>
    decreases ts.len(),
{
    if ts.len() == 0 {
        Seq::empty()
    } else {
        tool_sections(ts.drop_last()) + "T"@ + nat_digits(ts.len()) + "\n"@ + ops_text(ts.last().1)
    }
}

/// The whole drill file.
pub open spec fn drill_text(plated: bool, ts: Seq<(i64, Seq<DrillOp>)>) -> Seq<char> {
    "M48\n"@ + "; DRILL file {flatland} \n"@ + "; #@! TF.FileFunction,"@
        + (if plated { "Plated,1,2,PTH"@ } else { "NonPlated,1,2,NPTH"@ }) + "\n"@
        + "FMAT,2\nMETRIC\n"@ + tool_table(ts) + "%\nG90\nG05\n"@ + tool_sections(ts) + "T0\nM30\n"@
}

/// Appends a drill coordinate.
fn push_drill_coord(s: &mut String, p: Point)
    ensures final(s)@ == old(s)@ + drill_coord_text(p),
{
    push_str(s, "X");
    push_mm3(s, p.x.0);
    push_str(s, "Y");
    push_mm3(s, p.y.0);
    proof {
        reveal_strlit("X");
        reveal_strlit("Y");
        assert(final(s)@ =~= old(s)@ + drill_coord_text(p));
    }
}

/// Appends the line of one hit or slot.
fn push_op(s: &mut String, op: DrillOp)
    ensures final(s)@ == old(s)@ + op_text(op),
{
    match op {
        DrillOp::Hole(p) => {
            push_drill_coord(s, p);
            push_str(s, "\n");
        },
        DrillOp::Slot(a, b) => {
            push_drill_coord(s, a);
            push_str(s, "G85");
            push_drill_coord(s, b);
            push_str(s, "\n");
        },
    }
    proof { assert(final(s)@ =~= old(s)@ + op_text(op)); }
}

/// Appends the lines of the hits and slots `ops`.
fn push_ops(s: &mut String, ops: &Vec<DrillOp>)
    ensures final(s)@ == old(s)@ + ops_text(ops@),
{
    let ghost s2 = s@;
    let mut k: usize = 0;
    proof { assert(s@ =~= s2 + ops_text(ops@.take(0))); }
    while k < ops.len()
        invariant
            k <= ops@.len(), s@ == s2 + ops_text(ops@.take(k as int)), s2 == old(s)@,
        decreases ops@.len() - k,
    {
        let ghost before = s@;
        push_op(s, ops[k]);
        proof {
            let t = ops@.take(k + 1);
            assert(t.drop_last() =~= ops@.take(k as int));
            assert(t.last() == ops@[k as int]);
            assert(ops_text(t) == ops_text(ops@.take(k as int)) + op_text(ops@[k as int]));
            assert(s@ =~= s2 + ops_text(t));
        }
        k += 1;
    }
    proof { assert(ops@.take(ops@.len() as int) =~= ops@); }
}

impl Drill {
    /// The text of the drill file.
    pub fn finish(self) -> (s: String)
        requires self.wf(),
        ensures s@ == drill_text(self.is_plated(), self.tools()),
    {
        let ghost tv = self.tools();
        let mut s = String::new();
        push_str(&mut s, "M48\n");
        push_str(&mut s, "; DRILL file {flatland} \n");
        push_str(&mut s, "; #@! TF.FileFunction,");
        if self.plated {
            push_str(&mut s, "Plated,1,2,PTH");
        } else {
            push_str(&mut s, "NonPlated,1,2,NPTH");
        }
        push_str(&mut s, "\n");
        push_str(&mut s, "FMAT,2\nMETRIC\n");
        let ghost s0 = s@;
        let n = self.tools.len();
        let mut i: usize = 0;
        proof { assert(s@ =~= s0 + tool_table(tv.take(0))); }
        while i < n
            invariant
                i <= n, n == self.tools@.len(), tv == tools_view(self.tools@),
                s@ == s0 + tool_table(tv.take(i as int)),
            decreases n - i,
        {
            proof {
                assert(tv.take(i + 1).drop_last() =~= tv.take(i as int));
                assert(tv.take(i + 1).last() == tv[i as int]);
            }
            push_str(&mut s, "T");
            push_nat(&mut s, (i + 1) as u64);
            push_str(&mut s, "C");
            push_mm3(&mut s, self.tools[i].0);
            push_str(&mut s, "\n");
            i += 1;
            proof { assert(s@ =~= s0 + tool_table(tv.take(i as int))); }
        }
        push_str(&mut s, "%\nG90\nG05\n");
        let ghost s1 = s@;
        let mut i: usize = 0;
        proof { assert(s@ =~= s1 + tool_sections(tv.take(0))); }
        while i < n
            invariant
                i <= n, n == self.tools@.len(), tv == tools_view(self.tools@),
                s@ == s1 + tool_sections(tv.take(i as int)),
            decreases n - i,
        {
            proof {
                assert(tv.take(i + 1).drop_last() =~= tv.take(i as int));
                assert(tv.take(i + 1).last() == tv[i as int]);
            }
            push_str(&mut s, "T");
            push_nat(&mut s, (i + 1) as u64);
            push_str(&mut s, "\n");
            push_ops(&mut s, &self.tools[i].1);
            i += 1;
            proof { assert(s@ =~= s1 + tool_sections(tv.take(i as int))); }
        }
        push_str(&mut s, "T0\nM30\n");
        proof {
            assert(tv.take(n as int) =~= tv);
            assert(s@ =~= drill_text(self.plated, tv));
        }
        s
    }
}

} // verus!
