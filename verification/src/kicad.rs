//! The small pieces of a KiCad board file: millimetre text, quoted strings,
//! generated UUIDs and layer names.

use vstd::prelude::*;
use crate::units::{Length, Point};
use crate::schema::{Side, Trace, Via};
use crate::numfmt::{nat_digits, push_nat};
use crate::canon::texts;
use crate::template::{position_of, lemma_position as position_lemma};
use crate::numfmt::{fixed_text, push_fixed};
use crate::text::{push_char, push_str, chars_of, same_str};
use crate::emit::tenths_um;
use crate::store::{hex_digit, hex_char};

verus! {

/// Millimetres with at most four decimals (0.1 µm), no trailing zeros, and
/// no sign on a value that rounds to zero.
pub open spec fn kicad_mm_text(nm: int) -> Seq<char> {
    let t = if nm < 0 { tenths_um(-nm) } else { tenths_um(nm) };
    if nm < 0 && t > 0 { seq!['-'] + fixed_text(t, 4) } else { fixed_text(t, 4) }
}

/// A length in millimetres as a KiCad file writes it. The nanometre count
/// is rounded exactly to 0.1 µm: a length halfway between two steps (such as
/// 150 nm) rounds away from zero.
pub fn mm(l: Length) -> (r: String)
    ensures r@ == kicad_mm_text(l.0 as int),
{
    let v = l.0;
    let a: u128 = if v < 0 { (-(v as i128)) as u128 } else { v as u128 };
    let t: u128 = (a + 50) / 100;
    proof { assert(t <= u64::MAX) by (nonlinear_arith) requires a <= 0x8000_0000_0000_0000u128, t == (a + 50) / 100; }
    let mut s = String::new();
    if v < 0 && t > 0 {
        push_char(&mut s, '-');
    }
    push_fixed(&mut s, t as u64, 4);
    s
}

/// A point as `x y` in millimetres with `y` negated (KiCad's y points down).
pub open spec fn kicad_xy_text(p: Point) -> Seq<char> {
    kicad_mm_text(p.x.0 as int) + seq![' '] + kicad_mm_text(-(p.y.0 as int))
}

/// A point as KiCad writes it, `y` pointing down.
pub fn xy(p: Point) -> (r: String)
    requires p.y.0 != i64::MIN,
    ensures r@ == kicad_xy_text(p),
{
    let mut s = mm(p.x);
    push_char(&mut s, ' ');
    let y = mm(Length(-p.y.0));
    push_str(&mut s, &y);
    s
}

/// `s` with backslashes and double quotes escaped by a backslash.
pub open spec fn escape_kicad(s: Seq<char>) -> Seq<char>
    decreases s.len(),
{
    if s.len() == 0 {
        Seq::empty()
    } else {
        let c = s.last();
        escape_kicad(s.drop_last()) + (if c == '\\' || c == '"' { seq!['\\', c] } else { seq![c] })
    }
}

/// A string as a quoted KiCad token.
pub fn q(s: &str) -> (r: String)
    ensures r@ == seq!['"'] + escape_kicad(s@) + seq!['"'],
{
    let v = chars_of(s);
    let mut out = String::new();
    push_char(&mut out, '"');
    let mut i: usize = 0;
    while i < v.len()
        invariant i <= v@.len(), v@ == s@, out@ == seq!['"'] + escape_kicad(v@.take(i as int)),
        decreases v@.len() - i,
    {
        let c = v[i];
        proof {
            assert(v@.take(i + 1).drop_last() =~= v@.take(i as int));
            assert(v@.take(i + 1).last() == c);
        }
        if c == '\\' || c == '"' {
            push_char(&mut out, '\\');
        }
        push_char(&mut out, c);
        proof { assert(out@ =~= seq!['"'] + escape_kicad(v@.take(i + 1))); }
        i += 1;
    }
    push_char(&mut out, '"');
    proof { assert(v@.take(v@.len() as int) =~= v@); }
    out
}

/// The `w` low hexadecimal digits of `v`, most significant first.
pub open spec fn hex_pad(v: nat, w: nat) -> Seq<char>
    decreases w,
{
    if w == 0 { Seq::empty() } else { hex_pad(v / 16, (w - 1) as nat).push(hex_digit((v % 16) as int)) }
}

/// The UUID of the `n`th generated item.
pub open spec fn uuid_text(n: nat) -> Seq<char> {
    "f1a71a4d-"@ + hex_pad((n / 0x1_0000_0000) % 0x1_0000, 4) + "-4"@ + hex_pad((n / 0x10_0000) % 0x1000, 3)
        + "-8"@ + hex_pad((n / 0x100) % 0x1000, 3) + seq!['-'] + hex_pad(n % 0x1_0000_0000_0000, 12)
}

/// Appends the `w` low hexadecimal digits of `v`.
fn push_hex(s: &mut String, v: u64, w: u64)
    requires w <= 16,
    ensures final(s)@ == old(s)@ + hex_pad(v as nat, w as nat),
    decreases w,
{
    if w > 0 {
        push_hex(s, v / 16, w - 1);
        push_char(s, hex_char((v % 16) as u8));
    }
}

/// A counter that hands out KiCad UUIDs in order.
#[derive(Clone, Copy, Debug, PartialEq, Eq)]
pub struct Uuids(pub u64);

impl Uuids {
    /// The next UUID.
    pub fn next(&mut self) -> (r: String)
        requires old(self).0 < u64::MAX,
        ensures final(self).0 == old(self).0 + 1, r@ == uuid_text(final(self).0 as nat),
    {
        self.0 = self.0 + 1;
        let n = self.0;
        let mut s = String::new();
        push_str(&mut s, "f1a71a4d-");
        push_hex(&mut s, (n / 0x1_0000_0000) % 0x1_0000, 4);
        push_str(&mut s, "-4");
        push_hex(&mut s, (n / 0x10_0000) % 0x1000, 3);
        push_str(&mut s, "-8");
        push_hex(&mut s, (n / 0x100) % 0x1000, 3);
        push_char(&mut s, '-');
        push_hex(&mut s, n % 0x1_0000_0000_0000, 12);
        s
    }
}

/// The silkscreen layer on a side.
pub fn silk_layer(side: Side) -> (r: &'static str)
    ensures r@ == (match side { Side::Top => "F.SilkS"@, Side::Bottom => "B.SilkS"@ }),
{
    match side {
        Side::Top => "F.SilkS",
        Side::Bottom => "B.SilkS",
    }
}

/// The courtyard layer on a side.
pub fn crtyd_layer(side: Side) -> (r: &'static str)
    ensures r@ == (match side { Side::Top => "F.CrtYd"@, Side::Bottom => "B.CrtYd"@ }),
{
    match side {
        Side::Top => "F.CrtYd",
        Side::Bottom => "B.CrtYd",
    }
}

/// The KiCad name of a copper layer: the layer's own name.
pub fn cu_layer(name: &str) -> (r: String)
    ensures r@ == name@,
{
    name.to_string()
}

/// The files a KiCad export wrote.
#[derive(Clone, Debug, PartialEq, Eq)]
pub struct Export {
    pub pcb: String,
    pub pro: String,
}


/// A quoted KiCad token as text.
pub open spec fn quoted_kicad(s: Seq<char>) -> Seq<char> {
    seq!['"'] + escape_kicad(s) + seq!['"']
}

/// How segments and vias name their net: ` (net i)` with `i` the net's
/// place among `nets` counted from 1; nothing for no net or a net not
/// listed.
pub open spec fn net_ref(nets: Seq<Seq<char>>, n: Option<Seq<char>>) -> Seq<char> {
    match n {
        Some(x) => {
            let i = position_of(nets, x);
            if i < nets.len() { " (net "@ + nat_digits((i + 1) as nat) + ")"@ } else { ""@ }
        },
        None => ""@,
    }
}

/// One segment line of a board file; `u` numbers its UUID.
pub open spec fn segment_text(a: Point, b: Point, w: Length, layer: Seq<char>, nr: Seq<char>, u: nat) -> Seq<char> {
    "  (segment (start "@ + kicad_xy_text(a) + ") (end "@ + kicad_xy_text(b) + ") (width "@ + kicad_mm_text(w.0 as int)
        + ") (layer "@ + quoted_kicad(layer) + ")"@ + nr + " (uuid "@ + quoted_kicad(uuid_text(u)) + "))\n"@
}

/// The lines of the first `k` segments of trace `t`, numbered from `u0 + 1`.
pub open spec fn trace_segments(t: Trace, nr: Seq<char>, u0: nat, k: nat) -> Seq<char>
    decreases k,
{
    if k == 0 {
        Seq::empty()
    } else {
        trace_segments(t, nr, u0, (k - 1) as nat)
            + segment_text(t.points@[k - 1], t.points@[k as int], t.width, t.layer@, nr, u0 + k)
    }
}

/// The segments of a trace: one fewer than its points.
pub open spec fn seg_count(t: Trace) -> nat {
    if t.points@.len() >= 2 { (t.points@.len() - 1) as nat } else { 0 }
}

/// The segments of all the traces.
pub open spec fn seg_total(ts: Seq<Trace>) -> nat
    decreases ts.len(),
{
    if ts.len() == 0 { 0 } else { seg_total(ts.drop_last()) + seg_count(ts.last()) }
}

/// The segment lines of the traces, in order, numbered from `u0 + 1`.
pub open spec fn traces_text(ts: Seq<Trace>, nets: Seq<Seq<char>>, u0: nat) -> Seq<char>
    decreases ts.len(),
{
    if ts.len() == 0 {
        Seq::empty()
    } else {
        let t = ts.last();
        traces_text(ts.drop_last(), nets, u0)
            + trace_segments(t, net_ref(nets, crate::edit::net_view(t.net)), u0 + seg_total(ts.drop_last()), seg_count(t))
    }
}

/// One via line of a board file; `u` numbers its UUID.
pub open spec fn via_text(v: Via, nr: Seq<char>, u: nat) -> Seq<char> {
    "  (via (at "@ + kicad_xy_text(v.at) + ") (size "@ + kicad_mm_text(v.diameter.0 as int) + ") (drill "@
        + kicad_mm_text(v.drill.0 as int) + ") (layers \"F.Cu\" \"B.Cu\")"@ + nr + " (uuid "@ + quoted_kicad(uuid_text(u)) + "))\n"@
}

/// The via lines, in order, numbered from `u0 + 1`.
pub open spec fn vias_text(vs: Seq<Via>, nets: Seq<Seq<char>>, u0: nat) -> Seq<char>
    decreases vs.len(),
{
    if vs.len() == 0 {
        Seq::empty()
    } else {
        vias_text(vs.drop_last(), nets, u0) + via_text(vs.last(), net_ref(nets, crate::edit::net_view(vs.last().net)), u0 + vs.len())
    }
}

/// The ` (net i)` clause of a segment or via.
fn net_num(nets: &Vec<String>, n: &Option<String>) -> (r: String)
    ensures r@ == net_ref(texts(nets@), crate::edit::net_view(*n)),
{
    proof { reveal_strlit(""); }
    match n {
        None => String::new(),
        Some(x) => {
            let ghost names = texts(nets@);
            let mut i: usize = 0;
            while i < nets.len()
                invariant i <= nets@.len(), names == texts(nets@), forall|j: int| 0 <= j < i ==> names[j] != x@,
                    crate::edit::net_view(*n) == Some(x@), ""@ == Seq::<char>::empty(),
                decreases nets@.len() - i,
            {
                proof { assert(names[i as int] == nets@[i as int]@); }
                if same_str(nets[i].as_str(), x.as_str()) {
                    proof { position_lemma(names, x@, i as int); }
                    let mut s = String::new();
                    push_str(&mut s, " (net ");
                    push_nat(&mut s, i as u64 + 1);
                    push_str(&mut s, ")");
                    return s;
                }
                i += 1;
            }
            proof { position_lemma(names, x@, i as int); }
            String::new()
        },
    }
}

/// Appends a segment line, numbered by the next UUID.
fn push_segment(s: &mut String, a: Point, b: Point, w: Length, layer: &str, nr: &str, ids: &mut Uuids)
    requires old(ids).0 < u64::MAX, a.y.0 != i64::MIN, b.y.0 != i64::MIN,
    ensures
        final(ids).0 == old(ids).0 + 1,
        final(s)@ == old(s)@ + segment_text(a, b, w, layer@, nr@, (old(ids).0 + 1) as nat),
{
    let ghost s0 = s@;
    push_str(s, "  (segment (start ");
    push_str(s, &xy(a));
    push_str(s, ") (end ");
    push_str(s, &xy(b));
    push_str(s, ") (width ");
    push_str(s, &mm(w));
    push_str(s, ") (layer ");
    push_str(s, &q(layer));
    push_str(s, ")");
    push_str(s, nr);
    push_str(s, " (uuid ");
    let u = ids.next();
    push_str(s, &q(u.as_str()));
    push_str(s, "))\n");
    proof { assert(s@ =~= s0 + segment_text(a, b, w, layer@, nr@, ids.0 as nat)); }
}

/// Appends a via line, numbered by the next UUID.
fn push_via(s: &mut String, v: &Via, nr: &str, ids: &mut Uuids)
    requires old(ids).0 < u64::MAX, v.at.y.0 != i64::MIN,
    ensures
        final(ids).0 == old(ids).0 + 1,
        final(s)@ == old(s)@ + via_text(*v, nr@, (old(ids).0 + 1) as nat),
{
    let ghost s0 = s@;
    push_str(s, "  (via (at ");
    push_str(s, &xy(v.at));
    push_str(s, ") (size ");
    push_str(s, &mm(v.diameter));
    push_str(s, ") (drill ");
    push_str(s, &mm(v.drill));
    push_str(s, ") (layers \"F.Cu\" \"B.Cu\")");
    push_str(s, nr);
    push_str(s, " (uuid ");
    let u = ids.next();
    push_str(s, &q(u.as_str()));
    push_str(s, "))\n");
    proof { assert(s@ =~= s0 + via_text(*v, nr@, ids.0 as nat)); }
}

/// The copper of a board file: a segment line for each straight piece of
/// each trace, then a line for each via, numbered by `ids` in that order;
/// `nets` are the board's nets, numbered from 1.
pub fn kicad_copper(traces: &Vec<Trace>, vias: &Vec<Via>, nets: &Vec<String>, ids: &mut Uuids) -> (r: String)
    requires
        old(ids).0 + seg_total(traces@) + vias@.len() < u64::MAX,
        forall|i: int, k: int| 0 <= i < traces@.len() && 0 <= k < traces@[i].points@.len()
            ==> (#[trigger] traces@[i].points@[k]).y.0 != i64::MIN,
        forall|i: int| 0 <= i < vias@.len() ==> (#[trigger] vias@[i]).at.y.0 != i64::MIN,
    ensures
        r@ == traces_text(traces@, texts(nets@), old(ids).0 as nat)
            + vias_text(vias@, texts(nets@), (old(ids).0 + seg_total(traces@)) as nat),
        final(ids).0 == old(ids).0 + seg_total(traces@) + vias@.len(),
{
    let ghost u0 = ids.0 as nat;
    let ghost nv = texts(nets@);
    let mut s = String::new();
    let mut i: usize = 0;
    while i < traces.len()
        invariant
            i <= traces@.len(), nv == texts(nets@),
            s@ == traces_text(traces@.take(i as int), nv, u0),
            ids.0 == u0 + seg_total(traces@.take(i as int)),
            u0 + seg_total(traces@) + vias@.len() < u64::MAX,
            forall|a: int, k: int| 0 <= a < traces@.len() && 0 <= k < traces@[a].points@.len()
                ==> (#[trigger] traces@[a].points@[k]).y.0 != i64::MIN,
        decreases traces@.len() - i,
    {
        proof {
            assert(traces@.take(i + 1).drop_last() =~= traces@.take(i as int));
            assert(traces@.take(i + 1).last() == traces@[i as int]);
            lemma_seg_total_prefix(traces@, i as int + 1);
        }
        let t = &traces[i];
        let nr = net_num(nets, &t.net);
        let ghost s0 = s@;
        let ghost v0 = ids.0 as nat;
        let n = t.points.len();
        if n >= 2 {
            let mut k: usize = 1;
            while k < n
                invariant
                    1 <= k <= n, n == t.points@.len(), n >= 2,
                    s@ == s0 + trace_segments(*t, nr@, v0, (k - 1) as nat),
                    ids.0 == v0 + (k - 1),
                    v0 + seg_count(*t) < u64::MAX,
                    forall|kk: int| 0 <= kk < t.points@.len() ==> (#[trigger] t.points@[kk]).y.0 != i64::MIN,
                decreases n - k,
            {
                push_segment(&mut s, t.points[k - 1], t.points[k], t.width, t.layer.as_str(), nr.as_str(), ids);
                proof {
                    assert(s@ =~= s0 + trace_segments(*t, nr@, v0, k as nat));
                }
                k += 1;
            }
        } else {
            proof { assert(s@ =~= s0 + trace_segments(*t, nr@, v0, 0)); }
        }
        proof { assert(s@ =~= traces_text(traces@.take(i + 1), nv, u0)); }
        i += 1;
    }
    proof { assert(traces@.take(traces@.len() as int) =~= traces@); }
    let ghost s1 = s@;
    let ghost w0 = ids.0 as nat;
    let mut j: usize = 0;
    while j < vias.len()
        invariant
            j <= vias@.len(), nv == texts(nets@), w0 == u0 + seg_total(traces@),
            s@ == s1 + vias_text(vias@.take(j as int), nv, w0),
            ids.0 == w0 + j,
            w0 + vias@.len() < u64::MAX,
            forall|a: int| 0 <= a < vias@.len() ==> (#[trigger] vias@[a]).at.y.0 != i64::MIN,
        decreases vias@.len() - j,
    {
        proof {
            assert(vias@.take(j + 1).drop_last() =~= vias@.take(j as int));
            assert(vias@.take(j + 1).last() == vias@[j as int]);
        }
        let v = &vias[j];
        let nr = net_num(nets, &v.net);
        let ghost s0 = s@;
        push_via(&mut s, v, nr.as_str(), ids);
        proof { assert(s@ =~= s1 + vias_text(vias@.take(j + 1), nv, w0)); }
        j += 1;
    }
    proof { assert(vias@.take(vias@.len() as int) =~= vias@); }
    s
}

proof fn lemma_seg_total_prefix(ts: Seq<Trace>, i: int)
    requires 0 <= i <= ts.len(),
    ensures seg_total(ts.take(i)) <= seg_total(ts),
    decreases ts.len() - i,
{
    if i < ts.len() {
        lemma_seg_total_prefix(ts, i + 1);
        assert(ts.take(i + 1).drop_last() =~= ts.take(i));
    } else {
        assert(ts.take(i) =~= ts);
    }
}


/// The net table of a board file: net 0 unnamed, then each net numbered
/// from 1 in order.
pub open spec fn nets_table(nets: Seq<Seq<char>>) -> Seq<char>
    decreases nets.len(),
{
    if nets.len() == 0 {
        "  (net 0 \"\")\n"@
    } else {
        nets_table(nets.drop_last()) + "  (net "@ + nat_digits(nets.len()) + " "@ + quoted_kicad(nets.last()) + ")\n"@
    }
}

/// The net table of a board file.
pub fn kicad_nets(nets: &Vec<String>) -> (r: String)
    requires nets@.len() < u64::MAX,
    ensures r@ == nets_table(texts(nets@)),
{
    let ghost nv = texts(nets@);
    let mut s = String::new();
    push_str(&mut s, "  (net 0 \"\")\n");
    proof { assert(nv.take(0) =~= Seq::<Seq<char>>::empty()); }
    let mut i: usize = 0;
    while i < nets.len()
        invariant i <= nets@.len(), nets@.len() < u64::MAX, nv == texts(nets@), s@ == nets_table(nv.take(i as int)),
        decreases nets@.len() - i,
    {
        proof {
            assert(nv.take(i + 1).drop_last() =~= nv.take(i as int));
            assert(nv.take(i + 1).last() == nets@[i as int]@);
        }
        push_str(&mut s, "  (net ");
        push_nat(&mut s, i as u64 + 1);
        push_str(&mut s, " ");
        push_str(&mut s, &q(nets[i].as_str()));
        push_str(&mut s, ")\n");
        i += 1;
    }
    proof { assert(nv.take(nv.len() as int) =~= nv); }
    s
}

/// The user layers every board file lists after the copper.
pub open spec fn user_layers_text() -> Seq<char> {
    "    (32 \"B.Adhes\" user \"B.Adhesive\")\n    (33 \"F.Adhes\" user \"F.Adhesive\")\n    (34 \"B.Paste\" user)\n    (35 \"F.Paste\" user)\n    (36 \"B.SilkS\" user \"B.Silkscreen\")\n    (37 \"F.SilkS\" user \"F.Silkscreen\")\n    (38 \"B.Mask\" user)\n    (39 \"F.Mask\" user)\n    (40 \"Dwgs.User\" user \"User.Drawings\")\n    (41 \"Cmts.User\" user \"User.Comments\")\n    (44 \"Edge.Cuts\" user)\n    (45 \"Margin\" user)\n    (46 \"B.CrtYd\" user \"B.Courtyard\")\n    (47 \"F.CrtYd\" user \"F.Courtyard\")\n    (48 \"B.Fab\" user)\n    (49 \"F.Fab\" user)"@
}

/// The lines of the inner copper layers among the first `k`, each
/// numbered by its place in the stackup; the outer layers are left out.
pub open spec fn inner_layer_lines(copper: Seq<Seq<char>>, k: int) -> Seq<char>
    decreases k,
{
    if k <= 0 {
        Seq::empty()
    } else {
        let l = copper[k - 1];
        inner_layer_lines(copper, k - 1)
            + (if l == "F.Cu"@ || l == "B.Cu"@ { Seq::empty() }
               else { "    ("@ + nat_digits((k - 1) as nat) + " "@ + seq!['"'] + escape_kicad(l) + seq!['"'] + " signal)\n"@ })
    }
}

/// The head of a board file: version, board thickness, paper, the layer
/// table (front copper as 0, inner layers by their place in the stackup,
/// back copper as 31, then the user layers) and the mask clearance.
pub open spec fn header_text(thickness: Length, copper: Seq<Seq<char>>, mask: Length) -> Seq<char> {
    "(kicad_pcb (version 20240108) (generator \"flatland\") (generator_version \"0.1\")\n"@
        + "  (general (thickness "@ + kicad_mm_text(thickness.0 as int) + ") (legacy_teardrops no))\n"@
        + "  (paper \"A4\")\n"@
        + "  (layers\n"@ + "    (0 \"F.Cu\" signal)\n"@ + inner_layer_lines(copper, copper.len() as int)
        + "    (31 \"B.Cu\" signal)\n"@ + user_layers_text() + "\n  )\n"@
        + "  (setup (pad_to_mask_clearance "@ + kicad_mm_text(mask.0 as int)
        + ") (allow_soldermask_bridges_in_footprints no) (pcbplotparams))\n"@
}

/// Writes the head of a board file for a stackup of `copper` layers.
pub fn kicad_header(thickness: Length, copper: &Vec<String>, mask: Length) -> (r: String)
    requires copper@.len() <= u64::MAX,
    ensures r@ == header_text(thickness, texts(copper@), mask),
{
    let ghost cv = texts(copper@);
    let mut s = String::new();
    push_str(&mut s, "(kicad_pcb (version 20240108) (generator \"flatland\") (generator_version \"0.1\")\n");
    push_str(&mut s, "  (general (thickness ");
    push_str(&mut s, &mm(thickness));
    push_str(&mut s, ") (legacy_teardrops no))\n");
    push_str(&mut s, "  (paper \"A4\")\n");
    push_str(&mut s, "  (layers\n");
    push_str(&mut s, "    (0 \"F.Cu\" signal)\n");
    let ghost head = s@;
    let mut i: usize = 0;
    while i < copper.len()
        invariant
            i <= copper@.len(), copper@.len() <= u64::MAX, cv == texts(copper@),
            s@ == head + inner_layer_lines(cv, i as int),
        decreases copper@.len() - i,
    {
        let l = copper[i].as_str();
        proof { assert(cv[i as int] == l@); }
        if !same_str(l, "F.Cu") && !same_str(l, "B.Cu") {
            push_str(&mut s, "    (");
            push_nat(&mut s, i as u64);
            push_str(&mut s, " ");
            push_str(&mut s, &q(l));
            push_str(&mut s, " signal)\n");
        }
        i += 1;
    }
    push_str(&mut s, "    (31 \"B.Cu\" signal)\n");
    push_str(&mut s, "    (32 \"B.Adhes\" user \"B.Adhesive\")\n    (33 \"F.Adhes\" user \"F.Adhesive\")\n    (34 \"B.Paste\" user)\n    (35 \"F.Paste\" user)\n    (36 \"B.SilkS\" user \"B.Silkscreen\")\n    (37 \"F.SilkS\" user \"F.Silkscreen\")\n    (38 \"B.Mask\" user)\n    (39 \"F.Mask\" user)\n    (40 \"Dwgs.User\" user \"User.Drawings\")\n    (41 \"Cmts.User\" user \"User.Comments\")\n    (44 \"Edge.Cuts\" user)\n    (45 \"Margin\" user)\n    (46 \"B.CrtYd\" user \"B.Courtyard\")\n    (47 \"F.CrtYd\" user \"F.Courtyard\")\n    (48 \"B.Fab\" user)\n    (49 \"F.Fab\" user)");
    push_str(&mut s, "\n  )\n");
    push_str(&mut s, "  (setup (pad_to_mask_clearance ");
    push_str(&mut s, &mm(mask));
    push_str(&mut s, ") (allow_soldermask_bridges_in_footprints no) (pcbplotparams))\n");
    proof { assert(s@ =~= header_text(thickness, cv, mask)); }
    s
}

} // verus!
