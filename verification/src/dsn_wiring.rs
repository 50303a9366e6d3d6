//! The wiring section of a Specctra design file: the traces and vias
//! already on the board, handed to the router as protected wiring it must
//! keep.

use vstd::prelude::*;
use crate::units::Point;
use crate::schema::{Trace, Via};
use crate::sexpr::{quote, quoted_token};
use crate::emit::{um, um_text, xy, xy_text, points_text, via_name, via_text};
use crate::text::{push_str, push_char};

verus! {

/// ` (net NAME)` for a net, nothing for none.
pub open spec fn net_clause(n: Option<String>) -> Seq<char> {
    match n {
        Some(x) => " (net "@ + quoted_token(x@) + ")"@,
        None => Seq::empty(),
    }
}

/// The line of a protected trace.
pub open spec fn wire_line(t: Trace) -> Seq<char> {
    "    (wire (path "@ + quoted_token(t.layer@) + " "@ + um_text(t.width.0 as int) + points_text(t.points@) + ")"@
        + net_clause(t.net) + " (type protect))\n"@
}

/// The line of a protected via on a board of `n` copper layers.
pub open spec fn via_line(v: Via, n: int) -> Seq<char> {
    "    (via "@ + quoted_token(via_text(v.diameter.0 as int, v.drill.0 as int, n)) + " "@ + xy_text(v.at)
        + net_clause(v.net) + " (type protect))\n"@
}

/// The lines of the first `k` traces.
pub open spec fn wire_lines(ts: Seq<Trace>, k: int) -> Seq<char>
    decreases k,
{
    if k <= 0 { Seq::empty() } else { wire_lines(ts, k - 1) + wire_line(ts[k - 1]) }
}

/// The lines of the first `k` vias.
pub open spec fn via_lines(vs: Seq<Via>, n: int, k: int) -> Seq<char>
    decreases k,
{
    if k <= 0 { Seq::empty() } else { via_lines(vs, n, k - 1) + via_line(vs[k - 1], n) }
}

/// The wiring section: nothing when the board has no trace and no via.
pub open spec fn wiring_text(ts: Seq<Trace>, vs: Seq<Via>, n: int) -> Seq<char> {
    if ts.len() == 0 && vs.len() == 0 {
        Seq::empty()
    } else {
        "  (wiring\n"@ + wire_lines(ts, ts.len() as int) + via_lines(vs, n, vs.len() as int) + "  )\n"@
    }
}

fn push_net(s: &mut String, n: &Option<String>)
    ensures final(s)@ == old(s)@ + net_clause(*n),
{
    match n {
        Some(x) => {
            push_str(s, " (net ");
            push_str(s, &quote(x.as_str()));
            push_str(s, ")");
        }
        None => {}
    }
}

fn wire_text(t: &Trace) -> (r: String)
    ensures r@ == wire_line(*t),
{
    let mut s = String::new();
    push_str(&mut s, "    (wire (path ");
    push_str(&mut s, &quote(t.layer.as_str()));
    push_str(&mut s, " ");
    push_str(&mut s, &um(t.width));
    let ghost mid = s@;
    proof { assert(t.points@.take(0) =~= Seq::<Point>::empty()); }
    let mut k: usize = 0;
    while k < t.points.len()
        invariant k <= t.points@.len(), s@ == mid + points_text(t.points@.take(k as int)),
        decreases t.points@.len() - k,
    {
        let ghost b = s@;
        push_char(&mut s, ' ');
        push_str(&mut s, &xy(t.points[k]));
        proof {
            assert(t.points@.take(k + 1).drop_last() =~= t.points@.take(k as int));
            assert(t.points@.take(k + 1).last() == t.points@[k as int]);
            assert(points_text(t.points@.take(k + 1)) == points_text(t.points@.take(k as int)) + seq![' '] + xy_text(t.points@[k as int]));
            assert(s@ =~= b + seq![' '] + xy_text(t.points@[k as int]));
        }
        k += 1;
    }
    proof { assert(t.points@.take(t.points@.len() as int) =~= t.points@); }
    push_str(&mut s, ")");
    push_net(&mut s, &t.net);
    push_str(&mut s, " (type protect))\n");
    proof { assert(s@ =~= wire_line(*t)); }
    s
}

fn via_text_line(v: &Via, n_layers: usize) -> (r: String)
    ensures r@ == via_line(*v, n_layers as int),
{
    let mut s = String::new();
    push_str(&mut s, "    (via ");
    let name = via_name(v.diameter, v.drill, n_layers);
    push_str(&mut s, &quote(name.as_str()));
    push_str(&mut s, " ");
    push_str(&mut s, &xy(v.at));
    push_net(&mut s, &v.net);
    push_str(&mut s, " (type protect))\n");
    proof { assert(s@ =~= via_line(*v, n_layers as int)); }
    s
}

/// The wiring section for the board's traces and vias, on a board of
/// `n_layers` copper layers (which names the via padstacks).
pub fn dsn_wiring(traces: &Vec<Trace>, vias: &Vec<Via>, n_layers: usize) -> (r: String)
    ensures r@ == wiring_text(traces@, vias@, n_layers as int),
{
    if traces.len() == 0 && vias.len() == 0 {
        return String::new();
    }
    let mut s = String::new();
    push_str(&mut s, "  (wiring\n");
    let ghost head = s@;
    let mut i: usize = 0;
    while i < traces.len()
        invariant i <= traces@.len(), s@ == head + wire_lines(traces@, i as int),
        decreases traces@.len() - i,
    {
        let line = wire_text(&traces[i]);
        push_str(&mut s, &line);
        proof { assert(s@ =~= head + wire_lines(traces@, i + 1)); }
        i += 1;
    }
    let ghost mid = s@;
    let mut j: usize = 0;
    while j < vias.len()
        invariant j <= vias@.len(), s@ == mid + via_lines(vias@, n_layers as int, j as int),
        decreases vias@.len() - j,
    {
        let line = via_text_line(&vias[j], n_layers);
        push_str(&mut s, &line);
        proof { assert(s@ =~= mid + via_lines(vias@, n_layers as int, j + 1)); }
        j += 1;
    }
    push_str(&mut s, "  )\n");
    proof { assert(s@ =~= wiring_text(traces@, vias@, n_layers as int)); }
    s
}

} // verus!
