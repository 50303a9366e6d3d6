//! `pcb trace list`, `pcb trace remove` and the check after `pcb trace
//! trim`: what is printed for each trace, which trace goes, and the refusal
//! of a trim that would split a net.

use vstd::prelude::*;
use crate::units::{Length, Point, point_text, length_text};
use crate::schema::Trace;
use crate::error::Error;
use crate::numfmt::{nat_digits, push_nat};
use crate::text::{push_str, same_str, join_text, join_strings};

verus! {

/// The points of a trace as text, joined by arrows.
pub open spec fn points_text(pts: Seq<Point>) -> Seq<char> {
    join_text(pts.map_values(|p: Point| point_text(p)), " -> "@)
}

/// How a trace was drawn, as the listing marks it.
pub open spec fn drawn_mark(t: Trace) -> Seq<char> {
    if t.routed { " (routed)"@ } else if t.fanout { " (fanout)"@ } else { ""@ }
}

/// The listing line of trace number `i`.
pub open spec fn trace_line(i: nat, t: Trace) -> Seq<char> {
    "#"@ + nat_digits(i) + ": "@ + t.layer@ + " net "@
        + (match t.net { Some(n) => n@, None => "-"@ })
        + " w "@ + length_text(t.width.0 as int) + " "@ + points_text(t.points@) + drawn_mark(t)
}

/// One line per trace, numbered from zero.
pub fn trace_lines(traces: &Vec<Trace>) -> (r: Vec<String>)
    requires traces@.len() <= u64::MAX,
    ensures
        r@.len() == traces@.len(),
        forall|i: int| 0 <= i < r@.len() ==> #[trigger] r@[i]@ == trace_line(i as nat, traces@[i]),
{
    let mut out: Vec<String> = Vec::new();
    let mut i: usize = 0;
    while i < traces.len()
        invariant
            i <= traces@.len(), traces@.len() <= u64::MAX, out@.len() == i,
            forall|j: int| 0 <= j < i ==> #[trigger] out@[j]@ == trace_line(j as nat, traces@[j]),
        decreases traces@.len() - i,
    {
        let t = &traces[i];
        let mut pts: Vec<String> = Vec::new();
        let mut k: usize = 0;
        while k < t.points.len()
            invariant
                k <= t.points@.len(),
                pts@.map_values(|s: String| s@) == t.points@.take(k as int).map_values(|p: Point| point_text(p)),
            decreases t.points@.len() - k,
        {
            let ghost before = pts@;
            pts.push(t.points[k].to_string());
            proof {
                assert(pts@.map_values(|s: String| s@) =~= before.map_values(|s: String| s@).push(point_text(t.points@[k as int])));
                assert(t.points@.take(k + 1).map_values(|p: Point| point_text(p))
                    =~= t.points@.take(k as int).map_values(|p: Point| point_text(p)).push(point_text(t.points@[k as int])));
            }
            k += 1;
        }
        proof { assert(t.points@.take(t.points@.len() as int) =~= t.points@); }
        let mut line = String::new();
        push_str(&mut line, "#");
        push_nat(&mut line, i as u64);
        push_str(&mut line, ": ");
        push_str(&mut line, t.layer.as_str());
        push_str(&mut line, " net ");
        match &t.net {
            Some(n) => push_str(&mut line, n.as_str()),
            None => push_str(&mut line, "-"),
        }
        push_str(&mut line, " w ");
        let w = t.width.to_string();
        push_str(&mut line, w.as_str());
        push_str(&mut line, " ");
        let joined = join_strings(&pts, " -> ");
        push_str(&mut line, joined.as_str());
        if t.routed {
            push_str(&mut line, " (routed)");
        } else if t.fanout {
            push_str(&mut line, " (fanout)");
        } else {
            push_str(&mut line, "");
        }
        proof {
            assert(line@ =~= trace_line(i as nat, traces@[i as int]));
        }
        out.push(line);
        i += 1;
    }
    out
}

/// What `pcb trace remove` reports for the trace it removed.
pub open spec fn removed_line(index: nat, t: Trace) -> Seq<char> {
    "removed trace #"@ + nat_digits(index) + " ("@
        + (match t.net { Some(n) => n@, None => "no net"@ })
        + " on "@ + t.layer@ + ", "@ + nat_digits(t.points@.len()) + " point(s)); later indices shift down by one"@
}

/// Removes trace number `index`, returning what to report; a number past
/// the end is refused and nothing changes.
pub fn remove_trace(traces: &mut Vec<Trace>, index: usize) -> (r: Result<String, Error>)
    requires old(traces)@.len() <= u64::MAX,
    ensures
        r is Err <==> index >= old(traces)@.len(),
        r matches Err(e) ==> e.message@ == "no trace #"@ + nat_digits(index as nat)
            && (e.help matches Some(h) && h@ == "`pcb trace list` numbers them"@),
        r is Err ==> final(traces)@ == old(traces)@,
        r matches Ok(m) ==> m@ == removed_line(index as nat, old(traces)@[index as int])
            && final(traces)@ == old(traces)@.remove(index as int),
{
    if index >= traces.len() {
        let mut m = String::new();
        push_str(&mut m, "no trace #");
        push_nat(&mut m, index as u64);
        return Err(Error::with_help(m, String::from_str("`pcb trace list` numbers them")));
    }
    let t = traces.remove(index);
    let mut m = String::new();
    push_str(&mut m, "removed trace #");
    push_nat(&mut m, index as u64);
    push_str(&mut m, " (");
    match &t.net {
        Some(n) => push_str(&mut m, n.as_str()),
        None => push_str(&mut m, "no net"),
    }
    push_str(&mut m, " on ");
    push_str(&mut m, t.layer.as_str());
    push_str(&mut m, ", ");
    push_nat(&mut m, t.points.len() as u64);
    push_str(&mut m, " point(s)); later indices shift down by one");
    Ok(m)
}

/// The number of islands a net had before trimming: as listed, or one for
/// a net not listed.
pub open spec fn islands_before(before: Seq<(String, usize)>, n: Seq<char>) -> int
    decreases before.len(),
{
    if before.len() == 0 {
        1
    } else if before[0].0@ == n {
        before[0].1 as int
    } else {
        islands_before(before.drop_first(), n)
    }
}

/// Whether some net has more islands after trimming than before.
pub open spec fn splits(before: Seq<(String, usize)>, after: Seq<(String, usize)>) -> bool {
    exists|i: int| 0 <= i < after.len() && (#[trigger] after[i]).1 > islands_before(before, after[i].0@)
}

/// The refusal of a trim that splits net `n` into `now` islands from `was`.
pub open spec fn split_message(n: Seq<char>, now: nat, was: nat) -> Seq<char> {
    "trimming would split net "@ + n + " ("@ + nat_digits(now) + " islands from "@ + nat_digits(was) + "); nothing changed"@
}

fn before_count(before: &Vec<(String, usize)>, n: &String) -> (r: usize)
    ensures r as int == islands_before(before@, n@),
{
    proof { assert(before@.skip(0) =~= before@); }
    let mut i: usize = 0;
    while i < before.len()
        invariant
            i <= before@.len(),
            islands_before(before@.skip(i as int), n@) == islands_before(before@, n@),
        decreases before@.len() - i,
    {
        proof { assert(before@.skip(i as int).drop_first() =~= before@.skip(i + 1)); }
        if same_str(before[i].0.as_str(), n.as_str()) {
            return before[i].1;
        }
        i += 1;
    }
    proof { assert(before@.skip(i as int).len() == 0); }
    1
}

/// Compares the island counts of each net before and after a trim (from
/// the nets' connectivity) and refuses the trim at the first net, in the
/// order of `after`, that it splits.
pub fn check_trim_keeps_nets(before: &Vec<(String, usize)>, after: &Vec<(String, usize)>) -> (r: Result<(), Error>)
    ensures
        r is Ok <==> !splits(before@, after@),
        r matches Err(e) ==> exists|i: int| 0 <= i < after@.len()
            && (forall|j: int| 0 <= j < i ==> (#[trigger] after@[j]).1 <= islands_before(before@, after@[j].0@))
            && after@[i].1 > islands_before(before@, after@[i].0@)
            && e.message@ == split_message(after@[i].0@, after@[i].1 as nat, islands_before(before@, after@[i].0@) as nat)
            && (e.help matches Some(h) && h@ == "this is a bug worth reporting: a trimmed end should never have been the only connection"@),
{
    let mut i: usize = 0;
    while i < after.len()
        invariant
            i <= after@.len(),
            forall|j: int| 0 <= j < i ==> (#[trigger] after@[j]).1 <= islands_before(before@, after@[j].0@),
        decreases after@.len() - i,
    {
        let was = before_count(before, &after[i].0);
        if after[i].1 > was {
            let mut m = String::new();
            push_str(&mut m, "trimming would split net ");
            push_str(&mut m, after[i].0.as_str());
            push_str(&mut m, " (");
            push_nat(&mut m, after[i].1 as u64);
            push_str(&mut m, " islands from ");
            push_nat(&mut m, was as u64);
            push_str(&mut m, "); nothing changed");
            return Err(Error::with_help(m, String::from_str("this is a bug worth reporting: a trimmed end should never have been the only connection")));
        }
        i += 1;
    }
    Ok(())
}

} // verus!
