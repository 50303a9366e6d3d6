//! Finishing a design-rule run: which findings a waiver excuses, the order
//! findings are reported in (errors first, then by rule), the warning for a
//! rule set made for another layer count, the counts a report gives, and
//! the waiver edits of `pcb drc waive` and `pcb drc unwaive`.

use vstd::prelude::*;
use crate::drc::Finding;
use crate::schema::{Severity, Waiver};
use crate::units::Point;
use crate::canon::{str_leq, str_le, texts, lemma_str_leq_trans, lemma_str_leq_total, lemma_str_leq_refl};
use crate::text::{same_str, push_str, join_text, join_strings};
use crate::error::Error;
use crate::numfmt::{nat_digits, push_nat};
use crate::edit::net_view;
use crate::wiring::retain_flagged;

verus! {

/// A finding as plain values: rule, severity, message, place, features and
/// the reason it is waived.
pub type FindingView = (Seq<char>, Severity, Seq<char>, Option<Point>, Seq<Seq<char>>, Option<Seq<char>>);

pub open spec fn finding_view(f: Finding) -> FindingView {
    (f.rule@, f.severity, f.message@, f.at, texts(f.features@), net_view(f.waived))
}

pub open spec fn findings_view(fs: Seq<Finding>) -> Seq<FindingView> {
    fs.map_values(|f: Finding| finding_view(f))
}

/// Whether waiver `w` excuses a finding: same rule, and it names no
/// feature or one of the finding's.
pub open spec fn excuses(w: Waiver, f: FindingView) -> bool {
    &&& w.rule@ == f.0
    &&& (w.features@.len() == 0 || exists|i: int| 0 <= i < w.features@.len() && #[trigger] f.4.contains(w.features@[i]@))
}

/// The reason of the first waiver that excuses `f`.
pub open spec fn first_waiver(ws: Seq<Waiver>, f: FindingView) -> Option<Seq<char>>
    decreases ws.len(),
{
    if ws.len() == 0 {
        None
    } else if excuses(ws[0], f) {
        Some(ws[0].reason@)
    } else {
        first_waiver(ws.drop_first(), f)
    }
}

/// The finding with the first waiver that excuses it recorded.
pub open spec fn waived_by(ws: Seq<Waiver>, f: FindingView) -> FindingView {
    match first_waiver(ws, f) {
        Some(r) => (f.0, f.1, f.2, f.3, f.4, Some(r)),
        None => f,
    }
}

/// A waiver for a finding's rule excuses the finding when any one of the
/// features it lists, at whatever place in its list, is among the
/// finding's features (or when it lists none): the finding comes out
/// waived, with the reason of the first waiver that excuses it.
pub proof fn lemma_waiver_any_feature(ws: Seq<Waiver>, f: FindingView, k: int)
    requires
        0 <= k < ws.len(),
        ws[k].rule@ == f.0,
        ws[k].features@.len() == 0
            || exists|i: int| 0 <= i < ws[k].features@.len() && f.4.contains(#[trigger] ws[k].features@[i]@),
    ensures
        waived_by(ws, f).5 is Some,
        exists|j: int| 0 <= j <= k && waived_by(ws, f).5 == Some(#[trigger] ws[j].reason@) && ws[j].rule@ == f.0,
        waived_by(ws, f).0 == f.0 && waived_by(ws, f).4 == f.4,
    decreases k,
{
    if k == 0 {
        assert(excuses(ws[0], f));
    } else if excuses(ws[0], f) {
    } else {
        let rest = ws.drop_first();
        assert(rest[k - 1] == ws[k]);
        lemma_waiver_any_feature(rest, f, k - 1);
        let j = choose|j: int| 0 <= j <= k - 1 && waived_by(rest, f).5 == Some(#[trigger] rest[j].reason@) && rest[j].rule@ == f.0;
        assert(ws[j + 1] == rest[j]);
    }
}

/// A finding is waived only by a waiver of its own rule that lists none
/// of its features or one of them.
pub proof fn lemma_waived_only_by_match(ws: Seq<Waiver>, f: FindingView)
    requires f.5 is None, waived_by(ws, f).5 is Some,
    ensures exists|j: int| 0 <= j < ws.len() && (#[trigger] ws[j]).rule@ == f.0
        && (ws[j].features@.len() == 0 || exists|i: int| 0 <= i < ws[j].features@.len() && f.4.contains(#[trigger] ws[j].features@[i]@)),
    decreases ws.len(),
{
    if ws.len() > 0 {
        if excuses(ws[0], f) {
            assert(ws[0].rule@ == f.0);
        } else {
            let rest = ws.drop_first();
            lemma_waived_only_by_match(rest, f);
            let j = choose|j: int| 0 <= j < rest.len() && (#[trigger] rest[j]).rule@ == f.0
                && (rest[j].features@.len() == 0 || exists|i: int| 0 <= i < rest[j].features@.len() && f.4.contains(#[trigger] rest[j].features@[i]@));
            assert(ws[j + 1] == rest[j]);
        }
    }
}

/// How serious a severity is: info 0, warning 1, error 2.
pub open spec fn rank(s: Severity) -> int {
    match s {
        Severity::Info => 0,
        Severity::Warning => 1,
        Severity::Error => 2,
    }
}

/// Whether `a` may be reported before `b`: more serious, or as serious
/// and its rule name no later.
pub open spec fn reported_before(a: FindingView, b: FindingView) -> bool {
    rank(a.1) > rank(b.1) || (rank(a.1) == rank(b.1) && str_leq(a.0, b.0))
}

/// Where `x` goes in `t`: before the first finding it must precede.
pub open spec fn place_of(t: Seq<FindingView>, x: FindingView) -> int
    decreases t.len(),
{
    if t.len() == 0 {
        0
    } else if !reported_before(t[0], x) {
        0
    } else {
        1 + place_of(t.drop_first(), x)
    }
}

/// The findings in report order: most serious first, then by rule name;
/// findings that tie keep the order they were found in.
pub open spec fn report_order(s: Seq<FindingView>) -> Seq<FindingView>
    decreases s.len(),
{
    if s.len() == 0 {
        s
    } else {
        let t = report_order(s.drop_last());
        let k = place_of(t, s.last());
        t.take(k) + seq![s.last()] + t.skip(k)
    }
}

/// Whether findings come in report order.
pub open spec fn in_report_order(s: Seq<FindingView>) -> bool {
    forall|i: int, j: int| 0 <= i < j < s.len() ==> reported_before(#[trigger] s[i], #[trigger] s[j])
}

proof fn lemma_before_trans(a: FindingView, b: FindingView, c: FindingView)
    requires reported_before(a, b), reported_before(b, c),
    ensures reported_before(a, c),
{
    if rank(a.1) == rank(b.1) && rank(b.1) == rank(c.1) {
        lemma_str_leq_trans(a.0, b.0, c.0);
    }
}

proof fn lemma_before_total(a: FindingView, b: FindingView)
    ensures reported_before(a, b) || reported_before(b, a),
{
    lemma_str_leq_total(a.0, b.0);
}

proof fn lemma_place(t: Seq<FindingView>, x: FindingView)
    ensures
        0 <= place_of(t, x) <= t.len(),
        forall|i: int| 0 <= i < place_of(t, x) ==> reported_before(#[trigger] t[i], x),
        place_of(t, x) < t.len() ==> !reported_before(t[place_of(t, x)], x),
    decreases t.len(),
{
    if t.len() > 0 && reported_before(t[0], x) {
        lemma_place(t.drop_first(), x);
        assert forall|i: int| 0 <= i < place_of(t, x) implies reported_before(#[trigger] t[i], x) by {
            if i > 0 { assert(t[i] == t.drop_first()[i - 1]); }
        }
    }
}

/// Inserting at its place keeps findings in report order.
proof fn lemma_insert_sorted(t: Seq<FindingView>, x: FindingView)
    requires in_report_order(t),
    ensures in_report_order(t.take(place_of(t, x)) + seq![x] + t.skip(place_of(t, x))),
{
    lemma_place(t, x);
    let k = place_of(t, x);
    let r = t.take(k) + seq![x] + t.skip(k);
    assert forall|j: int| k < j <= t.len() implies reported_before(x, #[trigger] r[j]) by {
        assert(r[j] == t[j - 1]);
        if reported_before(t[j - 1], x) {
            if j - 1 > k {
                assert(reported_before(t[k], t[j - 1]));
                lemma_before_trans(t[k], t[j - 1], x);
            }
        }
        lemma_before_total(t[j - 1], x);
    }
    assert forall|i: int, j: int| 0 <= i < j < r.len() implies reported_before(#[trigger] r[i], #[trigger] r[j]) by {
        if i < k && j < k {
            assert(r[i] == t[i] && r[j] == t[j]);
        } else if i < k && j == k {
            assert(r[i] == t[i]);
        } else if i < k {
            assert(r[i] == t[i] && r[j] == t[j - 1]);
            assert(reported_before(t[i], x));
            assert(reported_before(x, r[j]));
            lemma_before_trans(t[i], x, r[j]);
        } else if i == k {
        } else {
            assert(r[i] == t[i - 1] && r[j] == t[j - 1]);
        }
    }
}

/// The report order puts findings in order.
pub proof fn lemma_report_order_sorted(s: Seq<FindingView>)
    ensures in_report_order(report_order(s)), report_order(s).len() == s.len(),
    decreases s.len(),
{
    if s.len() > 0 {
        lemma_report_order_sorted(s.drop_last());
        let t = report_order(s.drop_last());
        lemma_insert_sorted(t, s.last());
        lemma_place(t, s.last());
    }
}


/// The report keeps every finding, each as often as it was found: it only
/// reorders them.
pub proof fn lemma_report_order_keeps(s: Seq<FindingView>)
    ensures report_order(s).to_multiset() =~= s.to_multiset(),
    decreases s.len(),
{
    broadcast use vstd::seq_lib::group_to_multiset_ensures;
    if s.len() > 0 {
        let d = s.drop_last();
        let x = s.last();
        lemma_report_order_keeps(d);
        let t = report_order(d);
        lemma_place(t, x);
        let k = place_of(t, x);
        let a = t.take(k);
        let b = t.skip(k);
        assert(t =~= a + b);
        vstd::seq_lib::lemma_multiset_commutative(a, b);
        vstd::seq_lib::lemma_multiset_commutative(a + seq![x], b);
        vstd::seq_lib::lemma_multiset_commutative(a, seq![x]);
        assert(s =~= d.push(x));
        assert(seq![x].to_multiset() =~= vstd::multiset::Multiset::<FindingView>::empty().insert(x)) by {
            assert(seq![x] =~= Seq::<FindingView>::empty().push(x));
        }
    }
}

/// After a design-rule run is finished, a finding that some waiver of its
/// rule excuses (the waiver lists none of the finding's features, or any
/// one of them) is in the report, waived.
pub proof fn lemma_finished_finding_waived(found: Seq<FindingView>, ws: Seq<Waiver>, i: int, k: int)
    requires
        0 <= i < found.len(), 0 <= k < ws.len(),
        ws[k].rule@ == found[i].0,
        ws[k].features@.len() == 0
            || exists|m: int| 0 <= m < ws[k].features@.len() && found[i].4.contains(#[trigger] ws[k].features@[m]@),
    ensures ({
        let out = report_order(found.map_values(|f: FindingView| waived_by(ws, f)));
        exists|j: int| 0 <= j < out.len() && (#[trigger] out[j]).5 is Some
            && out[j].0 == found[i].0 && out[j].1 == found[i].1 && out[j].2 == found[i].2
            && out[j].3 == found[i].3 && out[j].4 == found[i].4
    }),
{
    broadcast use vstd::seq_lib::group_to_multiset_ensures;
    let w = found.map_values(|f: FindingView| waived_by(ws, f));
    let out = report_order(w);
    lemma_waiver_any_feature(ws, found[i], k);
    let x = w[i];
    assert(w.contains(x));
    lemma_report_order_keeps(w);
    assert(w.to_multiset().count(x) > 0);
    assert(out.to_multiset().count(x) > 0);
    assert(out.contains(x));
    let j = choose|j: int| 0 <= j < out.len() && out[j] == x;
    assert(out[j].5 is Some);
}

fn rank_of(s: Severity) -> (r: u8)
    ensures r as int == rank(s),
{
    match s {
        Severity::Info => 0,
        Severity::Warning => 1,
        Severity::Error => 2,
    }
}

/// Whether `a` may be reported before `b`.
fn before(a: &Finding, b: &Finding) -> (r: bool)
    ensures r == reported_before(finding_view(*a), finding_view(*b)),
{
    let (ra, rb) = (rank_of(a.severity), rank_of(b.severity));
    ra > rb || (ra == rb && str_le(a.rule.as_str(), b.rule.as_str()))
}

/// Whether `v` holds the text `x`.
fn holds_text(v: &Vec<String>, x: &str) -> (r: bool)
    ensures r == texts(v@).contains(x@),
{
    let mut i: usize = 0;
    while i < v.len()
        invariant i <= v@.len(), forall|j: int| 0 <= j < i ==> v@[j]@ != x@,
        decreases v@.len() - i,
    {
        if same_str(v[i].as_str(), x) {
            proof { assert(texts(v@)[i as int] == x@); }
            return true;
        }
        i += 1;
    }
    proof {
        if texts(v@).contains(x@) {
            let j = choose|j: int| 0 <= j < texts(v@).len() && texts(v@)[j] == x@;
            assert(v@[j]@ == x@);
        }
    }
    false
}

/// Whether waiver `w` excuses finding `f`.
fn excuses_exec(w: &Waiver, f: &Finding) -> (r: bool)
    ensures r == excuses(*w, finding_view(*f)),
{
    if !same_str(w.rule.as_str(), f.rule.as_str()) {
        return false;
    }
    if w.features.len() == 0 {
        return true;
    }
    let mut i: usize = 0;
    while i < w.features.len()
        invariant i <= w.features@.len(), w.rule@ == f.rule@,
            forall|j: int| 0 <= j < i ==> !texts(f.features@).contains(#[trigger] w.features@[j]@),
        decreases w.features@.len() - i,
    {
        if holds_text(&f.features, w.features[i].as_str()) {
            proof { assert(finding_view(*f).4.contains(w.features@[i as int]@)); }
            return true;
        }
        i += 1;
    }
    false
}

/// The reason of the first waiver that excuses `f`.
fn waiver_reason(ws: &Vec<Waiver>, f: &Finding) -> (r: Option<String>)
    ensures net_view(r) == first_waiver(ws@, finding_view(*f)),
{
    let mut i: usize = 0;
    proof { assert(ws@.skip(0) =~= ws@); }
    while i < ws.len()
        invariant i <= ws@.len(), first_waiver(ws@, finding_view(*f)) == first_waiver(ws@.skip(i as int), finding_view(*f)),
        decreases ws@.len() - i,
    {
        proof { assert(ws@.skip(i as int).drop_first() =~= ws@.skip(i + 1)); assert(ws@.skip(i as int)[0] == ws@[i as int]); }
        if excuses_exec(&ws[i], f) {
            return Some(ws[i].reason.clone());
        }
        i += 1;
    }
    proof { assert(ws@.skip(i as int).len() == 0); }
    None
}

/// The end of a design-rule run: each finding a waiver excuses records the
/// first such waiver's reason, and the findings are put in report order
/// (most serious first, then by rule name, ties in the order found).
pub fn finish_findings(findings: &mut Vec<Finding>, waivers: &Vec<Waiver>)
    ensures
        findings_view(final(findings)@)
            == report_order(findings_view(old(findings)@).map_values(|f: FindingView| waived_by(waivers@, f))),
        in_report_order(findings_view(final(findings)@)),
{
    let ghost w0 = findings_view(findings@).map_values(|f: FindingView| waived_by(waivers@, f));
    let ghost v0 = findings_view(findings@);
    let mut i: usize = 0;
    while i < findings.len()
        invariant
            i <= findings@.len(), findings@.len() == v0.len(), w0.len() == v0.len(),
            w0 == v0.map_values(|f: FindingView| waived_by(waivers@, f)),
            forall|j: int| 0 <= j < i ==> #[trigger] finding_view(findings@[j]) == w0[j],
            forall|j: int| i <= j < v0.len() ==> #[trigger] finding_view(findings@[j]) == v0[j],
        decreases findings@.len() - i,
    {
        let r = waiver_reason(waivers, &findings[i]);
        match r {
            Some(reason) => { findings[i].waived = Some(reason); },
            None => {},
        }
        i += 1;
    }
    proof { assert(findings_view(findings@) =~= w0); }
    let mut src: Vec<Finding> = Vec::new();
    std::mem::swap(findings, &mut src);
    let ghost n = w0.len();
    proof { assert(w0.take(0) =~= Seq::<FindingView>::empty()); assert(findings_view(findings@) =~= Seq::<FindingView>::empty()); }
    let mut k: usize = 0;
    while src.len() > 0
        invariant
            n == w0.len(), k + src@.len() == n, n <= usize::MAX,
            findings_view(src@) == w0.skip(k as int),
            findings_view(findings@) == report_order(w0.take(k as int)),
        decreases src@.len(),
    {
        let ghost t = findings_view(findings@);
        let ghost s0 = src@;
        let x = src.remove(0);
        proof {
            assert(findings_view(s0)[0] == finding_view(s0[0]));
            assert(w0.skip(k as int)[0] == w0[k as int]);
            assert forall|j: int| 0 <= j < src@.len() implies #[trigger] findings_view(src@)[j] == w0.skip(k + 1)[j] by {
                assert(src@[j] == s0[j + 1]);
                assert(findings_view(s0)[j + 1] == finding_view(s0[j + 1]));
                assert(w0.skip(k as int)[j + 1] == w0.skip(k + 1)[j]);
            }
            assert(findings_view(src@) =~= w0.skip(k + 1));
            assert(finding_view(x) == w0[k as int]);
            assert(w0.take(k + 1).drop_last() =~= w0.take(k as int));
            assert(w0.take(k + 1).last() == w0[k as int]);
        }
        let mut p: usize = 0;
        proof { assert(t.skip(0) =~= t); }
        while p < findings.len() && before(&findings[p], &x)
            invariant
                p <= findings@.len(), t == findings_view(findings@),
                place_of(t, finding_view(x)) == p + place_of(t.skip(p as int), finding_view(x)),
            decreases findings@.len() - p,
        {
            proof {
                assert(t.skip(p as int).drop_first() =~= t.skip(p + 1));
                assert(t.skip(p as int)[0] == t[p as int]);
            }
            p += 1;
        }
        proof {
            if p < findings@.len() {
                assert(t.skip(p as int)[0] == t[p as int]);
            } else {
                assert(t.skip(p as int).len() == 0);
            }
        }
        let ghost xv = finding_view(x);
        findings.insert(p, x);
        proof { assert(findings_view(findings@) =~= t.take(p as int) + seq![xv] + t.skip(p as int)); }
        k += 1;
    }
    proof {
        assert(w0.take(n as int) =~= w0);
        lemma_report_order_sorted(w0);
    }
}


/// A rule set's name and the layer counts it is for (none: any).
pub open spec fn set_view(s: (String, Vec<usize>)) -> (Seq<char>, Seq<usize>) {
    (s.0@, s.1@)
}

/// Layer counts as text: `2/4`.
pub open spec fn counts_text(ls: Seq<usize>) -> Seq<char> {
    join_text(ls.map_values(|l: usize| nat_digits(l as nat)), "/"@)
}

/// The warnings for rule sets made for other layer counts than the
/// board's `n`, one per such set, in order.
pub open spec fn applies_findings(sets: Seq<(Seq<char>, Seq<usize>)>, n: nat) -> Seq<FindingView>
    decreases sets.len(),
{
    if sets.len() == 0 {
        Seq::empty()
    } else {
        let r = applies_findings(sets.drop_last(), n);
        let (name, ls) = sets.last();
        if ls.len() > 0 && !ls.contains(n as usize) {
            r.push((name + ":applies"@, Severity::Warning,
                "rule set `"@ + name + "` is for "@ + counts_text(ls) + "-layer boards, this board has "@ + nat_digits(n),
                None, Seq::empty(), None))
        } else {
            r
        }
    }
}

fn digits_of(n: usize) -> (r: String)
    ensures r@ == nat_digits(n as nat),
{
    let mut s = String::new();
    push_nat(&mut s, n as u64);
    proof { assert(s@ =~= nat_digits(n as nat)); }
    s
}

/// A warning for each rule set whose layer counts leave out the board's
/// `layer_count`.
pub fn applies_warnings(sets: &Vec<(String, Vec<usize>)>, layer_count: usize) -> (r: Vec<Finding>)
    ensures findings_view(r@) == applies_findings(sets@.map_values(|s: (String, Vec<usize>)| set_view(s)), layer_count as nat),
{
    let ghost sv = sets@.map_values(|s: (String, Vec<usize>)| set_view(s));
    let mut out: Vec<Finding> = Vec::new();
    let mut i: usize = 0;
    while i < sets.len()
        invariant i <= sets@.len(), sv == sets@.map_values(|s: (String, Vec<usize>)| set_view(s)),
            findings_view(out@) == applies_findings(sv.take(i as int), layer_count as nat),
        decreases sets@.len() - i,
    {
        proof {
            assert(sv.take(i + 1).drop_last() =~= sv.take(i as int));
            assert(sv.take(i + 1).last() == set_view(sets@[i as int]));
        }
        let ls = &sets[i].1;
        let mut found = false;
        let mut j: usize = 0;
        while j < ls.len()
            invariant j <= ls@.len(), found == exists|k: int| 0 <= k < j && ls@[k] == layer_count,
            decreases ls@.len() - j,
        {
            if ls[j] == layer_count { found = true; }
            j += 1;
        }
        if ls.len() > 0 && !found {
            let mut parts: Vec<String> = Vec::new();
            let mut j: usize = 0;
            while j < ls.len()
                invariant j <= ls@.len(), parts@.map_values(|s: String| s@) == ls@.take(j as int).map_values(|l: usize| nat_digits(l as nat)),
                decreases ls@.len() - j,
            {
                let d = digits_of(ls[j]);
                let ghost before = parts@.map_values(|s: String| s@);
                parts.push(d);
                proof {
                    assert(parts@.map_values(|s: String| s@) =~= before.push(nat_digits(ls@[j as int] as nat)));
                    assert(ls@.take(j + 1).map_values(|l: usize| nat_digits(l as nat)) =~= ls@.take(j as int).map_values(|l: usize| nat_digits(l as nat)).push(nat_digits(ls@[j as int] as nat)));
                }
                j += 1;
            }
            proof { assert(ls@.take(ls@.len() as int) =~= ls@); }
            let mut rule = sets[i].0.clone();
            push_str(&mut rule, ":applies");
            let mut m = String::new();
            push_str(&mut m, "rule set `");
            push_str(&mut m, sets[i].0.as_str());
            push_str(&mut m, "` is for ");
            push_str(&mut m, join_strings(&parts, "/").as_str());
            push_str(&mut m, "-layer boards, this board has ");
            push_str(&mut m, digits_of(layer_count).as_str());
            let ghost before = findings_view(out@);
            out.push(Finding { rule, severity: Severity::Warning, message: m, at: None, features: Vec::new(), waived: None });
            proof {
                assert(ls@.contains(layer_count) ==> found) by {
                    if ls@.contains(layer_count) { let k = choose|k: int| 0 <= k < ls@.len() && ls@[k] == layer_count; }
                }
                assert(texts(Seq::<String>::empty()) =~= Seq::<Seq<char>>::empty());
                assert(findings_view(out@) =~= applies_findings(sv.take(i + 1), layer_count as nat));
            }
        } else {
            proof {
                if ls@.len() > 0 { let k = choose|k: int| 0 <= k < j && ls@[k] == layer_count; assert(ls@.contains(layer_count)); }
            }
        }
        i += 1;
    }
    proof { assert(sv.take(sv.len() as int) =~= sv); }
    out
}

/// How many findings of `s` severity are not waived.
pub open spec fn open_count(fs: Seq<FindingView>, s: Severity) -> nat
    decreases fs.len(),
{
    if fs.len() == 0 { 0 } else { open_count(fs.drop_last(), s) + if fs.last().1 == s && fs.last().5 is None { 1nat } else { 0nat } }
}

/// How many findings are waived.
pub open spec fn waived_count(fs: Seq<FindingView>) -> nat
    decreases fs.len(),
{
    if fs.len() == 0 { 0 } else { waived_count(fs.drop_last()) + if fs.last().5 is Some { 1nat } else { 0nat } }
}

/// How many findings of severity `s` stand (are not waived).
pub fn count_open(fs: &Vec<Finding>, s: Severity) -> (r: usize)
    ensures r == open_count(findings_view(fs@), s),
{
    let ghost v = findings_view(fs@);
    let mut n: usize = 0;
    let mut i: usize = 0;
    while i < fs.len()
        invariant i <= fs@.len(), v == findings_view(fs@), n == open_count(v.take(i as int), s), n <= i,
        decreases fs@.len() - i,
    {
        proof { assert(v.take(i + 1).drop_last() =~= v.take(i as int)); assert(v.take(i + 1).last() == finding_view(fs@[i as int])); }
        if rank_of(fs[i].severity) == rank_of(s) && fs[i].waived.is_none() {
            n += 1;
        }
        i += 1;
    }
    proof { assert(v.take(v.len() as int) =~= v); }
    n
}

/// How many findings are waived.
pub fn count_waived(fs: &Vec<Finding>) -> (r: usize)
    ensures r == waived_count(findings_view(fs@)),
{
    let ghost v = findings_view(fs@);
    let mut n: usize = 0;
    let mut i: usize = 0;
    while i < fs.len()
        invariant i <= fs@.len(), v == findings_view(fs@), n == waived_count(v.take(i as int)), n <= i,
        decreases fs@.len() - i,
    {
        proof { assert(v.take(i + 1).drop_last() =~= v.take(i as int)); assert(v.take(i + 1).last() == finding_view(fs@[i as int])); }
        if fs[i].waived.is_some() {
            n += 1;
        }
        i += 1;
    }
    proof { assert(v.take(v.len() as int) =~= v); }
    n
}

/// A waiver as plain values: rule, features, reason.
pub open spec fn waiver_view(w: Waiver) -> (Seq<char>, Seq<Seq<char>>, Seq<char>) {
    (w.rule@, texts(w.features@), w.reason@)
}

/// `pcb drc waive`: records a waiver of `rule` (for the given features, or
/// all) with its reason; refuses a rule that no active rule set or project
/// rule names (`known`), changing nothing.
pub fn add_waiver(waivers: &mut Vec<Waiver>, known: &Vec<String>, rule: &str, features: &Vec<String>, reason: &str)
    -> (r: Result<(), Error>)
    ensures
        !texts(known@).contains(rule@) ==> (r matches Err(e) && e.message@ == "no rule `"@ + rule@ + "` to waive"@
            && e.help is None && final(waivers)@ == old(waivers)@),
        texts(known@).contains(rule@) ==> (r is Ok && final(waivers)@.len() == old(waivers)@.len() + 1
            && final(waivers)@.drop_last() == old(waivers)@
            && waiver_view(final(waivers)@.last()) == (rule@, texts(features@), reason@)),
{
    if !holds_text(known, rule) {
        let mut m = String::new();
        push_str(&mut m, "no rule `");
        push_str(&mut m, rule);
        push_str(&mut m, "` to waive");
        return Err(Error::msg(m));
    }
    let fs = crate::canon::clone_strings(features);
    waivers.push(Waiver { rule: rule.to_owned(), features: fs, reason: reason.to_owned() });
    Ok(())
}

/// Whether waiver `w` is not for `rule`.
pub open spec fn not_for(rule: Seq<char>, w: Waiver) -> bool {
    w.rule@ != rule
}

/// `pcb drc unwaive`: drops every waiver of `rule`, keeping the rest in
/// order; refuses, changing nothing, when there is none.
pub fn remove_waivers(waivers: &mut Vec<Waiver>, rule: &str) -> (r: Result<(), Error>)
    ensures
        old(waivers)@.filter(|w: Waiver| not_for(rule@, w)).len() == old(waivers)@.len() ==> (r matches Err(e)
            && e.message@ == "no waivers for `"@ + rule@ + "`"@ && e.help is None && final(waivers)@ == old(waivers)@),
        old(waivers)@.filter(|w: Waiver| not_for(rule@, w)).len() < old(waivers)@.len() ==> (r is Ok
            && final(waivers)@ == old(waivers)@.filter(|w: Waiver| not_for(rule@, w))),
{
    let mut flags: Vec<bool> = Vec::new();
    let mut any = false;
    let mut i: usize = 0;
    while i < waivers.len()
        invariant i <= waivers@.len(), flags@.len() == i,
            forall|j: int| 0 <= j < i ==> #[trigger] flags@[j] == not_for(rule@, waivers@[j]),
            any == exists|j: int| 0 <= j < i && !flags@[j],
        decreases waivers@.len() - i,
    {
        let keep = !same_str(waivers[i].rule.as_str(), rule);
        if !keep { any = true; }
        let ghost f0 = flags@;
        flags.push(keep);
        proof {
            assert(flags@[i as int] == keep);
            assert forall|j: int| 0 <= j < i implies flags@[j] == f0[j] by {}
            if any && keep {
                let j0 = choose|j: int| 0 <= j < i && !f0[j];
                assert(!flags@[j0]);
            }
        }
        i += 1;
    }
    let ghost w0 = waivers@;
    proof { broadcast use vstd::seq_lib::group_filter_ensures; }
    if !any {
        proof {
            assert forall|j: int| 0 <= j < w0.len() implies #[trigger] not_for(rule@, w0[j]) by { assert(flags@[j]); }
            lemma_filter_all(w0, rule@);
        }
        let mut m = String::new();
        push_str(&mut m, "no waivers for `");
        push_str(&mut m, rule);
        push_str(&mut m, "`");
        return Err(Error::msg(m));
    }
    retain_flagged(waivers, &flags, Ghost(|w: Waiver| not_for(rule@, w)));
    proof {
        let j = choose|j: int| 0 <= j < w0.len() && !flags@[j];
        lemma_filter_drops(w0, rule@, j);
    }
    Ok(())
}

proof fn lemma_filter_all(s: Seq<Waiver>, rule: Seq<char>)
    requires forall|j: int| 0 <= j < s.len() ==> #[trigger] not_for(rule, s[j]),
    ensures s.filter(|w: Waiver| not_for(rule, w)) == s,
    decreases s.len(),
{
    reveal(Seq::filter);
    if s.len() > 0 {
        lemma_filter_all(s.drop_last(), rule);
        assert(not_for(rule, s[s.len() - 1]));
        assert(s.drop_last().push(s.last()) =~= s);
    }
}

proof fn lemma_filter_drops(s: Seq<Waiver>, rule: Seq<char>, j: int)
    requires 0 <= j < s.len(), !not_for(rule, s[j]),
    ensures s.filter(|w: Waiver| not_for(rule, w)).len() < s.len(),
    decreases s.len(),
{
    reveal(Seq::filter);
    broadcast use vstd::seq_lib::group_filter_ensures;
    if j < s.len() - 1 {
        lemma_filter_drops(s.drop_last(), rule, j);
    } else {
        assert(s.drop_last().filter(|w: Waiver| not_for(rule, w)).len() <= s.drop_last().len());
    }
}

} // verus!
