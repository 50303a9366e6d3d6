//! Comparing the traces and vias of two boards as multisets of keys: an item
//! is reported when its key occurs more often on its own board than on the
//! other. Two boards whose keys agree as multisets report nothing
//! (`lemma_no_excess_iff_same_keys`).

use vstd::prelude::*;
use crate::canon::{str_leq, str_le, texts, lemma_str_leq_total, lemma_str_leq_antisym};
use crate::text::{same_str, push_str};
use crate::canon::{trace_key_text, trace_key, trace_desc_text, trace_desc, via_key_of, via_key, via_desc_text, via_desc,
    lemma_canon_ignores_direction};
use crate::schema::{Trace, Via};

verus! {

broadcast use vstd::seq_lib::group_to_multiset_ensures;

/// How many of the items before `i` have the key of item `i`.
pub open spec fn rank(keys: Seq<Seq<char>>, i: int) -> nat {
    keys.take(i).to_multiset().count(keys[i])
}

/// Whether item `i` of `a` is one more than `b` holds of its key: its rank
/// among the items of `a` with that key reaches the number of them in `b`.
pub open spec fn in_excess(a: Seq<Seq<char>>, b: Seq<Seq<char>>, i: int) -> bool {
    rank(a, i) >= b.to_multiset().count(a[i])
}

/// Whether item `i` comes before item `j` in a report: by key, then by place.
pub open spec fn reported_before(keys: Seq<Seq<char>>, i: int, j: int) -> bool {
    (keys[i] != keys[j] && str_leq(keys[i], keys[j])) || (keys[i] == keys[j] && i < j)
}

/// How many times `k` occurs in `b`.
fn count_in(b: &Vec<String>, k: &str) -> (r: usize)
    ensures r == texts(b@).to_multiset().count(k@),
{
    let ghost tb = texts(b@);
    let mut c: usize = 0;
    let mut j: usize = 0;
    proof { assert(tb.take(0) =~= Seq::<Seq<char>>::empty()); }
    while j < b.len()
        invariant j <= b@.len(), tb == texts(b@), c == tb.take(j as int).to_multiset().count(k@), c <= j,
        decreases b@.len() - j,
    {
        proof { assert(tb.take(j + 1) =~= tb.take(j as int).push(tb[j as int])); }
        if same_str(b[j].as_str(), k) {
            c += 1;
        }
        j += 1;
    }
    proof { assert(tb.take(j as int) =~= tb); }
    c
}

/// The rank of item `i` of `a`.
fn rank_of(a: &Vec<String>, i: usize) -> (r: usize)
    requires i < a.len(),
    ensures r == rank(texts(a@), i as int),
{
    let ghost ta = texts(a@);
    let mut c: usize = 0;
    let mut j: usize = 0;
    proof { assert(ta.take(0) =~= Seq::<Seq<char>>::empty()); }
    while j < i
        invariant j <= i < a@.len(), ta == texts(a@), c == ta.take(j as int).to_multiset().count(ta[i as int]), c <= j,
        decreases i - j,
    {
        proof { assert(ta.take(j + 1) =~= ta.take(j as int).push(ta[j as int])); }
        if same_str(a[j].as_str(), a[i].as_str()) {
            c += 1;
        }
        j += 1;
    }
    c
}

/// The items of `a` in excess over `b`, by key (in the order on texts) and
/// then by place.
pub fn excess(a: &Vec<String>, b: &Vec<String>) -> (r: Vec<usize>)
    ensures
        forall|i: usize| r@.contains(i) <==> i < a@.len() && in_excess(texts(a@), texts(b@), i as int),
        forall|p: int, q: int| 0 <= p < q < r@.len() ==> reported_before(texts(a@), r@[p] as int, r@[q] as int),
        forall|p: int| 0 <= p < r@.len() ==> r@[p] < a@.len(),
{
    let ghost ta = texts(a@);
    let ghost tb = texts(b@);
    let mut out: Vec<usize> = Vec::new();
    let mut i: usize = 0;
    while i < a.len()
        invariant
            i <= a@.len(), ta == texts(a@), tb == texts(b@),
            forall|x: usize| out@.contains(x) <==> x < i && in_excess(ta, tb, x as int),
            forall|p: int, q: int| 0 <= p < q < out@.len() ==> reported_before(ta, out@[p] as int, out@[q] as int),
            forall|p: int| 0 <= p < out@.len() ==> out@[p] < i,
        decreases a@.len() - i,
    {
        let rk = rank_of(a, i);
        let cb = count_in(b, a[i].as_str());
        if rk >= cb {
            let ghost ov = out@;
            let mut k: usize = 0;
            while k < out.len() && str_le(a[out[k]].as_str(), a[i].as_str())
                invariant
                    k <= ov.len(), ov == out@, i < a@.len(), ta == texts(a@),
                    forall|p: int| 0 <= p < ov.len() ==> ov[p] < i,
                    forall|j: int| 0 <= j < k ==> str_leq(ta[ov[j] as int], ta[i as int]),
                decreases ov.len() - k,
            {
                k += 1;
            }
            out.insert(k, i);
            proof {
                let nv = out@;
                assert(nv =~= ov.take(k as int) + seq![i] + ov.skip(k as int));
                assert forall|p: int, q: int| 0 <= p < q < nv.len()
                    implies reported_before(ta, nv[p] as int, nv[q] as int) by {
                    if q < k {
                        assert(nv[p] == ov[p] && nv[q] == ov[q]);
                    } else if q == k {
                        assert(nv[p] == ov[p]);
                        assert(str_leq(ta[ov[p] as int], ta[i as int]));
                    } else if p == k {
                        assert(nv[q] == ov[q - 1]);
                        assert(!str_leq(ta[ov[k as int] as int], ta[i as int]));
                        lemma_str_leq_total(ta[ov[k as int] as int], ta[i as int]);
                        if q - 1 > k {
                            assert(reported_before(ta, ov[k as int] as int, ov[q - 1] as int));
                            if ta[ov[k as int] as int] != ta[ov[q - 1] as int] {
                                crate::canon::lemma_str_leq_trans(ta[i as int], ta[ov[k as int] as int], ta[ov[q - 1] as int]);
                                if ta[i as int] == ta[ov[q - 1] as int] {
                                    lemma_str_leq_antisym(ta[ov[k as int] as int], ta[i as int]);
                                }
                            }
                        }
                    } else if p < k {
                        assert(nv[p] == ov[p] && nv[q] == ov[q - 1]);
                    } else {
                        assert(nv[p] == ov[p - 1] && nv[q] == ov[q - 1]);
                    }
                }
                assert forall|x: usize| out@.contains(x) <==> x < i + 1 && in_excess(ta, tb, x as int) by {
                    if out@.contains(x) {
                        let p = choose|p: int| 0 <= p < nv.len() && nv[p] == x;
                        if p < k { assert(ov.contains(nv[p])); } else if p > k { assert(nv[p] == ov[p - 1]); assert(ov.contains(nv[p])); }
                    }
                    if x < i && in_excess(ta, tb, x as int) {
                        let p = choose|p: int| 0 <= p < ov.len() && ov[p] == x;
                        if p < k { assert(nv[p] == ov[p]); } else { assert(nv[p + 1] == ov[p]); }
                    }
                    if x == i { assert(nv[k as int] == i); }
                }
            }
        }
        i += 1;
    }
    out
}

proof fn lemma_rank_below(a: Seq<Seq<char>>, i: int)
    requires 0 <= i < a.len(),
    ensures rank(a, i) < a.to_multiset().count(a[i]),
{
    assert(a =~= a.take(i) + a.skip(i));
    vstd::seq_lib::lemma_multiset_commutative(a.take(i), a.skip(i));
    assert(a.skip(i)[0] == a[i]);
    assert(a.skip(i).contains(a[i]));
}

proof fn lemma_last_rank(a: Seq<Seq<char>>, x: Seq<char>)
    requires a.to_multiset().count(x) > 0,
    ensures exists|i: int| 0 <= i < a.len() && a[i] == x && rank(a, i) == a.to_multiset().count(x) - 1,
    decreases a.len(),
{
    let n = a.len() as int;
    assert(a =~= a.drop_last().push(a.last()));
    if a.last() == x {
        assert(a.take(n - 1) =~= a.drop_last());
        assert(a[n - 1] == x && rank(a, n - 1) == a.to_multiset().count(x) - 1);
    } else {
        assert(a.drop_last().to_multiset().count(x) == a.to_multiset().count(x));
        lemma_last_rank(a.drop_last(), x);
        let i = choose|i: int| 0 <= i < a.drop_last().len() && a.drop_last()[i] == x
            && rank(a.drop_last(), i) == a.drop_last().to_multiset().count(x) - 1;
        assert(a.drop_last().take(i) =~= a.take(i));
        assert(a[i] == x && rank(a, i) == a.to_multiset().count(x) - 1);
    }
}

/// Two lists of keys hold the same keys equally often exactly when neither
/// has an item in excess over the other: the comparison reports nothing for
/// two boards whose traces (or vias) have the same keys as multisets.
pub proof fn lemma_no_excess_iff_same_keys(a: Seq<Seq<char>>, b: Seq<Seq<char>>)
    ensures
        (a.to_multiset() == b.to_multiset()) <==> (
            (forall|i: int| 0 <= i < a.len() ==> !in_excess(a, b, i))
            && (forall|j: int| 0 <= j < b.len() ==> !in_excess(b, a, j))),
{
    if a.to_multiset() == b.to_multiset() {
        assert forall|i: int| 0 <= i < a.len() implies !in_excess(a, b, i) by { lemma_rank_below(a, i); }
        assert forall|j: int| 0 <= j < b.len() implies !in_excess(b, a, j) by { lemma_rank_below(b, j); }
    }
    if (forall|i: int| 0 <= i < a.len() ==> !in_excess(a, b, i))
        && (forall|j: int| 0 <= j < b.len() ==> !in_excess(b, a, j)) {
        assert forall|x: Seq<char>| a.to_multiset().count(x) == b.to_multiset().count(x) by {
            if a.to_multiset().count(x) > 0 {
                lemma_last_rank(a, x);
                let i = choose|i: int| 0 <= i < a.len() && a[i] == x && rank(a, i) == a.to_multiset().count(x) - 1;
                assert(!in_excess(a, b, i));
            }
            if b.to_multiset().count(x) > 0 {
                lemma_last_rank(b, x);
                let j = choose|j: int| 0 <= j < b.len() && b[j] == x && rank(b, j) == b.to_multiset().count(x) - 1;
                assert(!in_excess(b, a, j));
            }
        }
        assert(a.to_multiset() =~= b.to_multiset());
    }
}

/// Whether `o` lists exactly the items of `a` in excess over `b`, by key and
/// then by place.
pub open spec fn is_report_order(a: Seq<Seq<char>>, b: Seq<Seq<char>>, o: Seq<usize>) -> bool {
    &&& forall|i: usize| o.contains(i) <==> i < a.len() && in_excess(a, b, i as int)
    &&& forall|p: int, q: int| 0 <= p < q < o.len() ==> reported_before(a, o[p] as int, o[q] as int)
    &&& forall|p: int| 0 <= p < o.len() ==> o[p] < a.len()
}

/// Keys that agree as multisets leave nothing to report.
pub proof fn lemma_same_keys_report_nothing(a: Seq<Seq<char>>, b: Seq<Seq<char>>, o: Seq<usize>)
    requires a.to_multiset() == b.to_multiset(), is_report_order(a, b, o),
    ensures o.len() == 0,
{
    lemma_no_excess_iff_same_keys(a, b);
    if o.len() > 0 {
        assert(o.contains(o[0]));
    }
}

/// The keys of traces.
pub open spec fn trace_keys(ts: Seq<Trace>) -> Seq<Seq<char>> {
    ts.map_values(|t: Trace| trace_key_text(t))
}

/// The keys of vias.
pub open spec fn via_keys(vs: Seq<Via>) -> Seq<Seq<char>> {
    vs.map_values(|v: Via| via_key_of(v))
}

/// The report lines for the traces at `o` of a board named `name`.
pub open spec fn trace_lines(ts: Seq<Trace>, o: Seq<usize>, name: Seq<char>) -> Seq<Seq<char>> {
    o.map_values(|i: usize| "trace only in "@ + name + ": "@ + trace_desc_text(ts[i as int]))
}

/// The report lines for the vias at `o` of a board named `name`.
pub open spec fn via_lines(vs: Seq<Via>, o: Seq<usize>, name: Seq<char>) -> Seq<Seq<char>> {
    o.map_values(|i: usize| "via only in "@ + name + ": "@ + via_desc_text(vs[i as int]))
}

/// A trace written the other way round, or marked routed or not, has the
/// same key: two boards whose traces differ only so (in any order) report
/// no trace difference.
pub proof fn lemma_redrawn_traces_same_keys(a: Seq<Trace>, b: Seq<Trace>)
    requires
        a.len() == b.len(),
        forall|i: int| 0 <= i < a.len() ==> {
            &&& #[trigger] b[i].layer@ == a[i].layer@
            &&& b[i].net == a[i].net
            &&& b[i].width == a[i].width
            &&& (b[i].points@ == a[i].points@ || b[i].points@ == a[i].points@.reverse())
        },
    ensures trace_keys(b) == trace_keys(a),
{
    assert forall|i: int| 0 <= i < a.len() implies trace_keys(b)[i] == trace_keys(a)[i] by {
        lemma_canon_ignores_direction(a[i].points@);
    }
    assert(trace_keys(b) =~= trace_keys(a));
}

fn trace_key_list(ts: &Vec<Trace>) -> (r: Vec<String>)
    ensures texts(r@) == trace_keys(ts@),
{
    let mut r: Vec<String> = Vec::new();
    let mut i: usize = 0;
    while i < ts.len()
        invariant i <= ts@.len(), texts(r@) == trace_keys(ts@).take(i as int),
        decreases ts@.len() - i,
    {
        let ghost r0 = r@;
        r.push(trace_key(&ts[i]));
        proof { assert(texts(r@) =~= texts(r0).push(trace_key_text(ts@[i as int]))); assert(trace_keys(ts@).take(i + 1) =~= trace_keys(ts@).take(i as int).push(trace_key_text(ts@[i as int]))); }
        i += 1;
    }
    proof { assert(trace_keys(ts@).take(i as int) =~= trace_keys(ts@)); }
    r
}

fn via_key_list(vs: &Vec<Via>) -> (r: Vec<String>)
    ensures texts(r@) == via_keys(vs@),
{
    let mut r: Vec<String> = Vec::new();
    let mut i: usize = 0;
    while i < vs.len()
        invariant i <= vs@.len(), texts(r@) == via_keys(vs@).take(i as int),
        decreases vs@.len() - i,
    {
        let ghost r0 = r@;
        r.push(via_key(&vs[i]));
        proof { assert(texts(r@) =~= texts(r0).push(via_key_of(vs@[i as int]))); assert(via_keys(vs@).take(i + 1) =~= via_keys(vs@).take(i as int).push(via_key_of(vs@[i as int]))); }
        i += 1;
    }
    proof { assert(via_keys(vs@).take(i as int) =~= via_keys(vs@)); }
    r
}

fn push_trace_lines(out: &mut Vec<String>, ts: &Vec<Trace>, o: &Vec<usize>, name: &str)
    requires forall|p: int| 0 <= p < o@.len() ==> o@[p] < ts@.len(),
    ensures texts(final(out)@) == texts(old(out)@) + trace_lines(ts@, o@, name@),
{
    let ghost base = texts(out@);
    let mut k: usize = 0;
    proof { assert(trace_lines(ts@, o@, name@).take(0) =~= Seq::<Seq<char>>::empty()); }
    while k < o.len()
        invariant
            k <= o@.len(), forall|p: int| 0 <= p < o@.len() ==> o@[p] < ts@.len(),
            texts(out@) == base + trace_lines(ts@, o@, name@).take(k as int), base == texts(old(out)@),
        decreases o@.len() - k,
    {
        let mut line = "trace only in ".to_owned();
        push_str(&mut line, name);
        push_str(&mut line, ": ");
        push_str(&mut line, trace_desc(&ts[o[k]]).as_str());
        let ghost r0 = out@;
        out.push(line);
        proof {
            assert(texts(out@) =~= texts(r0).push(trace_lines(ts@, o@, name@)[k as int]));
            assert(trace_lines(ts@, o@, name@).take(k + 1) =~= trace_lines(ts@, o@, name@).take(k as int).push(trace_lines(ts@, o@, name@)[k as int]));
        }
        k += 1;
    }
    proof { assert(trace_lines(ts@, o@, name@).take(k as int) =~= trace_lines(ts@, o@, name@)); }
}

fn push_via_lines(out: &mut Vec<String>, vs: &Vec<Via>, o: &Vec<usize>, name: &str)
    requires forall|p: int| 0 <= p < o@.len() ==> o@[p] < vs@.len(),
    ensures texts(final(out)@) == texts(old(out)@) + via_lines(vs@, o@, name@),
{
    let ghost base = texts(out@);
    let mut k: usize = 0;
    proof { assert(via_lines(vs@, o@, name@).take(0) =~= Seq::<Seq<char>>::empty()); }
    while k < o.len()
        invariant
            k <= o@.len(), forall|p: int| 0 <= p < o@.len() ==> o@[p] < vs@.len(),
            texts(out@) == base + via_lines(vs@, o@, name@).take(k as int), base == texts(old(out)@),
        decreases o@.len() - k,
    {
        let mut line = "via only in ".to_owned();
        push_str(&mut line, name);
        push_str(&mut line, ": ");
        push_str(&mut line, via_desc(&vs[o[k]]).as_str());
        let ghost r0 = out@;
        out.push(line);
        proof {
            assert(texts(out@) =~= texts(r0).push(via_lines(vs@, o@, name@)[k as int]));
            assert(via_lines(vs@, o@, name@).take(k + 1) =~= via_lines(vs@, o@, name@).take(k as int).push(via_lines(vs@, o@, name@)[k as int]));
        }
        k += 1;
    }
    proof { assert(via_lines(vs@, o@, name@).take(k as int) =~= via_lines(vs@, o@, name@)); }
}

/// The trace lines of a comparison of board `a_name` with board `b_name`:
/// the traces of each that the other lacks (counting equal keys), those of
/// `a` first; each board's in the order of their keys.
pub fn trace_report(a: &Vec<Trace>, b: &Vec<Trace>, a_name: &str, b_name: &str) -> (r: Vec<String>)
    ensures
        exists|oa: Seq<usize>, ob: Seq<usize>| {
            &&& is_report_order(trace_keys(a@), trace_keys(b@), oa)
            &&& is_report_order(trace_keys(b@), trace_keys(a@), ob)
            &&& texts(r@) == trace_lines(a@, oa, a_name@) + trace_lines(b@, ob, b_name@)
        },
{
    let ka = trace_key_list(a);
    let kb = trace_key_list(b);
    proof {
        assert(texts(ka@).len() == ka@.len() && trace_keys(a@).len() == a@.len());
        assert(texts(kb@).len() == kb@.len() && trace_keys(b@).len() == b@.len());
    }
    let oa = excess(&ka, &kb);
    let ob = excess(&kb, &ka);
    let mut r: Vec<String> = Vec::new();
    push_trace_lines(&mut r, a, &oa, a_name);
    push_trace_lines(&mut r, b, &ob, b_name);
    proof {
        assert(texts(Seq::<String>::empty()) =~= Seq::<Seq<char>>::empty());
        assert(is_report_order(trace_keys(a@), trace_keys(b@), oa@));
        assert(is_report_order(trace_keys(b@), trace_keys(a@), ob@));
    }
    r
}

/// The via lines of a comparison of board `a_name` with board `b_name`, as
/// `trace_report` gives the trace lines.
pub fn via_report(a: &Vec<Via>, b: &Vec<Via>, a_name: &str, b_name: &str) -> (r: Vec<String>)
    ensures
        exists|oa: Seq<usize>, ob: Seq<usize>| {
            &&& is_report_order(via_keys(a@), via_keys(b@), oa)
            &&& is_report_order(via_keys(b@), via_keys(a@), ob)
            &&& texts(r@) == via_lines(a@, oa, a_name@) + via_lines(b@, ob, b_name@)
        },
{
    let ka = via_key_list(a);
    let kb = via_key_list(b);
    proof {
        assert(texts(ka@).len() == ka@.len() && via_keys(a@).len() == a@.len());
        assert(texts(kb@).len() == kb@.len() && via_keys(b@).len() == b@.len());
    }
    let oa = excess(&ka, &kb);
    let ob = excess(&kb, &ka);
    let mut r: Vec<String> = Vec::new();
    push_via_lines(&mut r, a, &oa, a_name);
    push_via_lines(&mut r, b, &ob, b_name);
    proof {
        assert(texts(Seq::<String>::empty()) =~= Seq::<Seq<char>>::empty());
        assert(is_report_order(via_keys(a@), via_keys(b@), oa@));
        assert(is_report_order(via_keys(b@), via_keys(a@), ob@));
    }
    r
}

} // verus!
