//! Canonical forms for comparing and hashing boards: sorted lines, traces
//! written in one direction, rings started at one vertex, and the keys that
//! name traces and vias whatever order they were written in.

use vstd::prelude::*;
use vstd::relations::{sorted_by, total_ordering};
use crate::units::{Length, Point, point_text, length_text};
use crate::numfmt::{int_text, push_int};
use crate::text::{push_str, push_char, chars_of, join_text, join_strings};
use crate::schema::{Trace, Via};
use crate::geom::{area_sign, twice_area, clone_ring};

verus! {

broadcast use vstd::seq_lib::group_to_multiset_ensures;

/// Texts in lexicographic order of their characters (the order of their
/// UTF-8 bytes).
pub open spec fn str_leq(a: Seq<char>, b: Seq<char>) -> bool
    decreases a.len(),
{
    if a.len() == 0 {
        true
    } else if b.len() == 0 {
        false
    } else if a[0] != b[0] {
        (a[0] as u32) < (b[0] as u32)
    } else {
        str_leq(a.drop_first(), b.drop_first())
    }
}

/// Different characters have different codes.
proof fn lemma_char_code(a: char, b: char)
    requires a != b,
    ensures (a as u32) != (b as u32),
{
    vstd::utf8::char_u32_cast(a, a as u32);
    vstd::utf8::char_u32_cast(b, b as u32);
}

pub proof fn lemma_str_leq_refl(a: Seq<char>)
    ensures str_leq(a, a),
    decreases a.len(),
{
    if a.len() > 0 { lemma_str_leq_refl(a.drop_first()); }
}

pub proof fn lemma_str_leq_antisym(a: Seq<char>, b: Seq<char>)
    requires str_leq(a, b), str_leq(b, a),
    ensures a == b,
    decreases a.len(),
{
    if a.len() > 0 && b.len() > 0 {
        if a[0] == b[0] {
            lemma_str_leq_antisym(a.drop_first(), b.drop_first());
            assert(a =~= seq![a[0]] + a.drop_first());
            assert(b =~= seq![b[0]] + b.drop_first());
        } else {
            lemma_char_code(a[0], b[0]);
        }
    } else {
        assert(a =~= b);
    }
}

pub proof fn lemma_str_leq_trans(a: Seq<char>, b: Seq<char>, c: Seq<char>)
    requires str_leq(a, b), str_leq(b, c),
    ensures str_leq(a, c),
    decreases a.len(),
{
    if a.len() > 0 && b.len() > 0 && c.len() > 0 {
        if a[0] == b[0] && b[0] == c[0] {
            lemma_str_leq_trans(a.drop_first(), b.drop_first(), c.drop_first());
        }
    }
}

pub proof fn lemma_str_leq_total(a: Seq<char>, b: Seq<char>)
    ensures str_leq(a, b) || str_leq(b, a),
    decreases a.len(),
{
    if a.len() > 0 && b.len() > 0 && a[0] == b[0] {
        lemma_str_leq_total(a.drop_first(), b.drop_first());
    } else if a.len() > 0 && b.len() > 0 {
        lemma_char_code(a[0], b[0]);
    }
}

/// The order on texts.
pub open spec fn text_order() -> spec_fn(Seq<char>, Seq<char>) -> bool {
    |a: Seq<char>, b: Seq<char>| str_leq(a, b)
}

/// The order on texts is a total order.
pub proof fn lemma_text_order_total()
    ensures total_ordering(text_order()),
{
    let r = text_order();
    assert forall|x: Seq<char>| #[trigger] r(x, x) by { lemma_str_leq_refl(x); }
    assert forall|x: Seq<char>, y: Seq<char>| #[trigger] r(x, y) && #[trigger] r(y, x) implies x == y by {
        lemma_str_leq_antisym(x, y);
    }
    assert forall|x: Seq<char>, y: Seq<char>, z: Seq<char>| #[trigger] r(x, y) && #[trigger] r(y, z) implies r(x, z) by {
        lemma_str_leq_trans(x, y, z);
    }
    assert forall|x: Seq<char>, y: Seq<char>| #[trigger] r(x, y) || #[trigger] r(y, x) by {
        lemma_str_leq_total(x, y);
    }
}

/// Whether `a` comes no later than `b` in the order on texts.
pub fn str_le(a: &str, b: &str) -> (r: bool)
    ensures r == str_leq(a@, b@),
{
    let va = chars_of(a);
    let vb = chars_of(b);
    let mut i: usize = 0;
    proof { assert(a@.skip(0) =~= a@); assert(b@.skip(0) =~= b@); }
    while i < va.len() && i < vb.len() && va[i] == vb[i]
        invariant
            i <= va@.len(), i <= vb@.len(), va@ == a@, vb@ == b@,
            str_leq(a@, b@) == str_leq(a@.skip(i as int), b@.skip(i as int)),
        decreases va@.len() - i,
    {
        proof {
            assert(a@.skip(i as int).drop_first() =~= a@.skip(i + 1));
            assert(b@.skip(i as int).drop_first() =~= b@.skip(i + 1));
        }
        i += 1;
    }
    if i == va.len() {
        proof { assert(a@.skip(i as int).len() == 0); }
        true
    } else if i == vb.len() {
        proof { assert(b@.skip(i as int).len() == 0); assert(a@.skip(i as int).len() > 0); }
        false
    } else {
        let (ca, cb) = (va[i], vb[i]);
        let r = (ca as u32) < (cb as u32);
        proof {
            assert(a@.skip(i as int)[0] == ca);
            assert(b@.skip(i as int)[0] == cb);
            assert(ca != cb);
        }
        r
    }
}

/// The texts of a list of strings.
pub open spec fn texts(v: Seq<String>) -> Seq<Seq<char>> {
    v.map_values(|s: String| s@)
}

/// `v` sorted in the order on texts.
pub fn sorted(v: Vec<String>) -> (r: Vec<String>)
    ensures
        texts(r@).to_multiset() == texts(v@).to_multiset(),
        sorted_by(texts(r@), text_order()),
{
    proof { lemma_text_order_total(); }
    let ghost tv = texts(v@);
    let n = v.len();
    let mut out: Vec<String> = Vec::new();
    let mut src = v;
    let mut i: usize = 0;
    proof { assert(tv.take(0) =~= Seq::<Seq<char>>::empty()); }
    while i < n
        invariant
            i <= n, n == src@.len(), tv == texts(src@), total_ordering(text_order()),
            texts(out@).to_multiset() == tv.take(i as int).to_multiset(),
            sorted_by(texts(out@), text_order()),
        decreases n - i,
    {
        let x = src[i].clone();
        let ghost ov = texts(out@);
        // Insert after every text that comes no later than `x`.
        let mut k: usize = 0;
        while k < out.len() && str_le(out[k].as_str(), x.as_str())
            invariant
                k <= out@.len(), ov == texts(out@),
                forall|j: int| 0 <= j < k ==> str_leq(#[trigger] ov[j], x@),
            decreases out@.len() - k,
        {
            k += 1;
        }
        out.insert(k, x);
        proof {
            let nv = texts(out@);
            assert(nv =~= ov.take(k as int) + seq![x@] + ov.skip(k as int));
            assert forall|a: int, b: int| 0 <= a < b < nv.len() implies #[trigger] text_order()(nv[a], nv[b]) by {
                if b < k {
                    assert(nv[a] == ov[a] && nv[b] == ov[b]);
                } else if b == k {
                    assert(nv[a] == ov[a]);
                } else if a == k {
                    assert(nv[b] == ov[b - 1]);
                    assert(!str_leq(ov[k as int], x@));
                    lemma_str_leq_total(ov[k as int], x@);
                    if b - 1 > k {
                        assert(text_order()(ov[k as int], ov[b - 1]));
                        assert(str_leq(ov[k as int], ov[b - 1]));
                        lemma_str_leq_trans(x@, ov[k as int], ov[b - 1]);
                    }
                } else if a < k {
                    assert(nv[a] == ov[a] && nv[b] == ov[b - 1]);
                    assert(str_leq(ov[a], x@));
                    assert(text_order()(ov[a], ov[b - 1]));
                    assert(str_leq(ov[a], ov[b - 1]));
                } else {
                    assert(nv[a] == ov[a - 1] && nv[b] == ov[b - 1]);
                    assert(text_order()(ov[a - 1], ov[b - 1]));
                }
            }
            vstd::seq_lib::lemma_multiset_commutative(ov.take(k as int) + seq![x@], ov.skip(k as int));
            vstd::seq_lib::lemma_multiset_commutative(ov.take(k as int), seq![x@]);
            vstd::seq_lib::lemma_multiset_commutative(ov.take(k as int), ov.skip(k as int));
            assert(ov =~= ov.take(k as int) + ov.skip(k as int));
            assert(tv.take(i + 1) =~= tv.take(i as int).push(tv[i as int]));
            assert(seq![x@].to_multiset() =~= Seq::<Seq<char>>::empty().push(x@).to_multiset());
            assert(texts(out@).to_multiset() =~= tv.take(i + 1).to_multiset());
        }
        i += 1;
    }
    proof { assert(tv.take(n as int) =~= tv); }
    out
}

/// Sorting a list depends only on which texts it holds, not on their order:
/// two lists with the same texts (as a multiset) sort to the same texts.
pub proof fn lemma_sorted_ignores_order(a: Seq<Seq<char>>, b: Seq<Seq<char>>, sa: Seq<Seq<char>>, sb: Seq<Seq<char>>)
    requires
        a.to_multiset() == b.to_multiset(),
        sa.to_multiset() == a.to_multiset(), sorted_by(sa, text_order()),
        sb.to_multiset() == b.to_multiset(), sorted_by(sb, text_order()),
    ensures sa == sb,
{
    lemma_text_order_total();
    vstd::seq_lib::lemma_sorted_unique(sa, sb, text_order());
}


/// Points ordered by `x`, then `y`.
pub open spec fn pair_lt(a: (i64, i64), b: (i64, i64)) -> bool {
    a.0 < b.0 || (a.0 == b.0 && a.1 < b.1)
}

/// Lexicographic order on point lists, a shorter prefix first.
pub open spec fn seq_lt(a: Seq<(i64, i64)>, b: Seq<(i64, i64)>) -> bool
    decreases a.len(),
{
    if a.len() == 0 {
        b.len() > 0
    } else if b.len() == 0 {
        false
    } else if a[0] != b[0] {
        pair_lt(a[0], b[0])
    } else {
        seq_lt(a.drop_first(), b.drop_first())
    }
}

/// A polyline written in the direction whose coordinates come first.
pub open spec fn canon_seq(ps: Seq<Point>) -> Seq<Point> {
    if seq_lt(crate::geom::coords(ps.reverse()), crate::geom::coords(ps)) { ps.reverse() } else { ps }
}

proof fn lemma_seq_lt_at(a: Seq<(i64, i64)>, b: Seq<(i64, i64)>, i: int)
    requires
        a.len() == b.len(), 0 <= i <= a.len(),
        forall|j: int| 0 <= j < i ==> a[j] == b[j],
        i == a.len() || a[i] != b[i],
    ensures seq_lt(a, b) == (i < a.len() && pair_lt(a[i], b[i])),
    decreases i,
{
    if i > 0 {
        assert forall|j: int| 0 <= j < i - 1 implies a.drop_first()[j] == b.drop_first()[j] by {
            assert(a[j + 1] == b[j + 1]);
        }
        lemma_seq_lt_at(a.drop_first(), b.drop_first(), i - 1);
    }
}

proof fn lemma_seq_lt_asym(a: Seq<(i64, i64)>, b: Seq<(i64, i64)>)
    requires a.len() == b.len(),
    ensures
        !(seq_lt(a, b) && seq_lt(b, a)),
        !seq_lt(a, b) && !seq_lt(b, a) ==> a == b,
    decreases a.len(),
{
    if a.len() > 0 {
        if a[0] == b[0] {
            lemma_seq_lt_asym(a.drop_first(), b.drop_first());
            if !seq_lt(a, b) && !seq_lt(b, a) {
                assert(a =~= seq![a[0]] + a.drop_first());
                assert(b =~= seq![b[0]] + b.drop_first());
            }
        }
    } else {
        assert(a =~= b);
    }
}

/// A polyline and the same polyline drawn the other way have one canonical
/// form: the direction a trace was drawn in does not count.
pub proof fn lemma_canon_ignores_direction(ps: Seq<Point>)
    ensures canon_seq(ps.reverse()) == canon_seq(ps),
{
    let r = ps.reverse();
    assert(r.reverse() =~= ps);
    let f = crate::geom::coords(ps);
    let g = crate::geom::coords(r);
    lemma_seq_lt_asym(g, f);
    if !seq_lt(g, f) && !seq_lt(f, g) {
        assert(g == f);
        assert(r =~= ps) by {
            assert forall|i: int| 0 <= i < ps.len() implies r[i] == ps[i] by {
                assert(g[i] == f[i]);
            }
        }
    }
}

/// The polyline written in the direction whose coordinates come first.
pub fn canon_points(points: &Vec<Point>) -> (r: Vec<Point>)
    ensures r@ == canon_seq(points@),
{
    let n = points.len();
    let ghost f = crate::geom::coords(points@);
    let ghost g = crate::geom::coords(points@.reverse());
    let mut i: usize = 0;
    while i < n && points[n - 1 - i].x.0 == points[i].x.0 && points[n - 1 - i].y.0 == points[i].y.0
        invariant
            i <= n, n == points@.len(), f == crate::geom::coords(points@), g == crate::geom::coords(points@.reverse()),
            forall|j: int| 0 <= j < i ==> g[j] == f[j],
        decreases n - i,
    {
        proof { assert(g[i as int] == (points@[n - 1 - i].x.0, points@[n - 1 - i].y.0)); }
        i += 1;
    }
    let less = if i < n {
        let a = points[n - 1 - i];
        let b = points[i];
        a.x.0 < b.x.0 || (a.x.0 == b.x.0 && a.y.0 < b.y.0)
    } else {
        false
    };
    proof {
        if i < n {
            assert(g[i as int] == (points@[n - 1 - i].x.0, points@[n - 1 - i].y.0));
            assert(g[i as int] != f[i as int]);
        }
        lemma_seq_lt_at(g, f, i as int);
    }
    if less {
        let mut r: Vec<Point> = Vec::new();
        let mut k: usize = 0;
        while k < n
            invariant k <= n, n == points@.len(), r@ == points@.reverse().take(k as int),
            decreases n - k,
        {
            r.push(points[n - 1 - k]);
            proof { assert(r@ =~= points@.reverse().take(k + 1)); }
            k += 1;
        }
        proof { assert(points@.reverse().take(n as int) =~= points@.reverse()); }
        r
    } else {
        clone_ring(points)
    }
}

/// A length in nanometres.
pub fn nm(l: Length) -> (r: i64)
    ensures r == l.0,
{
    l.0
}

/// A point as `x,y` in nanometres.
pub open spec fn pt_text(p: Point) -> Seq<char> {
    int_text(p.x.0 as int) + seq![','] + int_text(p.y.0 as int)
}

/// A point as `x,y` in nanometres.
pub fn pt(p: Point) -> (r: String)
    ensures r@ == pt_text(p),
{
    let mut s = String::new();
    push_int(&mut s, p.x.0);
    push_char(&mut s, ',');
    push_int(&mut s, p.y.0);
    s
}

/// Points in nanometres, separated by `;`.
pub open spec fn pts_text(ps: Seq<Point>) -> Seq<char> {
    join_text(ps.map_values(|p: Point| pt_text(p)), seq![';'])
}

/// Points in nanometres, separated by `;`.
pub fn pts(points: &Vec<Point>) -> (r: String)
    ensures r@ == pts_text(points@),
{
    let mut parts: Vec<String> = Vec::new();
    let mut i: usize = 0;
    while i < points.len()
        invariant i <= points@.len(), texts(parts@) == points@.take(i as int).map_values(|p: Point| pt_text(p)),
        decreases points@.len() - i,
    {
        let t = pt(points[i]);
        let ghost prev = texts(parts@);
        let ghost tv = t@;
        parts.push(t);
        proof {
            assert(texts(parts@) =~= prev.push(tv));
            assert(texts(parts@) =~= points@.take(i + 1).map_values(|p: Point| pt_text(p)));
        }
        i += 1;
    }
    proof { assert(points@.take(points@.len() as int) =~= points@); }
    let sep = ";";
    proof { reveal_strlit(";"); assert(sep@ =~= seq![';']); }
    join_strings(&parts, sep)
}

/// The net a record names, or `fallback` where it names none.
pub open spec fn net_or(net: Option<String>, fallback: Seq<char>) -> Seq<char> {
    match net {
        Some(n) => n@,
        None => fallback,
    }
}

/// The key that names a trace whatever order or direction it was written in:
/// layer, net, width and canonical points.
pub open spec fn trace_key_text(t: Trace) -> Seq<char> {
    t.layer@ + seq!['|'] + net_or(t.net, Seq::empty()) + seq!['|'] + int_text(t.width.0 as int) + seq!['|']
        + pts_text(canon_seq(t.points@))
}

/// The key that names a trace whatever order or direction it was written in.
pub fn trace_key(t: &Trace) -> (r: String)
    ensures r@ == trace_key_text(*t),
{
    let mut s = String::new();
    push_str(&mut s, t.layer.as_str());
    push_char(&mut s, '|');
    match &t.net {
        Some(n) => push_str(&mut s, n.as_str()),
        None => {},
    }
    push_char(&mut s, '|');
    push_int(&mut s, t.width.0);
    push_char(&mut s, '|');
    let c = canon_points(&t.points);
    let p = pts(&c);
    push_str(&mut s, p.as_str());
    s
}

/// The key that names a via: position, net, drill, diameter and its layers
/// in order.
pub open spec fn via_key_text(v: Via, layers: Seq<Seq<char>>) -> Seq<char> {
    pt_text(v.at) + seq!['|'] + net_or(v.net, Seq::empty()) + seq!['|'] + int_text(v.drill.0 as int) + seq!['|']
        + int_text(v.diameter.0 as int) + seq!['|'] + join_text(layers, seq!['+'])
}

/// A copy of a list of strings.
pub fn clone_strings(v: &Vec<String>) -> (r: Vec<String>)
    ensures texts(r@) == texts(v@),
{
    let mut r: Vec<String> = Vec::new();
    let mut i: usize = 0;
    while i < v.len()
        invariant i <= v@.len(), texts(r@) == texts(v@).take(i as int),
        decreases v@.len() - i,
    {
        let x = v[i].clone();
        let ghost prev = texts(r@);
        let ghost xv = x@;
        r.push(x);
        proof {
            assert(texts(r@) =~= prev.push(xv));
            assert(texts(r@) =~= texts(v@).take(i + 1));
        }
        i += 1;
    }
    proof { assert(texts(v@).take(v@.len() as int) =~= texts(v@)); }
    r
}

/// The key that names a via whatever order it and its layers were written in.
/// A via's layer names in the order on texts.
pub open spec fn sorted_layers(v: Via) -> Seq<Seq<char>> {
    choose|layers: Seq<Seq<char>>| layers.to_multiset() == texts(v.layers@).to_multiset()
        && sorted_by(layers, text_order())
}

/// The key of a via: `via_key_text` with its layers in order.
pub open spec fn via_key_of(v: Via) -> Seq<char> {
    via_key_text(v, sorted_layers(v))
}

pub fn via_key(v: &Via) -> (r: String)
    ensures
        r@ == via_key_of(*v),
        exists|layers: Seq<Seq<char>>| {
            &&& layers.to_multiset() == texts(v.layers@).to_multiset()
            &&& sorted_by(layers, text_order())
            &&& r@ == via_key_text(*v, layers)
        },
{
    let layers = sorted(clone_strings(&v.layers));
    proof {
        let l = texts(layers@);
        assert(l.to_multiset() == texts(v.layers@).to_multiset() && sorted_by(l, text_order()));
        let c = sorted_layers(*v);
        lemma_sorted_ignores_order(texts(v.layers@), texts(v.layers@), l, c);
    }
    let mut s = pt(v.at);
    push_char(&mut s, '|');
    match &v.net {
        Some(n) => push_str(&mut s, n.as_str()),
        None => {},
    }
    push_char(&mut s, '|');
    push_int(&mut s, v.drill.0);
    push_char(&mut s, '|');
    push_int(&mut s, v.diameter.0);
    push_char(&mut s, '|');
    let sep = "+";
    proof { reveal_strlit("+"); assert(sep@ =~= seq!['+']); }
    let j = join_strings(&layers, sep);
    push_str(&mut s, j.as_str());
    proof { assert(s@ == via_key_text(*v, texts(layers@))); }
    s
}

/// Points in millimetres, separated by ` -> `.
pub open spec fn arrow_text(ps: Seq<Point>) -> Seq<char> {
    join_text(ps.map_values(|p: Point| point_text(p)), " -> "@)
}

/// Points in millimetres, separated by ` -> `.
pub fn arrow_points(points: &Vec<Point>) -> (r: String)
    ensures r@ == arrow_text(points@),
{
    let mut parts: Vec<String> = Vec::new();
    let mut i: usize = 0;
    while i < points.len()
        invariant i <= points@.len(), texts(parts@) == points@.take(i as int).map_values(|p: Point| point_text(p)),
        decreases points@.len() - i,
    {
        let t = points[i].to_string();
        let ghost prev = texts(parts@);
        let ghost tv = t@;
        parts.push(t);
        proof {
            assert(texts(parts@) =~= prev.push(tv));
            assert(texts(parts@) =~= points@.take(i + 1).map_values(|p: Point| point_text(p)));
        }
        i += 1;
    }
    proof { assert(points@.take(points@.len() as int) =~= points@); }
    join_strings(&parts, " -> ")
}

/// A trace as a difference report names it.
pub open spec fn trace_desc_text(t: Trace) -> Seq<char> {
    net_or(t.net, "(no net)"@) + " trace on "@ + t.layer@ + " w "@ + length_text(t.width.0 as int) + ": "@
        + arrow_text(t.points@)
}

/// A trace as a difference report names it.
pub fn trace_desc(t: &Trace) -> (r: String)
    ensures r@ == trace_desc_text(*t),
{
    let mut s = String::new();
    match &t.net {
        Some(n) => push_str(&mut s, n.as_str()),
        None => push_str(&mut s, "(no net)"),
    }
    push_str(&mut s, " trace on ");
    push_str(&mut s, t.layer.as_str());
    push_str(&mut s, " w ");
    push_str(&mut s, t.width.to_string().as_str());
    push_str(&mut s, ": ");
    push_str(&mut s, arrow_points(&t.points).as_str());
    s
}

/// A via as a difference report names it.
pub open spec fn via_desc_text(v: Via) -> Seq<char> {
    "via "@ + net_or(v.net, "(no net)"@) + " at "@ + point_text(v.at) + " drill "@ + length_text(v.drill.0 as int)
        + " dia "@ + length_text(v.diameter.0 as int)
}

/// A via as a difference report names it.
pub fn via_desc(v: &Via) -> (r: String)
    ensures r@ == via_desc_text(*v),
{
    let mut s = String::new();
    push_str(&mut s, "via ");
    match &v.net {
        Some(n) => push_str(&mut s, n.as_str()),
        None => push_str(&mut s, "(no net)"),
    }
    push_str(&mut s, " at ");
    push_str(&mut s, v.at.to_string().as_str());
    push_str(&mut s, " drill ");
    push_str(&mut s, v.drill.to_string().as_str());
    push_str(&mut s, " dia ");
    push_str(&mut s, v.diameter.to_string().as_str());
    s
}


/// The first of the lowest points (by `x`, then `y`) among the first `k`.
pub open spec fn min_index(r: Seq<Point>, k: int) -> int
    decreases k,
{
    if k <= 1 {
        0
    } else {
        let m = min_index(r, k - 1);
        if pair_lt((r[k - 1].x.0, r[k - 1].y.0), (r[m].x.0, r[m].y.0)) { k - 1 } else { m }
    }
}

/// A ring wound counter-clockwise and started at its first lowest vertex.
pub open spec fn canon_ring_seq(ring: Seq<Point>) -> Seq<Point> {
    if ring.len() == 0 {
        Seq::empty()
    } else {
        let r = if twice_area(ring) < 0 { ring.reverse() } else { ring };
        let k = min_index(r, r.len() as int);
        r.skip(k) + r.take(k)
    }
}

proof fn lemma_min_index_bound(r: Seq<Point>, k: int)
    requires 1 <= k,
    ensures 0 <= min_index(r, k) < k,
    decreases k,
{
    if k > 1 { lemma_min_index_bound(r, k - 1); }
}

/// Rotate a closed ring so it starts at its lowest vertex, winding with
/// positive area: the same polygon written from any vertex in either
/// direction gives one list of points.
pub fn canon_ring(ring: &Vec<Point>) -> (r: Vec<Point>)
    ensures r@ == canon_ring_seq(ring@),
{
    let n = ring.len();
    if n == 0 {
        return Vec::new();
    }
    let mut v: Vec<Point> = Vec::new();
    if area_sign(ring) < 0 {
        let mut k: usize = 0;
        while k < n
            invariant k <= n, n == ring@.len(), v@ == ring@.reverse().take(k as int),
            decreases n - k,
        {
            v.push(ring[n - 1 - k]);
            proof { assert(v@ =~= ring@.reverse().take(k + 1)); }
            k += 1;
        }
        proof { assert(ring@.reverse().take(n as int) =~= ring@.reverse()); }
    } else {
        v = clone_ring(ring);
    }
    let mut m: usize = 0;
    let mut i: usize = 1;
    while i < n
        invariant 1 <= i <= n, n == v@.len(), m == min_index(v@, i as int),
        decreases n - i,
    {
        proof { lemma_min_index_bound(v@, i as int); }
        let a = v[i];
        let b = v[m];
        if a.x.0 < b.x.0 || (a.x.0 == b.x.0 && a.y.0 < b.y.0) {
            m = i;
        }
        i += 1;
    }
    proof { lemma_min_index_bound(v@, n as int); }
    let mut out: Vec<Point> = Vec::new();
    let mut j = m;
    while j < n
        invariant m <= j <= n, n == v@.len(), out@ == v@.subrange(m as int, j as int),
        decreases n - j,
    {
        out.push(v[j]);
        proof { assert(out@ =~= v@.subrange(m as int, j + 1)); }
        j += 1;
    }
    let mut j2: usize = 0;
    while j2 < m
        invariant j2 <= m < n, n == v@.len(), out@ == v@.skip(m as int) + v@.take(j2 as int),
        decreases m - j2,
    {
        out.push(v[j2]);
        proof { assert(out@ =~= v@.skip(m as int) + v@.take(j2 + 1)); }
        j2 += 1;
    }
    out
}

} // verus!
