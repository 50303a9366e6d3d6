//! Which pairs of items a clearance rule measures, and what it reports for
//! a pair found too close. The geometry test itself (growing the subject
//! by the limit) is done by the caller on the pairs chosen here.

use vstd::prelude::*;
use crate::units::{Length, length_text};
use crate::schema::{Feature, Relation, Where};
use crate::drc::{Item, selects, matches_where, share_layer, related, bbox_near, opt_same,
    selects_spec, matches_where_spec, share_layer_spec, related_spec, same_opt, boxes_near, bounds_spec};
use crate::canon::{str_le, str_leq, lemma_str_leq_total};
use crate::text::{same_str, push_str};

verus! {

/// Whether a rule for `for_` with filter `w` checks the item.
pub open spec fn subject_of(for_: Feature, w: Option<Where>, it: Item) -> bool {
    selects_spec(for_, it) && matches_where_spec(w, it)
}

/// Whether the two items are one pad and its own hole or mask.
pub open spec fn same_pad(a: Item, b: Item) -> bool {
    (a.kind == Feature::Hole || b.kind == Feature::Hole) && a.refdes is Some
        && same_opt(a.refdes, b.refdes) && a.center == b.center
}

/// Whether subject `s` is the side that tests the pair with `t`: always
/// where `t` is no subject; else the untiled side where exactly one is a
/// tiled pour, otherwise the side with the smaller id.
pub open spec fn owns(for_: Feature, w: Option<Where>, s: Item, t: Item, s_tiled: bool, t_tiled: bool) -> bool {
    if !subject_of(for_, w, t) {
        true
    } else if s_tiled && !t_tiled {
        false
    } else if !s_tiled && t_tiled {
        true
    } else {
        !str_leq(t.id@, s.id@)
    }
}

/// Whether a clearance rule (for `for_`, filter `w`, to `to`, relation
/// `rel`, limit `d`) tests item `s` against item `t`.
pub open spec fn pair_tested(items: Seq<Item>, tiled: Seq<bool>, for_: Feature, w: Option<Where>, to: Feature, rel: Relation, d: Length, s: int, t: int) -> bool {
    let a = items[s];
    let b = items[t];
    &&& subject_of(for_, w, a) && a.geom@.len() > 0
    &&& selects_spec(to, b) && b.geom@.len() > 0
    &&& s != t && a.id@ != b.id@
    &&& share_layer_spec(a, b) && related_spec(rel, a, b)
    &&& !same_pad(a, b)
    &&& boxes_near(bounds_spec(a.geom@), bounds_spec(b.geom@), d.0 as int)
    &&& owns(for_, w, a, b, tiled[s], tiled[t])
}

/// The tested pairs `(s, t)` with `t` below `m`, for one subject `s`.
pub open spec fn pairs_row(items: Seq<Item>, tiled: Seq<bool>, for_: Feature, w: Option<Where>, to: Feature, rel: Relation, d: Length, s: int, m: int) -> Seq<(usize, usize)>
    decreases m,
{
    if m <= 0 {
        Seq::empty()
    } else {
        let r = pairs_row(items, tiled, for_, w, to, rel, d, s, m - 1);
        if pair_tested(items, tiled, for_, w, to, rel, d, s, m - 1) { r.push((s as usize, (m - 1) as usize)) } else { r }
    }
}

/// The tested pairs whose subject is below `k`, subject by subject, each
/// subject's targets in item order.
pub open spec fn tested_pairs(items: Seq<Item>, tiled: Seq<bool>, for_: Feature, w: Option<Where>, to: Feature, rel: Relation, d: Length, k: int) -> Seq<(usize, usize)>
    decreases k,
{
    if k <= 0 {
        Seq::empty()
    } else {
        tested_pairs(items, tiled, for_, w, to, rel, d, k - 1) + pairs_row(items, tiled, for_, w, to, rel, d, k - 1, items.len() as int)
    }
}

/// A clearance rule measures each unordered pair of items at most once:
/// where it tests `s` against `t`, it does not test `t` against `s`.
pub proof fn lemma_pair_once(items: Seq<Item>, tiled: Seq<bool>, for_: Feature, w: Option<Where>, to: Feature, rel: Relation, d: Length, s: int, t: int)
    requires
        0 <= s < items.len(), 0 <= t < items.len(), tiled.len() == items.len(),
        pair_tested(items, tiled, for_, w, to, rel, d, s, t),
    ensures !pair_tested(items, tiled, for_, w, to, rel, d, t, s),
{
    lemma_str_leq_total(items[s].id@, items[t].id@);
}

fn is_hole(k: Feature) -> (r: bool)
    ensures r == (k == Feature::Hole),
{
    match k {
        Feature::Hole => true,
        _ => false,
    }
}

fn same_pad_exec(a: &Item, b: &Item) -> (r: bool)
    ensures r == same_pad(*a, *b),
{
    (is_hole(a.kind) || is_hole(b.kind)) && a.refdes.is_some() && opt_same(&a.refdes, &b.refdes) && a.center == b.center
}

/// The pairs of items a clearance rule measures, each unordered pair at
/// most once: subject `s` (selected by `for_` and `w`) against target `t`
/// (selected by `to`), both with geometry, distinct, sharing a layer,
/// related as `rel` asks, not one pad with its own hole, with boxes within
/// `d`, and tested from the side that owns the pair. `tiled[i]` tells
/// whether item `i` is a pour split into tiles.
pub fn clearance_pairs(items: &Vec<Item>, tiled: &Vec<bool>, for_: Feature, w: &Option<Where>, to: Feature, rel: Relation, d: Length) -> (r: Vec<(usize, usize)>)
    requires tiled@.len() == items@.len(),
    ensures r@ == tested_pairs(items@, tiled@, for_, *w, to, rel, d, items@.len() as int),
{
    let n = items.len();
    let mut out: Vec<(usize, usize)> = Vec::new();
    let mut s: usize = 0;
    while s < n
        invariant s <= n, n == items@.len(), tiled@.len() == n,
            out@ == tested_pairs(items@, tiled@, for_, *w, to, rel, d, s as int),
        decreases n - s,
    {
        let a = &items[s];
        let ghost before = out@;
        let subject = selects(for_, a) && matches_where(w, a) && a.geom.len() > 0;
        let mut t: usize = 0;
        while t < n
            invariant s < n, t <= n, n == items@.len(), tiled@.len() == n, a == items@[s as int],
                subject == (subject_of(for_, *w, *a) && a.geom@.len() > 0),
                out@ == before + pairs_row(items@, tiled@, for_, *w, to, rel, d, s as int, t as int),
            decreases n - t,
        {
            let b = &items[t];
            let tested = subject && selects(to, b) && b.geom.len() > 0 && s != t
                && !same_str(a.id.as_str(), b.id.as_str())
                && share_layer(a, b) && related(rel, a, b) && !same_pad_exec(a, b)
                && bbox_near(&a.geom, &b.geom, d)
                && {
                    if !(selects(for_, b) && matches_where(w, b)) {
                        true
                    } else if tiled[s] && !tiled[t] {
                        false
                    } else if !tiled[s] && tiled[t] {
                        true
                    } else {
                        !str_le(b.id.as_str(), a.id.as_str())
                    }
                };
            proof {
                assert(tested == pair_tested(items@, tiled@, for_, *w, to, rel, d, s as int, t as int));
            }
            if tested {
                out.push((s, t));
            }
            proof {
                assert(before + pairs_row(items@, tiled@, for_, *w, to, rel, d, s as int, t + 1) ==
                    if tested { (before + pairs_row(items@, tiled@, for_, *w, to, rel, d, s as int, t as int)).push((s, t)) }
                    else { before + pairs_row(items@, tiled@, for_, *w, to, rel, d, s as int, t as int) });
            }
            t += 1;
        }
        s += 1;
    }
    out
}

/// What a clearance rule reports for a pair it found within its limit:
/// an overlap where the limit is not positive or the two touch, else that
/// they are closer than the limit.
pub open spec fn pair_message(s: Seq<char>, t: Seq<char>, d: Length, touching: bool) -> Seq<char> {
    if d.0 <= 0 || touching {
        s + " and "@ + t + " overlap"@
    } else {
        s + " and "@ + t + " are closer than "@ + length_text(d.0 as int)
    }
}

/// The message for a pair found too close; `touching` tells whether the
/// two items themselves overlap.
pub fn clearance_message(s: &str, t: &str, d: Length, touching: bool) -> (r: String)
    ensures r@ == pair_message(s@, t@, d, touching),
{
    let mut m = String::new();
    push_str(&mut m, s);
    push_str(&mut m, " and ");
    push_str(&mut m, t);
    if d.0 <= 0 || touching {
        push_str(&mut m, " overlap");
    } else {
        push_str(&mut m, " are closer than ");
        let dt = d.to_string();
        push_str(&mut m, dt.as_str());
    }
    m
}

} // verus!
