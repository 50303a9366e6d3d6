//! Coordinates and padstack names as written to a Specctra design file.
//!
//! Units there are micrometres with 0.1 µm resolution.

use vstd::prelude::*;
use crate::units::{Length, Point};
use crate::text::{push_char, push_str, chars_of, find_in, copy_range};
use crate::numfmt::{fixed_text, push_fixed, push_nat, nat_digits, digit_char, padded_digits, strip_zeros};
use crate::decimal::{find_char, decimal_to_units, scan_decimal, scale_decimal, all_digits, digits_val, digit,
    pow10, parse_decimal, sign_split, scaled_magnitude, decimal_scaled, clamp_i64};
use crate::text::is_ascii_digit;

verus! {

/// Tenths of a micrometre in `a` nanometres (`a >= 0`), rounded half up:
/// the exact halfway count goes to the larger tenth.
pub open spec fn tenths_um(a: int) -> nat {
    ((a + 50) / 100) as nat
}

/// A length in micrometres with at most one decimal and no trailing zeros;
/// a negative length keeps its sign.
pub open spec fn um_text(nm: int) -> Seq<char> {
    if nm < 0 { seq!['-'] + fixed_text(tenths_um(-nm), 1) } else { fixed_text(tenths_um(nm), 1) }
}

/// A length in micrometres, 0.1 µm resolution, without trailing zeros.
/// The nanometre count is rounded exactly: a length halfway between two
/// tenths (such as 150 nm) rounds away from zero.
pub fn um(l: Length) -> (r: String)
    ensures r@ == um_text(l.0 as int),
{
    let v = l.0;
    let mut s = String::new();
    let a: u128 = if v < 0 { (-(v as i128)) as u128 } else { v as u128 };
    let t: u128 = (a + 50) / 100;
    proof { assert(t <= u64::MAX) by (nonlinear_arith) requires a <= 0x8000_0000_0000_0000u128, t == (a + 50) / 100; }
    if v < 0 {
        push_char(&mut s, '-');
    }
    push_fixed(&mut s, t as u64, 1);
    s
}

/// A point as `x y` in micrometres.
pub open spec fn xy_text(p: Point) -> Seq<char> {
    um_text(p.x.0 as int) + seq![' '] + um_text(p.y.0 as int)
}

/// A point as `x y` in micrometres.
pub fn xy(p: Point) -> (r: String)
    ensures r@ == xy_text(p),
{
    let mut s = um(p.x);
    push_char(&mut s, ' ');
    let y = um(p.y);
    push_str(&mut s, &y);
    s
}

/// Each point of a ring after a space, then the first point again.
pub open spec fn points_text(r: Seq<Point>) -> Seq<char>
    decreases r.len(),
{
    if r.len() == 0 { Seq::empty() } else { points_text(r.drop_last()) + seq![' '] + xy_text(r.last()) }
}

/// A closed path: each point after a space, and the first point again.
pub open spec fn ring_text(r: Seq<Point>) -> Seq<char> {
    if r.len() == 0 { Seq::empty() } else { points_text(r) + seq![' '] + xy_text(r[0]) }
}

/// The coordinates of a ring, closed explicitly.
pub fn ring_coords(r: &Vec<Point>) -> (s: String)
    ensures s@ == ring_text(r@),
{
    let mut s = String::new();
    let mut i: usize = 0;
    while i < r.len()
        invariant i <= r@.len(), s@ == points_text(r@.take(i as int)),
        decreases r@.len() - i,
    {
        proof {
            assert(r@.take(i + 1).drop_last() =~= r@.take(i as int));
            assert(r@.take(i + 1).last() == r@[i as int]);
        }
        push_char(&mut s, ' ');
        let t = xy(r[i]);
        push_str(&mut s, &t);
        i += 1;
    }
    proof { assert(r@.take(r@.len() as int) =~= r@); }
    if r.len() > 0 {
        push_char(&mut s, ' ');
        let t = xy(r[0]);
        push_str(&mut s, &t);
    }
    s
}

/// The padstack name of a via through `n_layers` layers.
pub open spec fn via_text(diameter: int, drill: int, n_layers: int) -> Seq<char> {
    "Via[0-"@ + nat_digits(if n_layers > 0 { (n_layers - 1) as nat } else { 0 }) + "]_"@
        + um_text(diameter) + seq![':'] + um_text(drill) + "_um"@
}

/// The padstack name of a via: its layer span, diameter and drill.
pub fn via_name(diameter: Length, drill: Length, n_layers: usize) -> (r: String)
    ensures r@ == via_text(diameter.0 as int, drill.0 as int, n_layers as int),
{
    let mut s = String::new();
    push_str(&mut s, "Via[0-");
    let top: usize = if n_layers > 0 { n_layers - 1 } else { 0 };
    push_nat(&mut s, top as u64);
    push_str(&mut s, "]_");
    let d = um(diameter);
    push_str(&mut s, &d);
    push_char(&mut s, ':');
    let h = um(drill);
    push_str(&mut s, &h);
    push_str(&mut s, "_um");
    s
}

/// The piece of `s` between the first and the second `sep` (or the end).
pub open spec fn second_piece(s: Seq<char>, sep: char) -> Option<Seq<char>> {
    let i = find_char(s, sep);
    if i >= s.len() {
        None
    } else {
        let r = s.skip(i + 1);
        Some(r.take(find_char(r, sep)))
    }
}

/// `diameter:drill` read from a via padstack name, in nanometres.
pub open spec fn via_parts(name: Seq<char>) -> Option<(i64, i64)> {
    match second_piece(name, '_') {
        None => None,
        Some(p) => {
            let k = find_char(p, ':');
            if k >= p.len() {
                None
            } else {
                match (decimal_to_units(p.take(k), 1000), decimal_to_units(p.skip(k + 1), 1000)) {
                    (Some(d), Some(h)) => Some((d, h)),
                    _ => None,
                }
            }
        },
    }
}

pub proof fn lemma_find_char_le(s: Seq<char>, c: char)
    ensures 0 <= find_char(s, c) <= s.len(),
    decreases s.len(),
{
    if s.len() > 0 && s[0] != c { lemma_find_char_le(s.drop_first(), c); }
}

/// Micrometres in `v`, read as a decimal, in nanometres.
fn read_um(v: &Vec<char>) -> (r: Option<i64>)
    ensures r == decimal_to_units(v@, 1000),
{
    match scan_decimal(v.as_slice()) {
        None => None,
        Some(d) => Some(scale_decimal(v.as_slice(), &d, 1000)),
    }
}

/// Parse `diameter:drill` back out of a via padstack name.
pub fn parse_via_name(name: &str) -> (r: Option<(Length, Length)>)
    ensures
        match via_parts(name@) {
            Some((d, h)) => r matches Some((a, b)) && a.0 == d && b.0 == h,
            None => r is None,
        },
{
    let v = chars_of(name);
    let n = v.len();
    proof { assert(v@.subrange(0, n as int) =~= v@); }
    let i = find_in(v.as_slice(), 0, n, '_');
    if i >= n {
        return None;
    }
    let j = find_in(v.as_slice(), i + 1, n, '_');
    proof {
        assert(v@.skip(i + 1) =~= v@.subrange(i + 1, n as int));
        lemma_find_char_le(v@.skip(i + 1), '_');
        assert(v@.skip(i + 1).take(j - (i + 1)) =~= v@.subrange(i + 1, j as int));
    }
    let k = find_in(v.as_slice(), i + 1, j, ':');
    let ghost p = v@.subrange(i + 1, j as int);
    proof { lemma_find_char_le(p, ':'); }
    if k >= j {
        return None;
    }
    let dv = copy_range(v.as_slice(), i + 1, k);
    let hv = copy_range(v.as_slice(), k + 1, j);
    proof {
        assert(p.take(k - (i + 1)) =~= dv@);
        assert(p.skip(k - (i + 1) + 1) =~= hv@);
    }
    match (read_um(&dv), read_um(&hv)) {
        (Some(d), Some(h)) => Some((Length::from_nm(d), Length::from_nm(h))),
        _ => None,
    }
}


/// A length rounded to the 0.1 µm that [`um`] writes, in nanometres.
pub open spec fn um_rounded(nm: int) -> int {
    if nm < 0 { -(tenths_um(-nm) * 100) } else { (tenths_um(nm) * 100) as int }
}

pub proof fn lemma_nat_digits(n: nat)
    ensures
        all_digits(nat_digits(n)),
        digits_val(nat_digits(n)) == n,
        nat_digits(n).len() >= 1,
    decreases n,
{
    reveal_with_fuel(digits_val, 2);
    if n >= 10 {
        lemma_nat_digits(n / 10);
        let s = nat_digits(n);
        assert(s.drop_last() == nat_digits(n / 10));
        assert(all_digits(s)) by {
            assert forall|i: int| 0 <= i < s.len() implies #[trigger] is_ascii_digit(s[i]) by {
                if i < s.len() - 1 { assert(s[i] == nat_digits(n / 10)[i]); }
            }
        }
    } else {
        assert(nat_digits(n) =~= seq![digit_char(n)]);
        assert(seq![digit_char(n)].drop_last() =~= Seq::<char>::empty());
    }
}

pub proof fn lemma_digits_lack(s: Seq<char>, c: char)
    requires all_digits(s), !is_ascii_digit(c),
    ensures !s.contains(c), find_char(s, c) == s.len(),
    decreases s.len(),
{
    if s.len() > 0 {
        assert(is_ascii_digit(s[0]));
        let t = s.drop_first();
        assert(all_digits(t)) by {
            assert forall|i: int| 0 <= i < t.len() implies #[trigger] is_ascii_digit(t[i]) by { assert(t[i] == s[i + 1]); }
        }
        lemma_digits_lack(t, c);
        assert(!s.contains(c)) by {
            if s.contains(c) {
                let i = choose|i: int| 0 <= i < s.len() && s[i] == c;
                if i > 0 { assert(t[i - 1] == c); }
            }
        }
    }
}

pub proof fn lemma_find_concat(a: Seq<char>, b: Seq<char>, c: char)
    requires !a.contains(c),
    ensures find_char(a + b, c) == a.len() + find_char(b, c),
    decreases a.len(),
{
    if a.len() > 0 {
        assert((a + b)[0] == a[0]);
        assert(a[0] != c);
        assert((a + b).drop_first() =~= a.drop_first() + b);
        assert(!a.drop_first().contains(c)) by {
            if a.drop_first().contains(c) {
                let i = choose|i: int| 0 <= i < a.drop_first().len() && a.drop_first()[i] == c;
                assert(a[i + 1] == c);
            }
        }
        lemma_find_concat(a.drop_first(), b, c);
    } else {
        assert(a + b =~= b);
    }
}

/// The text of `t` tenths: whole part, then a point and the tenths digit
/// where that digit is not zero.
proof fn lemma_fixed_tenths(t: nat)
    ensures
        fixed_text(t, 1) == nat_digits(t / 10)
            + (if t % 10 == 0 { Seq::<char>::empty() } else { seq!['.', digit_char(t % 10)] }),
{
    assert(pow10(1) == 10) by { reveal_with_fuel(pow10, 2); }
    let m = t % 10;
    assert(padded_digits(m, 1) =~= seq![digit_char(m)]) by {
        assert(padded_digits(m / 10, 0) =~= Seq::<char>::empty());
    }
    if m == 0 {
        assert(seq![digit_char(0)].drop_last() =~= Seq::<char>::empty());
        assert(strip_zeros(seq![digit_char(0)]) == strip_zeros(Seq::<char>::empty()));
        assert(nat_digits(t / 10) + Seq::<char>::empty() =~= nat_digits(t / 10));
    } else {
        assert(digit_char(m) != '0');
        assert(strip_zeros(seq![digit_char(m)]) == seq![digit_char(m)]);
        assert(nat_digits(t / 10) + seq!['.'] + seq![digit_char(m)] =~= nat_digits(t / 10) + seq!['.', digit_char(m)]);
    }
}

/// The text of `t` tenths reads as the decimal `t / 10`, holds no `_` or
/// `:`, and starts with a digit.
proof fn lemma_tenths_decimal(t: nat)
    ensures
        parse_decimal(fixed_text(t, 1)) matches Some((neg, ip, fp))
            && !neg && scaled_magnitude(ip, fp, 1000) == t * 100,
        !fixed_text(t, 1).contains('_'), !fixed_text(t, 1).contains(':'),
        fixed_text(t, 1).len() > 0, is_ascii_digit(fixed_text(t, 1)[0]),
{
    lemma_fixed_tenths(t);
    lemma_nat_digits(t / 10);
    let ip = nat_digits(t / 10);
    let fp: Seq<char> = if t % 10 == 0 { Seq::empty() } else { seq![digit_char(t % 10)] };
    let body = fixed_text(t, 1);
    assert(all_digits(fp)) by {
        assert forall|i: int| 0 <= i < fp.len() implies #[trigger] is_ascii_digit(fp[i]) by {}
    }
    lemma_digits_lack(ip, '.');
    lemma_find_concat(ip, body.skip(ip.len() as int), '.');
    assert(body.take(ip.len() as int) =~= ip);
    assert(ip + body.skip(ip.len() as int) =~= body);
    if t % 10 == 0 {
        assert(body =~= ip);
        assert(find_char(body, '.') == ip.len());
    } else {
        assert(body.skip(ip.len() as int) =~= seq!['.', digit_char(t % 10)]);
        assert(find_char(body, '.') == ip.len());
        assert(body.skip(ip.len() + 1int) =~= fp);
    }
    assert(is_ascii_digit(body[0])) by { assert(body[0] == ip[0]); }
    assert(sign_split(body) == (false, body));
    assert(parse_decimal(body) == Some((false, ip, fp)));
    let v = digits_val(ip);
    if t % 10 == 0 {
        assert(digits_val(fp) == 0);
        assert(pow10(0) == 1);
        assert(scaled_magnitude(ip, fp, 1000) == t * 100) by {
            assert((2 * 1000 * (v * 1 + 0) + 1) / (2 * 1) == 1000 * v) by (nonlinear_arith);
            assert(t == 10 * v);
        }
    } else {
        let f = t % 10;
        assert(fp.drop_last() =~= Seq::<char>::empty());
        assert(digits_val(fp) == digits_val(fp.drop_last()) * 10 + digit(fp.last()));
        assert(digit(digit_char(f)) == f);
        assert(pow10(1) == 10) by { reveal_with_fuel(pow10, 2); }
        assert(scaled_magnitude(ip, fp, 1000) == t * 100) by {
            assert((2 * 1000 * (v * 10 + f) + 10) / (2 * 10) == 1000 * v + 100 * f) by (nonlinear_arith)
                requires f < 10;
            assert(t == 10 * v + f);
        }
    }
    lemma_digits_lack(ip, '_');
    lemma_digits_lack(ip, ':');
    assert(!body.contains('_')) by {
        if body.contains('_') {
            let i = choose|i: int| 0 <= i < body.len() && body[i] == '_';
            if i < ip.len() { assert(ip[i] == '_'); }
        }
    }
    assert(!body.contains(':')) by {
        if body.contains(':') {
            let i = choose|i: int| 0 <= i < body.len() && body[i] == ':';
            if i < ip.len() { assert(ip[i] == ':'); }
        }
    }
}

/// What [`um`] writes reads back as the length rounded to 0.1 µm, and holds
/// no `_` or `:`.
proof fn lemma_um_reads_back(x: int)
    requires i64::MIN <= x <= i64::MAX,
    ensures
        decimal_to_units(um_text(x), 1000) == Some(um_rounded(x) as i64),
        !um_text(x).contains('_'), !um_text(x).contains(':'),
{
    let a: int = if x < 0 { -x } else { x };
    let t = tenths_um(a);
    lemma_tenths_decimal(t);
    let body = fixed_text(t, 1);
    assert(t * 100 <= 0x8000_0000_0000_0000) by {
        assert(a <= 0x8000_0000_0000_0000);
        assert((a + 50) / 100 * 100 <= a + 50) by (nonlinear_arith) requires a >= 0;
    }
    if x < 0 {
        let u = um_text(x);
        assert(u == seq!['-'] + body);
        assert(u.drop_first() =~= body);
        assert(sign_split(u) == (true, body));
        assert(!u.contains('_') && !u.contains(':')) by {
            if u.contains('_') {
                let i = choose|i: int| 0 <= i < u.len() && u[i] == '_';
                if i > 0 { assert(body[i - 1] == '_'); }
            }
            if u.contains(':') {
                let i = choose|i: int| 0 <= i < u.len() && u[i] == ':';
                if i > 0 { assert(body[i - 1] == ':'); }
            }
        }
    }
}

/// Reading a via padstack name back gives the diameter and drill it was
/// written with, each rounded to the 0.1 µm the name holds.
pub proof fn lemma_via_name_reads_back(diameter: i64, drill: i64, n_layers: usize)
    ensures
        via_parts(via_text(diameter as int, drill as int, n_layers as int))
            == Some((um_rounded(diameter as int) as i64, um_rounded(drill as int) as i64)),
{
    reveal_strlit("Via[0-");
    reveal_strlit("]_");
    reveal_strlit("_um");
    let top: nat = if n_layers > 0 { (n_layers - 1) as nat } else { 0 };
    lemma_nat_digits(top);
    lemma_digits_lack(nat_digits(top), '_');
    lemma_um_reads_back(diameter as int);
    lemma_um_reads_back(drill as int);
    let ud = um_text(diameter as int);
    let uh = um_text(drill as int);
    let head = "Via[0-"@ + nat_digits(top) + seq![']'];
    let piece = ud + seq![':'] + uh;
    let rest = piece + "_um"@;
    let text = via_text(diameter as int, drill as int, n_layers as int);
    assert(text =~= head + (seq!['_'] + rest));
    assert(!head.contains('_')) by {
        if head.contains('_') {
            let i = choose|i: int| 0 <= i < head.len() && head[i] == '_';
            if 6 <= i < 6 + nat_digits(top).len() { assert(nat_digits(top)[i - 6] == '_'); }
        }
    }
    lemma_find_concat(head, seq!['_'] + rest, '_');
    assert(find_char(text, '_') == head.len());
    assert(text.skip(head.len() + 1int) =~= rest);
    assert(!piece.contains('_')) by {
        if piece.contains('_') {
            let i = choose|i: int| 0 <= i < piece.len() && piece[i] == '_';
            if i < ud.len() { assert(ud[i] == '_'); } else if i > ud.len() { assert(uh[i - ud.len() - 1] == '_'); }
        }
    }
    lemma_find_concat(piece, "_um"@, '_');
    assert(rest.take(piece.len() as int) =~= piece);
    assert(second_piece(text, '_') == Some(piece));
    lemma_find_concat(ud, seq![':'] + uh, ':');
    assert(piece =~= ud + (seq![':'] + uh));
    assert(find_char(piece, ':') == ud.len());
    assert(piece.take(ud.len() as int) =~= ud);
    assert(piece.skip(ud.len() + 1int) =~= uh);
}

} // verus!
