//! Lengths are stored as integer nanometres so geometry is exact.
//! In text a length is a bare number (millimetres) or a number with a unit:
//! `"0.25mm"`, `"10mil"`, `"0.1in"`, `"100um"`.

use vstd::prelude::*;
use crate::decimal::{parse_decimal, decimal_scaled, scan_decimal, scale_decimal, all_digits};
use crate::error::Error;
use crate::numfmt::{signed_fixed_text, signed_fixed};
use crate::text::{
    trim, first_alpha, lower_seq, is_ws, is_ascii_alpha, chars_of, trim_bounds, find_alpha, lower_vec,
    string_of, cat3, cat5, push_char, push_str,
};

verus! {

pub const NM_PER_MM: i64 = 1_000_000;
pub const NM_PER_UM: i64 = 1_000;

/// A length in nanometres.
#[derive(Clone, Copy, PartialEq, Eq, Structural, PartialOrd, Ord, Hash, Debug)]
pub struct Length(pub i64);

/// Nanometres per unit, for the unit names a length may carry (already
/// lowered). An empty unit is millimetres.
pub open spec fn unit_nm(u: Seq<char>) -> Option<nat> {
    if u == Seq::<char>::empty() || u == seq!['m', 'm'] {
        Some(1_000_000)
    } else if u == seq!['c', 'm'] {
        Some(10_000_000)
    } else if u == seq!['m'] {
        Some(1_000_000_000)
    } else if u == seq!['u', 'm'] || u == seq!['\u{b5}', 'm'] {
        Some(1_000)
    } else if u == seq!['n', 'm'] {
        Some(1)
    } else if u == seq!['m', 'i', 'l'] || u == seq!['t', 'h'] || u == seq!['t', 'h', 'o', 'u'] {
        Some(25_400)
    } else if u == seq!['i', 'n'] || u == seq!['i', 'n', 'c', 'h'] || u == seq!['"'] {
        Some(25_400_000)
    } else {
        None
    }
}

/// What reading a length from text gives.
pub enum LengthRead {
    Nm(i64),
    /// The number in front of the unit is not a decimal.
    NotANumber,
    /// The unit is not one we know.
    UnknownUnit,
}

/// Reading `s` as a length: trim it, split at the first ASCII letter, read
/// the front as a decimal and the (trimmed, lowered) rest as a unit.
pub open spec fn read_length(s: Seq<char>) -> LengthRead {
    let t = trim(s);
    let k = first_alpha(t);
    let num = trim(t.take(k));
    let unit = lower_seq(trim(t.skip(k)));
    match parse_decimal(num) {
        None => LengthRead::NotANumber,
        Some(d) => match unit_nm(unit) {
            Some(u) => LengthRead::Nm(decimal_scaled(d, u)),
            None => LengthRead::UnknownUnit,
        },
    }
}

fn is1(v: &Vec<char>, a: char) -> (b: bool)
    ensures b == (v@ == seq![a]),
{
    let r = v.len() == 1 && v[0] == a;
    proof { if v@.len() == 1 && v@[0] == a { assert(v@ == seq![a]); } }
    r
}

fn is2(v: &Vec<char>, a: char, b: char) -> (r: bool)
    ensures r == (v@ == seq![a, b]),
{
    let r = v.len() == 2 && v[0] == a && v[1] == b;
    proof { if r { assert(v@ == seq![a, b]); } }
    r
}

fn is3(v: &Vec<char>, a: char, b: char, c: char) -> (r: bool)
    ensures r == (v@ == seq![a, b, c]),
{
    let r = v.len() == 3 && v[0] == a && v[1] == b && v[2] == c;
    proof { if r { assert(v@ == seq![a, b, c]); } }
    r
}

fn is4(v: &Vec<char>, a: char, b: char, c: char, d: char) -> (r: bool)
    ensures r == (v@ == seq![a, b, c, d]),
{
    let r = v.len() == 4 && v[0] == a && v[1] == b && v[2] == c && v[3] == d;
    proof { if r { assert(v@ == seq![a, b, c, d]); } }
    r
}

/// Nanometres per unit for a lowered unit name.
pub fn unit_factor(u: &Vec<char>) -> (r: Option<u64>)
    ensures
        r is None <==> unit_nm(u@) is None,
        r matches Some(f) ==> unit_nm(u@) == Some(f as nat) && 1 <= f <= 1_000_000_000,
{
    if u.len() == 0 || is2(u, 'm', 'm') {
        proof { if u.len() == 0 { assert(u@ == Seq::<char>::empty()); } }
        Some(1_000_000)
    } else if is2(u, 'c', 'm') {
        Some(10_000_000)
    } else if is1(u, 'm') {
        Some(1_000_000_000)
    } else if is2(u, 'u', 'm') || is2(u, '\u{b5}', 'm') {
        Some(1_000)
    } else if is2(u, 'n', 'm') {
        Some(1)
    } else if is3(u, 'm', 'i', 'l') || is2(u, 't', 'h') || is4(u, 't', 'h', 'o', 'u') {
        Some(25_400)
    } else if is2(u, 'i', 'n') || is4(u, 'i', 'n', 'c', 'h') || is1(u, '"') {
        Some(25_400_000)
    } else {
        None
    }
}

impl Length {
    pub fn from_nm(nm: i64) -> (r: Length)
        ensures r.0 == nm,
    {
        Length(nm)
    }

    pub fn nm(self) -> (r: i64)
        ensures r == self.0,
    {
        self.0
    }

    pub fn abs(self) -> (r: Length)
        requires self.0 != i64::MIN,
        ensures r.0 == if self.0 < 0 { -self.0 } else { self.0 as int },
    {
        if self.0 < 0 { Length(-self.0) } else { self }
    }

    pub fn is_zero(self) -> (r: bool)
        ensures r == (self.0 == 0),
    {
        self.0 == 0
    }

    /// Read `"1.5"`, `"1.5mm"`, `"10mil"`, `"0.1in"`, `"100um"`, `"2cm"`.
    /// The decimal is scaled to nanometres exactly, and a value halfway
    /// between two nanometres rounds away from zero.
    pub fn parse(s: &str) -> (r: Result<Length, Error>)
        ensures
            read_length(s@) matches LengthRead::Nm(v) ==> (r matches Ok(l) && l.0 == v),
            read_length(s@) is NotANumber ==> (r matches Err(e)
                && e.message@ == seq!['`'] + trim(s@) + "` is not a length"@),
            read_length(s@) is UnknownUnit ==> (r matches Err(e)
                && e.message@ == "unknown length unit `"@ + lower_seq(trim(trim(s@).skip(first_alpha(trim(s@)))))
                    + "` in `"@ + trim(s@) + seq!['`']),
    {
        let v = chars_of(s);
        assert(v@.subrange(0, v@.len() as int) == v@);
        read_length_chars(&v, 0, v.len())
    }

    /// Millimetres as exact decimal text without trailing zeros.
    pub fn mm_text(self) -> (r: String)
        ensures r@ == signed_fixed_text(self.0 as int, 6),
    {
        signed_fixed(self.0, 6)
    }

    /// The length as a user reads it: millimetres, then `mm`.
    pub fn to_string(&self) -> (r: String)
        ensures r@ == length_text(self.0 as int),
    {
        let mut s = signed_fixed(self.0, 6);
        push_str(&mut s, "mm");
        s
    }
}

/// A point in board coordinates (nanometres).
#[derive(Clone, Copy, PartialEq, Eq, Structural, Hash, Debug)]
pub struct Point {
    pub x: Length,
    pub y: Length,
}

/// Number of `c` in `s`.
pub open spec fn count_char(s: Seq<char>, c: char) -> nat
    decreases s.len(),
{
    if s.len() == 0 { 0 } else { (if s[0] == c { 1nat } else { 0nat }) + count_char(s.drop_first(), c) }
}

/// A length as text: millimetres, then `mm`.
pub open spec fn length_text(nm: int) -> Seq<char> {
    signed_fixed_text(nm, 6) + "mm"@
}

/// A point as text: `x,y` in millimetres.
pub open spec fn point_text(p: Point) -> Seq<char> {
    signed_fixed_text(p.x.0 as int, 6) + seq![','] + signed_fixed_text(p.y.0 as int, 6)
}

/// Squared distance between two points.
pub open spec fn dist2(a: Point, b: Point) -> nat {
    let dx = a.x.0 - b.x.0;
    let dy = a.y.0 - b.y.0;
    (dx * dx + dy * dy) as nat
}

/// The differences of the coordinates fit in an `i64`.
pub open spec fn close_enough(a: Point, b: Point) -> bool {
    &&& i64::MIN <= a.x.0 - b.x.0 <= i64::MAX
    &&& i64::MIN <= a.y.0 - b.y.0 <= i64::MAX
}

/// What reading `x,y` gives: the two halves around the only comma.
pub open spec fn point_halves(s: Seq<char>) -> (Seq<char>, Seq<char>) {
    let i = crate::decimal::find_char(s, ',');
    (s.take(i), s.skip(i + 1))
}

impl Point {
    pub fn new(x: Length, y: Length) -> (p: Point)
        ensures p.x == x, p.y == y,
    {
        Point { x, y }
    }

    pub fn nm(x: i64, y: i64) -> (p: Point)
        ensures p.x.0 == x, p.y.0 == y,
    {
        Point { x: Length(x), y: Length(y) }
    }

    /// Euclidean distance rounded to the nearest nanometre.
    pub fn distance(self, o: Point) -> (r: Length)
        requires close_enough(self, o),
        ensures r.0 == crate::decimal::clamp_i64(crate::isqrt::round_sqrt(dist2(self, o)) as int),
    {
        let dx = (self.x.0 - o.x.0) as i128;
        let dy = (self.y.0 - o.y.0) as i128;
        assert(dx * dx <= 0x4000_0000_0000_0000_0000_0000_0000_0000i128) by (nonlinear_arith)
            requires -0x8000_0000_0000_0000i128 <= dx <= 0x7fff_ffff_ffff_ffffi128;
        assert(dy * dy <= 0x4000_0000_0000_0000_0000_0000_0000_0000i128) by (nonlinear_arith)
            requires -0x8000_0000_0000_0000i128 <= dy <= 0x7fff_ffff_ffff_ffffi128;
        assert(dx * dx >= 0 && dy * dy >= 0) by (nonlinear_arith);
        let n: u128 = (dx * dx) as u128 + (dy * dy) as u128;
        let r = crate::isqrt::nearest_sqrt(n);
        if r > 0x7fff_ffff_ffff_ffffu128 { Length(i64::MAX) } else { Length(r as i64) }
    }

    /// Read `"x,y"` (millimetres or with units per coordinate).
    pub fn parse(s: &str) -> (r: Result<Point, Error>)
        ensures
            count_char(s@, ',') != 1 ==> (r matches Err(e)
                && e.message@ == seq!['`'] + s@ + "` is not a point"@),
            count_char(s@, ',') == 1 ==> ({
                let (xs, ys) = point_halves(s@);
                &&& r is Ok <==> (read_length(xs) is Nm && read_length(ys) is Nm)
                &&& r matches Ok(p) ==> read_length(xs) == LengthRead::Nm(p.x.0)
                    && read_length(ys) == LengthRead::Nm(p.y.0)
            }),
    {
        let v = chars_of(s);
        let n = v.len();
        let mut i: usize = 0;
        while i < n && v[i] != ','
            invariant i <= n, n == v@.len(), forall|j: int| 0 <= j < i ==> v@[j] != ',',
            decreases n - i,
        {
            i += 1;
        }
        let mut j = if i < n { i + 1 } else { n };
        let mut more = false;
        while j < n
            invariant i < n ==> i + 1 <= j, i >= n ==> j == n, j <= n, n == v@.len(),
                more <==> exists|k: int| i < k < j && v@[k] == ',',
            decreases n - j,
        {
            if v[j] == ',' {
                assert(v@[j as int] == ',');
                more = true;
            }
            j += 1;
        }
        proof {
            lemma_count_split(v@, i as int);
            assert(crate::decimal::find_char(v@, ',') == i) by { lemma_find_first(v@, ',', i as int); }
        }
        proof {
            if i < n {
                let rest = v@.skip(i + 1);
                if more {
                    let k = choose|k: int| i < k < n && v@[k] == ',';
                    assert(rest[k - i - 1] == ',');
                    lemma_count_pos(rest, ',', k - i - 1);
                } else {
                    assert forall|q: int| 0 <= q < rest.len() implies rest[q] != ',' by {
                        assert(rest[q] == v@[i + 1 + q]);
                    }
                    lemma_count_zero(rest, ',');
                }
            }
        }
        if i >= n || more {
            proof { reveal_strlit("`"); }
            return Err(Error::with_help(
                cat3("`", s, "` is not a point"),
                "points look like `x,y`, e.g. `12.5,3` or `0.5in,10mm`".to_owned(),
            ));
        }
        assert(v@.subrange(0, i as int) == v@.take(i as int));
        assert(v@.subrange(i + 1, n as int) == v@.skip(i + 1));
        let x = match read_length_chars(&v, 0, i) {
            Ok(x) => x,
            Err(e) => { return Err(e); },
        };
        let y = match read_length_chars(&v, i + 1, n) {
            Ok(y) => y,
            Err(e) => { return Err(e); },
        };
        Ok(Point { x, y })
    }

    /// The point as a user reads it: `x,y` in millimetres.
    pub fn to_string(&self) -> (r: String)
        ensures r@ == point_text(*self),
    {
        self.mm_text()
    }

    /// `x,y` in millimetres, as exact decimal text.
    pub fn mm_text(self) -> (r: String)
        ensures r@ == signed_fixed_text(self.x.0 as int, 6) + seq![','] + signed_fixed_text(self.y.0 as int, 6),
    {
        let mut s = self.x.mm_text();
        push_char(&mut s, ',');
        let y = self.y.mm_text();
        push_str(&mut s, y.as_str());
        s
    }
}

/// A whole number followed by a unit reads as that number of units, by
/// the table of nanometres per unit: `mm` 1 000 000, `cm` 10 000 000, `m`
/// 1 000 000 000, `um` 1 000, `nm` 1, `mil` 25 400, `in` 25 400 000; a
/// bare number is millimetres. So `2cm` is ten times `2mm`.
pub proof fn lemma_unit_table(ds: Seq<char>)
    requires ds.len() > 0, crate::decimal::all_digits(ds), crate::decimal::digits_val(ds) <= 1_000_000_000,
    ensures ({
        let v = crate::decimal::digits_val(ds) as int;
        &&& read_length(ds) == LengthRead::Nm((v * 1_000_000) as i64)
        &&& read_length(ds + seq!['m', 'm']) == LengthRead::Nm((v * 1_000_000) as i64)
        &&& read_length(ds + seq!['c', 'm']) == LengthRead::Nm((v * 10_000_000) as i64)
        &&& read_length(ds + seq!['m']) == LengthRead::Nm((v * 1_000_000_000) as i64)
        &&& read_length(ds + seq!['u', 'm']) == LengthRead::Nm((v * 1_000) as i64)
        &&& read_length(ds + seq!['n', 'm']) == LengthRead::Nm((v * 1) as i64)
        &&& read_length(ds + seq!['m', 'i', 'l']) == LengthRead::Nm((v * 25_400) as i64)
        &&& read_length(ds + seq!['i', 'n']) == LengthRead::Nm((v * 25_400_000) as i64)
    }),
{
    let v = crate::decimal::digits_val(ds) as int;
    assert(v * 1_000_000_000 <= 1_000_000_000_000_000_000) by (nonlinear_arith) requires 0 <= v <= 1_000_000_000;
    assert(read_length(ds) == LengthRead::Nm((v * 1_000_000) as i64)) by {
        assert(ds + Seq::<char>::empty() =~= ds);
        assert(lower_seq(Seq::<char>::empty()) =~= Seq::<char>::empty());
        lemma_read_whole(ds, Seq::<char>::empty(), 1_000_000);
    }
    assert(read_length(ds + seq!['m', 'm']) == LengthRead::Nm((v * 1_000_000) as i64)) by {
        assert(lower_seq(seq!['m', 'm']) =~= seq!['m', 'm']);
        lemma_read_whole(ds, seq!['m', 'm'], 1_000_000);
    }
    assert(read_length(ds + seq!['c', 'm']) == LengthRead::Nm((v * 10_000_000) as i64)) by {
        assert(lower_seq(seq!['c', 'm']) =~= seq!['c', 'm']);
        lemma_read_whole(ds, seq!['c', 'm'], 10_000_000);
    }
    assert(read_length(ds + seq!['m']) == LengthRead::Nm((v * 1_000_000_000) as i64)) by {
        assert(lower_seq(seq!['m']) =~= seq!['m']);
        lemma_read_whole(ds, seq!['m'], 1_000_000_000);
    }
    assert(read_length(ds + seq!['u', 'm']) == LengthRead::Nm((v * 1_000) as i64)) by {
        assert(lower_seq(seq!['u', 'm']) =~= seq!['u', 'm']);
        lemma_read_whole(ds, seq!['u', 'm'], 1_000);
    }
    assert(read_length(ds + seq!['n', 'm']) == LengthRead::Nm((v * 1) as i64)) by {
        assert(lower_seq(seq!['n', 'm']) =~= seq!['n', 'm']);
        lemma_read_whole(ds, seq!['n', 'm'], 1);
    }
    assert(read_length(ds + seq!['m', 'i', 'l']) == LengthRead::Nm((v * 25_400) as i64)) by {
        assert(lower_seq(seq!['m', 'i', 'l']) =~= seq!['m', 'i', 'l']);
        lemma_read_whole(ds, seq!['m', 'i', 'l'], 25_400);
    }
    assert(read_length(ds + seq!['i', 'n']) == LengthRead::Nm((v * 25_400_000) as i64)) by {
        assert(lower_seq(seq!['i', 'n']) =~= seq!['i', 'n']);
        lemma_read_whole(ds, seq!['i', 'n'], 25_400_000);
    }
}

/// The other spellings of the units read by the same table: `th` and
/// `thou` as mils, `inch` as inches, and upper-case names as lower-case.
pub proof fn lemma_unit_aliases(ds: Seq<char>)
    requires ds.len() > 0, crate::decimal::all_digits(ds), crate::decimal::digits_val(ds) <= 1_000_000_000,
    ensures ({
        let v = crate::decimal::digits_val(ds) as int;
        &&& read_length(ds + seq!['t', 'h']) == LengthRead::Nm((v * 25_400) as i64)
        &&& read_length(ds + seq!['t', 'h', 'o', 'u']) == LengthRead::Nm((v * 25_400) as i64)
        &&& read_length(ds + seq!['i', 'n', 'c', 'h']) == LengthRead::Nm((v * 25_400_000) as i64)
        &&& read_length(ds + seq!['C', 'M']) == LengthRead::Nm((v * 10_000_000) as i64)
        &&& read_length(ds + seq!['M', 'M']) == LengthRead::Nm((v * 1_000_000) as i64)
        &&& read_length(ds + seq!['M', 'I', 'L']) == LengthRead::Nm((v * 25_400) as i64)
    }),
{
    let v = crate::decimal::digits_val(ds) as int;
    assert(v * 1_000_000_000 <= 1_000_000_000_000_000_000) by (nonlinear_arith) requires 0 <= v <= 1_000_000_000;
    assert(read_length(ds + seq!['t', 'h']) == LengthRead::Nm((v * 25_400) as i64)) by {
        assert(lower_seq(seq!['t', 'h']) =~= seq!['t', 'h']);
        lemma_read_whole(ds, seq!['t', 'h'], 25_400);
    }
    assert(read_length(ds + seq!['t', 'h', 'o', 'u']) == LengthRead::Nm((v * 25_400) as i64)) by {
        assert(lower_seq(seq!['t', 'h', 'o', 'u']) =~= seq!['t', 'h', 'o', 'u']);
        lemma_read_whole(ds, seq!['t', 'h', 'o', 'u'], 25_400);
    }
    assert(read_length(ds + seq!['i', 'n', 'c', 'h']) == LengthRead::Nm((v * 25_400_000) as i64)) by {
        assert(lower_seq(seq!['i', 'n', 'c', 'h']) =~= seq!['i', 'n', 'c', 'h']);
        lemma_read_whole(ds, seq!['i', 'n', 'c', 'h'], 25_400_000);
    }
    assert(read_length(ds + seq!['C', 'M']) == LengthRead::Nm((v * 10_000_000) as i64)) by {
        assert(lower_seq(seq!['C', 'M']) =~= seq!['c', 'm']);
        lemma_read_whole(ds, seq!['C', 'M'], 10_000_000);
    }
    assert(read_length(ds + seq!['M', 'M']) == LengthRead::Nm((v * 1_000_000) as i64)) by {
        assert(lower_seq(seq!['M', 'M']) =~= seq!['m', 'm']);
        lemma_read_whole(ds, seq!['M', 'M'], 1_000_000);
    }
    assert(read_length(ds + seq!['M', 'I', 'L']) == LengthRead::Nm((v * 25_400) as i64)) by {
        assert(lower_seq(seq!['M', 'I', 'L']) =~= seq!['m', 'i', 'l']);
        lemma_read_whole(ds, seq!['M', 'I', 'L'], 25_400);
    }
}

/// Digits then lower-case letters naming a unit of `f` nanometres read as
/// the number times `f`.
/// A minus sign in front negates a length: for a whole number and any
/// unit the table knows, `-N unit` reads as minus what `N unit` reads as.
pub proof fn lemma_minus_negates(ds: Seq<char>, u: Seq<char>)
    requires
        ds.len() > 0, crate::decimal::all_digits(ds), crate::decimal::digits_val(ds) <= 1_000_000_000,
        forall|j: int| 0 <= j < u.len() ==> is_ascii_alpha(#[trigger] u[j]),
        unit_nm(lower_seq(u)) is Some,
    ensures
        read_length(ds + u) is Nm,
        read_length(seq!['-'] + ds + u) == LengthRead::Nm(-(read_length(ds + u)->Nm_0) as i64),
{
    let f = unit_nm(lower_seq(u))->0 as int;
    let v = crate::decimal::digits_val(ds) as int;
    assert(1 <= f <= 1_000_000_000);
    assert(v * f <= 1_000_000_000_000_000_000) by (nonlinear_arith) requires 0 <= v <= 1_000_000_000, 1 <= f <= 1_000_000_000;
    assert(v * f >= 0) by (nonlinear_arith) requires 0 <= v, 1 <= f;
    lemma_read_whole(ds, u, f);
    lemma_read_negative(ds, u, f);
}

proof fn lemma_read_negative(ds: Seq<char>, u: Seq<char>, f: int)
    requires
        ds.len() > 0, crate::decimal::all_digits(ds),
        forall|j: int| 0 <= j < u.len() ==> is_ascii_alpha(#[trigger] u[j]),
        unit_nm(lower_seq(u)) == Some(f as nat), 1 <= f <= 1_000_000_000,
        0 <= crate::decimal::digits_val(ds) * f <= i64::MAX,
    ensures read_length(seq!['-'] + ds + u) == LengthRead::Nm((-(crate::decimal::digits_val(ds) * f)) as i64),
{
    let sd = seq!['-'] + ds;
    let s = sd + u;
    let n = sd.len() as int;
    assert(seq!['-'] + ds + u == s);
    assert forall|j: int| 0 <= j < s.len() implies !is_ws(#[trigger] s[j]) by {
        if j == 0 { assert(s[0] == '-'); }
        else if j < n { assert(crate::text::is_ascii_digit(ds[j - 1])); assert(s[j] == ds[j - 1]); }
        else { assert(s[j] == u[j - n]); }
    }
    crate::text::lemma_trim_start_at(s, 0);
    assert(s.subrange(0, s.len() as int) =~= s);
    crate::text::lemma_trim_end_at(s, s.len() as int);
    let t = trim(s);
    assert(t == s);
    assert forall|j: int| 0 <= j < n implies !is_ascii_alpha(#[trigger] s[j]) by {
        if j == 0 { assert(s[0] == '-'); } else { assert(crate::text::is_ascii_digit(ds[j - 1])); assert(s[j] == ds[j - 1]); }
    }
    if u.len() > 0 { assert(s[n] == u[0]); assert(is_ascii_alpha(u[0])); }
    crate::text::lemma_first_alpha_at(s, n);
    assert(t.take(n) =~= sd);
    assert(t.skip(n) =~= u);
    assert forall|j: int| 0 <= j < sd.len() implies !is_ws(#[trigger] sd[j]) by {
        if j == 0 { assert(sd[0] == '-'); } else { assert(crate::text::is_ascii_digit(ds[j - 1])); assert(sd[j] == ds[j - 1]); }
    }
    crate::text::lemma_trim_start_at(sd, 0);
    assert(sd.subrange(0, n) =~= sd);
    crate::text::lemma_trim_end_at(sd, n);
    assert forall|j: int| 0 <= j < u.len() implies !is_ws(#[trigger] u[j]) by { assert(is_ascii_alpha(u[j])); }
    crate::text::lemma_trim_start_at(u, 0);
    assert(u.subrange(0, u.len() as int) =~= u);
    crate::text::lemma_trim_end_at(u, u.len() as int);
    assert(sd[0] == '-');
    assert(sd.drop_first() =~= ds);
    assert(crate::decimal::sign_split(sd) == (true, ds));
    let m = ds.len() as int;
    assert forall|j: int| 0 <= j < m implies ds[j] != '.' by { assert(crate::text::is_ascii_digit(ds[j])); }
    lemma_find_first(ds, '.', m);
    assert(ds.take(m) =~= ds);
    let e = Seq::<char>::empty();
    assert(crate::decimal::all_digits(e));
    assert(crate::decimal::parse_decimal(sd) == Some((true, ds, e)));
    let v = crate::decimal::digits_val(ds) as int;
    assert(crate::decimal::pow10(0) == 1);
    assert(crate::decimal::digits_val(e) == 0);
    assert(2 * f * (v * 1 + 0) == 2 * (f * v)) by (nonlinear_arith);
    assert(f * v == v * f) by (nonlinear_arith);
    assert(crate::decimal::scaled_magnitude(ds, e, f as nat) == ((2 * f * (v * 1 + 0) + 1) as nat) / 2);
    assert((2 * (f * v) + 1) / 2 == f * v);
    assert(crate::decimal::scaled_magnitude(ds, e, f as nat) == v * f);
}

proof fn lemma_read_whole(ds: Seq<char>, u: Seq<char>, f: int)
    requires
        ds.len() > 0, crate::decimal::all_digits(ds),
        forall|j: int| 0 <= j < u.len() ==> is_ascii_alpha(#[trigger] u[j]),
        unit_nm(lower_seq(u)) == Some(f as nat), 1 <= f <= 1_000_000_000,
        crate::decimal::digits_val(ds) * f <= i64::MAX,
    ensures read_length(ds + u) == LengthRead::Nm((crate::decimal::digits_val(ds) * f) as i64),
{
    let s = ds + u;
    let n = ds.len() as int;
    assert forall|j: int| 0 <= j < s.len() implies !is_ws(#[trigger] s[j]) by {
        if j < n { assert(crate::text::is_ascii_digit(ds[j])); assert(s[j] == ds[j]); } else { assert(s[j] == u[j - n]); }
    }
    crate::text::lemma_trim_start_at(s, 0);
    assert(s.subrange(0, s.len() as int) =~= s);
    crate::text::lemma_trim_end_at(s, s.len() as int);
    let t = trim(s);
    assert(t == s);
    assert forall|j: int| 0 <= j < n implies !is_ascii_alpha(#[trigger] s[j]) by {
        assert(crate::text::is_ascii_digit(ds[j])); assert(s[j] == ds[j]);
    }
    if u.len() > 0 { assert(s[n] == u[0]); assert(is_ascii_alpha(u[0])); }
    crate::text::lemma_first_alpha_at(s, n);
    assert(t.take(n) =~= ds);
    assert(t.skip(n) =~= u);
    assert forall|j: int| 0 <= j < ds.len() implies !is_ws(#[trigger] ds[j]) by {
        assert(crate::text::is_ascii_digit(ds[j]));
    }
    crate::text::lemma_trim_start_at(ds, 0);
    assert(ds.subrange(0, n) =~= ds);
    crate::text::lemma_trim_end_at(ds, n);
    assert forall|j: int| 0 <= j < u.len() implies !is_ws(#[trigger] u[j]) by { assert(is_ascii_alpha(u[j])); }
    crate::text::lemma_trim_start_at(u, 0);
    assert(u.subrange(0, u.len() as int) =~= u);
    crate::text::lemma_trim_end_at(u, u.len() as int);
    assert(crate::text::is_ascii_digit(ds[0]));
    assert(crate::decimal::sign_split(ds) == (false, ds));
    assert forall|j: int| 0 <= j < n implies ds[j] != '.' by { assert(crate::text::is_ascii_digit(ds[j])); }
    lemma_find_first(ds, '.', n);
    assert(ds.take(n) =~= ds);
    let e = Seq::<char>::empty();
    assert(crate::decimal::all_digits(e));
    assert(crate::decimal::parse_decimal(ds) == Some((false, ds, e)));
    let v = crate::decimal::digits_val(ds) as int;
    assert(crate::decimal::pow10(0) == 1);
    assert(crate::decimal::digits_val(e) == 0);
    assert(2 * f * (v * 1 + 0) == 2 * (f * v)) by (nonlinear_arith);
    assert(f * v == v * f) by (nonlinear_arith);
    assert(crate::decimal::scaled_magnitude(ds, e, f as nat) == v * f);
}

proof fn lemma_find_first(s: Seq<char>, c: char, i: int)
    requires 0 <= i <= s.len(), forall|j: int| 0 <= j < i ==> s[j] != c, i == s.len() || s[i] == c,
    ensures crate::decimal::find_char(s, c) == i,
    decreases s.len(),
{
    if s.len() > 0 && i > 0 {
        let t = s.drop_first();
        assert forall|j: int| 0 <= j < i - 1 implies t[j] != c by { assert(t[j] == s[j + 1]); }
        if i < s.len() { assert(t[i - 1] == s[i]); }
        lemma_find_first(t, c, i - 1);
    }
}

proof fn lemma_count_zero(s: Seq<char>, c: char)
    requires forall|j: int| 0 <= j < s.len() ==> s[j] != c,
    ensures count_char(s, c) == 0,
    decreases s.len(),
{
    if s.len() > 0 {
        let t = s.drop_first();
        assert forall|j: int| 0 <= j < t.len() implies t[j] != c by { assert(t[j] == s[j + 1]); }
        lemma_count_zero(t, c);
    }
}

proof fn lemma_count_pos(s: Seq<char>, c: char, k: int)
    requires 0 <= k < s.len(), s[k] == c,
    ensures count_char(s, c) >= 1,
    decreases s.len(),
{
    if k > 0 {
        let t = s.drop_first();
        assert(t[k - 1] == c);
        lemma_count_pos(t, c, k - 1);
    }
}

proof fn lemma_count_split(s: Seq<char>, i: int)
    requires 0 <= i <= s.len(), forall|j: int| 0 <= j < i ==> s[j] != ',',
    ensures
        i == s.len() ==> count_char(s, ',') == 0,
        i < s.len() && s[i] == ',' ==> count_char(s, ',') == 1 + count_char(s.skip(i + 1), ','),
    decreases i,
{
    if i == s.len() {
        lemma_count_zero(s, ',');
    } else if i == 0 {
        if s[0] == ',' {
            assert(s.drop_first() == s.skip(1));
        }
    } else {
        let t = s.drop_first();
        assert forall|j: int| 0 <= j < i - 1 implies t[j] != ',' by { assert(t[j] == s[j + 1]); }
        assert(t[i - 1] == s[i]);
        lemma_count_split(t, i - 1);
        assert(t.skip(i) == s.skip(i + 1));
    }
}

/// Read the length written in `v[lo..hi]`.
pub fn read_length_chars(v: &Vec<char>, lo: usize, hi: usize) -> (r: Result<Length, Error>)
    requires lo <= hi <= v@.len(),
    ensures
        ({
            let s = v@.subrange(lo as int, hi as int);
            &&& read_length(s) matches LengthRead::Nm(x) ==> (r matches Ok(l) && l.0 == x)
            &&& read_length(s) is NotANumber ==> (r matches Err(e)
                && e.message@ == seq!['`'] + trim(s) + "` is not a length"@)
            &&& read_length(s) is UnknownUnit ==> (r matches Err(e)
                && e.message@ == "unknown length unit `"@ + lower_seq(trim(trim(s).skip(first_alpha(trim(s)))))
                    + "` in `"@ + trim(s) + seq!['`'])
        }),
{
    let ghost s = v@.subrange(lo as int, hi as int);
    let (a, b) = trim_bounds(v.as_slice(), lo, hi);
    let ghost t = v@.subrange(a as int, b as int);
    assert(t == trim(s));
    let k = find_alpha(v.as_slice(), a, b);
    let (na, nb) = trim_bounds(v.as_slice(), a, k);
    assert(v@.subrange(a as int, k as int) == t.take(k - a));
    let num = string_of(v.as_slice(), na, nb);
    let numv = chars_of(num.as_str());
    let (ua, ub) = trim_bounds(v.as_slice(), k, b);
    assert(v@.subrange(k as int, b as int) == t.skip(k - a));
    let unit = lower_vec(v.as_slice(), ua, ub);
    proof {
        assert(k - a == first_alpha(t));
        assert(numv@ == trim(t.take(first_alpha(t))));
        assert(unit@ == lower_seq(trim(t.skip(first_alpha(t)))));
        assert(trim(s).skip(first_alpha(trim(s))) == t.skip(first_alpha(t)));
    }
    match scan_decimal(numv.as_slice()) {
        None => {
            proof { reveal_strlit("`"); }
            let text = string_of(v.as_slice(), a, b);
            Err(Error::with_help(
                cat3("`", text.as_str(), "` is not a length"),
                "lengths look like `1.5` (mm), `1.5mm`, `10mil`, `0.1in`, `100um`".to_owned(),
            ))
        },
        Some(d) => {
            match unit_factor(&unit) {
                Some(f) => {
                    let nm = scale_decimal(numv.as_slice(), &d, f);
                    Ok(Length(nm))
                },
                None => {
                    proof { reveal_strlit("`"); }
                    let text = string_of(v.as_slice(), a, b);
                    let us = string_of(unit.as_slice(), 0, unit.len());
                    assert(unit@.subrange(0, unit@.len() as int) == unit@);
                    Err(Error::with_help(
                        cat5("unknown length unit `", us.as_str(), "` in `", text.as_str(), "`"),
                        "supported units: mm (default), cm, m, um, nm, mil, in".to_owned(),
                    ))
                },
            }
        },
    }
}

} // verus!
