//! Reading back the fabrication files `pcb gerbers` writes: which layer a
//! Gerber file holds, the primitives it draws (flashes, strokes, regions)
//! with the pad attributes in force, and the plated drill hits of an
//! Excellon file. Turning primitives into copper polygons, and tracing the
//! copper back to the netlist, happens outside this crate's exact core.

use vstd::prelude::*;
use crate::units::{Length, Point};
use crate::text::{lines, lines_of, split_char, split_on, trim, trim_bounds, copy_range, chars_of, string_from,
    push_str, is_ascii_digit, lemma_split_char_nonempty};
use crate::decimal::{all_digits, digits_val, decimal_to_units, scan_decimal, scale_decimal, digit_of, find_char};
use crate::geom::{contains, coords, clipper_inside, area_sign, twice_area};

verus! {

/// Whether `s` begins with `pre`.
pub open spec fn starts(s: Seq<char>, pre: Seq<char>) -> bool {
    pre.len() <= s.len() && s.take(pre.len() as int) == pre
}

/// Whether `s` ends with `suf`.
pub open spec fn ends(s: Seq<char>, suf: Seq<char>) -> bool {
    suf.len() <= s.len() && s.skip(s.len() - suf.len()) == suf
}

/// An unsigned integer as `str::parse` reads it: an optional `+`, then at
/// least one digit, no larger than `max`.
pub open spec fn read_unsigned(s: Seq<char>, max: nat) -> Option<nat> {
    let b = if s.len() > 0 && s[0] == '+' { s.drop_first() } else { s };
    if b.len() > 0 && all_digits(b) && digits_val(b) <= max { Some(digits_val(b)) } else { None }
}

/// A signed integer as `str::parse::<i64>` reads it: an optional sign, then
/// at least one digit, within the `i64` range.
pub open spec fn read_i64(s: Seq<char>) -> Option<int> {
    let neg = s.len() > 0 && s[0] == '-';
    let b = if s.len() > 0 && (s[0] == '-' || s[0] == '+') { s.drop_first() } else { s };
    if b.len() > 0 && all_digits(b) {
        let v = if neg { -digits_val(b) } else { digits_val(b) as int };
        if i64::MIN <= v <= i64::MAX { Some(v) } else { None }
    } else {
        None
    }
}

/// `s` without any number of trailing copies of `suf`.
pub open spec fn strip_all_suffix(s: Seq<char>, suf: Seq<char>) -> Seq<char>
    decreases s.len(),
{
    if suf.len() > 0 && ends(s, suf) { strip_all_suffix(s.take(s.len() - suf.len()), suf) } else { s }
}

/// What a Gerber file's `%TF.FileFunction` attribute says: a copper layer
/// and its number, or not copper.
#[derive(Clone, Copy, Debug, PartialEq, Eq)]
pub struct GerberLayerFile {
    pub layer: Option<usize>,
    pub copper: bool,
}

/// The first line at or after `k` that holds the file function.
pub open spec fn first_function_line(ls: Seq<Seq<char>>, k: int) -> int
    decreases ls.len() - k,
{
    if k < 0 || k >= ls.len() {
        ls.len() as int
    } else if starts(ls[k], "%TF.FileFunction,"@) {
        k
    } else {
        first_function_line(ls, k + 1)
    }
}

/// The layer file a file function value describes.
pub open spec fn function_of(v: Seq<char>) -> (Option<nat>, bool) {
    let parts = split_char(v, ',');
    if parts[0] == "Copper"@ {
        let n = if parts.len() > 1 && parts[1].len() > 0 && parts[1][0] == 'L' {
            read_unsigned(parts[1].drop_first(), usize::MAX as nat)
        } else {
            None
        };
        (n, true)
    } else {
        (None, false)
    }
}

/// What the first `%TF.FileFunction,` line of a Gerber text says.
pub open spec fn file_function_of(text: Seq<char>) -> (Option<nat>, bool) {
    let ls = lines_of(text);
    let k = first_function_line(ls, 0);
    if k < ls.len() { function_of(strip_all_suffix(ls[k].skip(17), "*%"@)) } else { (None, false) }
}

/// Whether `v` holds `pre` at its start.
pub fn has_prefix(v: &Vec<char>, pre: &str) -> (r: bool)
    ensures r == starts(v@, pre@),
{
    let p = chars_of(pre);
    if p.len() > v.len() {
        return false;
    }
    let mut i: usize = 0;
    while i < p.len()
        invariant i <= p@.len() <= v@.len(), p@ == pre@, forall|j: int| 0 <= j < i ==> v@[j] == p@[j],
        decreases p@.len() - i,
    {
        if v[i] != p[i] {
            proof { assert(v@.take(p@.len() as int)[i as int] != p@[i as int]); }
            return false;
        }
        i += 1;
    }
    proof { assert(v@.take(p@.len() as int) =~= p@); }
    true
}

/// Whether `v` holds `suf` at its end.
pub fn has_suffix(v: &Vec<char>, suf: &str) -> (r: bool)
    ensures r == ends(v@, suf@),
{
    let p = chars_of(suf);
    if p.len() > v.len() {
        return false;
    }
    let vl = v.len();
    let off = vl - p.len();
    let mut i: usize = 0;
    while i < p.len()
        invariant vl == v@.len(), off + p@.len() == vl, i <= p@.len(), p@ == suf@, forall|j: int| 0 <= j < i ==> v@[off + j] == p@[j],
        decreases p@.len() - i,
    {
        if v[off + i] != p[i] {
            proof { assert(v@.skip(off as int)[i as int] != p@[i as int]); }
            return false;
        }
        i += 1;
    }
    proof { assert(v@.skip(off as int) =~= p@); }
    true
}

/// Whether `v` is exactly `s`.
pub fn is_text(v: &Vec<char>, s: &str) -> (r: bool)
    ensures r == (v@ == s@),
{
    crate::text::same_str(&string_from(v.as_slice()), s)
}

/// Read an unsigned integer no larger than `max`.
pub fn parse_unsigned(s: &Vec<char>, max: u64) -> (r: Option<u64>)
    ensures
        match read_unsigned(s@, max as nat) {
            Some(v) => r == Some(v as u64),
            None => r is None,
        },
{
    let start: usize = if s.len() > 0 && s[0] == '+' { 1 } else { 0 };
    let ghost b = if s@.len() > 0 && s@[0] == '+' { s@.drop_first() } else { s@ };
    proof { assert(b =~= s@.skip(start as int)); }
    if start >= s.len() {
        return None;
    }
    let mut acc: u64 = 0;
    let mut i = start;
    while i < s.len()
        invariant
            start <= i <= s@.len(), start < s@.len(), b == s@.skip(start as int),
            b == (if s@.len() > 0 && s@[0] == '+' { s@.drop_first() } else { s@ }),
            all_digits(s@.subrange(start as int, i as int)), acc == digits_val(s@.subrange(start as int, i as int)),
            acc <= max,
        decreases s@.len() - i,
    {
        let c = s[i];
        if !('0' <= c && c <= '9') {
            proof {
                assert(b[i - start] == c);
                assert(!is_ascii_digit(c));
                assert(!all_digits(b));
                assert(read_unsigned(s@, max as nat) is None);
            }
            return None;
        }
        let d = digit_of(c) as u64;
        proof {
            let t = s@.subrange(start as int, i + 1);
            assert(t.drop_last() =~= s@.subrange(start as int, i as int));
            assert(t.last() == c);
            assert(all_digits(t)) by {
                assert forall|j: int| 0 <= j < t.len() implies #[trigger] is_ascii_digit(t[j]) by {
                    if j < t.len() - 1 { assert(t[j] == s@.subrange(start as int, i as int)[j]); }
                }
            }
        }
        if d > max || acc > (max - d) / 10 {
            proof {
                let t = s@.subrange(start as int, i + 1);
                assert(digits_val(t) == acc * 10 + d);
                assert(acc * 10 + d > max) by (nonlinear_arith) requires d > max || acc > (max - d) / 10, acc >= 0;
                lemma_digits_val_prefix(b, (i + 1 - start) as int);
                assert(b.take(i + 1 - start) =~= t);
                assert(read_unsigned(s@, max as nat) is None);
            }
            return None;
        }
        proof { assert(acc * 10 + d <= max) by (nonlinear_arith) requires acc <= (max - d) / 10, d <= max; }
        acc = acc * 10 + d;
        i += 1;
    }
    proof { assert(s@.subrange(start as int, s@.len() as int) =~= b); }
    Some(acc)
}

/// A longer run of digits is worth at least as much as its prefix.
proof fn lemma_digits_val_prefix(b: Seq<char>, k: int)
    requires 0 <= k <= b.len(), all_digits(b.take(k)) || all_digits(b),
    ensures all_digits(b) ==> digits_val(b) >= digits_val(b.take(k)),
    decreases b.len(),
{
    if all_digits(b) && k < b.len() {
        let d = b.drop_last();
        assert(all_digits(d)) by {
            assert forall|j: int| 0 <= j < d.len() implies #[trigger] is_ascii_digit(d[j]) by { assert(d[j] == b[j]); }
        }
        lemma_digits_val_prefix(d, k);
        assert(d.take(k) =~= b.take(k));
    } else if all_digits(b) {
        assert(b.take(k) =~= b);
    }
}


/// Read a signed 64-bit integer.
pub fn parse_i64(s: &Vec<char>) -> (r: Option<i64>)
    ensures
        match read_i64(s@) {
            Some(v) => r == Some(v as i64),
            None => r is None,
        },
{
    let neg = s.len() > 0 && s[0] == '-';
    let start: usize = if s.len() > 0 && (s[0] == '-' || s[0] == '+') { 1 } else { 0 };
    let body = copy_range(s.as_slice(), start, s.len());
    let ghost b = if s@.len() > 0 && (s@[0] == '-' || s@[0] == '+') { s@.drop_first() } else { s@ };
    proof { assert(body@ =~= b); }
    let lim: u64 = if neg { 0x8000_0000_0000_0000 } else { 0x7fff_ffff_ffff_ffff };
    match parse_unsigned(&body, lim) {
        None => {
            proof {
                if b.len() > 0 && all_digits(b) {
                    assert(read_unsigned(b, lim as nat) is None);
                    assert(b.len() == 0 || b[0] != '+') by {
                        if b.len() > 0 && b[0] == '+' { assert(is_ascii_digit(b[0])); }
                    }
                    assert(digits_val(b) > lim);
                }
            }
            None
        },
        Some(v) => {
            proof {
                assert(b.len() == 0 || b[0] != '+' || !all_digits(b)) by {
                    if b.len() > 0 && b[0] == '+' && all_digits(b) { assert(is_ascii_digit(b[0])); }
                }
                if b.len() > 0 && b[0] == '+' {
                    // `++5`-like texts: the body has a sign of its own.
                    assert(!all_digits(b)) by { assert(!is_ascii_digit(b[0])); }
                }
            }
            if b_has_sign(&body) {
                return None;
            }
            if neg {
                if v == 0x8000_0000_0000_0000 { Some(i64::MIN) } else { Some(-(v as i64)) }
            } else {
                Some(v as i64)
            }
        },
    }
}

/// Whether the text starts with a `+`.
fn b_has_sign(v: &Vec<char>) -> (r: bool)
    ensures r == (v@.len() > 0 && v@[0] == '+'),
{
    v.len() > 0 && v[0] == '+'
}

/// Which layer a Gerber text holds, from its `%TF.FileFunction` attribute.
pub fn file_function(text: &str) -> (r: GerberLayerFile)
    ensures
        ({
            let (n, copper) = file_function_of(text@);
            &&& r.copper == copper
            &&& match n { Some(k) => r.layer == Some(k as usize), None => r.layer is None }
        }),
{
    let ls = lines(text);
    let ghost lv = ls@.map_values(|x: Vec<char>| x@);
    let mut k: usize = 0;
    while k < ls.len()
        invariant
            k <= ls@.len(), lv == ls@.map_values(|x: Vec<char>| x@), lv == lines_of(text@),
            first_function_line(lv, 0) == first_function_line(lv, k as int),
        decreases ls@.len() - k,
    {
        if has_prefix(&ls[k], "%TF.FileFunction,") {
            let line = &ls[k];
            let mut end = line.len();
            proof {
                reveal_strlit("%TF.FileFunction,");
                assert(line@.skip(17) =~= line@.subrange(17, end as int));
            }
            while end >= 19 && line[end - 2] == '*' && line[end - 1] == '%'
                invariant
                    17 <= end <= line@.len(),
                    strip_all_suffix(line@.skip(17), "*%"@) == strip_all_suffix(line@.subrange(17, end as int), "*%"@),
                decreases end,
            {
                proof {
                    reveal_strlit("*%");
                    let t = line@.subrange(17, end as int);
                    assert(t.skip(t.len() - 2) =~= "*%"@);
                    assert(t.take(t.len() - 2) =~= line@.subrange(17, end - 2));
                }
                end -= 2;
            }
            proof {
                reveal_strlit("*%");
                let t = line@.subrange(17, end as int);
                if t.len() >= 2 {
                    assert(t.skip(t.len() - 2) =~= seq![line@[end - 2], line@[end - 1]]);
                }
            }
            let v = copy_range(line.as_slice(), 17, end);
            let parts = split_on(&v, ',');
            let ghost pv = parts@.map_values(|x: Vec<char>| x@);
            proof { lemma_split_char_nonempty(v@, ','); }
            if is_text(&parts[0], "Copper") {
                let mut layer: Option<usize> = None;
                if parts.len() > 1 && parts[1].len() > 0 && parts[1][0] == 'L' {
                    let digits = copy_range(parts[1].as_slice(), 1, parts[1].len());
                    proof { assert(digits@ =~= pv[1].drop_first()); }
                    match parse_unsigned(&digits, usize::MAX as u64) {
                        Some(n) => { layer = Some(n as usize); },
                        None => {},
                    }
                }
                return GerberLayerFile { layer, copper: true };
            }
            return GerberLayerFile { layer: None, copper: false };
        }
        k += 1;
    }
    GerberLayerFile { layer: None, copper: false }
}

/// How many of `rings` hold `p` by Clipper2's test.
pub open spec fn holders(rings: Seq<Vec<Point>>, p: Point) -> nat
    decreases rings.len(),
{
    if rings.len() == 0 {
        0
    } else {
        holders(rings.drop_last(), p) + (if clipper_inside(coords(rings.last()@), (p.x.0, p.y.0)) { 1nat } else { 0nat })
    }
}

/// Whether `p` lies in the region of `rings` (an odd number of them hold it).
pub fn inside(rings: &Vec<Vec<Point>>, p: Point) -> (r: bool)
    ensures r == (holders(rings@, p) % 2 == 1),
{
    let mut n: usize = 0;
    let mut i: usize = 0;
    while i < rings.len()
        invariant i <= rings@.len(), n == holders(rings@.take(i as int), p), n <= i,
        decreases rings@.len() - i,
    {
        proof {
            assert(rings@.take(i + 1).drop_last() =~= rings@.take(i as int));
            assert(rings@.take(i + 1).last() == rings@[i as int]);
        }
        if contains(&rings[i], p) {
            n += 1;
        }
        i += 1;
    }
    proof { assert(rings@.take(rings@.len() as int) =~= rings@); }
    n % 2 == 1
}


/// The slot separator of an Excellon drill line.
pub open spec fn g85() -> Seq<char> {
    seq!['G', '8', '5']
}

/// The comment word that marks a non-plated drill file.
pub open spec fn non_plated() -> Seq<char> {
    seq!['N', 'o', 'n', 'P', 'l', 'a', 't', 'e', 'd']
}

/// The first position at which `pat` occurs in `s`, or `s.len()`.
pub open spec fn find_pat(s: Seq<char>, pat: Seq<char>) -> int
    decreases s.len(),
{
    if s.len() < pat.len() || pat.len() == 0 {
        s.len() as int
    } else if s.take(pat.len() as int) == pat {
        0
    } else {
        1 + find_pat(s.drop_first(), pat)
    }
}

/// `s` split at each occurrence of the non-empty `pat`, left to right.
pub open spec fn split_pat(s: Seq<char>, pat: Seq<char>) -> Seq<Seq<char>>
    decreases s.len(),
{
    let i = find_pat(s, pat);
    if pat.len() == 0 || i >= s.len() || i < 0 || i + pat.len() > s.len() {
        seq![s]
    } else {
        seq![s.take(i)] + split_pat(s.skip(i + pat.len()), pat)
    }
}

/// The characters a drill coordinate is written with.
pub open spec fn drill_num_char(c: char) -> bool {
    is_ascii_digit(c) || c == '.' || c == '-'
}

/// Where a drill coordinate's number ends: the first character after the
/// letter that is not a digit, `.` or `-`.
pub open spec fn drill_num_end(s: Seq<char>) -> int
    decreases s.len(),
{
    if s.len() <= 1 {
        s.len() as int
    } else if !drill_num_char(s[1]) {
        1
    } else {
        1 + drill_num_end(s.drop_first())
    }
}

/// The point a drill coordinate text gives, in nanometres: `X` and `Y`
/// words in millimetres, each rounded half away from zero; a missing word
/// counts as zero. `None` for a text that is not such words.
pub open spec fn drill_xy(s: Seq<char>, x: i64, y: i64) -> Option<(i64, i64)>
    decreases s.len(),
{
    if s.len() == 0 {
        Some((x, y))
    } else {
        let e = drill_num_end(s);
        if e <= 0 || e > s.len() {
            None
        } else {
        match decimal_to_units(s.subrange(1, e), 1_000_000) {
            None => None,
            Some(v) => if s[0] == 'X' {
                drill_xy(s.skip(e), v, y)
            } else if s[0] == 'Y' {
                drill_xy(s.skip(e), x, v)
            } else {
                None
            },
        }
        }
    }
}

proof fn lemma_drill_num_end(s: Seq<char>)
    requires s.len() >= 1,
    ensures
        1 <= drill_num_end(s) <= s.len(),
        forall|j: int| 1 <= j < drill_num_end(s) ==> drill_num_char(#[trigger] s[j]),
        drill_num_end(s) == s.len() || !drill_num_char(s[drill_num_end(s)]),
    decreases s.len(),
{
    if s.len() > 1 && drill_num_char(s[1]) {
        lemma_drill_num_end(s.drop_first());
        assert forall|j: int| 1 <= j < drill_num_end(s) implies drill_num_char(#[trigger] s[j]) by {
            if j >= 2 { assert(s[j] == s.drop_first()[j - 1]); }
        }
    }
}

/// The point a drill coordinate text gives.
fn read_drill_xy(v: &Vec<char>) -> (r: Option<Point>)
    ensures
        match drill_xy(v@, 0, 0) {
            Some((x, y)) => r matches Some(p) && p.x.0 == x && p.y.0 == y,
            None => r is None,
        },
{
    let n = v.len();
    let mut x: i64 = 0;
    let mut y: i64 = 0;
    let mut i: usize = 0;
    proof { assert(v@.skip(0) =~= v@); }
    while i < n
        invariant
            i <= n, n == v@.len(),
            drill_xy(v@, 0, 0) == drill_xy(v@.skip(i as int), x, y),
        decreases n - i,
    {
        let ghost rest = v@.skip(i as int);
        proof { lemma_drill_num_end(rest); }
        let mut j = i + 1;
        while j < n && (('0' <= v[j] && v[j] <= '9') || v[j] == '.' || v[j] == '-')
            invariant
                i + 1 <= j <= n, n == v@.len(), rest == v@.skip(i as int),
                forall|m: int| i + 1 <= m < j ==> drill_num_char(#[trigger] v@[m]),
            decreases n - j,
        {
            j += 1;
        }
        proof {
            let e = drill_num_end(rest);
            assert(j - i == e) by {
                if j - i < e { assert(drill_num_char(rest[j - i])); assert(rest[j - i] == v@[j as int]); }
                if j - i > e { assert(rest[e] == v@[i + e]); }
            }
            assert(rest.subrange(1, e) =~= v@.subrange(i + 1, j as int));
            assert(rest.skip(e) =~= v@.skip(j as int));
        }
        let num = copy_range(v.as_slice(), i + 1, j);
        let val = match scan_decimal(num.as_slice()) {
            None => { return None; },
            Some(d) => scale_decimal(num.as_slice(), &d, 1_000_000),
        };
        if v[i] == 'X' {
            x = val;
        } else if v[i] == 'Y' {
            y = val;
        } else {
            return None;
        }
        i = j;
    }
    proof { assert(v@.skip(n as int).len() == 0); }
    Some(Point::nm(x, y))
}

/// The pieces of `v` between occurrences of `G85`.
fn split_g85(v: &Vec<char>) -> (r: Vec<Vec<char>>)
    ensures r@.map_values(|x: Vec<char>| x@) == split_pat(v@, g85()),
{
    proof { reveal_strlit("G85"); }
    let n = v.len();
    let mut out: Vec<Vec<char>> = Vec::new();
    let mut start: usize = 0;
    let mut i: usize = 0;
    proof { assert(v@.skip(0) =~= v@); lemma_find_pat_nonneg(v@, g85()); }
    while i < n
        invariant
            start <= i <= n, n == v@.len(),
            split_pat(v@, g85()) == out@.map_values(|x: Vec<char>| x@) + split_pat(v@.skip(start as int), g85()),
            find_pat(v@.skip(start as int), g85()) >= i - start,
            forall|m: int| start <= m < i ==> !(m + 3 <= n && #[trigger] v@.subrange(m, m + 3) == g85()),
        decreases n - i,
    {
        if n - i >= 3 && v[i] == 'G' && v[i + 1] == '8' && v[i + 2] == '5' {
            let piece = copy_range(v.as_slice(), start, i);
            proof {
                let r = v@.skip(start as int);
                assert(v@.subrange(i as int, i + 3) =~= g85());
                assert(r.subrange(i - start, i - start + 3) =~= v@.subrange(i as int, i + 3));
                assert forall|m: int| 0 <= m < i - start implies #[trigger] r.subrange(m, m + g85().len()) != g85() by {
                    assert(r.subrange(m, m + g85().len()) =~= v@.subrange(m + start, m + start + 3));
                }
                lemma_find_pat_at(r, g85(), i - start);
                assert(r.take(i - start) =~= piece@);
                assert(r.skip(i - start + 3) =~= v@.skip(i + 3));
                let ghost prev = out@.map_values(|x: Vec<char>| x@);
            }
            let ghost prev = out@.map_values(|x: Vec<char>| x@);
            let ghost pv = piece@;
            out.push(piece);
            proof {
                assert(out@.map_values(|x: Vec<char>| x@) =~= prev.push(pv));
                assert(prev + (seq![pv] + split_pat(v@.skip(i + 3), g85())) =~= prev.push(pv) + split_pat(v@.skip(i + 3), g85()));
            }
            start = i + 3;
            i = i + 3;
            proof { assert(find_pat(v@.skip(start as int), g85()) >= 0) by { lemma_find_pat_nonneg(v@.skip(start as int), g85()); } }
        } else {
            proof {
                if i + 3 <= n {
                    assert(v@.subrange(i as int, i + 3) != g85()) by {
                        if v@.subrange(i as int, i + 3) == g85() {
                            assert(v@.subrange(i as int, i + 3)[0] == v@[i as int]);
                            assert(v@.subrange(i as int, i + 3)[1] == v@[i + 1]);
                            assert(v@.subrange(i as int, i + 3)[2] == v@[i + 2]);
                        }
                    }
                }
                lemma_find_pat_past(v@.skip(start as int), g85(), i + 1 - start, v@, start as int);
            }
            i += 1;
        }
    }
    let last = copy_range(v.as_slice(), start, n);
    proof {
        let r = v@.skip(start as int);
        assert(r =~= last@);
        lemma_find_pat_past(r, g85(), n - start, v@, start as int);
        lemma_find_pat_nonneg(r, g85());
    }
    let ghost prev = out@.map_values(|x: Vec<char>| x@);
    let ghost lv = last@;
    out.push(last);
    proof { assert(out@.map_values(|x: Vec<char>| x@) =~= prev.push(lv)); }
    out
}

proof fn lemma_find_pat_nonneg(s: Seq<char>, pat: Seq<char>)
    ensures 0 <= find_pat(s, pat) <= s.len(),
    decreases s.len(),
{
    if !(s.len() < pat.len() || pat.len() == 0) && s.take(pat.len() as int) != pat {
        lemma_find_pat_nonneg(s.drop_first(), pat);
    }
}

/// The first occurrence is at `k` when `pat` sits there and nowhere before.
proof fn lemma_find_pat_at(s: Seq<char>, pat: Seq<char>, k: int)
    requires
        pat.len() > 0, 0 <= k, k + pat.len() <= s.len(),
        s.subrange(k, k + pat.len()) == pat,
        forall|m: int| 0 <= m < k ==> #[trigger] s.subrange(m, m + pat.len()) != pat,
    ensures find_pat(s, pat) == k,
    decreases k,
{
    if k == 0 {
        assert(s.take(pat.len() as int) =~= s.subrange(0int, 0int + pat.len()));
    } else {
        assert(s.take(pat.len() as int) =~= s.subrange(0int, 0int + pat.len()));
        assert(s.subrange(0int, 0int + pat.len()) != pat);
        let t = s.drop_first();
        assert(t.subrange(k - 1, k - 1 + pat.len()) =~= s.subrange(k, k + pat.len()));
        assert forall|m: int| 0 <= m < k - 1 implies #[trigger] t.subrange(m, m + pat.len()) != pat by {
            assert(t.subrange(m, m + pat.len()) =~= s.subrange(m + 1, m + 1 + pat.len()));
        }
        lemma_find_pat_at(t, pat, k - 1);
    }
}

/// With no occurrence before `k` in `r == v.skip(start)`, the first
/// occurrence is at or after `k` (or absent when `k` reaches the end).
proof fn lemma_find_pat_past(r: Seq<char>, pat: Seq<char>, k: int, v: Seq<char>, start: int)
    requires
        pat.len() > 0, 0 <= start <= v.len(), r == v.skip(start), 0 <= k <= r.len(),
        forall|m: int| start <= m < start + k ==> !(m + pat.len() <= v.len() && #[trigger] v.subrange(m, m + pat.len()) == pat),
    ensures
        find_pat(r, pat) >= k,
        k == r.len() ==> find_pat(r, pat) == r.len(),
    decreases k,
{
    lemma_find_pat_nonneg(r, pat);
    if k > 0 && r.len() >= pat.len() {
        assert(r.take(pat.len() as int) =~= v.subrange(start, start + pat.len()));
        assert(!(start + pat.len() <= v.len() && v.subrange(start, start + pat.len()) == pat));
        let t = r.drop_first();
        assert(t =~= v.skip(start + 1));
        lemma_find_pat_past(t, pat, k - 1, v, start + 1);
        assert(find_pat(r, pat) == 1 + find_pat(t, pat));
    }
}

/// What reading an Excellon text gives: whether its holes are plated and
/// the drill hits, or the first coordinate text that cannot be read.
pub open spec fn excellon_from(ls: Seq<Seq<char>>, k: int, plated: bool, header: bool, hits: Seq<(i64, i64)>)
    -> Result<(bool, Seq<(i64, i64)>), Seq<char>>
    decreases ls.len() - k, 1int,
{
    if k < 0 || k >= ls.len() {
        Ok((plated, hits))
    } else {
        let line = trim(ls[k]);
        if line.len() > 0 && line[0] == ';' {
            excellon_from(ls, k + 1, plated && find_pat(line, non_plated()) >= line.len(), header, hits)
        } else if line == "%"@ {
            excellon_from(ls, k + 1, plated, false, hits)
        } else if header || line.len() == 0 {
            excellon_from(ls, k + 1, plated, header, hits)
        } else if line[0] == 'X' || line[0] == 'Y' {
            match drill_parts(split_pat(line, g85()), 0, hits) {
                Ok(h) => excellon_from(ls, k + 1, plated, header, h),
                Err(bad) => Err(bad),
            }
        } else {
            excellon_from(ls, k + 1, plated, header, hits)
        }
    }
}

/// The hits of the pieces of one drill line from `j` on, after `hits`.
pub open spec fn drill_parts(parts: Seq<Seq<char>>, j: int, hits: Seq<(i64, i64)>) -> Result<Seq<(i64, i64)>, Seq<char>>
    decreases parts.len() - j,
{
    if j < 0 || j >= parts.len() {
        Ok(hits)
    } else {
        match drill_xy(parts[j], 0, 0) {
            Some(p) => drill_parts(parts, j + 1, hits.push(p)),
            None => Err(parts[j]),
        }
    }
}

/// Plated drill hits from an Excellon text: whether the file is plated and
/// every hit (a slot `X..Y..G85X..Y..` gives both ends). `path` names the
/// file in the error.
pub fn parse_excellon(path: &str, text: &str) -> (r: Result<(bool, Vec<Point>), crate::error::Error>)
    ensures
        match excellon_from(lines_of(text@), 0, true, true, Seq::empty()) {
            Ok((plated, hits)) => r matches Ok((p, v)) && p == plated && coords(v@) == hits,
            Err(bad) => r matches Err(e) && e.message@ == path@ + ": bad drill line `"@ + bad + "`"@,
        },
{
    let ls = lines(text);
    let ghost lv = ls@.map_values(|x: Vec<char>| x@);
    let mut plated = true;
    let mut header = true;
    let mut hits: Vec<Point> = Vec::new();
    let mut k: usize = 0;
    proof { assert(coords(hits@) =~= Seq::<(i64, i64)>::empty()); }
    while k < ls.len()
        invariant
            k <= ls@.len(), lv == ls@.map_values(|x: Vec<char>| x@), lv == lines_of(text@),
            excellon_from(lv, 0, true, true, Seq::empty()) == excellon_from(lv, k as int, plated, header, coords(hits@)),
        decreases ls@.len() - k,
    {
        let raw = &ls[k];
        let (a, b) = trim_bounds(raw.as_slice(), 0, raw.len());
        let line = copy_range(raw.as_slice(), a, b);
        proof { assert(raw@.subrange(0, raw@.len() as int) =~= raw@); assert(line@ == trim(lv[k as int])); }
        let n = line.len();
        if n > 0 && line[0] == ';' {
            let mut found = false;
            let mut i: usize = 0;
            proof { reveal_strlit("NonPlated"); }
            while n >= 9 && i <= n - 9 && !found
                invariant
                    i <= n, n == line@.len(), "NonPlated"@ == non_plated(),
                    found ==> find_pat(line@, non_plated()) < n,
                    !found ==> forall|m: int| 0 <= m < i ==> !(m + 9 <= n && #[trigger] line@.subrange(m, m + 9) == non_plated()),
                decreases n - i + (if found { 0int } else { 1int }),
            {
                let piece = copy_range(line.as_slice(), i, i + 9);
                if is_text(&piece, "NonPlated") {
                    found = true;
                    proof {
                        assert forall|m: int| 0 <= m < i implies #[trigger] line@.subrange(m, m + non_plated().len()) != non_plated() by {
                            assert(m + 9 <= n);
                            assert(!(m + 9 <= n && line@.subrange(m, m + 9) == non_plated()));
                        }
                        lemma_find_pat_at(line@, non_plated(), i as int);
                    }
                } else {
                    i += 1;
                }
            }
            proof {
                if !found {
                    assert forall|m: int| 0 <= m < 0 + n implies !(m + non_plated().len() <= line@.len() && #[trigger] line@.subrange(m, m + non_plated().len()) == non_plated()) by {
                        if m + 9 <= n && m >= i {
                            assert(m < i);
                        }
                    }
                    assert(line@.skip(0) =~= line@);
                    lemma_find_pat_past(line@, non_plated(), n as int, line@, 0);
                }
                lemma_find_pat_nonneg(line@, non_plated());
            }
            if found {
                plated = false;
            }
        } else if is_text(&line, "%") {
            header = false;
        } else if header || n == 0 {
        } else if line[0] == 'X' || line[0] == 'Y' {
            let parts = split_g85(&line);
            let ghost pv = parts@.map_values(|x: Vec<char>| x@);
            let mut j: usize = 0;
            let ghost h0 = coords(hits@);
            proof {
                reveal_strlit("%");
                assert(line@ != "%"@) by { if line@ == "%"@ { assert(line@[0] == '%'); } }
                assert(excellon_from(lv, k as int, plated, header, h0) == (match drill_parts(pv, 0, h0) {
                    Ok(h) => excellon_from(lv, k + 1, plated, header, h),
                    Err(bad) => Err(bad),
                }));
            }
            while j < parts.len()
                invariant
                    j <= parts@.len(), pv == parts@.map_values(|x: Vec<char>| x@),
                    lv == lines_of(text@),
                    drill_parts(pv, 0, h0) == drill_parts(pv, j as int, coords(hits@)),
                    excellon_from(lv, 0, true, true, Seq::empty()) == (match drill_parts(pv, 0, h0) {
                        Ok(h) => excellon_from(lv, k + 1, plated, header, h),
                        Err(bad) => Err(bad),
                    }),
                decreases parts@.len() - j,
            {
                match read_drill_xy(&parts[j]) {
                    None => {
                        let mut m = String::new();
                        push_str(&mut m, path);
                        push_str(&mut m, ": bad drill line `");
                        push_str(&mut m, &string_from(parts[j].as_slice()));
                        push_str(&mut m, "`");
                        proof {
                            assert(pv[j as int] == parts@[j as int]@);
                            assert(drill_xy(pv[j as int], 0, 0) is None);
                            assert(drill_parts(pv, j as int, coords(hits@)) == Err::<Seq<(i64, i64)>, Seq<char>>(pv[j as int]));
                        }
                        return Err(crate::error::Error::msg(m));
                    },
                    Some(p) => {
                        let ghost prev = coords(hits@);
                        hits.push(p);
                        proof { assert(coords(hits@) =~= prev.push((p.x.0, p.y.0))); }
                    },
                }
                j += 1;
            }
        }
        k += 1;
    }
    Ok((plated, hits))
}

} // verus!
