//! Character-level helpers shared by the parsers: whitespace, ASCII case,
//! conversions between `&str`, `String` and character vectors.

use vstd::prelude::*;

verus! {

broadcast use vstd::string::group_string_axioms;

/// Unicode `White_Space`, the property behind `char::is_whitespace`.
pub open spec fn is_ws(c: char) -> bool {
    ||| ('\u{9}' <= c && c <= '\u{d}')
    ||| c == ' '
    ||| c == '\u{85}'
    ||| c == '\u{a0}'
    ||| c == '\u{1680}'
    ||| ('\u{2000}' <= c && c <= '\u{200a}')
    ||| c == '\u{2028}'
    ||| c == '\u{2029}'
    ||| c == '\u{202f}'
    ||| c == '\u{205f}'
    ||| c == '\u{3000}'
}

/// ASCII whitespace as `u8::is_ascii_whitespace` defines it.
pub open spec fn is_ascii_ws(c: char) -> bool {
    c == ' ' || c == '\t' || c == '\n' || c == '\u{c}' || c == '\r'
}

pub open spec fn is_ascii_alpha(c: char) -> bool {
    ('a' <= c && c <= 'z') || ('A' <= c && c <= 'Z')
}

pub open spec fn is_ascii_digit(c: char) -> bool {
    '0' <= c && c <= '9'
}

pub open spec fn ascii_lower(c: char) -> char {
    if 'A' <= c && c <= 'Z' { ((c as u32) + 32) as char } else { c }
}

pub open spec fn lower_seq(s: Seq<char>) -> Seq<char> {
    s.map_values(|c: char| ascii_lower(c))
}

pub fn is_whitespace(c: char) -> (b: bool)
    ensures b == is_ws(c),
{
    ('\u{9}' <= c && c <= '\u{d}') || c == ' ' || c == '\u{85}' || c == '\u{a0}' || c == '\u{1680}'
        || ('\u{2000}' <= c && c <= '\u{200a}') || c == '\u{2028}' || c == '\u{2029}' || c == '\u{202f}'
        || c == '\u{205f}' || c == '\u{3000}'
}

pub fn is_ascii_whitespace(c: char) -> (b: bool)
    ensures b == is_ascii_ws(c),
{
    c == ' ' || c == '\t' || c == '\n' || c == '\u{c}' || c == '\r'
}

pub fn to_ascii_lower(c: char) -> (r: char)
    ensures r == ascii_lower(c),
{
    if 'A' <= c && c <= 'Z' {
        let u: u32 = (c as u32) + 32;
        proof { assert(('a' as u32) <= u <= ('z' as u32)); }
        char_from_ascii(u)
    } else {
        c
    }
}

pub fn char_from_ascii(u: u32) -> (c: char)
    requires u < 128,
    ensures c == (u as char),
{
    let b: u8 = u as u8;
    b as char
}

/// The characters of `s`, in order.
pub fn chars_of(s: &str) -> (v: Vec<char>)
    ensures v@ == s@,
{
    let mut v: Vec<char> = Vec::new();
    for c in it: s.chars()
        invariant
            v@ == it.seq().take(it.index() as int), it.seq() == s@,
    {
        v.push(c);
    }
    v
}

/// `s` without leading Unicode whitespace.
pub open spec fn trim_start(s: Seq<char>) -> Seq<char>
    decreases s.len(),
{
    if s.len() > 0 && is_ws(s[0]) { trim_start(s.drop_first()) } else { s }
}

/// `s` without trailing Unicode whitespace.
pub open spec fn trim_end(s: Seq<char>) -> Seq<char>
    decreases s.len(),
{
    if s.len() > 0 && is_ws(s.last()) { trim_end(s.drop_last()) } else { s }
}

/// `str::trim`: both ends.
pub open spec fn trim(s: Seq<char>) -> Seq<char> {
    trim_end(trim_start(s))
}

pub proof fn lemma_trim_start_at(s: Seq<char>, i: int)
    requires
        0 <= i <= s.len(),
        forall|j: int| 0 <= j < i ==> is_ws(s[j]),
        i == s.len() || !is_ws(s[i]),
    ensures trim_start(s) == s.subrange(i, s.len() as int),
    decreases i,
{
    if i == 0 {
        assert(s.subrange(0, s.len() as int) == s);
    } else {
        let t = s.drop_first();
        assert forall|j: int| 0 <= j < i - 1 implies is_ws(t[j]) by { assert(t[j] == s[j + 1]); }
        if i < s.len() { assert(t[i - 1] == s[i]); }
        lemma_trim_start_at(t, i - 1);
        assert(t.subrange(i - 1, t.len() as int) == s.subrange(i, s.len() as int));
    }
}

pub proof fn lemma_trim_end_at(s: Seq<char>, k: int)
    requires
        0 <= k <= s.len(),
        forall|j: int| k <= j < s.len() ==> is_ws(s[j]),
        k == 0 || !is_ws(s[k - 1]),
    ensures trim_end(s) == s.subrange(0, k),
    decreases s.len() - k,
{
    if k == s.len() {
        assert(s.subrange(0, k) == s);
    } else {
        let t = s.drop_last();
        assert forall|j: int| k <= j < t.len() implies is_ws(t[j]) by { assert(t[j] == s[j]); }
        if k > 0 { assert(t[k - 1] == s[k - 1]); }
        lemma_trim_end_at(t, k);
        assert(t.subrange(0, k) == s.subrange(0, k));
    }
}

/// Bounds of `v` trimmed of Unicode whitespace at both ends.
pub fn trim_bounds(v: &[char], lo: usize, hi: usize) -> (r: (usize, usize))
    requires lo <= hi <= v@.len(),
    ensures
        lo <= r.0 <= r.1 <= hi,
        v@.subrange(r.0 as int, r.1 as int) == trim(v@.subrange(lo as int, hi as int)),
{
    let ghost s = v@.subrange(lo as int, hi as int);
    let mut a = lo;
    while a < hi && is_whitespace(v[a])
        invariant lo <= a <= hi <= v@.len(), forall|j: int| lo <= j < a ==> is_ws(v@[j]),
        decreases hi - a,
    {
        a += 1;
    }
    proof {
        assert forall|j: int| 0 <= j < a - lo implies is_ws(s[j]) by { assert(s[j] == v@[lo + j]); }
        if a < hi { assert(s[a - lo] == v@[a as int]); }
        lemma_trim_start_at(s, a - lo);
    }
    let ghost t = s.subrange(a - lo, s.len() as int);
    assert(t == v@.subrange(a as int, hi as int));
    let mut b = hi;
    while b > a && is_whitespace(v[b - 1])
        invariant lo <= a <= b <= hi <= v@.len(), forall|j: int| b <= j < hi ==> is_ws(v@[j]),
        decreases b - a,
    {
        b -= 1;
    }
    proof {
        assert forall|j: int| b - a <= j < t.len() implies is_ws(t[j]) by { assert(t[j] == v@[a + j]); }
        if b > a { assert(t[b - a - 1] == v@[b - 1]); }
        lemma_trim_end_at(t, b - a);
        assert(t.subrange(0, b - a) == v@.subrange(a as int, b as int));
    }
    (a, b)
}

/// Index of the first ASCII letter in `s`, or `s.len()`.
pub open spec fn first_alpha(s: Seq<char>) -> int
    decreases s.len(),
{
    if s.len() == 0 { 0 } else if is_ascii_alpha(s[0]) { 0 } else { 1 + first_alpha(s.drop_first()) }
}

pub proof fn lemma_first_alpha_at(s: Seq<char>, i: int)
    requires 0 <= i <= s.len(), forall|j: int| 0 <= j < i ==> !is_ascii_alpha(s[j]), i == s.len() || is_ascii_alpha(s[i]),
    ensures first_alpha(s) == i,
    decreases i,
{
    if i > 0 {
        let t = s.drop_first();
        assert forall|j: int| 0 <= j < i - 1 implies !is_ascii_alpha(t[j]) by { assert(t[j] == s[j + 1]); }
        if i < s.len() { assert(t[i - 1] == s[i]); }
        lemma_first_alpha_at(t, i - 1);
    }
}

/// Position of the first ASCII letter of `v[lo..hi]`, or `hi`.
pub fn find_alpha(v: &[char], lo: usize, hi: usize) -> (r: usize)
    requires lo <= hi <= v@.len(),
    ensures lo <= r <= hi, r - lo == first_alpha(v@.subrange(lo as int, hi as int)),
{
    let mut i = lo;
    while i < hi && !(('a' <= v[i] && v[i] <= 'z') || ('A' <= v[i] && v[i] <= 'Z'))
        invariant lo <= i <= hi <= v@.len(), forall|j: int| lo <= j < i ==> !is_ascii_alpha(v@[j]),
        decreases hi - i,
    {
        i += 1;
    }
    proof {
        let s = v@.subrange(lo as int, hi as int);
        assert forall|j: int| 0 <= j < i - lo implies !is_ascii_alpha(s[j]) by { assert(s[j] == v@[lo + j]); }
        if i < hi { assert(s[i - lo] == v@[i as int]); }
        lemma_first_alpha_at(s, i - lo);
    }
    i
}

/// `String::push`: appends one character.
#[verifier::external_body]
pub fn push_char(s: &mut String, c: char)
    ensures final(s)@ == old(s)@.push(c),
{
    s.push(c);
}

/// Appends `t` to `s`.
pub fn push_str(s: &mut String, t: &str)
    ensures final(s)@ == old(s)@ + t@,
{
    s.append(t);
}

/// A `String` holding `v[lo..hi]`.
pub fn string_of(v: &[char], lo: usize, hi: usize) -> (s: String)
    requires lo <= hi <= v@.len(),
    ensures s@ == v@.subrange(lo as int, hi as int),
{
    let mut s = String::new();
    let mut i = lo;
    while i < hi
        invariant lo <= i <= hi <= v@.len(), s@ == v@.subrange(lo as int, i as int),
        decreases hi - i,
    {
        push_char(&mut s, v[i]);
        assert(v@.subrange(lo as int, i + 1) == v@.subrange(lo as int, i as int).push(v@[i as int]));
        i += 1;
    }
    s
}

/// A `String` holding all of `v`.
pub fn string_from(v: &[char]) -> (s: String)
    ensures s@ == v@,
{
    let s = string_of(v, 0, v.len());
    assert(v@.subrange(0, v@.len() as int) == v@);
    s
}

pub fn cat2(a: &str, b: &str) -> (s: String)
    ensures s@ == a@ + b@,
{
    let mut s = a.to_owned();
    push_str(&mut s, b);
    s
}

pub fn cat3(a: &str, b: &str, c: &str) -> (s: String)
    ensures s@ == a@ + b@ + c@,
{
    let mut s = a.to_owned();
    push_str(&mut s, b);
    push_str(&mut s, c);
    s
}

pub fn cat5(a: &str, b: &str, c: &str, d: &str, e: &str) -> (s: String)
    ensures s@ == a@ + b@ + c@ + d@ + e@,
{
    let mut s = a.to_owned();
    push_str(&mut s, b);
    push_str(&mut s, c);
    push_str(&mut s, d);
    push_str(&mut s, e);
    s
}

/// The characters of `v[lo..hi]` with ASCII letters lowered.
pub fn lower_vec(v: &[char], lo: usize, hi: usize) -> (r: Vec<char>)
    requires lo <= hi <= v@.len(),
    ensures r@ == lower_seq(v@.subrange(lo as int, hi as int)),
{
    let mut r: Vec<char> = Vec::new();
    let mut i = lo;
    while i < hi
        invariant lo <= i <= hi <= v@.len(), r@ == lower_seq(v@.subrange(lo as int, i as int)),
        decreases hi - i,
    {
        r.push(to_ascii_lower(v[i]));
        assert(lower_seq(v@.subrange(lo as int, i + 1)) == lower_seq(v@.subrange(lo as int, i as int)).push(ascii_lower(v@[i as int])));
        i += 1;
    }
    r
}


/// The position of the first `c` in `v[lo..hi]`, or `hi` where there is none.
pub fn find_in(v: &[char], lo: usize, hi: usize, c: char) -> (r: usize)
    requires lo <= hi <= v@.len(),
    ensures r == lo + crate::decimal::find_char(v@.subrange(lo as int, hi as int), c), lo <= r <= hi,
{
    let mut i = lo;
    while i < hi && v[i] != c
        invariant
            lo <= i <= hi <= v@.len(),
            crate::decimal::find_char(v@.subrange(lo as int, hi as int), c)
                == (i - lo) + crate::decimal::find_char(v@.subrange(i as int, hi as int), c),
        decreases hi - i,
    {
        proof { assert(v@.subrange(i as int, hi as int).drop_first() =~= v@.subrange(i + 1, hi as int)); }
        i += 1;
    }
    i
}

/// A copy of `v[lo..hi]`.
pub fn copy_range(v: &[char], lo: usize, hi: usize) -> (r: Vec<char>)
    requires lo <= hi <= v@.len(),
    ensures r@ == v@.subrange(lo as int, hi as int),
{
    let mut r: Vec<char> = Vec::new();
    let mut i = lo;
    while i < hi
        invariant lo <= i <= hi <= v@.len(), r@ == v@.subrange(lo as int, i as int),
        decreases hi - i,
    {
        r.push(v[i]);
        proof { assert(v@.subrange(lo as int, i + 1) =~= v@.subrange(lo as int, i as int).push(v@[i as int])); }
        i += 1;
    }
    r
}


/// Whether two texts are equal.
pub fn same_str(a: &str, b: &str) -> (r: bool)
    ensures r == (a@ == b@),
{
    let va = chars_of(a);
    let vb = chars_of(b);
    if va.len() != vb.len() {
        return false;
    }
    let mut i: usize = 0;
    while i < va.len()
        invariant i <= va@.len(), va@.len() == vb@.len(), va@ == a@, vb@ == b@,
            forall|j: int| 0 <= j < i ==> va@[j] == vb@[j],
        decreases va@.len() - i,
    {
        if va[i] != vb[i] {
            return false;
        }
        i += 1;
    }
    proof { assert(va@ =~= vb@); }
    true
}


/// Texts joined with `sep` between each two.
pub open spec fn join_text(parts: Seq<Seq<char>>, sep: Seq<char>) -> Seq<char>
    decreases parts.len(),
{
    if parts.len() == 0 {
        Seq::empty()
    } else if parts.len() == 1 {
        parts[0]
    } else {
        join_text(parts.drop_last(), sep) + sep + parts.last()
    }
}

/// Texts joined with `sep` between each two.
pub fn join_strings(parts: &Vec<String>, sep: &str) -> (r: String)
    ensures r@ == join_text(parts@.map_values(|s: String| s@), sep@),
{
    let ghost pv = parts@.map_values(|s: String| s@);
    let mut out = String::new();
    let mut i: usize = 0;
    proof { assert(pv.take(0) =~= Seq::<Seq<char>>::empty()); }
    while i < parts.len()
        invariant i <= parts@.len(), pv == parts@.map_values(|s: String| s@), out@ == join_text(pv.take(i as int), sep@),
        decreases parts@.len() - i,
    {
        proof {
            assert(pv.take(i + 1).drop_last() =~= pv.take(i as int));
            assert(pv.take(i + 1).last() == parts@[i as int]@);
        }
        if i > 0 {
            push_str(&mut out, sep);
        }
        push_str(&mut out, parts[i].as_str());
        proof {
            if i == 0 { assert(pv.take(1) =~= seq![parts@[0]@]); }
            assert(out@ =~= join_text(pv.take(i + 1), sep@));
        }
        i += 1;
    }
    proof { assert(pv.take(parts@.len() as int) =~= pv); }
    out
}


/// The pieces of `s` between the characters `c`, empty pieces included.
pub open spec fn split_char(s: Seq<char>, c: char) -> Seq<Seq<char>>
    decreases s.len(),
{
    if s.len() == 0 {
        seq![Seq::empty()]
    } else {
        let p = split_char(s.drop_last(), c);
        if s.last() == c {
            p.push(Seq::empty())
        } else if p.len() == 0 {
            seq![seq![s.last()]]
        } else {
            p.update(p.len() - 1, p.last().push(s.last()))
        }
    }
}

pub proof fn lemma_split_char_nonempty(s: Seq<char>, c: char)
    ensures split_char(s, c).len() >= 1,
    decreases s.len(),
{
    if s.len() > 0 { lemma_split_char_nonempty(s.drop_last(), c); }
}

/// A line without the carriage return of its `\r\n` ending.
pub open spec fn strip_cr(l: Seq<char>) -> Seq<char> {
    if l.len() > 0 && l.last() == '\r' { l.drop_last() } else { l }
}

/// The lines of a text as `str::lines` gives them: split at `\n`, each
/// line that a `\n` ends without a `\r` before it, and no empty last line.
pub open spec fn lines_of(s: Seq<char>) -> Seq<Seq<char>> {
    let ps = split_char(s, '\n');
    let n = ps.len() as int;
    let body = ps.take(n - 1).map_values(|l: Seq<char>| strip_cr(l));
    if ps[n - 1].len() == 0 { body } else { body.push(ps[n - 1]) }
}

/// The pieces of `v` between the characters `c`.
pub fn split_on(v: &Vec<char>, c: char) -> (r: Vec<Vec<char>>)
    ensures r@.map_values(|x: Vec<char>| x@) == split_char(v@, c),
{
    let mut out: Vec<Vec<char>> = Vec::new();
    let mut cur: Vec<char> = Vec::new();
    let mut i: usize = 0;
    proof { assert(v@.take(0) =~= Seq::<char>::empty()); }
    while i < v.len()
        invariant
            i <= v@.len(),
            out@.map_values(|x: Vec<char>| x@).push(cur@) == split_char(v@.take(i as int), c),
        decreases v@.len() - i,
    {
        let d = v[i];
        let ghost prev = out@.map_values(|x: Vec<char>| x@).push(cur@);
        proof {
            assert(v@.take(i + 1).drop_last() =~= v@.take(i as int));
            assert(v@.take(i + 1).last() == d);
            lemma_split_char_nonempty(v@.take(i as int), c);
        }
        if d == c {
            let done = cur;
            out.push(done);
            cur = Vec::new();
            proof { assert(out@.map_values(|x: Vec<char>| x@).push(cur@) =~= prev.push(Seq::<char>::empty())); }
        } else {
            cur.push(d);
            proof { assert(out@.map_values(|x: Vec<char>| x@).push(cur@) =~= prev.update(prev.len() - 1, prev.last().push(d))); }
        }
        i += 1;
    }
    out.push(cur);
    proof { assert(v@.take(v@.len() as int) =~= v@); }
    out
}

/// The lines of a text, as `str::lines` gives them.
pub fn lines(text: &str) -> (r: Vec<Vec<char>>)
    ensures r@.map_values(|x: Vec<char>| x@) == lines_of(text@),
{
    let v = chars_of(text);
    let ps = split_on(&v, '\n');
    let ghost pv = ps@.map_values(|x: Vec<char>| x@);
    proof { lemma_split_char_nonempty(v@, '\n'); }
    let n = ps.len();
    let mut out: Vec<Vec<char>> = Vec::new();
    let mut i: usize = 0;
    while i + 1 < n
        invariant
            i + 1 <= n, n == ps@.len(), pv == ps@.map_values(|x: Vec<char>| x@),
            out@.map_values(|x: Vec<char>| x@) == pv.take(i as int).map_values(|l: Seq<char>| strip_cr(l)),
        decreases n - i,
    {
        let l = &ps[i];
        let k = l.len();
        let end = if k > 0 && l[k - 1] == '\r' { k - 1 } else { k };
        let line = copy_range(l.as_slice(), 0, end);
        proof {
            assert(line@ == strip_cr(pv[i as int])) by {
                if k > 0 && l@[k - 1] == '\r' { assert(l@.subrange(0, k - 1) =~= l@.drop_last()); }
                else { assert(l@.subrange(0, k as int) =~= l@); }
            }
        }
        let ghost prev = out@.map_values(|x: Vec<char>| x@);
        let ghost lv = line@;
        out.push(line);
        proof {
            assert(out@.map_values(|x: Vec<char>| x@) =~= prev.push(lv));
            assert(out@.map_values(|x: Vec<char>| x@) =~= pv.take(i + 1).map_values(|l: Seq<char>| strip_cr(l)));
        }
        i += 1;
    }
    let last = &ps[n - 1];
    if last.len() > 0 {
        let line = copy_range(last.as_slice(), 0, last.len());
        proof { assert(last@.subrange(0, last@.len() as int) =~= last@); }
        let ghost prev = out@.map_values(|x: Vec<char>| x@);
        let ghost lv = line@;
        out.push(line);
        proof { assert(out@.map_values(|x: Vec<char>| x@) =~= prev.push(lv)); }
    }
    out
}

} // verus!
