//! The library's error: a message and an optional hint, as a user sees them.

use vstd::prelude::*;
use crate::text::{push_str, join_text};
use crate::numfmt::{nat_digits, push_nat};
use crate::text::chars_of;
use crate::decimal::find_char;
use crate::emit::lemma_find_char_le;
use crate::utf8len::{byte_offset, offsets, lemma_encode_concat};
use vstd::utf8::encode_utf8;

verus! {

#[derive(Clone, Debug, PartialEq, Eq)]
pub struct Error {
    pub message: String,
    pub help: Option<String>,
}

impl Error {
    pub fn msg(message: String) -> (e: Error)
        ensures e.message@ == message@, e.help is None,
    {
        Error { message, help: None }
    }

    pub fn with_help(message: String, help: String) -> (e: Error)
        ensures e.message@ == message@, e.help matches Some(h) && h@ == help@,
    {
        Error { message, help: Some(help) }
    }
}


impl Error {
    /// The same error with the hint `h`.
    pub fn help(self, h: String) -> (e: Error)
        ensures e.message@ == self.message@, e.help matches Some(x) && x@ == h@,
    {
        Error { message: self.message, help: Some(h) }
    }
}

/// Names as an error message lists them: each in backquotes, separated by
/// commas, the first twenty only and then how many more; `(none)` for none.
pub open spec fn names_text(names: Seq<Seq<char>>) -> Seq<char> {
    if names.len() == 0 {
        "(none)"@
    } else {
        let shown = names.take(if names.len() > 20 { 20 } else { names.len() as int })
            .map_values(|s: Seq<char>| "`"@ + s + "`"@);
        join_text(shown, ", "@) + (if names.len() > 20 { ", … ("@ + nat_digits((names.len() - 20) as nat) + " more)"@ } else { Seq::empty() })
    }
}

/// Format a list of names for an error message, truncated if long.
pub fn list_names(names: &Vec<String>) -> (r: String)
    ensures r@ == names_text(names@.map_values(|s: String| s@)),
{
    let ghost nv = names@.map_values(|s: String| s@);
    let n = names.len();
    if n == 0 {
        return String::from_str("(none)");
    }
    let lim: usize = if n > 20 { 20 } else { n };
    let ghost shown = nv.take(lim as int).map_values(|s: Seq<char>| "`"@ + s + "`"@);
    let mut out = String::new();
    let mut i: usize = 0;
    proof { assert(shown.take(0) =~= Seq::<Seq<char>>::empty()); }
    while i < lim
        invariant
            i <= lim <= n, n == names@.len(), nv == names@.map_values(|s: String| s@),
            shown == nv.take(lim as int).map_values(|s: Seq<char>| "`"@ + s + "`"@),
            out@ == join_text(shown.take(i as int), ", "@),
        decreases lim - i,
    {
        proof {
            assert(shown.take(i + 1).drop_last() =~= shown.take(i as int));
            assert(shown.take(i + 1).last() == "`"@ + names@[i as int]@ + "`"@);
        }
        if i > 0 {
            push_str(&mut out, ", ");
        }
        push_str(&mut out, "`");
        push_str(&mut out, names[i].as_str());
        push_str(&mut out, "`");
        proof {
            if i == 0 { assert(shown.take(1) =~= seq![shown[0]]); }
            assert(out@ =~= join_text(shown.take(i + 1), ", "@));
        }
        i += 1;
    }
    proof { assert(shown.take(lim as int) =~= shown); }
    if n > 20 {
        push_str(&mut out, ", … (");
        push_nat(&mut out, (n - 20) as u64);
        push_str(&mut out, " more)");
    } else {
        proof { assert(out@ + Seq::<char>::empty() =~= out@); }
    }
    out
}

/// The part of a text of `text_len` bytes that an error at byte `offset`,
/// `len` bytes long, points at: both clamped to the text.
pub open spec fn span_of(text_len: int, offset: int, len: int) -> (int, int) {
    let o = if offset < text_len { offset } else { text_len };
    let rest = if text_len - offset > 0 { text_len - offset } else { 0 };
    (o, if len < rest { len } else { rest })
}

/// The start and length of the span an error in a source file points at.
pub fn source_span(text: &str, offset: usize, len: usize) -> (r: (usize, usize))
    ensures
        r.1 == span_of(encode_utf8(text@).len() as int, offset as int, len as int).1,
        r.0 == span_of(encode_utf8(text@).len() as int, offset as int, len as int).0,
{
    let n = text.as_bytes().len();
    let o = if offset < n { offset } else { n };
    let rest = n.saturating_sub(offset);
    (o, if len < rest { len } else { rest })
}

/// The byte offset of a 1-based `line` and `col` in `s`, whose first line
/// is line `k`. The lines are the pieces `str::split_inclusive('\n')` gives,
/// each with its `\n`; the column is clamped to its line, and a line the
/// text does not reach gives the end of the text.
pub open spec fn line_col_offset(s: Seq<char>, k: int, line: int, col: int) -> int
    decreases s.len(),
{
    if s.len() == 0 {
        0
    } else {
        let j = find_char(s, '\n');
        let e = if j < s.len() { j + 1 } else { s.len() as int };
        let w = encode_utf8(s.take(e)).len() as int;
        if k == line {
            if col - 1 <= 0 { 0 } else if col - 1 < w { col - 1 } else { w }
        } else {
            proof { lemma_find_char_le(s, '\n'); }
            w + line_col_offset(s.skip(e), k + 1, line, col)
        }
    }
}

/// The byte offset in `text` of a 1-based line and column, as a JSON
/// reader reports them.
pub fn line_col_to_offset(text: &str, line: usize, col: usize) -> (r: usize)
    ensures r == line_col_offset(text@, 1, line as int, col as int),
{
    let v = chars_of(text);
    let offs = offsets(text, &v);
    let n = v.len();
    assert(offs.len() == n + 1);
    let mut i: usize = 0;
    let mut k: usize = 1;
    proof { assert(v@.skip(0) =~= v@); }
    while i < n
        invariant
            i <= n == v@.len(), n < usize::MAX, v@ == text@, 1 <= k <= i + 1, offs@.len() == n + 1,
            forall|j: int| 0 <= j <= v@.len() ==> offs@[j] == byte_offset(v@, j),
            offs@[i as int] + line_col_offset(v@.skip(i as int), k as int, line as int, col as int)
                == line_col_offset(text@, 1, line as int, col as int),
        decreases n - i,
    {
        let ghost s = v@.skip(i as int);
        let j = crate::text::find_in(v.as_slice(), i, n, '\n');
        proof {
            assert(v@.subrange(i as int, n as int) =~= s);
            lemma_find_char_le(s, '\n');
        }
        let e = if j < n { j + 1 } else { n };
        proof {
            assert(v@.take(e as int) =~= v@.take(i as int) + s.take(e - i));
            lemma_encode_concat(v@.take(i as int), s.take(e - i));
            assert(s.skip(e - i) =~= v@.skip(e as int));
        }
        let w = offs[e] - offs[i];
        if k == line {
            let c = col.saturating_sub(1);
            let c2 = if c < w { c } else { w };
            return offs[i] + c2;
        }
        i = e;
        k = k + 1;
    }
    proof { assert(v@.skip(n as int).len() == 0); }
    offs[n]
}

} // verus!
