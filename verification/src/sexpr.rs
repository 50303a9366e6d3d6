//! A small s-expression reader with byte spans for error reporting, and the
//! quoting rule for tokens written back out.

use vstd::prelude::*;
use crate::text::{is_ascii_ws, is_ws, ascii_lower, lower_seq, chars_of, string_of, string_from, push_char,
    is_whitespace, is_ascii_whitespace, to_ascii_lower};
use crate::utf8len::{byte_offset, offsets, lemma_offset_step};
use vstd::utf8::encode_utf8;

verus! {

/// A parsed s-expression: an atom or a list, with its byte span.
#[derive(Debug, PartialEq)]
pub enum Node {
    Atom { text: String, start: usize, end: usize },
    List { items: Vec<Node>, start: usize, end: usize },
}

/// The mathematical form of a [`Node`].
pub enum SNode {
    Atom(Seq<char>, nat, nat),
    List(Seq<SNode>, nat, nat),
}

/// The mathematical form of a node, item by item.
pub open spec fn node_view(n: Node) -> SNode
    decreases n,
{
    match n {
        Node::Atom { text, start, end } => SNode::Atom(text@, start as nat, end as nat),
        Node::List { items, start, end } => SNode::List(
            Seq::new(items@.len(), |i: int| {
                if 0 <= i < items@.len() {
                    proof { assert(decreases_to!(n => items)); }
                    node_view(items@[i])
                } else {
                    SNode::Atom(Seq::empty(), 0, 0)
                }
            }),
            start as nat,
            end as nat,
        ),
    }
}

impl View for Node {
    type V = SNode;

    open spec fn view(&self) -> SNode {
        node_view(*self)
    }
}

/// The view of a list node is the view of each of its items.
pub proof fn lemma_list_view(n: Node)
    requires n is List,
    ensures
        n matches Node::List { items, start, end } && n@ == SNode::List(
            items@.map_values(|x: Node| x@), start as nat, end as nat),
{
    if let Node::List { items, start, end } = n {
        assert(n@->List_0.len() == items@.len());
        assert forall|i: int| 0 <= i < items@.len() implies #[trigger] n@->List_0[i] == items@[i]@ by {}
        assert(n@->List_0 =~= items@.map_values(|x: Node| x@));
    }
}

impl SNode {
    /// The byte span.
    pub open spec fn span(self) -> (nat, nat) {
        match self {
            SNode::Atom(_, a, b) => (a, b),
            SNode::List(_, a, b) => (a, b),
        }
    }

    /// The text of an atom.
    pub open spec fn atom(self) -> Option<Seq<char>> {
        match self {
            SNode::Atom(t, _, _) => Some(t),
            SNode::List(..) => None,
        }
    }

    /// The items of a list; an atom has none.
    pub open spec fn items(self) -> Seq<SNode> {
        match self {
            SNode::List(its, _, _) => its,
            SNode::Atom(..) => Seq::empty(),
        }
    }

    /// The head keyword: the first item, where it is an atom.
    pub open spec fn head(self) -> Option<Seq<char>> {
        if self.items().len() > 0 { self.items()[0].atom() } else { None }
    }

    /// Whether the head equals `name`, ignoring ASCII case.
    pub open spec fn is(self, name: Seq<char>) -> bool {
        match self.head() {
            Some(h) => lower_seq(h) == lower_seq(name),
            None => false,
        }
    }

    /// The atom arguments after the head.
    pub open spec fn args(self) -> Seq<Seq<char>> {
        if self.items().len() == 0 { Seq::empty() } else { atoms_of(self.items().skip(1)) }
    }

    /// The atom at index `i` of the items (0 is the head).
    pub open spec fn arg(self, i: int) -> Option<Seq<char>> {
        if 0 <= i < self.items().len() { self.items()[i].atom() } else { None }
    }
}

/// The nodes of `s` whose head is `name`, in order.
pub open spec fn heads_named(s: Seq<SNode>, name: Seq<char>) -> Seq<SNode> {
    s.filter(|n: SNode| n.is(name))
}

/// The texts of the atoms of `s`, in order.
pub open spec fn atoms_of(s: Seq<SNode>) -> Seq<Seq<char>>
    decreases s.len(),
{
    if s.len() == 0 {
        Seq::empty()
    } else {
        match s.last().atom() {
            Some(t) => atoms_of(s.drop_last()).push(t),
            None => atoms_of(s.drop_last()),
        }
    }
}

/// Why a text is not a sequence of s-expressions.
#[derive(Clone, Copy, PartialEq, Eq, Structural, Debug)]
pub enum SexprError {
    UnexpectedEof,
    Unclosed,
    UnexpectedClose,
    Unterminated,
}

/// The reason for a parse failure, as a user reads it.
pub open spec fn reason_text(e: SexprError) -> Seq<char> {
    match e {
        SexprError::UnexpectedEof => "unexpected end of file"@,
        SexprError::Unclosed => "unclosed `(`"@,
        SexprError::UnexpectedClose => "unexpected `)`"@,
        SexprError::Unterminated => "unterminated string"@,
    }
}

impl SexprError {
    /// The reason as a user reads it.
    pub fn reason(&self) -> (r: &'static str)
        ensures r@ == reason_text(*self),
    {
        match self {
            SexprError::UnexpectedEof => "unexpected end of file",
            SexprError::Unclosed => "unclosed `(`",
            SexprError::UnexpectedClose => "unexpected `)`",
            SexprError::Unterminated => "unterminated string",
        }
    }
}

/// A parse failure: where (byte offset) and why.
#[derive(Clone, Copy, Debug, PartialEq, Eq)]
pub struct ParseFailure {
    pub at: usize,
    pub kind: SexprError,
}

pub open spec fn is_delim(c: char) -> bool {
    is_ascii_ws(c) || c == '(' || c == ')'
}

/// Skip ASCII whitespace and `#` comments that start a line.
pub open spec fn skip(s: Seq<char>, p: int, comment: bool) -> int
    decreases s.len() - p,
{
    if p < 0 || p >= s.len() {
        p
    } else if comment {
        if s[p] == '\n' { skip(s, p + 1, false) } else { skip(s, p + 1, true) }
    } else if is_ascii_ws(s[p]) {
        skip(s, p + 1, false)
    } else if s[p] == '#' && (p == 0 || s[p - 1] == '\n') {
        skip(s, p + 1, true)
    } else {
        p
    }
}

/// End of a bare atom starting at `p`.
pub open spec fn bare_end(s: Seq<char>, p: int) -> int
    decreases s.len() - p,
{
    if p < 0 || p >= s.len() || is_delim(s[p]) { p } else { bare_end(s, p + 1) }
}

/// Body of a quoted string from `p` (after the opening quote): its text and
/// the position after the closing quote.
pub open spec fn quoted(s: Seq<char>, p: int) -> Option<(Seq<char>, int)>
    decreases s.len() - p,
{
    if p < 0 || p >= s.len() {
        None
    } else if s[p] == '"' {
        Some((Seq::empty(), p + 1))
    } else if s[p] == '\\' && p + 1 < s.len() {
        match quoted(s, p + 2) {
            Some((t, e)) => Some((seq![s[p + 1]] + t, e)),
            None => None,
        }
    } else {
        match quoted(s, p + 1) {
            Some((t, e)) => Some((seq![s[p]] + t, e)),
            None => None,
        }
    }
}

pub proof fn lemma_skip_ge(s: Seq<char>, p: int, comment: bool)
    ensures skip(s, p, comment) >= p,
    decreases s.len() - p,
{
    if 0 <= p < s.len() {
        if comment {
            if s[p] == '\n' { lemma_skip_ge(s, p + 1, false); } else { lemma_skip_ge(s, p + 1, true); }
        } else if is_ascii_ws(s[p]) {
            lemma_skip_ge(s, p + 1, false);
        } else if s[p] == '#' && (p == 0 || s[p - 1] == '\n') {
            lemma_skip_ge(s, p + 1, true);
        }
    }
}

pub proof fn lemma_bare_end_ge(s: Seq<char>, p: int)
    ensures bare_end(s, p) >= p,
    decreases s.len() - p,
{
    if 0 <= p < s.len() && !is_delim(s[p]) { lemma_bare_end_ge(s, p + 1); }
}

pub proof fn lemma_quoted_gt(s: Seq<char>, p: int)
    ensures quoted(s, p) matches Some((_, e)) ==> e > p && e <= s.len(),
    decreases s.len() - p,
{
    if 0 <= p < s.len() && s[p] != '"' {
        if s[p] == '\\' && p + 1 < s.len() { lemma_quoted_gt(s, p + 2); } else { lemma_quoted_gt(s, p + 1); }
    }
}

/// One node starting at or after `p`: the node and the position after it,
/// or the failure and the character position it is reported at.
pub open spec fn node_at(s: Seq<char>, p: int) -> Result<(SNode, int), (int, SexprError)>
    decreases s.len() - p, 0int,
{
    let q = skip(s, p, false);
    if p < 0 || q < p || q >= s.len() {
        Err((q, SexprError::UnexpectedEof))
    } else if s[q] == '(' {
        match items_at(s, q + 1, q) {
            Ok((its, e)) => Ok((SNode::List(its, byte_offset(s, q), byte_offset(s, e)), e)),
            Err(x) => Err(x),
        }
    } else if s[q] == ')' {
        Err((q, SexprError::UnexpectedClose))
    } else if s[q] == '"' {
        match quoted(s, q + 1) {
            Some((t, e)) => Ok((SNode::Atom(t, byte_offset(s, q), byte_offset(s, e)), e)),
            None => Err((q, SexprError::Unterminated)),
        }
    } else {
        let e = bare_end(s, q);
        Ok((SNode::Atom(s.subrange(q, e), byte_offset(s, q), byte_offset(s, e)), e))
    }
}

/// The items of a list whose `(` is at `open`, from `p` to the closing `)`.
pub open spec fn items_at(s: Seq<char>, p: int, open: int) -> Result<(Seq<SNode>, int), (int, SexprError)>
    decreases s.len() - p, 1int,
{
    let q = skip(s, p, false);
    if p < 0 || q < p || q >= s.len() {
        Err((open, SexprError::Unclosed))
    } else if s[q] == ')' {
        Ok((Seq::empty(), q + 1))
    } else {
        match node_at(s, q) {
            Err(x) => Err(x),
            Ok((n, e)) => {
                if e <= q || e > s.len() {
                    Err((q, SexprError::UnexpectedEof))
                } else {
                    match items_at(s, e, open) {
                        Ok((rest, f)) => Ok((seq![n] + rest, f)),
                        Err(x) => Err(x),
                    }
                }
            },
        }
    }
}

/// All top-level nodes from `p` to the end.
pub open spec fn nodes_from(s: Seq<char>, p: int) -> Result<Seq<SNode>, (int, SexprError)>
    decreases s.len() - p,
{
    let q = skip(s, p, false);
    if p < 0 || q < p || q >= s.len() {
        Ok(Seq::empty())
    } else {
        match node_at(s, q) {
            Err(x) => Err(x),
            Ok((n, e)) => {
                if e <= q || e > s.len() {
                    Err((q, SexprError::UnexpectedEof))
                } else {
                    match nodes_from(s, e) {
                        Ok(rest) => Ok(seq![n] + rest),
                        Err(x) => Err(x),
                    }
                }
            },
        }
    }
}

/// The whole text read as s-expressions; failures carry a byte offset.
pub open spec fn read_sexprs(s: Seq<char>) -> Result<Seq<SNode>, (nat, SexprError)> {
    match nodes_from(s, 0) {
        Ok(ns) => Ok(ns),
        Err((at, k)) => Err((byte_offset(s, at), k)),
    }
}

pub proof fn lemma_node_end(s: Seq<char>, p: int)
    requires 0 <= p,
    ensures node_at(s, p) matches Ok((_, e)) ==> skip(s, p, false) < e <= s.len(),
    decreases s.len() - p, 0int,
{
    lemma_skip_ge(s, p, false);
    let q = skip(s, p, false);
    if q >= p && q < s.len() {
        if s[q] == '(' {
            lemma_items_end(s, q + 1, q);
        } else if s[q] == '"' {
            lemma_quoted_gt(s, q + 1);
        } else if s[q] != ')' {
            lemma_skip_stop(s, p, false);
            lemma_bare_end_ge(s, q + 1);
            lemma_bare_end_le(s, q + 1);
        }
    }
}

/// Where skipping stops inside the text, no whitespace and no comment starts.
pub proof fn lemma_skip_stop(s: Seq<char>, p: int, comment: bool)
    requires 0 <= p,
    ensures
        skip(s, p, comment) < s.len() ==> {
            let q = skip(s, p, comment);
            &&& !is_ascii_ws(s[q])
            &&& !(s[q] == '#' && (q == 0 || s[q - 1] == '\n'))
        },
    decreases s.len() - p,
{
    if p < s.len() {
        if comment {
            if s[p] == '\n' { lemma_skip_stop(s, p + 1, false); } else { lemma_skip_stop(s, p + 1, true); }
        } else if is_ascii_ws(s[p]) {
            lemma_skip_stop(s, p + 1, false);
        } else if s[p] == '#' && (p == 0 || s[p - 1] == '\n') {
            lemma_skip_stop(s, p + 1, true);
        }
    }
}

pub proof fn lemma_items_end(s: Seq<char>, p: int, open: int)
    requires 0 <= p,
    ensures items_at(s, p, open) matches Ok((_, e)) ==> p < e <= s.len(),
    decreases s.len() - p, 1int,
{
    lemma_skip_ge(s, p, false);
    let q = skip(s, p, false);
    if q >= p && q < s.len() && s[q] != ')' {
        lemma_node_end(s, q);
        if let Ok((n, e)) = node_at(s, q) {
            if e > q {
                lemma_items_end(s, e, open);
            }
        }
    }
}

proof fn lemma_bare_end_le(s: Seq<char>, p: int)
    requires 0 <= p <= s.len(),
    ensures bare_end(s, p) <= s.len(),
    decreases s.len() - p,
{
    if p < s.len() && !is_delim(s[p]) { lemma_bare_end_le(s, p + 1); }
}

/// Skip whitespace and line comments from `pos`.
pub fn skip_ws(s: &Vec<char>, pos: usize) -> (r: usize)
    requires pos <= s@.len(),
    ensures r == skip(s@, pos as int, false), pos <= r <= s@.len(),
{
    let n = s.len();
    let mut p = pos;
    while p < n
        invariant pos <= p <= n, n == s@.len(), skip(s@, p as int, false) == skip(s@, pos as int, false),
        ensures pos <= p <= n, skip(s@, p as int, false) == p, skip(s@, p as int, false) == skip(s@, pos as int, false),
        decreases n - p,
    {
        let c = s[p];
        if is_ascii_whitespace(c) {
            p += 1;
        } else if c == '#' && (p == 0 || s[p - 1] == '\n') {
            let ghost p0 = p;
            p += 1;
            while p < n && s[p] != '\n'
                invariant p0 < p <= n, n == s@.len(), skip(s@, p as int, true) == skip(s@, p0 as int, false),
                decreases n - p,
            {
                p += 1;
            }
            if p >= n {
                assert(skip(s@, p as int, true) == p);
                assert(skip(s@, p as int, false) == p);
            } else {
                assert(skip(s@, p as int, true) == skip(s@, p + 1, false));
                assert(skip(s@, p + 1, false) == skip(s@, p as int, false)) by {
                    assert(is_ascii_ws(s@[p as int]));
                }
            }
        } else {
            break;
        }
    }
    p
}

/// One node at or after `pos`.
fn node(s: &Vec<char>, offs: &Vec<usize>, pos: usize) -> (r: Result<(Node, usize), (usize, SexprError)>)
    requires
        pos <= s@.len(),
        offs@.len() == s@.len() + 1,
        forall|i: int| 0 <= i <= s@.len() ==> offs@[i] == byte_offset(s@, i),
    ensures
        match node_at(s@, pos as int) {
            Ok((sn, e)) => r matches Ok((n, e2)) && n@ == sn && e2 == e,
            Err((at, k)) => r matches Err((at2, k2)) && at2 == at && k2 == k,
        },
        r matches Err((at, _)) ==> at <= s@.len(),
    decreases s@.len() - pos,
{
    let n = s.len();
    let q = skip_ws(s, pos);
    if q >= n {
        return Err((q, SexprError::UnexpectedEof));
    }
    let c = s[q];
    if c == '(' {
        let mut items: Vec<Node> = Vec::new();
        let mut p = q + 1;
        loop
            invariant
                q < p <= n, n == s@.len(), pos <= q, s@[q as int] == '(',
                q as int == skip(s@, pos as int, false),
                offs@.len() == s@.len() + 1,
                forall|i: int| 0 <= i <= s@.len() ==> offs@[i] == byte_offset(s@, i),
                items_at(s@, q + 1, q as int) == (match items_at(s@, p as int, q as int) {
                    Ok((rest, f)) => Ok((items@.map_values(|x: Node| x@) + rest, f)),
                    Err(x) => Err(x),
                }),
            decreases n - p,
        {
            let p2 = skip_ws(s, p);
            if p2 >= n {
                return Err((q, SexprError::Unclosed));
            }
            if s[p2] == ')' {
                let e = p2 + 1;
                let ghost its = items@.map_values(|x: Node| x@);
                let res = Node::List { items, start: offs[q], end: offs[e] };
                proof {
                    assert(its + Seq::<SNode>::empty() == its);
                    assert(res@ == SNode::List(its, byte_offset(s@, q as int), byte_offset(s@, e as int))) by {
                        lemma_list_view(res);
                    }
                }
                return Ok((res, e));
            }
            proof { crate::sexpr::lemma_node_end(s@, p2 as int); }
            match node(s, offs, p2) {
                Err(x) => { return Err(x); },
                Ok((child, e)) => {
                    proof { lemma_skip_idem(s@, p as int); }
                    let ghost old_items = items@.map_values(|x: Node| x@);
                    items.push(child);
                    proof {
                        assert(items@.map_values(|x: Node| x@) =~= old_items.push(child@));
                        match items_at(s@, e as int, q as int) {
                            Ok((rest, f)) => {
                                assert(old_items + (seq![child@] + rest) =~= old_items.push(child@) + rest);
                            },
                            Err(_) => {},
                        }
                    }
                    p = e;
                },
            }
        }
    } else if c == ')' {
        Err((q, SexprError::UnexpectedClose))
    } else if c == '"' {
        let mut text = String::new();
        let mut p = q + 1;
        loop
            invariant
                q < p <= n, n == s@.len(), pos <= q, s@[q as int] == '"',
                q as int == skip(s@, pos as int, false),
                offs@.len() == s@.len() + 1,
                forall|i: int| 0 <= i <= s@.len() ==> offs@[i] == byte_offset(s@, i),
                quoted(s@, q + 1) == (match quoted(s@, p as int) {
                    Some((t, e)) => Some((text@ + t, e)),
                    None => None,
                }),
            decreases n - p,
        {
            if p >= n {
                return Err((q, SexprError::Unterminated));
            }
            let ch = s[p];
            if ch == '"' {
                let e = p + 1;
                proof { assert(text@ + Seq::<char>::empty() == text@); }
                return Ok((Node::Atom { text, start: offs[q], end: offs[e] }, e));
            } else if ch == '\\' && p + 1 < n {
                let ghost old_t = text@;
                push_char(&mut text, s[p + 1]);
                proof {
                    match quoted(s@, p + 2) {
                        Some((t, e)) => { assert(old_t + (seq![s@[p + 1]] + t) =~= text@ + t); },
                        None => {},
                    }
                }
                p = p + 2;
            } else {
                let ghost old_t = text@;
                push_char(&mut text, ch);
                proof {
                    match quoted(s@, p + 1) {
                        Some((t, e)) => { assert(old_t + (seq![ch] + t) =~= text@ + t); },
                        None => {},
                    }
                }
                p = p + 1;
            }
        }
    } else {
        let mut p = q;
        while p < n && !(is_ascii_whitespace(s[p]) || s[p] == '(' || s[p] == ')')
            invariant q <= p <= n, n == s@.len(), bare_end(s@, p as int) == bare_end(s@, q as int),
            decreases n - p,
        {
            p += 1;
        }
        let text = string_of(s.as_slice(), q, p);
        Ok((Node::Atom { text, start: offs[q], end: offs[p] }, p))
    }
}

proof fn lemma_skip_idem(s: Seq<char>, p: int)
    requires 0 <= p <= s.len(),
    ensures skip(s, skip(s, p, false), false) == skip(s, p, false),
    decreases s.len() - p,
{
    if p < s.len() {
        if is_ascii_ws(s[p]) {
            lemma_skip_idem(s, p + 1);
        } else if s[p] == '#' && (p == 0 || s[p - 1] == '\n') {
            lemma_skip_comment_idem(s, p + 1);
        }
    }
}

proof fn lemma_skip_comment_idem(s: Seq<char>, p: int)
    requires 0 <= p <= s.len(), p > 0,
    ensures skip(s, skip(s, p, true), false) == skip(s, p, true),
    decreases s.len() - p,
{
    if p < s.len() {
        if s[p] == '\n' { lemma_skip_idem(s, p + 1); } else { lemma_skip_comment_idem(s, p + 1); }
    }
}

/// Parse a whole text into its top-level nodes.
pub fn parse(text: &str) -> (r: Result<Vec<Node>, ParseFailure>)
    ensures
        match read_sexprs(text@) {
            Ok(ns) => r matches Ok(v) && v@.map_values(|x: Node| x@) == ns,
            Err((at, k)) => r matches Err(f) && f.at == at && f.kind == k,
        },
{
    let s = chars_of(text);
    let offs = offsets(text, &s);
    let n = s.len();
    let mut out: Vec<Node> = Vec::new();
    let mut p: usize = 0;
    loop
        invariant
            p <= n, n == s@.len(), s@ == text@,
            offs@.len() == s@.len() + 1,
            forall|i: int| 0 <= i <= s@.len() ==> offs@[i] == byte_offset(s@, i),
            nodes_from(s@, 0) == (match nodes_from(s@, p as int) {
                Ok(rest) => Ok(out@.map_values(|x: Node| x@) + rest),
                Err(x) => Err(x),
            }),
        decreases n - p,
    {
        let q = skip_ws(&s, p);
        if q >= n {
            proof { assert(out@.map_values(|x: Node| x@) + Seq::<SNode>::empty() == out@.map_values(|x: Node| x@)); }
            return Ok(out);
        }
        proof { lemma_node_end(s@, q as int); lemma_skip_idem(s@, p as int); }
        match node(&s, &offs, q) {
            Err((at, k)) => {
                return Err(ParseFailure { at: offs[at], kind: k });
            },
            Ok((nd, e)) => {
                let ghost old_out = out@.map_values(|x: Node| x@);
                out.push(nd);
                proof {
                    assert(out@.map_values(|x: Node| x@) =~= old_out.push(nd@));
                    match nodes_from(s@, e as int) {
                        Ok(rest) => { assert(old_out + (seq![nd@] + rest) =~= old_out.push(nd@) + rest); },
                        Err(_) => {},
                    }
                }
                p = e;
            },
        }
    }
}


/// Whether node `n` read from `t` stands on the characters `a..b`: its span
/// is their byte range; a list runs from its `(` to its `)`, a quoted atom
/// from quote to quote, and a bare atom's text is those characters.
pub open spec fn framed(t: Seq<char>, n: SNode, a: int, b: int) -> bool {
    &&& 0 <= a < b <= t.len()
    &&& n.span() == (byte_offset(t, a), byte_offset(t, b))
    &&& match n {
        SNode::List(..) => t[a] == '(' && t[b - 1] == ')',
        SNode::Atom(x, _, _) => if t[a] == '"' { t[b - 1] == '"' } else { x == t.subrange(a, b) },
    }
}

/// Whether `n`, read from `t`, lies within the bytes `lo..hi` and stands on
/// characters of `t`, with the children of a list strictly inside its
/// brackets and in order.
pub open spec fn nested(t: Seq<char>, n: SNode, lo: int, hi: int) -> bool
    decreases n,
{
    &&& lo <= n.span().0 < n.span().1 <= hi
    &&& exists|a: int, b: int| framed(t, n, a, b)
    &&& match n {
        SNode::List(its, x, y) => nested_seq(t, its, x + 1int, y - 1int),
        SNode::Atom(..) => true,
    }
}

/// Whether the nodes `ns`, read from `t`, lie within the bytes `lo..hi` in
/// order: each one ends before the next begins.
pub open spec fn nested_seq(t: Seq<char>, ns: Seq<SNode>, lo: int, hi: int) -> bool
    decreases ns,
{
    if ns.len() == 0 {
        true
    } else {
        &&& nested(t, ns[0], lo, hi)
        &&& nested_seq(t, ns.subrange(1, ns.len() as int), ns[0].span().1 as int, hi)
    }
}

proof fn lemma_offset_mono(s: Seq<char>, i: int, j: int)
    requires 0 <= i <= j <= s.len(),
    ensures byte_offset(s, i) <= byte_offset(s, j), i < j ==> byte_offset(s, i) < byte_offset(s, j),
    decreases j - i,
{
    if i < j {
        lemma_offset_mono(s, i, j - 1);
        lemma_offset_step(s, j - 1);
    }
}

proof fn lemma_offset_ascii(s: Seq<char>, i: int)
    requires 0 <= i < s.len(), (s[i] as u32) < 0x80,
    ensures byte_offset(s, i + 1) == byte_offset(s, i) + 1,
{
    lemma_offset_step(s, i);
}

proof fn lemma_quoted_close(s: Seq<char>, p: int)
    ensures quoted(s, p) matches Some((_, e)) ==> p < e && s[e - 1] == '"',
    decreases s.len() - p,
{
    if 0 <= p < s.len() && s[p] != '"' {
        if s[p] == '\\' && p + 1 < s.len() { lemma_quoted_close(s, p + 2); } else { lemma_quoted_close(s, p + 1); }
    }
}

proof fn lemma_nested_widen(t: Seq<char>, n: SNode, lo: int, hi: int, lo2: int, hi2: int)
    requires nested(t, n, lo, hi), lo2 <= lo, hi <= hi2,
    ensures nested(t, n, lo2, hi2),
{
}

/// The node read at or after `p` stands on the characters from where
/// skipping stops to where it ends, and nests.
proof fn lemma_node_nested(s: Seq<char>, p: int)
    requires 0 <= p,
    ensures
        node_at(s, p) matches Ok((n, e)) ==> {
            let q = skip(s, p, false);
            &&& framed(s, n, q, e)
            &&& nested(s, n, byte_offset(s, q) as int, byte_offset(s, e) as int)
        },
    decreases s.len() - p, 0int,
{
    lemma_skip_ge(s, p, false);
    lemma_node_end(s, p);
    let q = skip(s, p, false);
    if q >= p && q < s.len() {
        if let Ok((n, e)) = node_at(s, p) {
            lemma_offset_mono(s, q, e);
            if s[q] == '(' {
                lemma_items_nested(s, q + 1, q);
                lemma_items_end(s, q + 1, q);
                lemma_offset_ascii(s, q);
                if let Ok((its, e2)) = items_at(s, q + 1, q) {
                    lemma_offset_ascii(s, e2 - 1);
                    assert(framed(s, n, q, e));
                }
            } else if s[q] == '"' {
                lemma_quoted_close(s, q + 1);
                assert(framed(s, n, q, e));
            } else {
                assert(framed(s, n, q, e));
            }
        }
    }
}

/// The items read from `p` to the `)` of a list stand between `p` and that
/// `)`, in order.
proof fn lemma_items_nested(s: Seq<char>, p: int, open: int)
    requires 0 <= p,
    ensures
        items_at(s, p, open) matches Ok((its, e)) ==> {
            &&& p < e <= s.len() && s[e - 1] == ')'
            &&& nested_seq(s, its, byte_offset(s, p) as int, byte_offset(s, e - 1) as int)
        },
    decreases s.len() - p, 1int,
{
    lemma_skip_ge(s, p, false);
    lemma_items_end(s, p, open);
    let q = skip(s, p, false);
    if q >= p && q < s.len() && s[q] != ')' {
        lemma_node_end(s, q);
        lemma_node_nested(s, q);
        lemma_skip_idem(s, p);
        if let Ok((n, e)) = node_at(s, q) {
            if e > q && e <= s.len() {
                lemma_items_nested(s, e, open);
                lemma_items_end(s, e, open);
                if let Ok((rest, f)) = items_at(s, e, open) {
                    let its = seq![n] + rest;
                    lemma_offset_mono(s, p, q);
                    lemma_offset_mono(s, e, f - 1);
                    assert(its.subrange(1, its.len() as int) =~= rest);
                    assert(its[0] == n);
                    assert(skip(s, q, false) == q);
                    lemma_nested_widen(s, n, byte_offset(s, q) as int, byte_offset(s, e) as int,
                        byte_offset(s, p) as int, byte_offset(s, f - 1) as int);
                    assert(n.span().1 == byte_offset(s, e));
                    assert(nested_seq(s, its, byte_offset(s, p) as int, byte_offset(s, f - 1) as int));
                }
            }
        }
    }
}

/// The top-level nodes read from `p` lie between `p` and the end, in order.
proof fn lemma_nodes_nested(s: Seq<char>, p: int)
    requires 0 <= p,
    ensures nodes_from(s, p) matches Ok(ns) ==> nested_seq(s, ns, byte_offset(s, p) as int, byte_offset(s, s.len() as int) as int),
    decreases s.len() - p,
{
    lemma_skip_ge(s, p, false);
    let q = skip(s, p, false);
    if q >= p && q < s.len() {
        lemma_node_end(s, q);
        lemma_node_nested(s, q);
        lemma_skip_idem(s, p);
        if let Ok((n, e)) = node_at(s, q) {
            if e > q && e <= s.len() {
                lemma_nodes_nested(s, e);
                if let Ok(rest) = nodes_from(s, e) {
                    let ns = seq![n] + rest;
                    lemma_offset_mono(s, p, q);
                    lemma_offset_mono(s, e, s.len() as int);
                    assert(ns.subrange(1, ns.len() as int) =~= rest);
                    assert(ns[0] == n);
                    assert(skip(s, q, false) == q);
                    lemma_nested_widen(s, n, byte_offset(s, q) as int, byte_offset(s, e) as int,
                        byte_offset(s, p) as int, byte_offset(s, s.len() as int) as int);
                    assert(n.span().1 == byte_offset(s, e));
                    assert(nested_seq(s, ns, byte_offset(s, p) as int, byte_offset(s, s.len() as int) as int));
                }
            }
        }
    }
}

/// What [`parse`] reads nests: every node's span lies within the text's
/// bytes and stands on its characters (a list from `(` to `)`, a quoted
/// atom from quote to quote, a bare atom on its own text); the children of
/// a list lie strictly inside its brackets; and nodes side by side come in
/// order, each ending before the next begins.
pub proof fn lemma_parse_spans(t: Seq<char>)
    ensures read_sexprs(t) matches Ok(ns) ==> nested_seq(t, ns, 0, encode_utf8(t).len() as int),
{
    lemma_nodes_nested(t, 0);
    assert(t.take(0) =~= Seq::<char>::empty());
    assert(t.take(t.len() as int) =~= t);
}

/// Whether two texts are equal when ASCII letters are compared without case.
pub fn eq_ignore_ascii_case(a: &str, b: &str) -> (r: bool)
    ensures r == (lower_seq(a@) == lower_seq(b@)),
{
    let va = chars_of(a);
    let vb = chars_of(b);
    if va.len() != vb.len() {
        proof { assert(lower_seq(a@).len() != lower_seq(b@).len()); }
        return false;
    }
    let mut i: usize = 0;
    while i < va.len()
        invariant
            i <= va@.len(), va@ == a@, vb@ == b@, va@.len() == vb@.len(),
            forall|j: int| 0 <= j < i ==> ascii_lower(va@[j]) == ascii_lower(vb@[j]),
        decreases va@.len() - i,
    {
        if to_ascii_lower(va[i]) != to_ascii_lower(vb[i]) {
            proof { assert(lower_seq(a@)[i as int] != lower_seq(b@)[i as int]); }
            return false;
        }
        i += 1;
    }
    proof { assert(lower_seq(a@) =~= lower_seq(b@)); }
    true
}

impl Node {
    /// The byte span of the node.
    pub fn span(&self) -> (r: (usize, usize))
        ensures r.0 == self@.span().0, r.1 == self@.span().1,
    {
        match self {
            Node::Atom { start, end, .. } => (*start, *end),
            Node::List { start, end, .. } => (*start, *end),
        }
    }

    /// The text of an atom; `None` for a list.
    pub fn atom(&self) -> (r: Option<&str>)
        ensures
            match self@.atom() {
                Some(t) => r matches Some(x) && x@ == t,
                None => r is None,
            },
    {
        match self {
            Node::Atom { text, .. } => Some(text.as_str()),
            Node::List { .. } => None,
        }
    }

    /// The items of a list; empty for an atom.
    pub fn items(&self) -> (r: &[Node])
        ensures r@.map_values(|x: Node| x@) == self@.items(),
    {
        match self {
            Node::Atom { .. } => {
                let e: &[Node] = &[];
                proof { assert(e@.map_values(|x: Node| x@) =~= Seq::<SNode>::empty()); }
                e
            },
            Node::List { items, .. } => {
                proof { lemma_list_view(*self); }
                items.as_slice()
            },
        }
    }

    /// Head keyword of a list, e.g. `net` for `(net GND ...)`.
    pub fn head(&self) -> (r: Option<&str>)
        ensures
            match self@.head() {
                Some(t) => r matches Some(x) && x@ == t,
                None => r is None,
            },
    {
        let its = self.items();
        if its.len() == 0 {
            None
        } else {
            proof { assert(its@.map_values(|x: Node| x@)[0] == its@[0]@); }
            its[0].atom()
        }
    }

    /// Whether the head is `head`, ignoring ASCII case.
    pub fn is(&self, head: &str) -> (r: bool)
        ensures r == self@.is(head@),
    {
        match self.head() {
            Some(h) => eq_ignore_ascii_case(h, head),
            None => false,
        }
    }

    /// Child lists whose head is `name`, in order.
    pub fn children(&self, name: &str) -> (r: Vec<&Node>)
        ensures r@.map_values(|x: &Node| x@) == heads_named(self@.items(), name@),
    {
        let its = self.items();
        let ghost sv = its@.map_values(|x: Node| x@);
        let mut out: Vec<&Node> = Vec::new();
        let mut i: usize = 0;
        while i < its.len()
            invariant
                i <= its@.len(), sv == its@.map_values(|x: Node| x@), sv == self@.items(),
                out@.map_values(|x: &Node| x@) == heads_named(sv.take(i as int), name@),
            decreases its@.len() - i,
        {
            let nd = &its[i];
            let ghost prev = out@.map_values(|x: &Node| x@);
            proof {
                reveal(Seq::filter);
                assert(sv.take(i + 1).drop_last() =~= sv.take(i as int));
                assert(sv.take(i + 1).last() == nd@);
            }
            if nd.is(name) {
                out.push(nd);
                proof { assert(out@.map_values(|x: &Node| x@) =~= prev.push(nd@)); }
            }
            i += 1;
        }
        proof { assert(sv.take(its@.len() as int) =~= sv); }
        out
    }

    /// The first child list whose head is `name`.
    pub fn child(&self, name: &str) -> (r: Option<&Node>)
        ensures
            match r {
                Some(c) => heads_named(self@.items(), name@).len() > 0
                    && c@ == heads_named(self@.items(), name@)[0],
                None => heads_named(self@.items(), name@).len() == 0,
            },
    {
        let cs = self.children(name);
        if cs.len() == 0 {
            None
        } else {
            proof { assert(cs@.map_values(|x: &Node| x@)[0] == cs@[0]@); }
            Some(cs[0])
        }
    }

    /// Atom argument at index `i` (0 = head).
    pub fn arg(&self, i: usize) -> (r: Option<&str>)
        ensures
            match self@.arg(i as int) {
                Some(t) => r matches Some(x) && x@ == t,
                None => r is None,
            },
    {
        let its = self.items();
        if i < its.len() {
            proof { assert(its@.map_values(|x: Node| x@)[i as int] == its@[i as int]@); }
            its[i].atom()
        } else {
            None
        }
    }

    /// The atom arguments after the head, in order.
    pub fn args(&self) -> (r: Vec<&str>)
        ensures
            r@.len() == self@.args().len(),
            forall|k: int| 0 <= k < r@.len() ==> r@[k]@ == self@.args()[k],
    {
        let its = self.items();
        let ghost sv = its@.map_values(|x: Node| x@);
        let mut out: Vec<&str> = Vec::new();
        if its.len() == 0 {
            return out;
        }
        let mut i: usize = 1;
        while i < its.len()
            invariant
                1 <= i <= its@.len(), sv == its@.map_values(|x: Node| x@), sv == self@.items(),
                out@.len() == atoms_of(sv.subrange(1, i as int)).len(),
                forall|k: int| 0 <= k < out@.len() ==> out@[k]@ == atoms_of(sv.subrange(1, i as int))[k],
            decreases its@.len() - i,
        {
            let nd = &its[i];
            proof {
                assert(sv.subrange(1, i + 1).drop_last() =~= sv.subrange(1, i as int));
                assert(sv.subrange(1, i + 1).last() == nd@);
            }
            match nd.atom() {
                Some(t) => { out.push(t); },
                None => {},
            }
            i += 1;
        }
        proof { assert(sv.subrange(1, its@.len() as int) =~= sv.skip(1)); }
        out
    }
}

/// Whether a token must be quoted to read back as one atom.
pub open spec fn needs_quote(s: Seq<char>) -> bool {
    s.len() == 0 || exists|i: int| 0 <= i < s.len() && (is_ws(#[trigger] s[i]) || s[i] == '(' || s[i] == ')' || s[i] == '"')
}

/// `s` with each `"` preceded by a backslash.
pub open spec fn escape_quotes(s: Seq<char>) -> Seq<char>
    decreases s.len(),
{
    if s.len() == 0 {
        Seq::empty()
    } else if s.last() == '"' {
        escape_quotes(s.drop_last()) + seq!['\\', '"']
    } else {
        escape_quotes(s.drop_last()).push(s.last())
    }
}

/// A token as written to DSN output.
pub open spec fn quoted_token(s: Seq<char>) -> Seq<char> {
    if needs_quote(s) { seq!['"'] + escape_quotes(s) + seq!['"'] } else { s }
}

proof fn lemma_escape_concat(a: Seq<char>, b: Seq<char>)
    ensures escape_quotes(a + b) == escape_quotes(a) + escape_quotes(b),
    decreases b.len(),
{
    if b.len() == 0 {
        assert(a + b =~= a);
        assert(escape_quotes(a) + escape_quotes(b) =~= escape_quotes(a));
    } else {
        assert((a + b).drop_last() =~= a + b.drop_last());
        assert((a + b).last() == b.last());
        lemma_escape_concat(a, b.drop_last());
        if b.last() == '"' {
            assert(escape_quotes(a) + escape_quotes(b) =~= escape_quotes(a) + escape_quotes(b.drop_last()) + seq!['\\', '"']);
        } else {
            assert(escape_quotes(a) + escape_quotes(b) =~= (escape_quotes(a) + escape_quotes(b.drop_last())).push(b.last()));
        }
    }
}

proof fn lemma_escape_first(u: Seq<char>)
    requires u.len() > 0,
    ensures
        u[0] == '"' ==> escape_quotes(u) == seq!['\\', '"'] + escape_quotes(u.drop_first()),
        u[0] != '"' ==> escape_quotes(u) == seq![u[0]] + escape_quotes(u.drop_first()),
{
    assert(u =~= seq![u[0]] + u.drop_first());
    lemma_escape_concat(seq![u[0]], u.drop_first());
    assert(seq![u[0]].drop_last() =~= Seq::<char>::empty());
    assert(escape_quotes(Seq::<char>::empty()) =~= Seq::<char>::empty());
    assert(seq![u[0]].last() == u[0]);
    if u[0] == '"' {
        assert(escape_quotes(seq![u[0]]) =~= seq!['\\', '"']);
    } else {
        assert(escape_quotes(seq![u[0]]) =~= seq![u[0]]);
    }
}

/// A quoted body written by escaping `u` reads back as `u`.
proof fn lemma_quoted_escape(t: Seq<char>, p: int, u: Seq<char>)
    requires
        0 <= p,
        !u.contains('\\'),
        p + escape_quotes(u).len() + 1 <= t.len(),
        t.subrange(p, p + escape_quotes(u).len() + 1) == escape_quotes(u) + seq!['"'],
    ensures quoted(t, p) == Some((u, p + escape_quotes(u).len() + 1)),
    decreases u.len(),
{
    let w = escape_quotes(u);
    if u.len() == 0 {
        assert(t[p] == (w + seq!['"'])[0]);
    } else {
        lemma_escape_first(u);
        let v = u.drop_first();
        assert(!v.contains('\\')) by {
            if v.contains('\\') {
                let i = choose|i: int| 0 <= i < v.len() && v[i] == '\\';
                assert(u[i + 1] == '\\');
            }
        }
        assert(u[0] != '\\') by { if u[0] == '\\' { assert(u.contains('\\')); } }
        let wv = escape_quotes(v);
        if u[0] == '"' {
            assert(t[p] == (w + seq!['"'])[0]);
            assert(t[p + 1] == (w + seq!['"'])[1]);
            assert(t.subrange(p + 2, p + 2 + wv.len() + 1) =~= (w + seq!['"']).subrange(2, w.len() + 1int));
            assert((w + seq!['"']).subrange(2, w.len() + 1int) =~= wv + seq!['"']);
            lemma_quoted_escape(t, p + 2, v);
            assert(seq![t[p + 1]] + v =~= u);
        } else {
            assert(t[p] == (w + seq!['"'])[0]);
            assert(t.subrange(p + 1, p + 1 + wv.len() + 1) =~= (w + seq!['"']).subrange(1, w.len() + 1int));
            assert((w + seq!['"']).subrange(1, w.len() + 1int) =~= wv + seq!['"']);
            lemma_quoted_escape(t, p + 1, v);
            assert(seq![t[p]] + v =~= u);
        }
    }
}

proof fn lemma_bare_end_all(s: Seq<char>, p: int)
    requires
        0 <= p <= s.len(),
        forall|i: int| p <= i < s.len() ==> !is_delim(#[trigger] s[i]),
    ensures bare_end(s, p) == s.len(),
    decreases s.len() - p,
{
    if p < s.len() { lemma_bare_end_all(s, p + 1); }
}

/// Every ASCII whitespace character is whitespace.
proof fn lemma_ascii_ws_is_ws(c: char)
    ensures is_ascii_ws(c) ==> is_ws(c),
{
}

/// A token written by [`quote`] reads back as one atom with the same text,
/// spanning the whole written token (from byte 0 to its length), where the
/// token holds no backslash and, written bare, does not open a comment.
pub proof fn lemma_quote_reads_back(s: Seq<char>)
    requires
        !s.contains('\\'),
        needs_quote(s) || s[0] != '#',
    ensures
        read_sexprs(quoted_token(s)) matches Ok(ns) && ns.len() == 1 && ns[0].atom() == Some(s)
            && ns[0].span() == (0nat, encode_utf8(quoted_token(s)).len()),
{
    let t = quoted_token(s);
    assert(t.take(0) =~= Seq::<char>::empty());
    assert(t.take(t.len() as int) =~= t);
    if needs_quote(s) {
        let w = escape_quotes(s);
        assert(t.subrange(1, 1 + w.len() + 1int) =~= w + seq!['"']);
        lemma_quoted_escape(t, 1, s);
        assert(skip(t, 0, false) == 0);
        assert(node_at(t, 0) matches Ok((n, e)) && e == t.len() && n.atom() == Some(s));
        assert(nodes_from(t, t.len() as int) == Ok::<Seq<SNode>, (int, SexprError)>(Seq::<SNode>::empty()));
        assert(nodes_from(t, 0) matches Ok(ns) && ns =~= seq![ns[0]] && ns[0].atom() == Some(s));
    } else {
        assert forall|i: int| 0 <= i < s.len() implies !is_delim(#[trigger] s[i]) by {
            lemma_ascii_ws_is_ws(s[i]);
            if is_delim(s[i]) {
                assert(is_ws(s[i]) || s[i] == '(' || s[i] == ')');
            }
        }
        lemma_bare_end_all(s, 0);
        assert(!is_ascii_ws(s[0]));
        assert(skip(s, 0, false) == 0);
        assert(s.subrange(0, s.len() as int) =~= s);
        assert(node_at(s, 0) matches Ok((n, e)) && e == s.len() && n.atom() == Some(s));
        assert(nodes_from(s, s.len() as int) == Ok::<Seq<SNode>, (int, SexprError)>(Seq::<SNode>::empty()));
        assert(nodes_from(s, 0) matches Ok(ns) && ns =~= seq![ns[0]] && ns[0].atom() == Some(s));
    }
}

/// Quote a token for DSN output if needed.
pub fn quote(s: &str) -> (r: String)
    ensures r@ == quoted_token(s@),
{
    let v = chars_of(s);
    let mut need = v.len() == 0;
    let mut i: usize = 0;
    while i < v.len()
        invariant
            i <= v@.len(), v@ == s@,
            need == (v@.len() == 0 || exists|j: int| 0 <= j < i && (is_ws(#[trigger] v@[j]) || v@[j] == '(' || v@[j] == ')' || v@[j] == '"')),
        decreases v@.len() - i,
    {
        let c = v[i];
        if is_whitespace(c) || c == '(' || c == ')' || c == '"' {
            need = true;
        }
        i += 1;
    }
    if !need {
        return string_from(v.as_slice());
    }
    let mut out = String::new();
    push_char(&mut out, '"');
    let mut k: usize = 0;
    while k < v.len()
        invariant
            k <= v@.len(), v@ == s@,
            out@ == seq!['"'] + escape_quotes(v@.take(k as int)),
        decreases v@.len() - k,
    {
        let c = v[k];
        proof {
            assert(v@.take(k + 1).drop_last() =~= v@.take(k as int));
            assert(v@.take(k + 1).last() == c);
        }
        if c == '"' {
            push_char(&mut out, '\\');
            push_char(&mut out, '"');
        } else {
            push_char(&mut out, c);
        }
        proof { assert(out@ =~= seq!['"'] + escape_quotes(v@.take(k + 1))); }
        k += 1;
    }
    push_char(&mut out, '"');
    proof { assert(v@.take(v@.len() as int) =~= v@); }
    out
}

} // verus!
