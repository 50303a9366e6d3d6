//! The path algebra behind the URLs that link project, index, component and
//! footprint files, and the checks made on a file once it is read.
//!
//! A path is its text. Its components are the pieces between `/` characters,
//! without empty pieces and without `.` pieces (a leading `.` of a relative
//! path stays, as it does for `std::path`). Paths that have the same
//! components are the same path.
//!
//! URL forms accepted:
//! * `relative/path.json`: relative to the directory of the referencing file;
//! * `/absolute/path.json`, `file:///absolute/path.json`;
//! * `~/path`: relative to the home directory;
//! * `http(s)://…`, `s3://…`, `gs://…`: recognised as remote, not fetched.

use vstd::prelude::*;
use crate::text::{chars_of, push_char, push_str, string_from, lower_seq, char_from_ascii};
use crate::sexpr::eq_ignore_ascii_case;
use crate::error::Error;

verus! {

/// The component `.`.
pub open spec fn dot() -> Seq<char> {
    seq!['.']
}

/// The component `..`.
pub open spec fn dotdot() -> Seq<char> {
    seq!['.', '.']
}

/// The pieces of `p` between `/` characters, empty pieces included.
pub open spec fn split_slash(p: Seq<char>) -> Seq<Seq<char>>
    decreases p.len(),
{
    if p.len() == 0 {
        seq![Seq::empty()]
    } else {
        let s = split_slash(p.drop_last());
        if p.last() == '/' {
            s.push(Seq::empty())
        } else if s.len() == 0 {
            seq![seq![p.last()]]
        } else {
            s.update(s.len() - 1, s.last().push(p.last()))
        }
    }
}

/// The pieces that are components: not empty, and not `.` except as the
/// first piece.
pub open spec fn keep_comps(ps: Seq<Seq<char>>) -> Seq<Seq<char>>
    decreases ps.len(),
{
    if ps.len() == 0 {
        Seq::empty()
    } else {
        let rest = keep_comps(ps.drop_last());
        let x = ps.last();
        if x.len() == 0 || (x == dot() && ps.len() > 1) {
            rest
        } else {
            rest.push(x)
        }
    }
}

/// Whether `p` starts at the root.
pub open spec fn is_abs(p: Seq<char>) -> bool {
    p.len() > 0 && p[0] == '/'
}

/// The components of `p` after its root.
pub open spec fn comps(p: Seq<char>) -> Seq<Seq<char>> {
    keep_comps(split_slash(p))
}

/// Components with `.` dropped and each `..` cancelling the segment before it;
/// a `..` with nothing (or only `..`) before it stays.
pub open spec fn norm(cs: Seq<Seq<char>>) -> Seq<Seq<char>>
    decreases cs.len(),
{
    if cs.len() == 0 {
        Seq::empty()
    } else {
        let o = norm(cs.drop_last());
        let x = cs.last();
        if x == dot() {
            o
        } else if x == dotdot() {
            if o.len() > 0 && o.last() != dotdot() { o.drop_last() } else { o.push(dotdot()) }
        } else {
            o.push(x)
        }
    }
}

/// Segments joined with `/`.
pub open spec fn join_segs(segs: Seq<Seq<char>>) -> Seq<char>
    decreases segs.len(),
{
    if segs.len() == 0 {
        Seq::empty()
    } else if segs.len() == 1 {
        segs[0]
    } else {
        join_segs(segs.drop_last()) + seq!['/'] + segs.last()
    }
}

/// The text of a path given by its root flag and segments.
pub open spec fn render(abs: bool, segs: Seq<Seq<char>>) -> Seq<char> {
    if abs { seq!['/'] + join_segs(segs) } else { join_segs(segs) }
}

/// `p` with `.` and `..` collapsed.
pub open spec fn normalize_path(p: Seq<char>) -> Seq<char> {
    render(is_abs(p), norm(comps(p)))
}

proof fn lemma_split_nonempty(p: Seq<char>)
    ensures split_slash(p).len() >= 1,
    decreases p.len(),
{
    if p.len() > 0 {
        lemma_split_nonempty(p.drop_last());
    }
}

/// The pieces of `v` between `/` characters.
fn split_pieces(v: &Vec<char>) -> (r: Vec<Vec<char>>)
    ensures r@.map_values(|x: Vec<char>| x@) == split_slash(v@),
{
    let mut out: Vec<Vec<char>> = Vec::new();
    let mut cur: Vec<char> = Vec::new();
    let mut i: usize = 0;
    proof { assert(v@.take(0) =~= Seq::<char>::empty()); }
    while i < v.len()
        invariant
            i <= v@.len(),
            out@.map_values(|x: Vec<char>| x@).push(cur@) == split_slash(v@.take(i as int)),
        decreases v@.len() - i,
    {
        let c = v[i];
        let ghost prev = out@.map_values(|x: Vec<char>| x@).push(cur@);
        proof {
            assert(v@.take(i + 1).drop_last() =~= v@.take(i as int));
            assert(v@.take(i + 1).last() == c);
            lemma_split_nonempty(v@.take(i as int));
        }
        if c == '/' {
            let done = cur;
            out.push(done);
            cur = Vec::new();
            proof {
                assert(out@.map_values(|x: Vec<char>| x@).push(cur@) =~= prev.push(Seq::<char>::empty()));
            }
        } else {
            cur.push(c);
            proof {
                assert(out@.map_values(|x: Vec<char>| x@).push(cur@) =~= prev.update(prev.len() - 1, prev.last().push(c)));
            }
        }
        i += 1;
    }
    out.push(cur);
    proof { assert(v@.take(v@.len() as int) =~= v@); }
    out
}

fn is_dot(a: &Vec<char>) -> (r: bool)
    ensures r == (a@ == dot()),
{
    let r = a.len() == 1 && a[0] == '.';
    proof { if r { assert(a@ =~= dot()); } }
    r
}

fn is_dotdot(a: &Vec<char>) -> (r: bool)
    ensures r == (a@ == dotdot()),
{
    let r = a.len() == 2 && a[0] == '.' && a[1] == '.';
    proof { if r { assert(a@ =~= dotdot()); } }
    r
}

fn clone_chars(a: &Vec<char>) -> (r: Vec<char>)
    ensures r@ == a@,
{
    let mut r: Vec<char> = Vec::new();
    let mut i: usize = 0;
    while i < a.len()
        invariant i <= a@.len(), r@ == a@.take(i as int),
        decreases a@.len() - i,
    {
        r.push(a[i]);
        proof { assert(a@.take(i + 1) =~= a@.take(i as int).push(a@[i as int])); }
        i += 1;
    }
    proof { assert(a@.take(a@.len() as int) =~= a@); }
    r
}

/// The components of a path text.
fn path_comps(v: &Vec<char>) -> (r: Vec<Vec<char>>)
    ensures r@.map_values(|x: Vec<char>| x@) == comps(v@),
{
    let ps = split_pieces(v);
    let ghost pv = ps@.map_values(|x: Vec<char>| x@);
    let mut out: Vec<Vec<char>> = Vec::new();
    let mut k: usize = 0;
    proof { assert(pv.take(0) =~= Seq::<Seq<char>>::empty()); }
    while k < ps.len()
        invariant
            k <= ps@.len(), pv == ps@.map_values(|x: Vec<char>| x@), pv == split_slash(v@),
            out@.map_values(|x: Vec<char>| x@) == keep_comps(pv.take(k as int)),
        decreases ps@.len() - k,
    {
        let x = &ps[k];
        let ghost prev = out@.map_values(|y: Vec<char>| y@);
        proof {
            assert(pv.take(k + 1).drop_last() =~= pv.take(k as int));
            assert(pv.take(k + 1).last() == x@);
        }
        if x.len() == 0 || (is_dot(x) && k > 0) {
        } else {
            out.push(clone_chars(x));
            proof { assert(out@.map_values(|y: Vec<char>| y@) =~= prev.push(x@)); }
        }
        k += 1;
    }
    proof { assert(pv.take(ps@.len() as int) =~= pv); }
    out
}

/// Components with `.` and `..` collapsed.
fn norm_comps(cs: &Vec<Vec<char>>) -> (r: Vec<Vec<char>>)
    ensures r@.map_values(|x: Vec<char>| x@) == norm(cs@.map_values(|x: Vec<char>| x@)),
{
    let ghost cv = cs@.map_values(|x: Vec<char>| x@);
    let mut out: Vec<Vec<char>> = Vec::new();
    let mut k: usize = 0;
    proof { assert(cv.take(0) =~= Seq::<Seq<char>>::empty()); }
    while k < cs.len()
        invariant
            k <= cs@.len(), cv == cs@.map_values(|x: Vec<char>| x@),
            out@.map_values(|x: Vec<char>| x@) == norm(cv.take(k as int)),
        decreases cs@.len() - k,
    {
        let x = &cs[k];
        let ghost prev = out@.map_values(|y: Vec<char>| y@);
        proof {
            assert(cv.take(k + 1).drop_last() =~= cv.take(k as int));
            assert(cv.take(k + 1).last() == x@);
        }
        if is_dot(x) {
        } else if is_dotdot(x) {
            let n = out.len();
            if n > 0 && !is_dotdot(&out[n - 1]) {
                out.pop();
                proof { assert(out@.map_values(|y: Vec<char>| y@) =~= prev.drop_last()); }
            } else {
                out.push(clone_chars(x));
                proof { assert(out@.map_values(|y: Vec<char>| y@) =~= prev.push(dotdot())); }
            }
        } else {
            out.push(clone_chars(x));
            proof { assert(out@.map_values(|y: Vec<char>| y@) =~= prev.push(x@)); }
        }
        k += 1;
    }
    proof { assert(cv.take(cs@.len() as int) =~= cv); }
    out
}

/// Append the characters of `v` to `s`.
fn push_all(s: &mut String, v: &Vec<char>)
    ensures final(s)@ == old(s)@ + v@,
{
    let mut i: usize = 0;
    while i < v.len()
        invariant i <= v@.len(), s@ == old(s)@ + v@.take(i as int),
        decreases v@.len() - i,
    {
        push_char(s, v[i]);
        proof { assert(v@.take(i + 1) =~= v@.take(i as int).push(v@[i as int])); }
        i += 1;
    }
    proof { assert(v@.take(v@.len() as int) =~= v@); }
}

/// The text of a path from its root flag and segments.
fn render_path(abs: bool, segs: &Vec<Vec<char>>) -> (r: String)
    ensures r@ == render(abs, segs@.map_values(|x: Vec<char>| x@)),
{
    let ghost sv = segs@.map_values(|x: Vec<char>| x@);
    let mut out = String::new();
    if abs {
        push_char(&mut out, '/');
    }
    let ghost lead: Seq<char> = if abs { seq!['/'] } else { Seq::empty() };
    proof { assert(out@ =~= lead + join_segs(sv.take(0))); }
    let mut k: usize = 0;
    while k < segs.len()
        invariant
            k <= segs@.len(), sv == segs@.map_values(|x: Vec<char>| x@),
            lead == (if abs { seq!['/'] } else { Seq::<char>::empty() }),
            out@ == lead + join_segs(sv.take(k as int)),
        decreases segs@.len() - k,
    {
        proof {
            assert(sv.take(k + 1).drop_last() =~= sv.take(k as int));
            assert(sv.take(k + 1).last() == segs@[k as int]@);
        }
        if k > 0 {
            push_char(&mut out, '/');
        }
        push_all(&mut out, &segs[k]);
        proof {
            if k == 0 {
                assert(sv.take(1) =~= seq![segs@[0]@]);
                assert(out@ =~= lead + join_segs(sv.take(1)));
            } else {
                assert(out@ =~= lead + join_segs(sv.take(k + 1)));
            }
        }
        k += 1;
    }
    proof { assert(sv.take(segs@.len() as int) =~= sv); }
    out
}

/// Collapse `.` and `..` without touching the filesystem.
pub fn normalize(p: &str) -> (r: String)
    ensures r@ == normalize_path(p@),
{
    let v = chars_of(p);
    let abs = v.len() > 0 && v[0] == '/';
    let cs = path_comps(&v);
    let n = norm_comps(&cs);
    render_path(abs, &n)
}


/// Whether `s` begins with `pre`.
pub open spec fn has_prefix(s: Seq<char>, pre: Seq<char>) -> bool {
    pre.len() <= s.len() && s.take(pre.len() as int) == pre
}

/// Whether `s` holds `://`.
pub open spec fn has_scheme_sep(s: Seq<char>) -> bool {
    exists|i: int| 0 <= i && i + 3 <= s.len() && #[trigger] s.subrange(i, i + 3) == seq![':', '/', '/']
}

/// `b` appended to the path `a` as `PathBuf::push` does: an absolute `b`
/// replaces `a`, otherwise a `/` joins them where `a` does not end in one.
pub open spec fn join_path(a: Seq<char>, b: Seq<char>) -> Seq<char> {
    if is_abs(b) {
        b
    } else if a.len() == 0 || a.last() == '/' {
        a + b
    } else {
        a + seq!['/'] + b
    }
}

/// The directory of a file: its path without the last component, or `.`
/// where there is no such component.
pub open spec fn base_dir(p: Seq<char>) -> Seq<char> {
    let cs = comps(p);
    if cs.len() == 0 { dot() } else { render(is_abs(p), cs.drop_last()) }
}

/// The `file://` scheme.
pub open spec fn file_scheme() -> Seq<char> {
    seq!['f', 'i', 'l', 'e', ':', '/', '/']
}

/// The `file:` prefix.
pub open spec fn file_prefix() -> Seq<char> {
    seq!['f', 'i', 'l', 'e', ':']
}

/// Where a URL points, in the model.
pub enum Loc {
    Local(Seq<char>),
    Remote(Seq<char>),
}

/// Where `url`, found in the file `referrer`, points; `home` is the home
/// directory where one is known.
pub open spec fn resolve(url: Seq<char>, referrer: Seq<char>, home: Option<Seq<char>>) -> Loc {
    let base = base_dir(referrer);
    if has_prefix(url, file_scheme()) {
        Loc::Local(url.skip(7))
    } else if has_prefix(url, file_prefix()) {
        Loc::Local(join_path(base, url.skip(5)))
    } else if has_scheme_sep(url) {
        Loc::Remote(url)
    } else if has_prefix(url, seq!['~', '/']) && home is Some {
        Loc::Local(join_path(home->0, url.skip(2)))
    } else if is_abs(url) {
        Loc::Local(url)
    } else {
        Loc::Local(join_path(base, url))
    }
}

/// Where a URL points.
#[derive(PartialEq, Eq, Debug)]
pub enum Location {
    Local(String),
    Remote(String),
}

impl View for Location {
    type V = Loc;

    open spec fn view(&self) -> Loc {
        match self {
            Location::Local(p) => Loc::Local(p@),
            Location::Remote(u) => Loc::Remote(u@),
        }
    }
}

/// Whether `v` holds `pre` at its start.
fn starts_with(v: &Vec<char>, pre: &Vec<char>) -> (r: bool)
    ensures r == has_prefix(v@, pre@),
{
    if pre.len() > v.len() {
        return false;
    }
    let mut i: usize = 0;
    while i < pre.len()
        invariant i <= pre@.len() <= v@.len(), forall|j: int| 0 <= j < i ==> v@[j] == pre@[j],
        decreases pre@.len() - i,
    {
        if v[i] != pre[i] {
            proof { assert(v@.take(pre@.len() as int)[i as int] != pre@[i as int]); }
            return false;
        }
        i += 1;
    }
    proof { assert(v@.take(pre@.len() as int) =~= pre@); }
    true
}

/// Whether `v` holds `://`.
fn contains_scheme_sep(v: &Vec<char>) -> (r: bool)
    ensures r == has_scheme_sep(v@),
{
    let mut i: usize = 0;
    if v.len() < 3 {
        return false;
    }
    while i <= v.len() - 3
        invariant
            v@.len() >= 3,
            forall|j: int| 0 <= j < i && j + 3 <= v@.len() ==> #[trigger] v@.subrange(j, j + 3) != seq![':', '/', '/'],
        decreases v@.len() - i,
    {
        if v[i] == ':' && v[i + 1] == '/' && v[i + 2] == '/' {
            proof { assert(v@.subrange(i as int, i + 3) =~= seq![':', '/', '/']); }
            return true;
        }
        proof {
            assert(v@.subrange(i as int, i + 3)[0] == v@[i as int]);
            assert(v@.subrange(i as int, i + 3)[1] == v@[i + 1]);
            assert(v@.subrange(i as int, i + 3)[2] == v@[i + 2]);
        }
        i += 1;
    }
    proof {
        assert forall|j: int| 0 <= j && j + 3 <= v@.len() implies #[trigger] v@.subrange(j, j + 3) != seq![':', '/', '/'] by {
            assert(j < i);
        }
    }
    false
}

/// `v[lo..]` as a `Vec`.
fn chars_from(v: &Vec<char>, lo: usize) -> (r: Vec<char>)
    requires lo <= v@.len(),
    ensures r@ == v@.skip(lo as int),
{
    let mut r: Vec<char> = Vec::new();
    let mut i = lo;
    while i < v.len()
        invariant lo <= i <= v@.len(), r@ == v@.subrange(lo as int, i as int),
        decreases v@.len() - i,
    {
        r.push(v[i]);
        proof { assert(v@.subrange(lo as int, i + 1) =~= v@.subrange(lo as int, i as int).push(v@[i as int])); }
        i += 1;
    }
    r
}

/// `b` appended to the path `a` as `PathBuf::push` does.
pub(crate) fn join_chars(a: &Vec<char>, b: &Vec<char>) -> (r: String)
    ensures r@ == join_path(a@, b@),
{
    if b.len() > 0 && b[0] == '/' {
        return string_from(b.as_slice());
    }
    let mut out = string_from(a.as_slice());
    if !(a.len() == 0 || a[a.len() - 1] == '/') {
        push_char(&mut out, '/');
    }
    push_all(&mut out, b);
    out
}

/// The directory of the file at `p`, as text.
pub(crate) fn base_dir_of(v: &Vec<char>) -> (r: String)
    ensures r@ == base_dir(v@),
{
    let abs = v.len() > 0 && v[0] == '/';
    let mut cs = path_comps(v);
    if cs.len() == 0 {
        let mut d = String::new();
        push_char(&mut d, '.');
        proof { assert(d@ =~= dot()); }
        return d;
    }
    let ghost full = cs@.map_values(|x: Vec<char>| x@);
    cs.pop();
    proof { assert(cs@.map_values(|x: Vec<char>| x@) =~= full.drop_last()); }
    render_path(abs, &cs)
}

/// Resolve `url` relative to the file `referrer` that contains it; `home`
/// is the home directory, where one is set.
pub fn resolve_url(url: &str, referrer: &str, home: Option<&str>) -> (r: Location)
    ensures r@ == resolve(url@, referrer@, match home { Some(h) => Some(h@), None => None }),
{
    let u = chars_of(url);
    let rv = chars_of(referrer);
    let base = chars_of(&base_dir_of(&rv));
    let scheme = chars_of("file://");
    let prefix = chars_of("file:");
    let tilde = chars_of("~/");
    proof {
        reveal_strlit("file://");
        reveal_strlit("file:");
        reveal_strlit("~/");
        assert(scheme@ =~= file_scheme());
        assert(prefix@ =~= file_prefix());
        assert(tilde@ =~= seq!['~', '/']);
    }
    if starts_with(&u, &scheme) {
        return Location::Local(string_from(chars_from(&u, 7).as_slice()));
    }
    if starts_with(&u, &prefix) {
        return Location::Local(join_chars(&base, &chars_from(&u, 5)));
    }
    if contains_scheme_sep(&u) {
        return Location::Remote(string_from(u.as_slice()));
    }
    if starts_with(&u, &tilde) {
        if let Some(h) = home {
            return Location::Local(join_chars(&chars_of(h), &chars_from(&u, 2)));
        }
    }
    if u.len() > 0 && u[0] == '/' {
        Location::Local(string_from(u.as_slice()))
    } else {
        Location::Local(join_chars(&base, &u))
    }
}

/// The message of the error for a remote URL.
pub open spec fn remote_message(what: Seq<char>, url: Seq<char>, referrer: Seq<char>) -> Seq<char> {
    what + " `"@ + url + "` is a remote URL, which this version cannot fetch (referenced from `"@ + referrer + "`)"@
}

/// The hint of the error for a remote URL.
pub open spec fn remote_help() -> Seq<char> {
    "mirror the index locally (e.g. clone it or download the zip) and point the URL at the local copy; remote fetching with hash verification is planned"@
}

/// Resolve to a local, normalized path, or explain why that cannot be done.
pub fn local_path(url: &str, referrer: &str, what: &str, home: Option<&str>) -> (r: Result<String, Error>)
    ensures
        match resolve(url@, referrer@, match home { Some(h) => Some(h@), None => None }) {
            Loc::Local(p) => r matches Ok(s) && s@ == normalize_path(p),
            Loc::Remote(u) => r matches Err(e) && e.message@ == remote_message(what@, u, referrer@)
                && (e.help matches Some(h) && h@ == remote_help()),
        },
{
    match resolve_url(url, referrer, home) {
        Location::Local(p) => Ok(normalize(&p)),
        Location::Remote(u) => {
            let mut m = String::new();
            push_str(&mut m, what);
            push_str(&mut m, " `");
            push_str(&mut m, &u);
            push_str(&mut m, "` is a remote URL, which this version cannot fetch (referenced from `");
            push_str(&mut m, referrer);
            push_str(&mut m, "`)");
            let h = String::from_str("mirror the index locally (e.g. clone it or download the zip) and point the URL at the local copy; remote fetching with hash verification is planned");
            Err(Error::with_help(m, h))
        },
    }
}


/// The root flag and normalized segments of `p` made absolute against the
/// working directory `cwd`.
pub open spec fn abs_parts(p: Seq<char>, cwd: Seq<char>) -> (bool, Seq<Seq<char>>) {
    let j = if is_abs(p) { p } else { join_path(cwd, p) };
    (is_abs(j), norm(comps(j)))
}

/// `p` made absolute against `cwd` and normalized, as text.
pub open spec fn absolute_path(p: Seq<char>, cwd: Seq<char>) -> Seq<char> {
    render(abs_parts(p, cwd).0, abs_parts(p, cwd).1)
}

/// The components of a path with its root written as `/`.
pub open spec fn comp_list(a: (bool, Seq<Seq<char>>)) -> Seq<Seq<char>> {
    if a.0 { seq![seq!['/']] + a.1 } else { a.1 }
}

/// The length of the longest common prefix of `a` and `b`.
pub open spec fn lcp(a: Seq<Seq<char>>, b: Seq<Seq<char>>) -> nat
    decreases a.len(),
{
    if a.len() == 0 || b.len() == 0 || a[0] != b[0] { 0 } else { 1 + lcp(a.drop_first(), b.drop_first()) }
}

/// The path from the directory with components `b` to the one with
/// components `t`: one `..` per component of `b` past the common prefix, then
/// the rest of `t`; a root in that rest starts the path over at the root.
pub open spec fn rel_text(t: Seq<Seq<char>>, b: Seq<Seq<char>>) -> Seq<char> {
    let c = lcp(t, b);
    let tail = t.skip(c as int);
    if tail.len() > 0 && tail[0] == seq!['/'] {
        seq!['/'] + join_segs(tail.skip(1))
    } else {
        join_segs(Seq::new((b.len() - c) as nat, |i: int| dotdot()) + tail)
    }
}

/// `s` with every backslash written as a slash.
pub open spec fn forward_slashes(s: Seq<char>) -> Seq<char> {
    s.map_values(|c: char| if c == '\\' { '/' } else { c })
}

/// The URL stored for `target` in the file `from_file`, with `cwd` the
/// working directory that relative paths start from.
pub open spec fn relative_text(target: Seq<char>, from_file: Seq<char>, cwd: Seq<char>) -> Seq<char> {
    let t = comp_list(abs_parts(target, cwd));
    let b = comp_list(abs_parts(base_dir(from_file), cwd));
    let s = forward_slashes(rel_text(t, b));
    if s.len() == 0 { dot() } else { s }
}

proof fn lemma_lcp(a: Seq<Seq<char>>, b: Seq<Seq<char>>, k: int)
    requires
        0 <= k <= a.len(), k <= b.len(),
        forall|j: int| 0 <= j < k ==> a[j] == b[j],
        k == a.len() || k == b.len() || a[k] != b[k],
    ensures lcp(a, b) == k,
    decreases k,
{
    if k > 0 {
        lemma_lcp(a.drop_first(), b.drop_first(), k - 1);
    }
}

/// Root flag and normalized segments of `p` made absolute against `cwd`.
fn absolute_parts(p: &Vec<char>, cwd: &Vec<char>) -> (r: (bool, Vec<Vec<char>>))
    ensures r.0 == abs_parts(p@, cwd@).0, r.1@.map_values(|x: Vec<char>| x@) == abs_parts(p@, cwd@).1,
{
    let j = if p.len() > 0 && p[0] == '/' { clone_chars(p) } else { chars_of(&join_chars(cwd, p)) };
    let abs = j.len() > 0 && j[0] == '/';
    let cs = path_comps(&j);
    (abs, norm_comps(&cs))
}

/// `p` made absolute against the working directory `cwd` and normalized.
pub fn absolute(p: &str, cwd: &str) -> (r: String)
    ensures r@ == absolute_path(p@, cwd@),
{
    let (abs, segs) = absolute_parts(&chars_of(p), &chars_of(cwd));
    render_path(abs, &segs)
}

fn comp_vec(abs: bool, segs: Vec<Vec<char>>) -> (r: Vec<Vec<char>>)
    ensures r@.map_values(|x: Vec<char>| x@) == comp_list((abs, segs@.map_values(|x: Vec<char>| x@))),
{
    if !abs {
        return segs;
    }
    let mut r: Vec<Vec<char>> = Vec::new();
    let mut root: Vec<char> = Vec::new();
    root.push('/');
    r.push(root);
    let mut k: usize = 0;
    let ghost sv = segs@.map_values(|x: Vec<char>| x@);
    while k < segs.len()
        invariant
            k <= segs@.len(), sv == segs@.map_values(|x: Vec<char>| x@),
            r@.map_values(|x: Vec<char>| x@) == seq![seq!['/']] + sv.take(k as int),
        decreases segs@.len() - k,
    {
        let ghost prev = r@.map_values(|x: Vec<char>| x@);
        let x = clone_chars(&segs[k]);
        r.push(x);
        proof {
            assert(r@.map_values(|x: Vec<char>| x@) =~= prev.push(sv[k as int]));
            assert(sv.take(k + 1) =~= sv.take(k as int).push(sv[k as int]));
            assert(r@.map_values(|x: Vec<char>| x@) =~= seq![seq!['/']] + sv.take(k + 1));
        }
        k += 1;
    }
    proof { assert(sv.take(segs@.len() as int) =~= sv); }
    r
}

fn eq_chars(a: &Vec<char>, b: &Vec<char>) -> (r: bool)
    ensures r == (a@ == b@),
{
    if a.len() != b.len() {
        return false;
    }
    let mut i: usize = 0;
    while i < a.len()
        invariant i <= a@.len() == b@.len(), forall|j: int| 0 <= j < i ==> a@[j] == b@[j],
        decreases a@.len() - i,
    {
        if a[i] != b[i] {
            return false;
        }
        i += 1;
    }
    proof { assert(a@ =~= b@); }
    true
}

/// Make `target` relative to the directory of `from_file`, for storing URLs;
/// relative paths start from the working directory `cwd`.
pub fn relative_url(target: &str, from_file: &str, cwd: &str) -> (r: String)
    ensures r@ == relative_text(target@, from_file@, cwd@),
{
    let cv = chars_of(cwd);
    let (ta, tsegs) = absolute_parts(&chars_of(target), &cv);
    let base = chars_of(&base_dir_of(&chars_of(from_file)));
    let (ba, bsegs) = absolute_parts(&base, &cv);
    let t = comp_vec(ta, tsegs);
    let b = comp_vec(ba, bsegs);
    let ghost tv = t@.map_values(|x: Vec<char>| x@);
    let ghost bv = b@.map_values(|x: Vec<char>| x@);
    let mut c: usize = 0;
    while c < t.len() && c < b.len() && eq_chars(&t[c], &b[c])
        invariant
            c <= t@.len(), c <= b@.len(),
            tv == t@.map_values(|x: Vec<char>| x@), bv == b@.map_values(|x: Vec<char>| x@),
            forall|j: int| 0 <= j < c ==> tv[j] == bv[j],
        decreases t@.len() - c,
    {
        c += 1;
    }
    proof { lemma_lcp(tv, bv, c as int); }
    let mut pieces: Vec<Vec<char>> = Vec::new();
    let root_first = c < t.len() && t[c].len() == 1 && t[c][0] == '/';
    let text = if root_first {
        proof { assert(tv[c as int] =~= seq!['/']); }
        let mut k = c + 1;
        while k < t.len()
            invariant
                c + 1 <= k <= t@.len(), tv == t@.map_values(|x: Vec<char>| x@),
                pieces@.map_values(|x: Vec<char>| x@) == tv.subrange(c + 1, k as int),
            decreases t@.len() - k,
        {
            let ghost prev = pieces@.map_values(|x: Vec<char>| x@);
            let x = clone_chars(&t[k]);
            pieces.push(x);
            proof {
                assert(pieces@.map_values(|x: Vec<char>| x@) =~= prev.push(tv[k as int]));
                assert(pieces@.map_values(|x: Vec<char>| x@) =~= tv.subrange(c + 1, k + 1));
            }
            k += 1;
        }
        proof { assert(tv.skip(c as int).skip(1) =~= tv.subrange(c + 1, t@.len() as int)); }
        render_path(true, &pieces)
    } else {
        proof {
            if c < t@.len() { assert(tv[c as int] != seq!['/']) by {
                if tv[c as int] == seq!['/'] { assert(t@[c as int]@.len() == 1 && t@[c as int]@[0] == '/'); }
            } }
        }
        let mut u = c;
        while u < b.len()
            invariant
                c <= u <= b@.len(),
                pieces@.map_values(|x: Vec<char>| x@) == Seq::new((u - c) as nat, |i: int| dotdot()),
            decreases b@.len() - u,
        {
            let mut dd: Vec<char> = Vec::new();
            dd.push('.');
            dd.push('.');
            let ghost prev = pieces@.map_values(|x: Vec<char>| x@);
            proof { assert(dd@ =~= dotdot()); }
            pieces.push(dd);
            proof {
                assert(pieces@.map_values(|x: Vec<char>| x@) =~= prev.push(dotdot()));
                assert(pieces@.map_values(|x: Vec<char>| x@) =~= Seq::new((u + 1 - c) as nat, |i: int| dotdot()));
            }
            u += 1;
        }
        let ghost ups = pieces@.map_values(|x: Vec<char>| x@);
        let mut k = c;
        while k < t.len()
            invariant
                c <= k <= t@.len(), tv == t@.map_values(|x: Vec<char>| x@),
                pieces@.map_values(|x: Vec<char>| x@) == ups + tv.subrange(c as int, k as int),
            decreases t@.len() - k,
        {
            let ghost prev = pieces@.map_values(|x: Vec<char>| x@);
            let x = clone_chars(&t[k]);
            pieces.push(x);
            proof {
                assert(pieces@.map_values(|x: Vec<char>| x@) =~= prev.push(tv[k as int]));
                assert(pieces@.map_values(|x: Vec<char>| x@) =~= ups + tv.subrange(c as int, k + 1));
            }
            k += 1;
        }
        proof { assert(tv.skip(c as int) =~= tv.subrange(c as int, t@.len() as int)); }
        render_path(false, &pieces)
    };
    let tc = chars_of(&text);
    let mut out = String::new();
    let mut i: usize = 0;
    while i < tc.len()
        invariant i <= tc@.len(), out@ == forward_slashes(tc@).take(i as int),
        decreases tc@.len() - i,
    {
        let ch = if tc[i] == '\\' { '/' } else { tc[i] };
        push_char(&mut out, ch);
        proof { assert(out@ =~= forward_slashes(tc@).take(i + 1)); }
        i += 1;
    }
    proof { assert(forward_slashes(tc@).take(tc@.len() as int) =~= forward_slashes(tc@)); }
    if tc.len() == 0 {
        let mut d = String::new();
        push_char(&mut d, '.');
        proof { assert(d@ =~= dot()); }
        d
    } else {
        out
    }
}

/// The message when a file's `schema` is not the expected one.
pub open spec fn schema_message(path: Seq<char>, got: Seq<char>, want: Seq<char>, what: Seq<char>) -> Seq<char> {
    "`"@ + path + "` is not a "@ + what + " file: its `schema` is `"@ + got + "`, expected `"@ + want + "`"@
}

/// Check the `schema` field read from the file at `path`.
pub fn check_schema(path: &str, got: &str, want: &str, what: &str) -> (r: Result<(), Error>)
    ensures
        got@ == want@ ==> r is Ok,
        got@ != want@ ==> (r matches Err(e) && e.message@ == schema_message(path@, got@, want@, what@)
            && (e.help matches Some(h) && h@ == "check that the URL points at the right kind of file"@)),
{
    let g = chars_of(got);
    let w = chars_of(want);
    if eq_chars(&g, &w) {
        return Ok(());
    }
    let mut m = String::new();
    push_str(&mut m, "`");
    push_str(&mut m, path);
    push_str(&mut m, "` is not a ");
    push_str(&mut m, what);
    push_str(&mut m, " file: its `schema` is `");
    push_str(&mut m, got);
    push_str(&mut m, "`, expected `");
    push_str(&mut m, want);
    push_str(&mut m, "`");
    Err(Error::with_help(m, String::from_str("check that the URL points at the right kind of file")))
}

/// The BLAKE3 digest of `data`.
pub uninterp spec fn blake3_of(data: Seq<u8>) -> Seq<u8>;

/// Calls `blake3::hash` and copies out the digest. The contract claims what
/// the crate documents: the digest is 32 bytes and depends on the data alone.
#[verifier::external_body]
fn blake3_digest(data: &[u8]) -> (r: Vec<u8>)
    ensures r@ == blake3_of(data@), r@.len() == 32,
{
    blake3::hash(data).as_bytes().to_vec()
}

/// The lowercase hexadecimal digit for `n < 16`.
pub open spec fn hex_digit(n: int) -> char {
    if n < 10 { ((n + 48) as u32) as char } else { ((n + 87) as u32) as char }
}

/// Bytes written as lowercase hexadecimal, two digits each.
pub open spec fn hex_of(bytes: Seq<u8>) -> Seq<char>
    decreases bytes.len(),
{
    if bytes.len() == 0 {
        Seq::empty()
    } else {
        hex_of(bytes.drop_last()) + seq![hex_digit(bytes.last() as int / 16), hex_digit(bytes.last() as int % 16)]
    }
}

pub(crate) fn hex_char(n: u8) -> (c: char)
    requires n < 16,
    ensures c == hex_digit(n as int),
{
    if n < 10 { char_from_ascii((n + 48) as u32) } else { char_from_ascii((n + 87) as u32) }
}

/// The BLAKE3 digest of `bytes` as lowercase hexadecimal.
pub fn blake3_hex(bytes: &[u8]) -> (r: String)
    ensures r@ == hex_of(blake3_of(bytes@)),
{
    let d = blake3_digest(bytes);
    let mut out = String::new();
    let mut i: usize = 0;
    while i < d.len()
        invariant i <= d@.len(), out@ == hex_of(d@.take(i as int)),
        decreases d@.len() - i,
    {
        let b = d[i];
        proof {
            assert(d@.take(i + 1).drop_last() =~= d@.take(i as int));
            assert(d@.take(i + 1).last() == b);
        }
        push_char(&mut out, hex_char(b / 16));
        push_char(&mut out, hex_char(b % 16));
        proof { assert(out@ =~= hex_of(d@.take(i + 1))); }
        i += 1;
    }
    proof { assert(d@.take(d@.len() as int) =~= d@); }
    out
}

/// The message when a file's hash is not the expected one.
pub open spec fn hash_message(what: Seq<char>, path: Seq<char>, expected: Seq<char>, actual: Seq<char>) -> Seq<char> {
    "hash mismatch for "@ + what + " `"@ + path + "`\n  expected blake3 "@ + expected + "\n  actual   blake3 "@ + actual
}

/// The hint when a file's hash is not the expected one.
pub open spec fn hash_help() -> Seq<char> {
    "the file changed since it was indexed; if that is intended run `pcb index update` (or `pcb index verify` to list every mismatch)"@
}

/// Verify the contents `bytes` of the file at `path` against an expected
/// BLAKE3 (if any), ignoring the case of hexadecimal letters.
pub fn verify_hash(path: &str, bytes: &[u8], expected: Option<&str>, what: &str) -> (r: Result<(), Error>)
    ensures
        match expected {
            None => r is Ok,
            Some(x) => {
                let actual = hex_of(blake3_of(bytes@));
                &&& (lower_seq(actual) == lower_seq(x@)) ==> r is Ok
                &&& (lower_seq(actual) != lower_seq(x@)) ==> (r matches Err(e)
                    && e.message@ == hash_message(what@, path@, x@, actual)
                    && (e.help matches Some(h) && h@ == hash_help()))
            },
        },
{
    match expected {
        None => Ok(()),
        Some(x) => {
            let actual = blake3_hex(bytes);
            if eq_ignore_ascii_case(&actual, x) {
                return Ok(());
            }
            let mut m = String::new();
            push_str(&mut m, "hash mismatch for ");
            push_str(&mut m, what);
            push_str(&mut m, " `");
            push_str(&mut m, path);
            push_str(&mut m, "`\n  expected blake3 ");
            push_str(&mut m, x);
            push_str(&mut m, "\n  actual   blake3 ");
            push_str(&mut m, &actual);
            let h = String::from_str("the file changed since it was indexed; if that is intended run `pcb index update` (or `pcb index verify` to list every mismatch)");
            Err(Error::with_help(m, h))
        },
    }
}


/// A segment that a path can hold: not empty and without `/`.
pub open spec fn good_seg(x: Seq<char>) -> bool {
    x.len() > 0 && !x.contains('/')
}

/// Segments as `norm` leaves them: good, no `.`, and every `..` before
/// every other segment.
pub open spec fn normal_form(segs: Seq<Seq<char>>) -> bool {
    &&& forall|i: int| 0 <= i < segs.len() ==> good_seg(#[trigger] segs[i]) && segs[i] != dot()
    &&& forall|i: int, j: int| 0 <= i < j < segs.len() && #[trigger] segs[i] != dotdot() ==> #[trigger] segs[j] != dotdot()
}

proof fn lemma_split_concat(a: Seq<char>, b: Seq<char>)
    ensures split_slash(a + seq!['/'] + b) == split_slash(a) + split_slash(b),
    decreases b.len(),
{
    lemma_split_nonempty(a);
    if b.len() == 0 {
        assert(a + seq!['/'] + b =~= a.push('/'));
        assert((a.push('/')).drop_last() =~= a);
        assert(split_slash(a) + split_slash(b) =~= split_slash(a).push(Seq::empty()));
    } else {
        let w = a + seq!['/'] + b;
        assert(w.drop_last() =~= a + seq!['/'] + b.drop_last());
        assert(w.last() == b.last());
        lemma_split_concat(a, b.drop_last());
        lemma_split_nonempty(b.drop_last());
        let sa = split_slash(a);
        let sb = split_slash(b.drop_last());
        if b.last() == '/' {
            assert(split_slash(w) =~= (sa + sb).push(Seq::empty()));
            assert(split_slash(a) + split_slash(b) =~= sa + sb.push(Seq::empty()));
        } else {
            assert(split_slash(w) =~= (sa + sb).update(sa.len() + sb.len() - 1, sb.last().push(b.last())));
            assert(split_slash(a) + split_slash(b) =~= sa + sb.update(sb.len() - 1, sb.last().push(b.last())));
        }
    }
}

proof fn lemma_split_seg(x: Seq<char>)
    requires !x.contains('/'),
    ensures split_slash(x) == seq![x],
    decreases x.len(),
{
    if x.len() == 0 {
        assert(x =~= Seq::<char>::empty());
    } else {
        assert(!x.drop_last().contains('/')) by {
            if x.drop_last().contains('/') {
                let i = choose|i: int| 0 <= i < x.drop_last().len() && x.drop_last()[i] == '/';
                assert(x[i] == '/');
            }
        }
        lemma_split_seg(x.drop_last());
        assert(x.last() != '/') by { if x.last() == '/' { assert(x[x.len() - 1] == '/'); } }
        assert(x.drop_last().push(x.last()) =~= x);
        assert(seq![x.drop_last()].update(0, x.drop_last().push(x.last())) =~= seq![x]);
    }
}

proof fn lemma_split_join(segs: Seq<Seq<char>>)
    requires
        segs.len() >= 1,
        forall|i: int| 0 <= i < segs.len() ==> !(#[trigger] segs[i]).contains('/'),
    ensures split_slash(join_segs(segs)) == segs,
    decreases segs.len(),
{
    if segs.len() == 1 {
        lemma_split_seg(segs[0]);
        assert(seq![segs[0]] =~= segs);
    } else {
        let d = segs.drop_last();
        assert forall|i: int| 0 <= i < d.len() implies !(#[trigger] d[i]).contains('/') by {
            assert(d[i] == segs[i]);
        }
        lemma_split_join(d);
        lemma_split_concat(join_segs(d), segs.last());
        assert(!segs.last().contains('/')) by { assert(segs.last() == segs[segs.len() - 1]); }
        lemma_split_seg(segs.last());
        assert(d + seq![segs.last()] =~= segs);
    }
}

proof fn lemma_keep_good(segs: Seq<Seq<char>>)
    requires forall|i: int| 0 <= i < segs.len() ==> (#[trigger] segs[i]).len() > 0 && segs[i] != dot(),
    ensures
        keep_comps(segs) == segs,
        keep_comps(seq![Seq::<char>::empty()] + segs) == segs,
    decreases segs.len(),
{
    if segs.len() > 0 {
        let d = segs.drop_last();
        assert forall|i: int| 0 <= i < d.len() implies (#[trigger] d[i]).len() > 0 && d[i] != dot() by {
            assert(d[i] == segs[i]);
        }
        lemma_keep_good(d);
        assert(segs.last() == segs[segs.len() - 1]);
        assert(d.push(segs.last()) =~= segs);
        let e = seq![Seq::<char>::empty()] + segs;
        assert(e.drop_last() =~= seq![Seq::<char>::empty()] + d);
        assert(e.last() == segs.last());
    } else {
        assert(seq![Seq::<char>::empty()] + segs =~= seq![Seq::<char>::empty()]);
        assert(seq![Seq::<char>::empty()].drop_last() =~= Seq::<Seq<char>>::empty());
    }
}

/// The components of a rendered path in normal form are its segments.
proof fn lemma_comps_render(abs: bool, segs: Seq<Seq<char>>)
    requires normal_form(segs),
    ensures
        comps(render(abs, segs)) == segs,
        is_abs(render(abs, segs)) == abs,
{
    assert forall|i: int| 0 <= i < segs.len() implies !(#[trigger] segs[i]).contains('/') by {
        assert(good_seg(segs[i]));
    }
    assert forall|i: int| 0 <= i < segs.len() implies (#[trigger] segs[i]).len() > 0 && segs[i] != dot() by {
        assert(good_seg(segs[i]));
    }
    lemma_keep_good(segs);
    let e = Seq::<char>::empty();
    if segs.len() == 0 {
        assert(join_segs(segs) =~= e);
        if abs {
            lemma_split_concat(e, e);
            assert(render(abs, segs) =~= e + seq!['/'] + e);
            assert(split_slash(e) + split_slash(e) =~= seq![e, e]);
            let ps = seq![e, e];
            assert(ps.drop_last() =~= seq![e]);
            assert(seq![e].drop_last() =~= Seq::<Seq<char>>::empty());
        } else {
            assert(seq![e].drop_last() =~= Seq::<Seq<char>>::empty());
        }
    } else {
        lemma_split_join(segs);
        lemma_join_first(segs);
        if abs {
            lemma_split_concat(e, join_segs(segs));
            assert(render(abs, segs) =~= e + seq!['/'] + join_segs(segs));
            assert(split_slash(e) + segs =~= seq![e] + segs);
        } else {
            assert(good_seg(segs[0]));
            assert(segs[0][0] != '/') by { if segs[0][0] == '/' { assert(segs[0].contains('/')); } }
        }
    }
}

proof fn lemma_join_first(segs: Seq<Seq<char>>)
    requires segs.len() >= 1, segs[0].len() > 0,
    ensures join_segs(segs).len() > 0, join_segs(segs)[0] == segs[0][0],
    decreases segs.len(),
{
    if segs.len() > 1 {
        let d = segs.drop_last();
        assert(d[0] == segs[0]);
        lemma_join_first(d);
    }
}

proof fn lemma_split_pieces_no_slash(p: Seq<char>)
    ensures forall|i: int| 0 <= i < split_slash(p).len() ==> !(#[trigger] split_slash(p)[i]).contains('/'),
    decreases p.len(),
{
    if p.len() > 0 {
        lemma_split_pieces_no_slash(p.drop_last());
        lemma_split_nonempty(p.drop_last());
        let s = split_slash(p.drop_last());
        if p.last() != '/' {
            let t = s.last().push(p.last());
            assert(!t.contains('/')) by {
                if t.contains('/') {
                    let k = choose|k: int| 0 <= k < t.len() && t[k] == '/';
                    if k < s.last().len() {
                        assert(s[s.len() - 1][k] == '/');
                        assert(s[s.len() - 1].contains('/'));
                    }
                }
            }
        }
    }
}

proof fn lemma_keep_good_out(ps: Seq<Seq<char>>)
    requires forall|i: int| 0 <= i < ps.len() ==> !(#[trigger] ps[i]).contains('/'),
    ensures forall|i: int| 0 <= i < keep_comps(ps).len() ==> good_seg(#[trigger] keep_comps(ps)[i]),
    decreases ps.len(),
{
    if ps.len() > 0 {
        let d = ps.drop_last();
        assert forall|i: int| 0 <= i < d.len() implies !(#[trigger] d[i]).contains('/') by { assert(d[i] == ps[i]); }
        lemma_keep_good_out(d);
        assert(ps.last() == ps[ps.len() - 1]);
        let rest = keep_comps(d);
        let x = ps.last();
        if !(x.len() == 0 || (x == dot() && ps.len() > 1)) {
            assert(good_seg(x));
            assert forall|i: int| 0 <= i < rest.push(x).len() implies good_seg(#[trigger] rest.push(x)[i]) by {
                if i < rest.len() { assert(rest.push(x)[i] == rest[i]); }
            }
        }
    }
}

/// The components of any path are good segments.
proof fn lemma_comps_good(p: Seq<char>)
    ensures forall|i: int| 0 <= i < comps(p).len() ==> good_seg(#[trigger] comps(p)[i]),
{
    lemma_split_pieces_no_slash(p);
    lemma_keep_good_out(split_slash(p));
}

/// `norm` of good segments is in normal form.
proof fn lemma_norm_normal(cs: Seq<Seq<char>>)
    requires forall|i: int| 0 <= i < cs.len() ==> good_seg(#[trigger] cs[i]),
    ensures normal_form(norm(cs)),
    decreases cs.len(),
{
    if cs.len() > 0 {
        let d = cs.drop_last();
        assert forall|i: int| 0 <= i < d.len() implies good_seg(#[trigger] d[i]) by { assert(d[i] == cs[i]); }
        lemma_norm_normal(d);
        let o = norm(d);
        let x = cs.last();
        assert(good_seg(x)) by { assert(x == cs[cs.len() - 1]); }
        if x == dot() {
        } else if x == dotdot() {
            if o.len() > 0 && o.last() != dotdot() {
                let r = o.drop_last();
                assert forall|i: int, j: int| 0 <= i < j < r.len() && #[trigger] r[i] != dotdot() implies #[trigger] r[j] != dotdot() by {
                    assert(r[i] == o[i] && r[j] == o[j]);
                }
            } else {
                let r = o.push(dotdot());
                assert(good_seg(dotdot())) by {
                    if dotdot().contains('/') { let k = choose|k: int| 0 <= k < 2 && dotdot()[k] == '/'; }
                }
                assert(dotdot() != dot()) by { assert(dotdot().len() != dot().len()); }
                assert forall|i: int, j: int| 0 <= i < j < r.len() && #[trigger] r[i] != dotdot() implies #[trigger] r[j] != dotdot() by {
                    if j == r.len() - 1 {
                        assert(o[o.len() - 1] == dotdot());
                        assert(r[i] == o[i]);
                        if i < o.len() - 1 { assert(o[i] != dotdot() ==> o[o.len() - 1] != dotdot()); }
                    }
                }
            }
        } else {
            let r = o.push(x);
            assert forall|i: int, j: int| 0 <= i < j < r.len() && #[trigger] r[i] != dotdot() implies #[trigger] r[j] != dotdot() by {
                if j < r.len() - 1 { assert(r[i] == o[i] && r[j] == o[j]); }
            }
        }
    }
}

/// `norm` leaves segments in normal form as they are.
proof fn lemma_norm_fixed(segs: Seq<Seq<char>>)
    requires normal_form(segs),
    ensures norm(segs) == segs,
    decreases segs.len(),
{
    if segs.len() > 0 {
        let d = segs.drop_last();
        assert(normal_form(d)) by {
            assert forall|i: int| 0 <= i < d.len() implies good_seg(#[trigger] d[i]) && d[i] != dot() by { assert(d[i] == segs[i]); }
            assert forall|i: int, j: int| 0 <= i < j < d.len() && #[trigger] d[i] != dotdot() implies #[trigger] d[j] != dotdot() by {
                assert(d[i] == segs[i] && d[j] == segs[j]);
            }
        }
        lemma_norm_fixed(d);
        let x = segs.last();
        assert(x == segs[segs.len() - 1]);
        assert(x != dot());
        if x == dotdot() && d.len() > 0 {
            assert(d.last() == segs[d.len() - 1]);
            assert(d.last() == dotdot()) by {
                if segs[d.len() - 1] != dotdot() { assert(segs[segs.len() - 1] != dotdot()); }
            }
        }
        assert(d.push(x) =~= segs);
    }
}

/// Normalizing twice is normalizing once.
pub proof fn lemma_normalize_idempotent(p: Seq<char>)
    ensures normalize_path(normalize_path(p)) == normalize_path(p),
{
    lemma_comps_good(p);
    let n = norm(comps(p));
    lemma_norm_normal(comps(p));
    lemma_comps_render(is_abs(p), n);
    lemma_norm_fixed(n);
}


/// The components among pieces that follow a first piece: neither empty nor `.`.
pub open spec fn mid_comps(ps: Seq<Seq<char>>) -> Seq<Seq<char>>
    decreases ps.len(),
{
    if ps.len() == 0 {
        Seq::empty()
    } else {
        let rest = mid_comps(ps.drop_last());
        let x = ps.last();
        if x.len() == 0 || x == dot() { rest } else { rest.push(x) }
    }
}

/// `norm` continued from the segments `o` over `cs`.
pub open spec fn norm_from(o: Seq<Seq<char>>, cs: Seq<Seq<char>>) -> Seq<Seq<char>>
    decreases cs.len(),
{
    if cs.len() == 0 {
        o
    } else {
        let p = norm_from(o, cs.drop_last());
        let x = cs.last();
        if x == dot() {
            p
        } else if x == dotdot() {
            if p.len() > 0 && p.last() != dotdot() { p.drop_last() } else { p.push(dotdot()) }
        } else {
            p.push(x)
        }
    }
}

proof fn lemma_keep_concat(xs: Seq<Seq<char>>, ys: Seq<Seq<char>>)
    requires xs.len() >= 1,
    ensures keep_comps(xs + ys) == keep_comps(xs) + mid_comps(ys),
    decreases ys.len(),
{
    if ys.len() == 0 {
        assert(xs + ys =~= xs);
        assert(keep_comps(xs) + mid_comps(ys) =~= keep_comps(xs));
    } else {
        lemma_keep_concat(xs, ys.drop_last());
        let w = xs + ys;
        assert(w.drop_last() =~= xs + ys.drop_last());
        assert(w.last() == ys.last());
        let a = keep_comps(xs);
        let m = mid_comps(ys.drop_last());
        let x = ys.last();
        if !(x.len() == 0 || x == dot()) {
            assert((a + m).push(x) =~= a + m.push(x));
        }
    }
}

proof fn lemma_norm_concat(a: Seq<Seq<char>>, b: Seq<Seq<char>>)
    ensures norm(a + b) == norm_from(norm(a), b),
    decreases b.len(),
{
    if b.len() == 0 {
        assert(a + b =~= a);
    } else {
        lemma_norm_concat(a, b.drop_last());
        assert((a + b).drop_last() =~= a + b.drop_last());
        assert((a + b).last() == b.last());
    }
}

proof fn lemma_norm_from_concat(o: Seq<Seq<char>>, a: Seq<Seq<char>>, b: Seq<Seq<char>>)
    ensures norm_from(o, a + b) == norm_from(norm_from(o, a), b),
    decreases b.len(),
{
    if b.len() == 0 {
        assert(a + b =~= a);
    } else {
        lemma_norm_from_concat(o, a, b.drop_last());
        assert((a + b).drop_last() =~= a + b.drop_last());
        assert((a + b).last() == b.last());
    }
}

/// `m` copies of `..`.
pub open spec fn ups(m: nat) -> Seq<Seq<char>> {
    Seq::new(m, |i: int| dotdot())
}

/// Each `..` cancels one segment of a path that holds no `..`.
proof fn lemma_norm_from_ups(o: Seq<Seq<char>>, m: nat)
    requires
        m <= o.len(),
        forall|i: int| 0 <= i < o.len() ==> #[trigger] o[i] != dotdot(),
    ensures norm_from(o, ups(m)) == o.take(o.len() - m),
    decreases m,
{
    if m > 0 {
        assert(ups(m).drop_last() =~= ups((m - 1) as nat));
        lemma_norm_from_ups(o, (m - 1) as nat);
        let p = o.take(o.len() - (m - 1));
        assert(dotdot() != dot()) by { assert(dotdot().len() != dot().len()); }
        assert(p.last() == o[o.len() - m]);
        assert(p.drop_last() =~= o.take(o.len() - m));
    } else {
        assert(o.take(o.len() as int) =~= o);
    }
}

/// Replaying the rest of a normal-form path after its prefix gives it back.
proof fn lemma_norm_from_rest(t: Seq<Seq<char>>, k: int, j: int)
    requires normal_form(t), 0 <= k <= j <= t.len(),
    ensures norm_from(t.take(k), t.subrange(k, j)) == t.take(j),
    decreases j - k,
{
    if j > k {
        lemma_norm_from_rest(t, k, j - 1);
        assert(t.subrange(k, j).drop_last() =~= t.subrange(k, j - 1));
        assert(t.subrange(k, j).last() == t[j - 1]);
        let x = t[j - 1];
        assert(x != dot());
        if x == dotdot() {
            if j - 1 > 0 {
                assert(t.take(j - 1).last() == t[j - 2]);
                assert(t[j - 2] == dotdot()) by {
                    if t[j - 2] != dotdot() { assert(t[j - 1] != dotdot()); }
                }
            }
        }
        assert(t.take(j - 1).push(x) =~= t.take(j));
    } else {
        assert(t.subrange(k, j) =~= Seq::<Seq<char>>::empty());
    }
}

proof fn lemma_lcp_props(a: Seq<Seq<char>>, b: Seq<Seq<char>>)
    ensures
        lcp(a, b) <= a.len(), lcp(a, b) <= b.len(),
        forall|j: int| 0 <= j < lcp(a, b) ==> a[j] == b[j],
    decreases a.len(),
{
    if !(a.len() == 0 || b.len() == 0 || a[0] != b[0]) {
        lemma_lcp_props(a.drop_first(), b.drop_first());
        assert forall|j: int| 0 <= j < lcp(a, b) implies a[j] == b[j] by {
            if j > 0 { assert(a.drop_first()[j - 1] == b.drop_first()[j - 1]); }
        }
    }
}

proof fn lemma_split_no_char(p: Seq<char>, ch: char)
    requires !p.contains(ch),
    ensures forall|i: int| 0 <= i < split_slash(p).len() ==> !(#[trigger] split_slash(p)[i]).contains(ch),
    decreases p.len(),
{
    if p.len() > 0 {
        assert(!p.drop_last().contains(ch)) by {
            if p.drop_last().contains(ch) {
                let i = choose|i: int| 0 <= i < p.drop_last().len() && p.drop_last()[i] == ch;
                assert(p[i] == ch);
            }
        }
        lemma_split_no_char(p.drop_last(), ch);
        lemma_split_nonempty(p.drop_last());
        let s = split_slash(p.drop_last());
        assert(p.last() != ch) by { if p.last() == ch { assert(p[p.len() - 1] == ch); } }
        if p.last() != '/' {
            let t = s.last().push(p.last());
            assert(!t.contains(ch)) by {
                if t.contains(ch) {
                    let k = choose|k: int| 0 <= k < t.len() && t[k] == ch;
                    if k < s.last().len() {
                        assert(s[s.len() - 1][k] == ch);
                        assert(s[s.len() - 1].contains(ch));
                    }
                }
            }
            let u = s.update(s.len() - 1, t);
            assert forall|i: int| 0 <= i < u.len() implies !(#[trigger] u[i]).contains(ch) by {
                if i < s.len() - 1 { assert(u[i] == s[i]); }
            }
        } else {
            let u = s.push(Seq::<char>::empty());
            assert forall|i: int| 0 <= i < u.len() implies !(#[trigger] u[i]).contains(ch) by {
                if i < s.len() { assert(u[i] == s[i]); } else { assert(u[i] =~= Seq::<char>::empty()); }
            }
        }
    }
}

proof fn lemma_keep_no_char(ps: Seq<Seq<char>>, ch: char)
    requires forall|i: int| 0 <= i < ps.len() ==> !(#[trigger] ps[i]).contains(ch),
    ensures forall|i: int| 0 <= i < keep_comps(ps).len() ==> !(#[trigger] keep_comps(ps)[i]).contains(ch),
    decreases ps.len(),
{
    if ps.len() > 0 {
        let d = ps.drop_last();
        assert forall|i: int| 0 <= i < d.len() implies !(#[trigger] d[i]).contains(ch) by { assert(d[i] == ps[i]); }
        lemma_keep_no_char(d, ch);
        let rest = keep_comps(d);
        let x = ps.last();
        assert(x == ps[ps.len() - 1]);
        let u = rest.push(x);
        assert forall|i: int| 0 <= i < u.len() implies !(#[trigger] u[i]).contains(ch) by {
            if i < rest.len() { assert(u[i] == rest[i]); }
        }
    }
}

proof fn lemma_norm_no_char(cs: Seq<Seq<char>>, ch: char)
    requires ch != '.', forall|i: int| 0 <= i < cs.len() ==> !(#[trigger] cs[i]).contains(ch),
    ensures forall|i: int| 0 <= i < norm(cs).len() ==> !(#[trigger] norm(cs)[i]).contains(ch),
    decreases cs.len(),
{
    if cs.len() > 0 {
        let d = cs.drop_last();
        assert forall|i: int| 0 <= i < d.len() implies !(#[trigger] d[i]).contains(ch) by { assert(d[i] == cs[i]); }
        lemma_norm_no_char(d, ch);
        let o = norm(d);
        let x = cs.last();
        assert(x == cs[cs.len() - 1]);
        assert(!dotdot().contains(ch)) by {
            if dotdot().contains(ch) { let k = choose|k: int| 0 <= k < 2 && dotdot()[k] == ch; }
        }
        let u1 = o.push(x);
        assert forall|i: int| 0 <= i < u1.len() implies !(#[trigger] u1[i]).contains(ch) by {
            if i < o.len() { assert(u1[i] == o[i]); }
        }
        let u2 = o.push(dotdot());
        assert forall|i: int| 0 <= i < u2.len() implies !(#[trigger] u2[i]).contains(ch) by {
            if i < o.len() { assert(u2[i] == o[i]); }
        }
        if o.len() > 0 {
            let u3 = o.drop_last();
            assert forall|i: int| 0 <= i < u3.len() implies !(#[trigger] u3[i]).contains(ch) by {
                assert(u3[i] == o[i]);
            }
        }
    }
}

proof fn lemma_join_no_char(segs: Seq<Seq<char>>, ch: char)
    requires ch != '/', forall|i: int| 0 <= i < segs.len() ==> !(#[trigger] segs[i]).contains(ch),
    ensures !join_segs(segs).contains(ch),
    decreases segs.len(),
{
    if segs.len() == 1 {
        assert(!segs[0].contains(ch));
    } else if segs.len() > 1 {
        let d = segs.drop_last();
        assert forall|i: int| 0 <= i < d.len() implies !(#[trigger] d[i]).contains(ch) by { assert(d[i] == segs[i]); }
        lemma_join_no_char(d, ch);
        let l = segs.last();
        assert(!l.contains(ch)) by { assert(l == segs[segs.len() - 1]); }
        let w = join_segs(d) + seq!['/'] + l;
        assert(!w.contains(ch)) by {
            if w.contains(ch) {
                let k = choose|k: int| 0 <= k < w.len() && w[k] == ch;
                if k < join_segs(d).len() {
                    assert(join_segs(d)[k] == ch);
                } else if k > join_segs(d).len() {
                    assert(l[k - join_segs(d).len() - 1] == ch);
                }
            }
        }
    }
}


proof fn lemma_mid_good(segs: Seq<Seq<char>>)
    requires forall|i: int| 0 <= i < segs.len() ==> (#[trigger] segs[i]).len() > 0 && segs[i] != dot(),
    ensures mid_comps(segs) == segs,
    decreases segs.len(),
{
    if segs.len() > 0 {
        let d = segs.drop_last();
        assert forall|i: int| 0 <= i < d.len() implies (#[trigger] d[i]).len() > 0 && d[i] != dot() by {
            assert(d[i] == segs[i]);
        }
        lemma_mid_good(d);
        assert(segs.last() == segs[segs.len() - 1]);
        assert(d.push(segs.last()) =~= segs);
    }
}

proof fn lemma_join_last(segs: Seq<Seq<char>>)
    requires segs.len() >= 1, segs.last().len() > 0,
    ensures join_segs(segs).len() > 0, join_segs(segs).last() == segs.last().last(),
{
    if segs.len() == 1 {
        assert(segs.last() == segs[0]);
    }
}

proof fn lemma_join_single_slashes(segs: Seq<Seq<char>>)
    requires forall|i: int| 0 <= i < segs.len() ==> good_seg(#[trigger] segs[i]),
    ensures
        forall|i: int| 0 <= i && i + 1 < join_segs(segs).len() && join_segs(segs)[i] == '/'
            ==> #[trigger] join_segs(segs)[i + 1] != '/',
    decreases segs.len(),
{
    if segs.len() == 1 {
        assert(good_seg(segs[0]));
        assert forall|i: int| 0 <= i && i + 1 < join_segs(segs).len() && join_segs(segs)[i] == '/'
            implies #[trigger] join_segs(segs)[i + 1] != '/' by {
            assert(segs[0].contains('/'));
        }
    } else if segs.len() > 1 {
        let d = segs.drop_last();
        assert forall|i: int| 0 <= i < d.len() implies good_seg(#[trigger] d[i]) by { assert(d[i] == segs[i]); }
        lemma_join_single_slashes(d);
        let l = segs.last();
        assert(good_seg(l)) by { assert(l == segs[segs.len() - 1]); }
        assert(good_seg(d.last())) by { assert(d.last() == d[d.len() - 1]); }
        lemma_join_last(d);
        let jd = join_segs(d);
        let w = jd + seq!['/'] + l;
        assert forall|i: int| 0 <= i && i + 1 < w.len() && w[i] == '/' implies #[trigger] w[i + 1] != '/' by {
            if i + 1 < jd.len() {
                assert(w[i] == jd[i] && w[i + 1] == jd[i + 1]);
            } else if i + 1 == jd.len() {
                assert(w[i] == jd.last());
                assert(d.last().last() == d.last()[d.last().len() - 1]);
                assert(d.last().contains('/'));
            } else if i == jd.len() {
                assert(w[i + 1] == l[0]);
                if l[0] == '/' { assert(l.contains('/')); }
            } else {
                assert(w[i] == l[i - jd.len() - 1]);
                assert(l.contains('/'));
            }
        }
    }
}

/// A URL made by `relative_url` for an absolute target, stored in a file
/// with an absolute path, resolves from that file back to the target (as a
/// normalized path). Left out: a file directory that holds `..` after
/// normalizing, a target with a backslash, and a stored text that resolving
/// would read as a `file:` URL or, with a home directory, as `~/`.
pub proof fn lemma_relative_url_resolves(target: Seq<char>, from_file: Seq<char>, cwd: Seq<char>, home: Option<Seq<char>>)
    requires
        is_abs(target),
        is_abs(from_file),
        comps(from_file).len() > 0,
        !target.contains('\\'),
        forall|i: int| 0 <= i < norm(comps(base_dir(from_file))).len()
            ==> #[trigger] norm(comps(base_dir(from_file)))[i] != dotdot(),
        !has_prefix(relative_text(target, from_file, cwd), file_prefix()),
        home is Some ==> !has_prefix(relative_text(target, from_file, cwd), seq!['~', '/']),
    ensures
        resolve(relative_text(target, from_file, cwd), from_file, home) matches Loc::Local(p)
            && normalize_path(p) == normalize_path(target),
{
    let fp = comps(from_file).drop_last();
    let d = base_dir(from_file);
    lemma_comps_good(from_file);
    assert forall|i: int| 0 <= i < fp.len() implies good_seg(#[trigger] fp[i]) by { assert(fp[i] == comps(from_file)[i]); }
    assert(d == render(true, fp));
    assert(is_abs(d));
    let bb = norm(comps(d));
    let tt = norm(comps(target));
    lemma_comps_good(target);
    lemma_norm_normal(comps(target));
    assert(abs_parts(target, cwd) == (true, tt));
    assert(abs_parts(d, cwd) == (true, bb));
    let tl = comp_list(abs_parts(target, cwd));
    let bl = comp_list(abs_parts(d, cwd));
    assert(tl.drop_first() =~= tt);
    assert(bl.drop_first() =~= bb);
    let k = lcp(tt, bb);
    assert(lcp(tl, bl) == 1 + k);
    lemma_lcp_props(tt, bb);
    let tail = tl.skip(1 + k as int);
    assert(tail =~= tt.skip(k as int));
    if tail.len() > 0 {
        assert(good_seg(tt[k as int]));
        assert(tail[0] != seq!['/']) by {
            if tail[0] == seq!['/'] { assert(tt[k as int][0] == '/'); assert(tt[k as int].contains('/')); }
        }
    }
    let m = (bb.len() - k) as nat;
    let r = ups(m) + tail;
    assert(Seq::new((bl.len() - (1 + k)) as nat, |i: int| dotdot()) =~= ups(m));
    assert(rel_text(tl, bl) == join_segs(r));
    assert(good_seg(dotdot())) by {
        if dotdot().contains('/') { let q = choose|q: int| 0 <= q < 2 && dotdot()[q] == '/'; }
    }
    assert(dotdot() != dot()) by { assert(dotdot().len() != dot().len()); }
    assert forall|i: int| 0 <= i < r.len() implies good_seg(#[trigger] r[i]) && r[i] != dot() by {
        if i >= m { assert(r[i] == tt[k + (i - m)]); }
    }
    // No backslash anywhere, so the stored text is the joined segments.
    lemma_split_no_char(target, '\\');
    lemma_keep_no_char(split_slash(target), '\\');
    lemma_norm_no_char(comps(target), '\\');
    assert(!dotdot().contains('\\')) by {
        if dotdot().contains('\\') { let q = choose|q: int| 0 <= q < 2 && dotdot()[q] == '\\'; }
    }
    assert forall|i: int| 0 <= i < r.len() implies !(#[trigger] r[i]).contains('\\') by {
        if i >= m { assert(r[i] == tt[k + (i - m)]); }
    }
    lemma_join_no_char(r, '\\');
    let jr = join_segs(r);
    assert(forward_slashes(jr) =~= jr) by {
        assert forall|i: int| 0 <= i < jr.len() implies forward_slashes(jr)[i] == jr[i] by {
            if jr[i] == '\\' { assert(jr.contains('\\')); }
        }
    }
    let res = relative_text(target, from_file, cwd);
    let e: Seq<char> = if fp.len() == 0 { Seq::empty() } else { d };
    // The pieces of the stored text, past the base directory.
    let mids: Seq<Seq<char>> = if r.len() == 0 { Seq::empty() } else { r };
    if r.len() == 0 {
        assert(jr =~= Seq::<char>::empty());
        assert(res == dot());
        assert(!dot().contains('/')) by {
            if dot().contains('/') { let q = choose|q: int| 0 <= q < 1 && dot()[q] == '/'; }
        }
        lemma_split_seg(dot());
        assert(split_slash(res) == seq![dot()]);
        assert(seq![dot()].drop_last() =~= Seq::<Seq<char>>::empty());
        assert(seq![dot()].last() == dot());
        assert(mid_comps(seq![dot()]) == mid_comps(Seq::<Seq<char>>::empty()));
        assert(mid_comps(split_slash(res)) =~= mids);
        assert(!has_scheme_sep(res)) by {
            if has_scheme_sep(res) {
                let i = choose|i: int| 0 <= i && i + 3 <= res.len() && #[trigger] res.subrange(i, i + 3) == seq![':', '/', '/'];
            }
        }
        assert(!has_prefix(res, file_scheme()));
        assert(!is_abs(res));
    } else {
        assert(res == jr);
        assert forall|i: int| 0 <= i < r.len() implies !(#[trigger] r[i]).contains('/') by { assert(good_seg(r[i])); }
        lemma_split_join(r);
        assert forall|i: int| 0 <= i < r.len() implies (#[trigger] r[i]).len() > 0 && r[i] != dot() by {
            assert(good_seg(r[i]));
        }
        lemma_mid_good(r);
        lemma_join_first(r);
        assert(good_seg(r[0]));
        assert(!is_abs(res)) by { if res[0] == '/' { assert(r[0].contains('/')); } }
        lemma_join_single_slashes(r);
        assert(!has_scheme_sep(res)) by {
            if has_scheme_sep(res) {
                let i = choose|i: int| 0 <= i && i + 3 <= res.len() && #[trigger] res.subrange(i, i + 3) == seq![':', '/', '/'];
                assert(res.subrange(i, i + 3)[1] == res[i + 1]);
                assert(res.subrange(i, i + 3)[2] == res[i + 2]);
                assert(jr[i + 1] == '/');
                assert(jr[(i + 1) + 1] == '/');
            }
        }
        assert(!has_prefix(res, file_scheme())) by {
            if has_prefix(res, file_scheme()) {
                assert(res.take(5) =~= file_prefix()) by {
                    assert forall|q: int| 0 <= q < 5 implies res.take(5)[q] == file_prefix()[q] by {
                        assert(res.take(7)[q] == file_scheme()[q]);
                    }
                }
            }
        }
    }
    assert(resolve(res, from_file, home) == Loc::Local(join_path(d, res)));
    // The base directory and the stored text, joined.
    let joined = e + seq!['/'] + res;
    if fp.len() == 0 {
        assert(d =~= seq!['/']);
        assert(join_path(d, res) =~= joined);
    } else {
        lemma_join_last(fp);
        assert(good_seg(fp.last())) by { assert(fp.last() == fp[fp.len() - 1]); }
        assert(d.last() == fp.last().last());
        assert(d.last() != '/') by {
            assert(fp.last().last() == fp.last()[fp.last().len() - 1]);
            if d.last() == '/' { assert(fp.last().contains('/')); }
        }
        assert(join_path(d, res) =~= joined);
    }
    lemma_split_concat(e, res);
    lemma_split_nonempty(e);
    lemma_keep_concat(split_slash(e), split_slash(res));
    assert(comps(joined) == comps(e) + mid_comps(split_slash(res)));
    assert(mid_comps(split_slash(res)) == mids);
    lemma_norm_concat(comps(e), mids);
    if fp.len() == 0 {
        let z = Seq::<char>::empty();
        assert(comps(e) =~= Seq::<Seq<char>>::empty()) by {
            assert(e =~= z);
            assert(split_slash(e) == seq![z]);
            assert(seq![z].drop_last() =~= Seq::<Seq<char>>::empty());
            assert(seq![z].last() == z);
            assert(keep_comps(seq![z]) == keep_comps(Seq::<Seq<char>>::empty()));
        }
        assert(bb =~= Seq::<Seq<char>>::empty()) by {
            lemma_split_concat(z, z);
            assert(d =~= z + seq!['/'] + z);
            assert(split_slash(d) =~= seq![z, z]);
            assert(seq![z, z].drop_last() =~= seq![z]);
            assert(seq![z].drop_last() =~= Seq::<Seq<char>>::empty());
        }
    }
    assert(norm(comps(e)) == bb);
    assert(is_abs(joined)) by {
        if fp.len() == 0 { assert(joined[0] == '/'); } else { assert(joined[0] == d[0]); }
    }
    lemma_norm_fixed(tt);
    if r.len() == 0 {
        assert(tt =~= bb) by {
            assert(tt.len() == k);
            assert(bb.len() == k);
        }
        assert(normalize_path(joined) == render(true, tt));
    } else {
        lemma_norm_from_concat(bb, ups(m), tail);
        lemma_norm_from_ups(bb, m);
        assert(bb.take(bb.len() - m) =~= tt.take(k as int));
        assert(tail =~= tt.subrange(k as int, tt.len() as int));
        lemma_norm_from_rest(tt, k as int, tt.len() as int);
        assert(tt.take(tt.len() as int) =~= tt);
        assert(norm(comps(joined)) == tt);
    }
}

} // verus!
