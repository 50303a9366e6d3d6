//! The rules of SPICE studies that do not need the simulator: node names,
//! where results live, which vectors a probe names, and their units.

use vstd::prelude::*;
use crate::text::{push_str, push_char, chars_of, ascii_lower, lower_seq, to_ascii_lower, same_str, trim,
    trim_bounds, copy_range, string_from, join_text};
use crate::store::{join_path, join_chars};
use crate::numfmt::{nat_digits, push_nat};
use crate::error::{Error, list_names, names_text};
use crate::canon::texts;

verus! {

/// The results directory of a study: `<build>/sim/<name>`.
pub open spec fn sim_dir_text(build: Seq<char>, name: Seq<char>) -> Seq<char> {
    join_path(join_path(build, "sim"@), name)
}

/// The results directory of the study `name` under the build directory.
pub fn sim_dir(build: &str, name: &str) -> (r: String)
    ensures r@ == sim_dir_text(build@, name@),
{
    let a = join_chars(&chars_of(build), &chars_of("sim"));
    join_chars(&chars_of(&a), &chars_of(name))
}

/// Whether a character can stand in a SPICE node name as it is.
pub open spec fn node_char(c: char) -> bool {
    ('a' <= c <= 'z') || ('A' <= c <= 'Z') || ('0' <= c <= '9') || c == '_' || c == '$'
}

/// The SPICE node of a net: `GND`, `0` and `ground` (in any ASCII case) are
/// node 0; other nets keep their letters, digits, `_` and `$`, and every
/// other character becomes `_`.
pub open spec fn node_text(net: Seq<char>) -> Seq<char> {
    let l = lower_seq(net);
    if l == "gnd"@ || l == "0"@ || l == "ground"@ {
        "0"@
    } else {
        net.map_values(|c: char| if node_char(c) { c } else { '_' })
    }
}

/// SPICE node name for a net. `GND`/`0`/`ground` map to node 0.
pub fn node_name(net: &str) -> (r: String)
    ensures r@ == node_text(net@),
{
    let v = chars_of(net);
    let mut l = String::new();
    let mut i: usize = 0;
    while i < v.len()
        invariant i <= v@.len(), v@ == net@, l@ == lower_seq(v@.take(i as int)),
        decreases v@.len() - i,
    {
        push_char(&mut l, to_ascii_lower(v[i]));
        proof { assert(l@ =~= lower_seq(v@.take(i + 1))); }
        i += 1;
    }
    proof { assert(v@.take(v@.len() as int) =~= v@); }
    if same_str(&l, "gnd") || same_str(&l, "0") || same_str(&l, "ground") {
        return String::from_str("0");
    }
    let mut out = String::new();
    let mut k: usize = 0;
    while k < v.len()
        invariant
            k <= v@.len(), v@ == net@,
            out@ == v@.take(k as int).map_values(|c: char| if node_char(c) { c } else { '_' }),
        decreases v@.len() - k,
    {
        let c = v[k];
        let keep = ('a' <= c && c <= 'z') || ('A' <= c && c <= 'Z') || ('0' <= c && c <= '9') || c == '_' || c == '$';
        push_char(&mut out, if keep { c } else { '_' });
        proof {
            assert(out@ =~= v@.take(k + 1).map_values(|c: char| if node_char(c) { c } else { '_' }));
        }
        k += 1;
    }
    proof { assert(v@.take(v@.len() as int) =~= v@); }
    out
}

/// What `str::to_lowercase` gives for a text (Unicode lowercase).
pub uninterp spec fn unicode_lower(s: Seq<char>) -> Seq<char>;

/// Calls `str::to_lowercase`. Claimed: the result depends on the text alone.
#[verifier::external_body]
fn to_lowercase(s: &str) -> (r: String)
    ensures r@ == unicode_lower(s@),
{
    s.to_lowercase()
}

/// The unit ngspice's vector type names, where it names one.
pub open spec fn unit_of_type(v_type: i32) -> Seq<char> {
    if v_type == 1 { "s"@ }
    else if v_type == 2 { "Hz"@ }
    else if v_type == 3 { "V"@ }
    else if v_type == 4 { "A"@ }
    else if v_type == 14 { "°C"@ }
    else if v_type == 15 || v_type == 16 { "Ω"@ }
    else if v_type == 17 { "S"@ }
    else if v_type == 18 { "W"@ }
    else if v_type == 19 { "°"@ }
    else if v_type == 20 { "dB"@ }
    else if v_type == 21 { "F"@ }
    else if v_type == 22 { "C"@ }
    else { Seq::empty() }
}

/// The unit of a device parameter vector `@dev[param]` by its parameter.
pub open spec fn unit_of_param(p: Seq<char>) -> Seq<char> {
    if p == "p"@ || p == "power"@ { "W"@ }
    else if p == "i"@ || p == "id"@ || p == "ic"@ || p == "ib"@ || p == "ie"@ || p == "is"@ || p == "ig"@ || p == "ids"@ { "A"@ }
    else if p == "v"@ || p == "vd"@ || p == "vbe"@ || p == "vce"@ || p == "vgs"@ || p == "vds"@ || p == "vbs"@ || p == "vth"@ { "V"@ }
    else if p == "gm"@ || p == "gds"@ || p == "gmb"@ || p == "gd"@ || p == "gpi"@ || p == "go"@ { "S"@ }
    else if p == "r"@ || p == "rs"@ || p == "rd"@ || p == "req"@ || p == "resistance"@ { "Ω"@ }
    else if p == "c"@ || p == "cd"@ || p == "cgs"@ || p == "cgd"@ || p == "cap"@ || p == "capacitance"@ { "F"@ }
    else if p == "temp"@ || p == "dtemp"@ { "°C"@ }
    else { Seq::empty() }
}

/// `s` without its trailing `]` characters.
pub open spec fn trim_brackets(s: Seq<char>) -> Seq<char>
    decreases s.len(),
{
    if s.len() > 0 && s.last() == ']' { trim_brackets(s.drop_last()) } else { s }
}

/// The first position of `c` in `s`, or its length.
pub open spec fn index_of(s: Seq<char>, c: char) -> int {
    crate::decimal::find_char(s, c)
}

/// Whether `s` ends with `suf`.
pub open spec fn has_suffix(s: Seq<char>, suf: Seq<char>) -> bool {
    suf.len() <= s.len() && s.skip(s.len() - suf.len()) == suf
}

/// The unit of a vector by its lowered name: the scale vectors, branch
/// currents, device parameters by parameter, and plain nodes as volts.
pub open spec fn unit_of_name(n: Seq<char>) -> Seq<char> {
    if n == "time"@ {
        "s"@
    } else if n == "frequency"@ {
        "Hz"@
    } else if n == "temp-sweep"@ {
        "°C"@
    } else if has_suffix(n, "#branch"@) || n == "i-sweep"@ {
        "A"@
    } else if n.len() > 0 && n[0] == '@' && index_of(n.drop_first(), '[') < n.len() - 1 {
        unit_of_param(trim_brackets(n.drop_first().skip(index_of(n.drop_first(), '[') + 1)))
    } else if !n.contains('#') && !(n.len() > 0 && n[0] == '@') {
        "V"@
    } else {
        Seq::empty()
    }
}

/// The unit of an ngspice vector, from its type or else its name.
pub open spec fn unit_text(name: Seq<char>, v_type: i32) -> Seq<char> {
    if unit_of_type(v_type).len() > 0 { unit_of_type(v_type) } else { unit_of_name(unicode_lower(name)) }
}

/// The unit of a device parameter.
fn param_unit(p: &str) -> (r: String)
    ensures r@ == unit_of_param(p@),
{
    if same_str(p, "p") || same_str(p, "power") {
        return String::from_str("W");
    }
    if same_str(p, "i") || same_str(p, "id") || same_str(p, "ic") || same_str(p, "ib") || same_str(p, "ie")
        || same_str(p, "is") || same_str(p, "ig") || same_str(p, "ids") {
        return String::from_str("A");
    }
    if same_str(p, "v") || same_str(p, "vd") || same_str(p, "vbe") || same_str(p, "vce") || same_str(p, "vgs")
        || same_str(p, "vds") || same_str(p, "vbs") || same_str(p, "vth") {
        return String::from_str("V");
    }
    if same_str(p, "gm") || same_str(p, "gds") || same_str(p, "gmb") || same_str(p, "gd") || same_str(p, "gpi")
        || same_str(p, "go") {
        return String::from_str("S");
    }
    if same_str(p, "r") || same_str(p, "rs") || same_str(p, "rd") || same_str(p, "req") || same_str(p, "resistance") {
        return String::from_str("Ω");
    }
    if same_str(p, "c") || same_str(p, "cd") || same_str(p, "cgs") || same_str(p, "cgd") || same_str(p, "cap")
        || same_str(p, "capacitance") {
        return String::from_str("F");
    }
    if same_str(p, "temp") || same_str(p, "dtemp") {
        return String::from_str("°C");
    }
    String::new()
}

/// The unit of a vector by its lowered name.
pub fn unit_for_lowered(n: &str) -> (r: String)
    ensures r@ == unit_of_name(n@),
{
    let v = chars_of(n);
    let len = v.len();
    if same_str(n, "time") {
        return String::from_str("s");
    }
    if same_str(n, "frequency") {
        return String::from_str("Hz");
    }
    if same_str(n, "temp-sweep") {
        return String::from_str("°C");
    }
    let suf = chars_of("#branch");
    let ends = if suf.len() <= len {
        let tail = copy_range(v.as_slice(), len - suf.len(), len);
        proof { assert(v@.skip(len - suf@.len()) =~= tail@); }
        same_str(&string_from(tail.as_slice()), "#branch")
    } else {
        false
    };
    if ends || same_str(n, "i-sweep") {
        return String::from_str("A");
    }
    if len > 0 && v[0] == '@' {
        let k = crate::text::find_in(v.as_slice(), 1, len, '[');
        proof {
            assert(v@.subrange(1, len as int) =~= v@.drop_first());
            crate::emit::lemma_find_char_le(v@.drop_first(), '[');
        }
        if k < len {
            let mut e = len;
            while e > k + 1 && v[e - 1] == ']'
                invariant k + 1 <= e <= len, len == v@.len(),
                    trim_brackets(v@.subrange(k + 1, len as int)) == trim_brackets(v@.subrange(k + 1, e as int)),
                decreases e,
            {
                proof { assert(v@.subrange(k + 1, e as int).drop_last() =~= v@.subrange(k + 1, e - 1)); }
                e -= 1;
            }
            let p = copy_range(v.as_slice(), k + 1, e);
            proof {
                assert(v@.drop_first().skip(k - 1 + 1) =~= v@.subrange(k + 1, len as int));
                assert(trim_brackets(v@.subrange(k + 1, e as int)) == v@.subrange(k + 1, e as int));
            }
            return param_unit(&string_from(p.as_slice()));
        }
    }
    let mut has_hash = false;
    let mut i: usize = 0;
    while i < len
        invariant i <= len, len == v@.len(), has_hash == exists|j: int| 0 <= j < i && v@[j] == '#',
        decreases len - i,
    {
        if v[i] == '#' {
            has_hash = true;
        }
        i += 1;
    }
    if !has_hash && !(len > 0 && v[0] == '@') {
        return String::from_str("V");
    }
    String::new()
}

/// The unit of an ngspice vector, by its type code or else by its name.
pub fn unit_for(name: &str, v_type: i32) -> (r: String)
    ensures r@ == unit_text(name@, v_type),
{
    let by_type: &str = match v_type {
        1 => "s",
        2 => "Hz",
        3 => "V",
        4 => "A",
        14 => "°C",
        15 | 16 => "Ω",
        17 => "S",
        18 => "W",
        19 => "°",
        20 => "dB",
        21 => "F",
        22 => "C",
        _ => "",
    };
    proof {
        reveal_strlit("s"); reveal_strlit("Hz"); reveal_strlit("V"); reveal_strlit("A"); reveal_strlit("°C");
        reveal_strlit("Ω"); reveal_strlit("S"); reveal_strlit("W"); reveal_strlit("°"); reveal_strlit("dB");
        reveal_strlit("F"); reveal_strlit("C"); reveal_strlit("");
    }
    if by_type.unicode_len() > 0 {
        return by_type.to_string();
    }
    let lowered = to_lowercase(name);
    unit_for_lowered(&lowered)
}


/// `s` between `pre` and a final `close`, where it has both.
pub open spec fn inside_call(s: Seq<char>, pre: Seq<char>, close: char) -> Option<Seq<char>> {
    if pre.len() < s.len() && s.take(pre.len() as int) == pre && s.last() == close {
        Some(s.subrange(pre.len() as int, s.len() - 1))
    } else {
        None
    }
}

/// Whether a lowered, trimmed probe names the lowered vector `v`: the same
/// name, `v(NET)` for the node `NET`, or `i(SRC)` for the branch current of
/// `SRC`.
pub open spec fn probe_names(p: Seq<char>, v: Seq<char>) -> bool {
    if p == v {
        true
    } else if inside_call(p, "v("@, ')') is Some {
        let inner = inside_call(p, "v("@, ')')->0;
        v == inner || v == "v("@ + inner + ")"@
    } else if inside_call(p, "i("@, ')') is Some {
        let inner = inside_call(p, "i("@, ')')->0;
        v == inner + "#branch"@ || v == "i("@ + inner + ")"@
    } else {
        false
    }
}

/// Whether the probe (trimmed and lowered) names the vector (lowered).
pub open spec fn probe_matches_spec(probe: Seq<char>, vec_name: Seq<char>) -> bool {
    probe_names(unicode_lower(trim(probe)), unicode_lower(vec_name))
}

/// The text between `pre` and a final `close`, where `s` has both.
fn strip_call(v: &Vec<char>, pre: &str, close: char) -> (r: Option<String>)
    ensures
        match inside_call(v@, pre@, close) {
            Some(t) => r matches Some(x) && x@ == t,
            None => r is None,
        },
{
    let pv = chars_of(pre);
    let n = v.len();
    if !(pv.len() < n) {
        return None;
    }
    let head = copy_range(v.as_slice(), 0, pv.len());
    proof { assert(v@.take(pv@.len() as int) =~= head@); }
    if !same_str(&string_from(head.as_slice()), pre) || v[n - 1] != close {
        return None;
    }
    Some(string_from(copy_range(v.as_slice(), pv.len(), n - 1).as_slice()))
}

/// Whether a lowered, trimmed probe names the lowered vector `v`.
pub fn probe_names_lowered(p: &str, v: &str) -> (r: bool)
    ensures r == probe_names(p@, v@),
{
    if same_str(p, v) {
        return true;
    }
    let pv = chars_of(p);
    match strip_call(&pv, "v(", ')') {
        Some(inner) => {
            let mut wrapped = String::from_str("v(");
            push_str(&mut wrapped, &inner);
            push_str(&mut wrapped, ")");
            return same_str(v, &inner) || same_str(v, &wrapped);
        },
        None => {},
    }
    match strip_call(&pv, "i(", ')') {
        Some(inner) => {
            let mut branch = inner.clone();
            push_str(&mut branch, "#branch");
            let mut wrapped = String::from_str("i(");
            push_str(&mut wrapped, &inner);
            push_str(&mut wrapped, ")");
            same_str(v, &branch) || same_str(v, &wrapped)
        },
        None => false,
    }
}

/// Map a probe like `v(OUT)`, `i(V1)`, `@R1[p]` to ngspice vector names.
pub fn probe_matches(probe: &str, vec_name: &str) -> (r: bool)
    ensures r == probe_matches_spec(probe@, vec_name@),
{
    let pv = chars_of(probe);
    proof { assert(pv@.subrange(0, pv@.len() as int) =~= pv@); }
    let (a, b) = trim_bounds(pv.as_slice(), 0, pv.len());
    let t = string_from(copy_range(pv.as_slice(), a, b).as_slice());
    let p = to_lowercase(&t);
    let v = to_lowercase(vec_name);
    probe_names_lowered(&p, &v)
}

/// The vectors to keep: every one but the scale where no probe is given,
/// else for each probe the first vector it names.
pub open spec fn selection_ok(names: Seq<Seq<char>>, scale: Option<Seq<char>>, probes: Seq<Seq<char>>, r: Seq<usize>) -> bool {
    if probes.len() == 0 {
        &&& forall|k: int| 0 <= k < r.len() ==> (#[trigger] r[k]) < names.len() && Some(names[r[k] as int]) != scale
        &&& forall|k: int, l: int| 0 <= k < l < r.len() ==> #[trigger] r[k] < #[trigger] r[l]
        &&& forall|i: int| 0 <= i < names.len() && Some(names[i]) != scale ==> exists|k: int| 0 <= k < r.len() && r[k] == i
    } else {
        &&& r.len() == probes.len()
        &&& forall|k: int| 0 <= k < r.len() ==> {
            let i = #[trigger] r[k] as int;
            &&& i < names.len() && probe_matches_spec(probes[k], names[i])
            &&& forall|j: int| 0 <= j < i ==> !probe_matches_spec(probes[k], #[trigger] names[j])
        }
    }
}

/// The first probe that names no vector.
pub open spec fn unmatched(names: Seq<Seq<char>>, probes: Seq<Seq<char>>, k: int) -> bool {
    &&& 0 <= k < probes.len()
    &&& forall|j: int| 0 <= j < names.len() ==> !probe_matches_spec(probes[k], #[trigger] names[j])
    &&& forall|m: int| 0 <= m < k ==> exists|j: int| 0 <= j < names.len() && probe_matches_spec(#[trigger] probes[m], names[j])
}

/// Pick the vectors a study shows, by their names (`scale` is the sweep
/// vector): their positions, or the error for a probe that names none.
pub fn select_vectors(names: &Vec<String>, scale: Option<&str>, probes: &Vec<String>) -> (r: Result<Vec<usize>, Error>)
    ensures
        match r {
            Ok(v) => selection_ok(texts(names@), match scale { Some(s) => Some(s@), None => None },
                texts(probes@), v@),
            Err(e) => exists|k: int| #[trigger] unmatched(texts(names@), texts(probes@), k)
                && e.message@ == "probe `"@ + probes@[k]@ + "` matched no simulation vector; available vectors: "@
                    + names_text(texts(names@)),
        },
        r is Err ==> exists|k: int| #[trigger] unmatched(texts(names@), texts(probes@), k),
        (forall|k: int| 0 <= k < probes@.len() ==> exists|j: int| 0 <= j < names@.len()
            && probe_matches_spec(#[trigger] texts(probes@)[k], texts(names@)[j])) ==> r is Ok,
{
    let ghost nv = texts(names@);
    let ghost pv = texts(probes@);
    let ghost sc = match scale { Some(s) => Some(s@), None => None };
    let mut out: Vec<usize> = Vec::new();
    if probes.len() == 0 {
        let mut i: usize = 0;
        while i < names.len()
            invariant
                i <= names@.len(), nv == texts(names@),
                sc == (match scale { Some(s) => Some(s@), None => None }),
                forall|k: int| 0 <= k < out@.len() ==> (#[trigger] out@[k]) < i && Some(nv[out@[k] as int]) != sc,
                forall|k: int, l: int| 0 <= k < l < out@.len() ==> #[trigger] out@[k] < #[trigger] out@[l],
                forall|m: int| 0 <= m < i && Some(nv[m]) != sc ==> exists|k: int| 0 <= k < out@.len() && out@[k] == m,
            decreases names@.len() - i,
        {
            let keep = match scale {
                Some(s) => !same_str(names[i].as_str(), s),
                None => true,
            };
            proof { assert(nv[i as int] == names@[i as int]@); }
            proof {
                match scale {
                    Some(sv) => { assert(keep == (Some(nv[i as int]) != sc)); },
                    None => {},
                }
            }
            let ghost old_out = out@;
            if keep {
                out.push(i);
                proof {
                    assert(out@[out@.len() - 1] == i);
                    assert forall|m: int| 0 <= m < i + 1 && Some(nv[m]) != sc implies exists|k: int| 0 <= k < out@.len() && out@[k] == m by {
                        if m == i {
                            assert(out@[out@.len() - 1] == m);
                        } else {
                            let k0 = choose|k: int| 0 <= k < old_out.len() && old_out[k] == m;
                            assert(out@[k0] == m);
                        }
                    }
                }
            }
            i += 1;
        }
        return Ok(out);
    }
    let mut k: usize = 0;
    while k < probes.len()
        invariant
            k <= probes@.len(), probes@.len() > 0, out@.len() == k,
            nv == texts(names@), pv == texts(probes@),
            forall|m: int| 0 <= m < k ==> {
                let i = #[trigger] out@[m] as int;
                &&& i < nv.len() && probe_matches_spec(pv[m], nv[i])
                &&& forall|j: int| 0 <= j < i ==> !probe_matches_spec(pv[m], #[trigger] nv[j])
            },
        decreases probes@.len() - k,
    {
        let mut i: usize = 0;
        let mut found = false;
        while i < names.len() && !found
            invariant
                i <= names@.len(), k < probes@.len(),
                nv == texts(names@), pv == texts(probes@),
                found ==> i < names@.len() && probe_matches_spec(pv[k as int], nv[i as int]),
                forall|j: int| 0 <= j < i ==> !probe_matches_spec(pv[k as int], #[trigger] nv[j]),
            decreases (names@.len() - i) * 2 + (if found { 0int } else { 1int }),
        {
            proof { assert(nv[i as int] == names@[i as int]@ && pv[k as int] == probes@[k as int]@); }
            if probe_matches(probes[k].as_str(), names[i].as_str()) {
                found = true;
            } else {
                i += 1;
            }
        }
        if !found {
            let mut m = String::from_str("probe `");
            push_str(&mut m, probes[k].as_str());
            push_str(&mut m, "` matched no simulation vector; available vectors: ");
            push_str(&mut m, &list_names(names));
            proof {
                assert forall|mm: int| 0 <= mm < k implies exists|j: int| 0 <= j < nv.len() && probe_matches_spec(#[trigger] pv[mm], nv[j]) by {
                    let i2 = out@[mm] as int;
                    assert(probe_matches_spec(pv[mm], nv[i2]));
                }
                assert(unmatched(nv, pv, k as int));
                assert(pv[k as int] == probes@[k as int]@);
            }
            return Err(Error::with_help(m, String::from_str(
                "probes look like `v(NET)`, `i(V1)` or `@r1[p]` (net names are case-insensitive)")));
        }
        out.push(i);
        k += 1;
    }
    Ok(out)
}

/// An axis label: the name, and the unit with its prefix in brackets where
/// there is a unit.
pub open spec fn axis_text(name: Seq<char>, unit: Seq<char>, prefix: Seq<char>) -> Seq<char> {
    if unit.len() == 0 { name } else { name + " ("@ + prefix + unit + ")"@ }
}

/// An axis label for a plot.
pub fn axis_label(name: &str, unit: &str, prefix: &str) -> (r: String)
    ensures r@ == axis_text(name@, unit@, prefix@),
{
    if unit.unicode_len() == 0 {
        return name.to_string();
    }
    let mut s = name.to_string();
    push_str(&mut s, " (");
    push_str(&mut s, prefix);
    push_str(&mut s, unit);
    push_str(&mut s, ")");
    s
}

/// Text with `&`, `<` and `>` written as SVG entities.
pub open spec fn svg_escaped(s: Seq<char>) -> Seq<char>
    decreases s.len(),
{
    if s.len() == 0 {
        Seq::empty()
    } else {
        let c = s.last();
        svg_escaped(s.drop_last()) + (if c == '&' { "&amp;"@ } else if c == '<' { "&lt;"@ } else if c == '>' { "&gt;"@ } else { seq![c] })
    }
}

/// Escape text for SVG.
pub fn esc(s: &str) -> (r: String)
    ensures r@ == svg_escaped(s@),
{
    let v = chars_of(s);
    let mut out = String::new();
    let mut i: usize = 0;
    while i < v.len()
        invariant i <= v@.len(), v@ == s@, out@ == svg_escaped(v@.take(i as int)),
        decreases v@.len() - i,
    {
        let c = v[i];
        proof {
            assert(v@.take(i + 1).drop_last() =~= v@.take(i as int));
            assert(v@.take(i + 1).last() == c);
        }
        if c == '&' {
            push_str(&mut out, "&amp;");
        } else if c == '<' {
            push_str(&mut out, "&lt;");
        } else if c == '>' {
            push_str(&mut out, "&gt;");
        } else {
            push_char(&mut out, c);
        }
        i += 1;
    }
    proof { assert(v@.take(v@.len() as int) =~= v@); }
    out
}

/// What a finished study recorded next to its results.
#[derive(Clone, Debug, PartialEq, Eq)]
pub struct Manifest {
    pub name: String,
    pub input_hash: String,
    pub analysis: String,
    pub finished_at: String,
    pub scale: Option<String>,
    pub vectors: Vec<String>,
    pub points: usize,
    pub files: Vec<String>,
    pub summary: String,
}

} // verus!
