//! Expanding a component's SPICE template for one placed instance.
//!
//! A template is text with placeholders in braces: `{ref}` is the instance's
//! reference, `{pin:P}` the node pin `P` is on, and any other name a
//! parameter's value.

use vstd::prelude::*;
use crate::text::{chars_of, is_ws, is_whitespace, ascii_lower, to_ascii_lower, is_ascii_alpha, copy_range,
    find_in, same_str, push_str, string_from};
use crate::decimal::find_char;
use crate::emit::lemma_find_char_le;
use crate::sim::{node_text, node_name};
use crate::error::{Error, list_names, names_text};
use crate::gerber::{starts, has_prefix};

verus! {

/// What expanding a template comes to.
pub enum TemplateOutcome {
    /// The text, the warnings for pins on no net, and whether a pin was on
    /// node 0.
    Done(Seq<char>, Seq<Seq<char>>, bool),
    /// A `{` without its `}`.
    Unclosed,
    /// A `{pin:P}` whose pin the component does not have.
    NoPin(Seq<char>),
    /// A placeholder that is neither `ref`, a pin nor a parameter.
    Unknown(Seq<char>),
}

/// The first place `x` has in `xs`, or `xs.len()`.
pub open spec fn position_of(xs: Seq<Seq<char>>, x: Seq<char>) -> int
    decreases xs.len(),
{
    if xs.len() == 0 { 0 } else if xs[0] == x { 0 } else { 1 + position_of(xs.drop_first(), x) }
}

/// The names of the parameters, in order.
pub open spec fn param_names(params: Seq<(Seq<char>, Seq<char>)>) -> Seq<Seq<char>> {
    params.map_values(|p: (Seq<char>, Seq<char>)| p.0)
}

/// `out` with the reference appended, where a type letter just written at
/// the start of a token and matching the reference's first letter (any
/// case) is dropped, so `R{ref}` with `R1` gives `R1`.
pub open spec fn ref_joined(out: Seq<char>, refdes: Seq<char>) -> Seq<char> {
    let first = if refdes.len() > 0 { refdes[0] } else { ' ' };
    if out.len() > 0 && ascii_lower(out.last()) == ascii_lower(first) && is_ascii_alpha(out.last())
        && (out.len() == 1 || is_ws(out[out.len() - 2])) {
        out.drop_last() + refdes
    } else {
        out + refdes
    }
}

/// The warning for a pin on no net.
pub open spec fn floating_text(refdes: Seq<char>, pin: Seq<char>) -> Seq<char> {
    refdes + "."@ + pin + " is unconnected; it floats as node NC_"@ + refdes + "_"@ + pin
}

/// The placeholders a template of the instance may use: the parameters,
/// `ref`, then `pin:` and each pin.
pub open spec fn placeholder_names(params: Seq<(Seq<char>, Seq<char>)>, pins: Seq<Seq<char>>) -> Seq<Seq<char>> {
    param_names(params) + seq!["ref"@] + pins.map_values(|p: Seq<char>| "pin:"@ + p)
}

/// Expanding `rest` after `out` was written: `pins` are the component's pin
/// names, `nets[i]` the net pin `i` is on, `params` the parameter values.
pub open spec fn expand_from(rest: Seq<char>, out: Seq<char>, warns: Seq<Seq<char>>, grounded: bool,
    refdes: Seq<char>, pins: Seq<Seq<char>>, nets: Seq<Option<Seq<char>>>, params: Seq<(Seq<char>, Seq<char>)>)
    -> TemplateOutcome
    decreases rest.len(),
{
    let s = find_char(rest, '{');
    if s >= rest.len() {
        TemplateOutcome::Done(out + rest, warns, grounded)
    } else {
        let out1 = out + rest.take(s);
        let after = rest.skip(s + 1);
        let e = find_char(after, '}');
        if e >= after.len() {
            TemplateOutcome::Unclosed
        } else {
            proof {
                lemma_find_char_le(rest, '{');
                lemma_find_char_le(after, '}');
            }
            let key = after.take(e);
            let next = after.skip(e + 1);
            if key == "ref"@ {
                expand_from(next, ref_joined(out1, refdes), warns, grounded, refdes, pins, nets, params)
            } else if starts(key, "pin:"@) {
                let pin = key.skip(4);
                let i = position_of(pins, pin);
                if i >= pins.len() {
                    TemplateOutcome::NoPin(pin)
                } else {
                    match nets[i] {
                        Some(net) => expand_from(next, out1 + node_text(net), warns, grounded || node_text(net) == "0"@,
                            refdes, pins, nets, params),
                        None => expand_from(next, out1 + "NC_"@ + refdes + "_"@ + node_text(pin),
                            warns.push(floating_text(refdes, pin)), grounded, refdes, pins, nets, params),
                    }
                }
            } else {
                let j = position_of(param_names(params), key);
                if j < params.len() {
                    expand_from(next, out1 + params[j].1, warns, grounded, refdes, pins, nets, params)
                } else {
                    TemplateOutcome::Unknown(key)
                }
            }
        }
    }
}

/// A template expanded for an instance.
#[derive(Debug)]
pub struct Expansion {
    pub text: String,
    pub warnings: Vec<String>,
    /// Whether a pin is on node 0.
    pub grounded: bool,
}

/// Why a template could not be expanded.
#[derive(Debug)]
pub enum TemplateError {
    /// An unclosed `{`, or a pin the component does not have.
    Invalid(Error),
    /// A placeholder that names nothing, with the names that would have.
    Unknown { error: Error, key: String, names: Vec<String> },
}

/// The views of the names, nets and parameters an instance hands in.
pub open spec fn names_view(xs: Seq<String>) -> Seq<Seq<char>> {
    xs.map_values(|s: String| s@)
}

pub open spec fn nets_view(xs: Seq<Option<String>>) -> Seq<Option<Seq<char>>> {
    xs.map_values(|o: Option<String>| match o { Some(s) => Some(s@), None => None })
}

pub open spec fn params_view(xs: Seq<(String, String)>) -> Seq<(Seq<char>, Seq<char>)> {
    xs.map_values(|p: (String, String)| (p.0@, p.1@))
}

/// What expanding `template` for the instance comes to.
pub open spec fn template_outcome(template: Seq<char>, refdes: Seq<char>, pins: Seq<Seq<char>>,
    nets: Seq<Option<Seq<char>>>, params: Seq<(Seq<char>, Seq<char>)>) -> TemplateOutcome {
    expand_from(template, Seq::empty(), Seq::empty(), false, refdes, pins, nets, params)
}

/// The message for a `{` without its `}`.
pub open spec fn unclosed_text(component: Seq<char>, template: Seq<char>) -> Seq<char> {
    "spice template of `"@ + component + "` has an unclosed `{`: "@ + template
}

/// The message for a pin the component does not have.
pub open spec fn no_pin_text(component: Seq<char>, pin: Seq<char>, pins: Seq<Seq<char>>) -> Seq<char> {
    "component `"@ + component + "` has no pin `"@ + pin + "`; its pins are "@ + names_text(pins)
}

/// The hint for a pin the component does not have.
pub open spec fn no_pin_help(component: Seq<char>, pin: Seq<char>) -> Seq<char> {
    "referenced as `{pin:"@ + pin + "}` in the spice template of `"@ + component + "`"@
}

/// The message for a placeholder that names nothing.
pub open spec fn unknown_text(component: Seq<char>, key: Seq<char>, names: Seq<Seq<char>>) -> Seq<char> {
    "spice template of `"@ + component + "` uses `{"@ + key + "}` but the available placeholders are "@
        + names_text(names)
}

/// Where `position_of` points, the sequence holds the text looked for.
pub proof fn lemma_position_found(xs: Seq<Seq<char>>, x: Seq<char>)
    ensures
        0 <= position_of(xs, x) <= xs.len(),
        position_of(xs, x) < xs.len() ==> xs[position_of(xs, x)] == x,
        position_of(xs, x) == xs.len() ==> !xs.contains(x),
    decreases xs.len(),
{
    if xs.len() > 0 && xs[0] != x {
        lemma_position_found(xs.drop_first(), x);
        if xs.contains(x) {
            let i = choose|i: int| 0 <= i < xs.len() && xs[i] == x;
            assert(xs.drop_first()[i - 1] == x);
        }
    }
}

pub proof fn lemma_position(xs: Seq<Seq<char>>, x: Seq<char>, i: int)
    requires 0 <= i <= xs.len(), forall|j: int| 0 <= j < i ==> xs[j] != x, i == xs.len() || xs[i] == x,
    ensures position_of(xs, x) == i,
    decreases xs.len(),
{
    if xs.len() > 0 && i > 0 {
        let t = xs.drop_first();
        assert forall|j: int| 0 <= j < i - 1 implies t[j] != x by { assert(t[j] == xs[j + 1]); }
        lemma_position(t, x, i - 1);
    }
}

pub fn position_in(xs: &Vec<String>, x: &str) -> (r: usize)
    ensures r == position_of(names_view(xs@), x@), r <= xs.len(),
{
    let ghost xv = names_view(xs@);
    let mut i: usize = 0;
    while i < xs.len()
        invariant i <= xs@.len(), xv == names_view(xs@), forall|j: int| 0 <= j < i ==> xv[j] != x@,
        decreases xs@.len() - i,
    {
        if same_str(xs[i].as_str(), x) {
            proof { lemma_position(xv, x@, i as int); }
            return i;
        }
        i += 1;
    }
    proof { lemma_position(xv, x@, i as int); }
    i
}

fn param_position(params: &Vec<(String, String)>, key: &str) -> (r: usize)
    ensures r == position_of(param_names(params_view(params@)), key@), r <= params.len(),
{
    let ghost kv = param_names(params_view(params@));
    let mut i: usize = 0;
    while i < params.len()
        invariant i <= params@.len(), kv == param_names(params_view(params@)),
            forall|j: int| 0 <= j < i ==> kv[j] != key@,
        decreases params@.len() - i,
    {
        if same_str(params[i].0.as_str(), key) {
            proof { lemma_position(kv, key@, i as int); }
            return i;
        }
        i += 1;
    }
    proof { lemma_position(kv, key@, i as int); }
    i
}

fn append_str(out: &mut Vec<char>, s: &str)
    ensures final(out)@ == old(out)@ + s@,
{
    let mut t = chars_of(s);
    out.append(&mut t);
}

/// The placeholders of an instance, as `placeholder_names` lists them.
fn placeholders(params: &Vec<(String, String)>, pins: &Vec<String>) -> (r: Vec<String>)
    ensures names_view(r@) == placeholder_names(params_view(params@), names_view(pins@)),
{
    let mut r: Vec<String> = Vec::new();
    let mut i: usize = 0;
    while i < params.len()
        invariant i <= params@.len(), names_view(r@) == param_names(params_view(params@)).take(i as int),
        decreases params@.len() - i,
    {
        let ghost r0 = r@;
        let c = params[i].0.clone();
        r.push(c);
        proof {
            assert(names_view(r@) =~= names_view(r0).push(params@[i as int].0@));
            assert(param_names(params_view(params@)).take(i + 1)
                =~= param_names(params_view(params@)).take(i as int).push(params@[i as int].0@));
        }
        i += 1;
    }
    proof { assert(param_names(params_view(params@)).take(i as int) =~= param_names(params_view(params@))); }
    r.push("ref".to_owned());
    let ghost base = names_view(r@);
    let mut k: usize = 0;
    while k < pins.len()
        invariant
            k <= pins@.len(),
            names_view(r@) == base + names_view(pins@).take(k as int).map_values(|p: Seq<char>| "pin:"@ + p),
        decreases pins@.len() - k,
    {
        let mut t = "pin:".to_owned();
        push_str(&mut t, pins[k].as_str());
        let ghost r0 = r@;
        r.push(t);
        proof {
            reveal_strlit("pin:");
            assert(names_view(r@) =~= names_view(r0).push("pin:"@ + pins@[k as int]@));
            assert(names_view(pins@).take(k + 1).map_values(|p: Seq<char>| "pin:"@ + p)
                =~= names_view(pins@).take(k as int).map_values(|p: Seq<char>| "pin:"@ + p).push("pin:"@ + pins@[k as int]@));
            assert(names_view(r@) =~= base + names_view(pins@).take(k + 1).map_values(|p: Seq<char>| "pin:"@ + p));
        }
        k += 1;
    }
    proof {
        assert(names_view(pins@).take(k as int) =~= names_view(pins@));
        assert(names_view(r@) =~= placeholder_names(params_view(params@), names_view(pins@)));
    }
    r
}

/// Expands the SPICE template of component `component` for the instance
/// `refdes`: `pins` are the component's pin names, `nets[i]` the net pin `i`
/// is on, and `params` the parameter values the instance resolves to.
pub fn expand_template(template: &str, refdes: &str, component: &str, pins: &Vec<String>,
    nets: &Vec<Option<String>>, params: &Vec<(String, String)>) -> (r: Result<Expansion, TemplateError>)
    requires nets.len() == pins.len(),
    ensures
        match template_outcome(template@, refdes@, names_view(pins@), nets_view(nets@), params_view(params@)) {
            TemplateOutcome::Done(text, warns, grounded) => r matches Ok(x) && x.text@ == text
                && names_view(x.warnings@) == warns && x.grounded == grounded,
            TemplateOutcome::Unclosed => r matches Err(TemplateError::Invalid(e))
                && e.message@ == unclosed_text(component@, template@) && e.help is None,
            TemplateOutcome::NoPin(pin) => r matches Err(TemplateError::Invalid(e))
                && e.message@ == no_pin_text(component@, pin, names_view(pins@))
                && (e.help matches Some(h) && h@ == no_pin_help(component@, pin)),
            TemplateOutcome::Unknown(key) => r matches Err(TemplateError::Unknown { error, key: k, names })
                && k@ == key && names_view(names@) == placeholder_names(params_view(params@), names_view(pins@))
                && error.message@ == unknown_text(component@, key, names_view(names@)) && error.help is None,
        },
{
    let v = chars_of(template);
    let n = v.len();
    let ghost pv = names_view(pins@);
    let ghost nv = nets_view(nets@);
    let ghost qv = params_view(params@);
    let ghost whole = template_outcome(template@, refdes@, pv, nv, qv);
    let mut out: Vec<char> = Vec::new();
    let mut warnings: Vec<String> = Vec::new();
    let mut grounded = false;
    let mut i: usize = 0;
    proof {
        assert(v@.skip(0) =~= v@);
        assert(out@ =~= Seq::<char>::empty());
        assert(names_view(warnings@) =~= Seq::<Seq<char>>::empty());
    }
    loop
        invariant
            i <= n == v@.len(), v@ == template@, nets@.len() == pins@.len(),
            pv == names_view(pins@), nv == nets_view(nets@), qv == params_view(params@),
            whole == template_outcome(template@, refdes@, pv, nv, qv),
            expand_from(v@.skip(i as int), out@, names_view(warnings@), grounded, refdes@, pv, nv, qv) == whole,
        decreases n - i,
    {
        let ghost rest = v@.skip(i as int);
        let s = find_in(v.as_slice(), i, n, '{');
        proof {
            assert(v@.subrange(i as int, n as int) =~= rest);
            lemma_find_char_le(rest, '{');
        }
        if s == n {
            let mut tail = copy_range(v.as_slice(), i, n);
            out.append(&mut tail);
            let text = string_from(out.as_slice());
            return Ok(Expansion { text, warnings, grounded });
        }
        let mut head = copy_range(v.as_slice(), i, s);
        out.append(&mut head);
        proof { assert(rest.take(s - i) =~= v@.subrange(i as int, s as int)); }
        let e = find_in(v.as_slice(), s + 1, n, '}');
        let ghost after = rest.skip(s - i + 1);
        proof {
            assert(v@.subrange(s + 1, n as int) =~= after);
            lemma_find_char_le(after, '}');
        }
        if e == n {
            let mut m = "spice template of `".to_owned();
            push_str(&mut m, component);
            push_str(&mut m, "` has an unclosed `{`: ");
            push_str(&mut m, template);
            return Err(TemplateError::Invalid(Error::msg(m)));
        }
        let key = copy_range(v.as_slice(), s + 1, e);
        let key_s = string_from(key.as_slice());
        proof {
            assert(after.take(e - s - 1) =~= key@);
            assert(after.skip(e - s) =~= v@.skip(e + 1));
        }
        i = e + 1;
        if same_str(key_s.as_str(), "ref") {
            let rv = chars_of(refdes);
            let first = if rv.len() > 0 { rv[0] } else { ' ' };
            let m = out.len();
            if m > 0 && to_ascii_lower(out[m - 1]) == to_ascii_lower(first)
                && (('a' <= out[m - 1] && out[m - 1] <= 'z') || ('A' <= out[m - 1] && out[m - 1] <= 'Z'))
                && (m == 1 || is_whitespace(out[m - 2])) {
                out.pop();
            }
            append_str(&mut out, refdes);
        } else if has_prefix(&key, "pin:") {
            proof { reveal_strlit("pin:"); }
            let pin = crate::text::string_of(key.as_slice(), 4, key.len());
            proof {
                reveal_strlit("pin:");
                assert(key@.skip(4) =~= pin@);
            }
            let k = position_in(pins, pin.as_str());
            if k >= pins.len() {
                let mut m = "component `".to_owned();
                push_str(&mut m, component);
                push_str(&mut m, "` has no pin `");
                push_str(&mut m, pin.as_str());
                push_str(&mut m, "`; its pins are ");
                push_str(&mut m, list_names(pins).as_str());
                let mut h = "referenced as `{pin:".to_owned();
                push_str(&mut h, pin.as_str());
                push_str(&mut h, "}` in the spice template of `");
                push_str(&mut h, component);
                push_str(&mut h, "`");
                return Err(TemplateError::Invalid(Error::with_help(m, h)));
            }
            match &nets[k] {
                Some(net) => {
                    let node = node_name(net.as_str());
                    if same_str(node.as_str(), "0") {
                        grounded = true;
                    }
                    append_str(&mut out, node.as_str());
                }
                None => {
                    let mut w = refdes.to_owned();
                    push_str(&mut w, ".");
                    push_str(&mut w, pin.as_str());
                    push_str(&mut w, " is unconnected; it floats as node NC_");
                    push_str(&mut w, refdes);
                    push_str(&mut w, "_");
                    push_str(&mut w, pin.as_str());
                    let ghost w0 = warnings@;
                    warnings.push(w);
                    proof { assert(names_view(warnings@) =~= names_view(w0).push(floating_text(refdes@, pin@))); }
                    append_str(&mut out, "NC_");
                    append_str(&mut out, refdes);
                    append_str(&mut out, "_");
                    append_str(&mut out, node_name(pin.as_str()).as_str());
                }
            }
        } else {
            let j = param_position(params, key_s.as_str());
            if j >= params.len() {
                let names = placeholders(params, pins);
                let mut m = "spice template of `".to_owned();
                push_str(&mut m, component);
                push_str(&mut m, "` uses `{");
                push_str(&mut m, key_s.as_str());
                push_str(&mut m, "}` but the available placeholders are ");
                push_str(&mut m, list_names(&names).as_str());
                return Err(TemplateError::Unknown { error: Error::msg(m), key: key_s, names });
            }
            append_str(&mut out, params[j].1.as_str());
        }
    }
}

/// The value parameter `k` takes for instance `refdes`: the study's
/// `<refdes>.<k>` override, else the instance's own value, else the
/// component's default.
pub open spec fn param_value(refdes: Seq<char>, k: Seq<char>, default: Option<Seq<char>>,
    inst: Seq<(Seq<char>, Seq<char>)>, sim: Seq<(Seq<char>, Seq<char>)>) -> Option<Seq<char>> {
    let si = position_of(param_names(sim), refdes + "."@ + k);
    let ii = position_of(param_names(inst), k);
    if si < sim.len() {
        Some(sim[si].1)
    } else if ii < inst.len() {
        Some(inst[ii].1)
    } else {
        default
    }
}

pub open spec fn defaults_view(xs: Seq<(String, Option<String>)>) -> Seq<(Seq<char>, Option<Seq<char>>)> {
    xs.map_values(|p: (String, Option<String>)| (p.0@, match p.1 { Some(s) => Some(s@), None => None }))
}

/// The first parameter, from `i` on, that gets no value.
pub open spec fn first_unvalued(refdes: Seq<char>, defaults: Seq<(Seq<char>, Option<Seq<char>>)>,
    inst: Seq<(Seq<char>, Seq<char>)>, sim: Seq<(Seq<char>, Seq<char>)>, i: int) -> int
    decreases defaults.len() - i,
{
    if i < 0 || i >= defaults.len() {
        defaults.len() as int
    } else if param_value(refdes, defaults[i].0, defaults[i].1, inst, sim) is None {
        i
    } else {
        first_unvalued(refdes, defaults, inst, sim, i + 1)
    }
}

/// The parameter values of instance `refdes`: for each parameter of the
/// component (`defaults`, with their default values, in order) the value
/// `param_value` gives it. A parameter with no value is an error.
pub fn resolve_params(refdes: &str, defaults: &Vec<(String, Option<String>)>, inst: &Vec<(String, String)>,
    sim: &Vec<(String, String)>) -> (r: Result<Vec<(String, String)>, Error>)
    ensures
        ({
            let dv = defaults_view(defaults@);
            let k = first_unvalued(refdes@, dv, params_view(inst@), params_view(sim@), 0);
            if k < dv.len() {
                r matches Err(e)
                    && e.message@ == "instance `"@ + refdes@ + "` has no value for required parameter `"@ + dv[k].0 + "`"@
                    && (e.help matches Some(h) && h@ == "set it with `pcb set "@ + refdes@ + " "@ + dv[k].0 + "=<value>`"@)
            } else {
                r matches Ok(vals) && vals@.len() == dv.len()
                    && forall|i: int| 0 <= i < dv.len() ==> params_view(vals@)[i]
                        == (dv[i].0, param_value(refdes@, dv[i].0, dv[i].1, params_view(inst@), params_view(sim@))->0)
            }
        }),
{
    let ghost dv = defaults_view(defaults@);
    let ghost iv = params_view(inst@);
    let ghost sv = params_view(sim@);
    let mut vals: Vec<(String, String)> = Vec::new();
    let mut i: usize = 0;
    while i < defaults.len()
        invariant
            i <= defaults@.len(), dv == defaults_view(defaults@), iv == params_view(inst@), sv == params_view(sim@),
            first_unvalued(refdes@, dv, iv, sv, 0) == first_unvalued(refdes@, dv, iv, sv, i as int),
            vals@.len() == i,
            forall|j: int| 0 <= j < i ==> params_view(vals@)[j] == (dv[j].0, param_value(refdes@, dv[j].0, dv[j].1, iv, sv)->0),
        decreases defaults@.len() - i,
    {
        let k = &defaults[i].0;
        let mut sk = refdes.to_owned();
        push_str(&mut sk, ".");
        push_str(&mut sk, k.as_str());
        let si = param_position(sim, sk.as_str());
        let ii = param_position(inst, k.as_str());
        proof {
            reveal_strlit(".");
            assert(dv[i as int].0 == k@);
            assert(sk@ == refdes@ + "."@ + k@);
            assert(dv[i as int].1 == match defaults@[i as int].1 { Some(s) => Some(s@), None => None });
        }
        let v: Option<String> = if si < sim.len() {
            Some(sim[si].1.clone())
        } else if ii < inst.len() {
            Some(inst[ii].1.clone())
        } else {
            match &defaults[i].1 {
                Some(d) => Some(d.clone()),
                None => None,
            }
        };
        match v {
            Some(val) => {
                let ghost v0 = vals@;
                let ghost gv = val@;
                let kc = k.clone();
                vals.push((kc, val));
                proof {
                    assert(vals@[i as int].0@ == k@);
                    assert(vals@[i as int].1@ == gv);
                    assert(params_view(vals@)[i as int] == (k@, gv));
                }
                proof {
                    assert forall|j: int| 0 <= j <= i implies params_view(vals@)[j]
                        == (dv[j].0, param_value(refdes@, dv[j].0, dv[j].1, iv, sv)->0) by {
                        if j < i {
                            assert(vals@[j] == v0[j]);
                            assert(params_view(v0)[j] == (dv[j].0, param_value(refdes@, dv[j].0, dv[j].1, iv, sv)->0));
                            assert(params_view(v0)[j] == params_view(vals@)[j]);
                        } else {
                            assert(param_value(refdes@, dv[j].0, dv[j].1, iv, sv) == Some(gv));
                        }
                    }
                }
            }
            None => {
                let mut m = "instance `".to_owned();
                push_str(&mut m, refdes);
                push_str(&mut m, "` has no value for required parameter `");
                push_str(&mut m, k.as_str());
                push_str(&mut m, "`");
                let mut h = "set it with `pcb set ".to_owned();
                push_str(&mut h, refdes);
                push_str(&mut h, " ");
                push_str(&mut h, k.as_str());
                push_str(&mut h, "=<value>`");
                return Err(Error::with_help(m, h));
            }
        }
        i += 1;
    }
    Ok(vals)
}

} // verus!
