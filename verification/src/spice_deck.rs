//! Putting a SPICE deck together for one simulation study: the header,
//! temperature and options, library includes, models, the elements each
//! instance's template expanded to, extra lines, the analysis and what to
//! save; with the warnings and the instances left out noted on top, and
//! refused when nothing can be simulated or nothing is grounded.

use vstd::prelude::*;
use crate::canon::texts;
use crate::edit::net_view;
use crate::error::Error;
use crate::text::{push_str, push_char, join_text, join_strings, chars_of};

verus! {

/// Lines as one text, each followed by a newline.
pub open spec fn lines_text(ls: Seq<Seq<char>>) -> Seq<char>
    decreases ls.len(),
{
    if ls.len() == 0 { Seq::empty() } else { lines_text(ls.drop_last()) + ls.last() + "\n"@ }
}

/// Each text with `pre` before it and `post` after it, in order.
pub open spec fn wrapped(ls: Seq<Seq<char>>, pre: Seq<char>, post: Seq<char>) -> Seq<char>
    decreases ls.len(),
{
    if ls.len() == 0 { Seq::empty() } else { wrapped(ls.drop_last(), pre, post) + pre + ls.last() + post }
}

/// The warning lines, the last warning first.
pub open spec fn warning_lines(ws: Seq<Seq<char>>) -> Seq<char>
    decreases ws.len(),
{
    if ws.len() == 0 { Seq::empty() } else { "* warning: "@ + ws.last() + "\n"@ + warning_lines(ws.drop_last()) }
}

/// An element as written: its text, ending in a newline.
pub open spec fn element_line(e: Seq<char>) -> Seq<char> {
    if e.len() > 0 && e.last() == '\n' { e } else { e + "\n"@ }
}

/// The elements as written.
pub open spec fn elements_text(es: Seq<Seq<char>>) -> Seq<char>
    decreases es.len(),
{
    if es.len() == 0 { Seq::empty() } else { elements_text(es.drop_last()) + element_line(es.last()) }
}

/// The models: a comment naming each model's component, then its text.
pub open spec fn models_text(ms: Seq<(Seq<char>, Seq<char>)>) -> Seq<char>
    decreases ms.len(),
{
    if ms.len() == 0 { Seq::empty() } else { models_text(ms.drop_last()) + "* model for "@ + ms.last().0 + "\n"@ + ms.last().1 + "\n"@ }
}

/// The probes saved by name: those that start with `@`.
pub open spec fn saved_probes(ps: Seq<Seq<char>>) -> Seq<Seq<char>> {
    ps.filter(|p: Seq<char>| p.len() > 0 && p[0] == '@')
}

/// What a study's deck says, or why there is none.
pub open spec fn deck_of(project: Seq<char>, name: Seq<char>, analysis: Seq<char>, temperature: Option<Seq<char>>,
    options: Seq<Seq<char>>, includes: Seq<Seq<char>>, models: Seq<(Seq<char>, Seq<char>)>, elements: Seq<Seq<char>>,
    extra: Seq<Seq<char>>, probes: Seq<Seq<char>>, skipped: Seq<Seq<char>>, warnings: Seq<Seq<char>>, has_ground: bool)
    -> Result<Seq<char>, (Seq<char>, Seq<char>)> {
    if elements.len() == 0 {
        Err(("nothing to simulate: no instance has a spice model"@,
            "give components a `spice` section (see `pcb schema component`) and add sources such as `vsource`"@))
    } else if !has_ground {
        Err(("the circuit has no ground: no net is named GND (or 0)"@,
            "rename the ground net with `pcb net rename <net> GND`, or connect a pin with `pcb connect <pin> --net GND`"@))
    } else {
        Ok(warning_lines(warnings)
            + (if skipped.len() > 0 { "* not simulated (no spice model): "@ + join_text(skipped, ", "@) + "\n"@ } else { Seq::empty() })
            + "* "@ + project + " — simulation `"@ + name + "` ("@ + analysis + ")\n"@
            + ".title "@ + project + " "@ + name + "\n"@
            + (match temperature { Some(t) => ".temp "@ + t + "\n"@, None => Seq::empty() })
            + (if options.len() > 0 { ".options "@ + join_text(options, " "@) + "\n"@ } else { Seq::empty() })
            + wrapped(includes, ".include \""@, "\"\n"@)
            + models_text(models)
            + "* elements\n"@ + elements_text(elements)
            + (if extra.len() > 0 { "* extra\n"@ + lines_text(extra) } else { Seq::empty() })
            + analysis + "\n"@ + ".save all\n"@
            + wrapped(saved_probes(probes), ".save "@, "\n"@)
            + ".end\n"@)
    }
}

fn push_wrapped(s: &mut String, ls: &Vec<String>, pre: &str, post: &str)
    ensures final(s)@ == old(s)@ + wrapped(texts(ls@), pre@, post@),
{
    let ghost s0 = s@;
    let ghost lv = texts(ls@);
    let mut i: usize = 0;
    while i < ls.len()
        invariant i <= ls@.len(), lv == texts(ls@), s@ == s0 + wrapped(lv.take(i as int), pre@, post@),
        decreases ls@.len() - i,
    {
        proof { assert(lv.take(i + 1).drop_last() =~= lv.take(i as int)); assert(lv.take(i + 1).last() == ls@[i as int]@); }
        push_str(s, pre);
        push_str(s, ls[i].as_str());
        push_str(s, post);
        proof { assert(s@ =~= s0 + wrapped(lv.take(i + 1), pre@, post@)); }
        i += 1;
    }
    proof { assert(lv.take(lv.len() as int) =~= lv); }
}

fn warnings_out(ws: &Vec<String>) -> (r: String)
    ensures r@ == warning_lines(texts(ws@)),
{
    let ghost wv = texts(ws@);
    let mut r = String::new();
    let mut i: usize = 0;
    while i < ws.len()
        invariant i <= ws@.len(), wv == texts(ws@), r@ == warning_lines(wv.take(i as int)),
        decreases ws@.len() - i,
    {
        proof { assert(wv.take(i + 1).drop_last() =~= wv.take(i as int)); assert(wv.take(i + 1).last() == ws@[i as int]@); }
        let mut line = String::new();
        push_str(&mut line, "* warning: ");
        push_str(&mut line, ws[i].as_str());
        push_str(&mut line, "\n");
        push_str(&mut line, r.as_str());
        r = line;
        i += 1;
    }
    proof { assert(wv.take(wv.len() as int) =~= wv); }
    r
}

/// The header: warnings, instances left out, title, temperature, options.
pub open spec fn head_of(project: Seq<char>, name: Seq<char>, analysis: Seq<char>, temperature: Option<Seq<char>>,
    options: Seq<Seq<char>>, skipped: Seq<Seq<char>>, warnings: Seq<Seq<char>>) -> Seq<char> {
    warning_lines(warnings)
        + (if skipped.len() > 0 { "* not simulated (no spice model): "@ + join_text(skipped, ", "@) + "\n"@ } else { Seq::empty() })
        + "* "@ + project + " — simulation `"@ + name + "` ("@ + analysis + ")\n"@
        + ".title "@ + project + " "@ + name + "\n"@
        + (match temperature { Some(t) => ".temp "@ + t + "\n"@, None => Seq::empty() })
        + (if options.len() > 0 { ".options "@ + join_text(options, " "@) + "\n"@ } else { Seq::empty() })
}

fn head(project: &str, name: &str, analysis: &str, temperature: &Option<String>, options: &Vec<String>,
    skipped: &Vec<String>, warnings: &Vec<String>) -> (r: String)
    ensures r@ == head_of(project@, name@, analysis@, net_view(*temperature), texts(options@), texts(skipped@), texts(warnings@)),
{
    let mut s = warnings_out(warnings);
    let ghost a = s@;
    if skipped.len() > 0 {
        push_str(&mut s, "* not simulated (no spice model): ");
        push_str(&mut s, join_strings(skipped, ", ").as_str());
        push_str(&mut s, "\n");
    }
    proof { assert(skipped@.map_values(|x: String| x@) =~= texts(skipped@)); }
    let ghost b = s@;
    push_str(&mut s, "* ");
    push_str(&mut s, project);
    push_str(&mut s, " — simulation `");
    push_str(&mut s, name);
    push_str(&mut s, "` (");
    push_str(&mut s, analysis);
    push_str(&mut s, ")\n");
    push_str(&mut s, ".title ");
    push_str(&mut s, project);
    push_str(&mut s, " ");
    push_str(&mut s, name);
    push_str(&mut s, "\n");
    let ghost c = s@;
    match temperature {
        Some(t) => { push_str(&mut s, ".temp "); push_str(&mut s, t.as_str()); push_str(&mut s, "\n"); },
        None => {},
    }
    let ghost d = s@;
    if options.len() > 0 {
        push_str(&mut s, ".options ");
        push_str(&mut s, join_strings(options, " ").as_str());
        push_str(&mut s, "\n");
    }
    proof {
        assert(options@.map_values(|x: String| x@) =~= texts(options@));
        assert(s@ =~= head_of(project@, name@, analysis@, net_view(*temperature), texts(options@), texts(skipped@), texts(warnings@)));
    }
    s
}

fn push_models(s: &mut String, models: &Vec<(String, String)>)
    ensures final(s)@ == old(s)@ + models_text(models@.map_values(|m: (String, String)| (m.0@, m.1@))),
{
    let ghost mv = models@.map_values(|m: (String, String)| (m.0@, m.1@));
    let ghost s1 = s@;
    let mut i: usize = 0;
    while i < models.len()
        invariant i <= models@.len(), mv == models@.map_values(|m: (String, String)| (m.0@, m.1@)),
            s@ == s1 + models_text(mv.take(i as int)),
        decreases models@.len() - i,
    {
        proof { assert(mv.take(i + 1).drop_last() =~= mv.take(i as int)); assert(mv.take(i + 1).last() == (models@[i as int].0@, models@[i as int].1@)); }
        push_str(s, "* model for ");
        push_str(s, models[i].0.as_str());
        push_str(s, "\n");
        push_str(s, models[i].1.as_str());
        push_str(s, "\n");
        proof { assert(s@ =~= s1 + models_text(mv.take(i + 1))); }
        i += 1;
    }
    proof { assert(mv.take(mv.len() as int) =~= mv); }
}

fn push_elements(s: &mut String, elements: &Vec<String>)
    ensures final(s)@ == old(s)@ + elements_text(texts(elements@)),
{
    let ghost ev = texts(elements@);
    let ghost s2 = s@;
    let mut i: usize = 0;
    while i < elements.len()
        invariant i <= elements@.len(), ev == texts(elements@), s@ == s2 + elements_text(ev.take(i as int)),
        decreases elements@.len() - i,
    {
        proof { assert(ev.take(i + 1).drop_last() =~= ev.take(i as int)); assert(ev.take(i + 1).last() == elements@[i as int]@); }
        let e = elements[i].as_str();
        push_str(s, e);
        let cs = chars_of(e);
        if cs.len() == 0 || cs[cs.len() - 1] != '\n' {
            push_str(s, "\n");
        }
        proof { assert(s@ =~= s2 + elements_text(ev.take(i + 1))); }
        i += 1;
    }
    proof { assert(ev.take(ev.len() as int) =~= ev); }
}

fn push_extra(s: &mut String, extra: &Vec<String>)
    ensures final(s)@ == old(s)@ + (if extra@.len() > 0 { "* extra\n"@ + lines_text(texts(extra@)) } else { Seq::empty() }),
{
    if extra.len() > 0 {
        let ghost s0 = s@;
        push_str(s, "* extra\n");
        let ghost xv = texts(extra@);
        let ghost s3 = s@;
        let mut i: usize = 0;
        while i < extra.len()
            invariant i <= extra@.len(), xv == texts(extra@), s@ == s3 + lines_text(xv.take(i as int)),
            decreases extra@.len() - i,
        {
            proof { assert(xv.take(i + 1).drop_last() =~= xv.take(i as int)); assert(xv.take(i + 1).last() == extra@[i as int]@); }
            push_str(s, extra[i].as_str());
            push_str(s, "\n");
            proof { assert(s@ =~= s3 + lines_text(xv.take(i + 1))); }
            i += 1;
        }
        proof { assert(xv.take(xv.len() as int) =~= xv); assert(s@ =~= s0 + ("* extra\n"@ + lines_text(xv))); }
    } else {
        proof { assert(s@ =~= s@ + Seq::<char>::empty()); }
    }
}

fn saved_of(probes: &Vec<String>) -> (r: Vec<String>)
    ensures texts(r@) == saved_probes(texts(probes@)),
{
    let mut saved: Vec<String> = Vec::new();
    let ghost pv = texts(probes@);
    let mut i: usize = 0;
    while i < probes.len()
        invariant i <= probes@.len(), pv == texts(probes@), texts(saved@) == saved_probes(pv.take(i as int)),
        decreases probes@.len() - i,
    {
        proof {
            reveal(Seq::filter);
            assert(pv.take(i + 1).drop_last() =~= pv.take(i as int));
            assert(pv.take(i + 1).last() == probes@[i as int]@);
        }
        let cs = chars_of(probes[i].as_str());
        if cs.len() > 0 && cs[0] == '@' {
            let ghost before = texts(saved@);
            saved.push(probes[i].clone());
            proof { assert(texts(saved@) =~= before.push(probes@[i as int]@)); }
        }
        i += 1;
    }
    proof { assert(pv.take(pv.len() as int) =~= pv); }
    saved
}

/// The SPICE deck of simulation `name` of `project`, as `deck_of` gives it;
/// refused, with a hint, when no instance has a model or no net is ground.
pub fn netlist_deck(project: &str, name: &str, analysis: &str, temperature: &Option<String>, options: &Vec<String>,
    includes: &Vec<String>, models: &Vec<(String, String)>, elements: &Vec<String>, extra: &Vec<String>,
    probes: &Vec<String>, skipped: &Vec<String>, warnings: &Vec<String>, has_ground: bool) -> (r: Result<String, Error>)
    ensures
        match deck_of(project@, name@, analysis@, net_view(*temperature), texts(options@), texts(includes@),
            models@.map_values(|m: (String, String)| (m.0@, m.1@)), texts(elements@), texts(extra@), texts(probes@),
            texts(skipped@), texts(warnings@), has_ground) {
            Ok(t) => r matches Ok(s) && s@ == t,
            Err((m, h)) => r matches Err(e) && e.message@ == m && (e.help matches Some(x) && x@ == h),
        },
{
    if elements.len() == 0 {
        return Err(Error::with_help("nothing to simulate: no instance has a spice model".to_owned(),
            "give components a `spice` section (see `pcb schema component`) and add sources such as `vsource`".to_owned()));
    }
    if !has_ground {
        return Err(Error::with_help("the circuit has no ground: no net is named GND (or 0)".to_owned(),
            "rename the ground net with `pcb net rename <net> GND`, or connect a pin with `pcb connect <pin> --net GND`".to_owned()));
    }
    let mut s = head(project, name, analysis, temperature, options, skipped, warnings);
    let ghost h = s@;
    push_wrapped(&mut s, includes, ".include \"", "\"\n");
    let ghost i1 = s@;
    push_models(&mut s, models);
    let ghost i2 = s@;
    push_str(&mut s, "* elements\n");
    push_elements(&mut s, elements);
    let ghost i3 = s@;
    push_extra(&mut s, extra);
    let ghost i4 = s@;
    push_str(&mut s, analysis);
    push_str(&mut s, "\n");
    push_str(&mut s, ".save all\n");
    let saved = saved_of(probes);
    push_wrapped(&mut s, &saved, ".save ", "\n");
    push_str(&mut s, ".end\n");
    proof {
        let t = deck_of(project@, name@, analysis@, net_view(*temperature), texts(options@), texts(includes@),
            models@.map_values(|m: (String, String)| (m.0@, m.1@)), texts(elements@), texts(extra@), texts(probes@),
            texts(skipped@), texts(warnings@), has_ground);
        assert(t matches Ok(x) && s@ =~= x);
    }
    Ok(s)
}

} // verus!
