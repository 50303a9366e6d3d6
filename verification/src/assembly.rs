//! The bill of materials: identical parts grouped into line items, written
//! in JLCPCB's upload format or as a generic CSV.

use vstd::prelude::*;
use crate::edit::{csv_text, csv_field};
use crate::text::{push_str, same_str, join_text, join_strings};
use crate::numfmt::{nat_digits, push_nat};
use crate::canon::texts;

verus! {

/// What the bill of materials reads of a placed part.
#[derive(Clone, Debug)]
pub struct Part {
    pub refdes: String,
    pub component: String,
    pub value: String,
    pub lcsc: Option<String>,
    pub mpn: Option<String>,
    pub manufacturer: Option<String>,
    pub footprint: String,
    pub assemble: bool,
    pub description: Option<String>,
}

/// The two file formats.
#[derive(Clone, Copy, PartialEq, Eq, Structural, Debug)]
pub enum BomFormat {
    /// JLCPCB's SMT assembly upload format.
    Jlcpcb,
    /// A generic CSV with every field.
    Csv,
}

/// An optional text, or the empty text.
pub open spec fn or_empty(o: Option<String>) -> Seq<char> {
    match o {
        Some(s) => s@,
        None => Seq::empty(),
    }
}

/// Whether a part is left out as not to be assembled.
pub open spec fn is_skipped(p: Part, all: bool) -> bool {
    !p.assemble && !all
}

/// Whether a part goes in the bill: assembled (or `all`), and with an LCSC
/// number unless `all` or the generic format.
pub open spec fn is_listed(p: Part, all: bool, format: BomFormat) -> bool {
    !is_skipped(p, all) && (p.lcsc is Some || all || format == BomFormat::Csv)
}

/// The key identical parts share: component, value and LCSC number.
pub type BomKey = (Seq<char>, Seq<char>, Seq<char>);

pub open spec fn key_of(p: Part) -> BomKey {
    (p.component@, p.value@, or_empty(p.lcsc))
}

/// The place of the group with key `k`, or `g.len()`.
pub open spec fn group_pos(g: Seq<(BomKey, Seq<int>)>, k: BomKey) -> int
    decreases g.len(),
{
    if g.len() == 0 { 0 } else if g[0].0 == k { 0 } else { 1 + group_pos(g.drop_first(), k) }
}

/// The line items: the listed parts grouped by key, in the order each key
/// first comes, each with its parts (by place) in order.
pub open spec fn bom_groups(ps: Seq<Part>, all: bool, format: BomFormat) -> Seq<(BomKey, Seq<int>)>
    decreases ps.len(),
{
    if ps.len() == 0 {
        Seq::empty()
    } else {
        let g = bom_groups(ps.drop_last(), all, format);
        let i = ps.len() - 1;
        if is_listed(ps[i], all, format) {
            let k = key_of(ps[i]);
            let j = group_pos(g, k);
            if j < g.len() { g.update(j, (k, g[j].1.push(i))) } else { g.push((k, seq![i])) }
        } else {
            g
        }
    }
}

/// The references of the parts at `ix`.
pub open spec fn refs_of(ps: Seq<Part>, ix: Seq<int>) -> Seq<Seq<char>> {
    ix.map_values(|i: int| ps[i].refdes@)
}

/// The line of a line item in JLCPCB's format: value, references, footprint
/// and LCSC number.
pub open spec fn jlc_line(ps: Seq<Part>, g: (BomKey, Seq<int>)) -> Seq<char> {
    let p0 = ps[g.1[0]];
    csv_text(g.0.1) + ","@ + csv_text(join_text(refs_of(ps, g.1), ","@)) + ","@
        + csv_text(p0.footprint@) + ","@ + csv_text(g.0.2) + "\n"@
}

/// The line of a line item in the generic format: every field.
pub open spec fn csv_line(ps: Seq<Part>, g: (BomKey, Seq<int>)) -> Seq<char> {
    let p0 = ps[g.1[0]];
    csv_text(join_text(refs_of(ps, g.1), " "@)) + ","@ + nat_digits(g.1.len()) + ","@
        + csv_text(g.0.0) + ","@ + csv_text(g.0.1) + ","@ + csv_text(p0.footprint@) + ","@
        + csv_text(or_empty(p0.manufacturer)) + ","@ + csv_text(or_empty(p0.mpn)) + ","@ + csv_text(g.0.2) + ","@
        + (if p0.assemble { "yes"@ } else { "no"@ }) + ","@ + csv_text(or_empty(p0.description)) + "\n"@
}

/// The line of a line item.
pub open spec fn item_line(ps: Seq<Part>, g: (BomKey, Seq<int>), format: BomFormat) -> Seq<char> {
    match format {
        BomFormat::Jlcpcb => jlc_line(ps, g),
        BomFormat::Csv => csv_line(ps, g),
    }
}

/// The header line of a format.
pub open spec fn bom_header(format: BomFormat) -> Seq<char> {
    match format {
        BomFormat::Jlcpcb => "Comment,Designator,Footprint,LCSC Part #\n"@,
        BomFormat::Csv => "Designators,Quantity,Component,Value,Footprint,Manufacturer,MPN,LCSC,Assemble,Description\n"@,
    }
}

/// The lines of the line items `g`.
pub open spec fn items_text(ps: Seq<Part>, g: Seq<(BomKey, Seq<int>)>, format: BomFormat) -> Seq<char>
    decreases g.len(),
{
    if g.len() == 0 { Seq::empty() } else { items_text(ps, g.drop_last(), format) + item_line(ps, g.last(), format) }
}

/// The references of the parts left out as not assembled, in order.
pub open spec fn skipped_refs(ps: Seq<Part>, all: bool) -> Seq<Seq<char>>
    decreases ps.len(),
{
    if ps.len() == 0 {
        Seq::empty()
    } else {
        let r = skipped_refs(ps.drop_last(), all);
        if is_skipped(ps.last(), all) { r.push(ps.last().refdes@) } else { r }
    }
}

/// The references of the assembled parts without an LCSC number, in order.
pub open spec fn missing_refs(ps: Seq<Part>, all: bool) -> Seq<Seq<char>>
    decreases ps.len(),
{
    if ps.len() == 0 {
        Seq::empty()
    } else {
        let r = missing_refs(ps.drop_last(), all);
        if !is_skipped(ps.last(), all) && ps.last().lcsc is None { r.push(ps.last().refdes@) } else { r }
    }
}

/// How many parts the line items hold.
pub open spec fn parts_in(g: Seq<(BomKey, Seq<int>)>) -> nat
    decreases g.len(),
{
    if g.len() == 0 { 0 } else { parts_in(g.drop_last()) + g.last().1.len() }
}

/// A bill of materials: the file's text, how many parts and line items it
/// lists, the parts left out as not assembled, and those without an LCSC
/// number.
#[derive(Debug)]
pub struct Bom {
    pub text: String,
    pub parts: usize,
    pub items: usize,
    pub skipped: Vec<String>,
    pub missing: Vec<String>,
}

struct Group {
    component: String,
    value: String,
    lcsc: String,
    members: Vec<usize>,
}

spec fn group_view(g: Group) -> (BomKey, Seq<int>) {
    ((g.component@, g.value@, g.lcsc@), g.members@.map_values(|i: usize| i as int))
}

spec fn groups_view(gs: Seq<Group>) -> Seq<(BomKey, Seq<int>)> {
    gs.map_values(|g: Group| group_view(g))
}

proof fn lemma_parts_in_update(g: Seq<(BomKey, Seq<int>)>, j: int, x: (BomKey, Seq<int>))
    requires 0 <= j < g.len(), x.1.len() == g[j].1.len() + 1,
    ensures parts_in(g.update(j, x)) == parts_in(g) + 1,
    decreases g.len(),
{
    let u = g.update(j, x);
    if j == g.len() - 1 {
        assert(u.drop_last() =~= g.drop_last());
    } else {
        assert(u.drop_last() =~= g.drop_last().update(j, x));
        lemma_parts_in_update(g.drop_last(), j, x);
    }
}

proof fn lemma_group_pos(g: Seq<(BomKey, Seq<int>)>, k: BomKey, i: int)
    requires 0 <= i <= g.len(), forall|j: int| 0 <= j < i ==> g[j].0 != k, i == g.len() || g[i].0 == k,
    ensures group_pos(g, k) == i,
    decreases g.len(),
{
    if g.len() > 0 && i > 0 {
        let t = g.drop_first();
        assert forall|j: int| 0 <= j < i - 1 implies t[j].0 != k by { assert(t[j] == g[j + 1]); }
        lemma_group_pos(t, k, i - 1);
    }
}

fn opt_text(o: &Option<String>) -> (r: &str)
    ensures r@ == or_empty(*o),
{
    match o {
        Some(s) => {
            let r = s.as_str();
            proof { assert(r@ == s@); }
            r
        },
        None => {
            proof { reveal_strlit(""); }
            ""
        },
    }
}

/// The references of the parts at `members`.
fn member_refs(parts: &Vec<Part>, members: &Vec<usize>) -> (r: Vec<String>)
    requires forall|x: int| 0 <= x < members@.len() ==> members@[x] < parts@.len(),
    ensures texts(r@) == refs_of(parts@, members@.map_values(|i: usize| i as int)),
{
    let ghost mv = members@.map_values(|i: usize| i as int);
    let mut refs: Vec<String> = Vec::new();
    let mut m: usize = 0;
    while m < members.len()
        invariant
            m <= members@.len(), mv == members@.map_values(|i: usize| i as int),
            forall|x: int| 0 <= x < members@.len() ==> members@[x] < parts@.len(),
            texts(refs@) == refs_of(parts@, mv.take(m as int)),
        decreases members@.len() - m,
    {
        let ghost r0 = texts(refs@);
        let x = parts[members[m]].refdes.clone();
        let ghost xv = x@;
        refs.push(x);
        proof {
            assert(xv == parts@[mv[m as int]].refdes@);
            assert(texts(refs@) =~= r0.push(xv));
            assert(refs_of(parts@, mv.take(m + 1)) =~= refs_of(parts@, mv.take(m as int)).push(xv));
        }
        m += 1;
    }
    proof { assert(mv.take(m as int) =~= mv); }
    refs
}

fn push_jlc_line(text: &mut String, parts: &Vec<Part>, gr: &Group)
    requires
        gr.members@.len() >= 1,
        forall|m: int| 0 <= m < gr.members@.len() ==> gr.members@[m] < parts@.len(),
    ensures final(text)@ == old(text)@ + jlc_line(parts@, group_view(*gr)),
{
    let refs = member_refs(parts, &gr.members);
    let p0 = &parts[gr.members[0]];
    proof { assert(group_view(*gr).1[0] == gr.members@[0] as int); }
    push_str(text, csv_field(gr.value.as_str()).as_str());
    push_str(text, ",");
    push_str(text, csv_field(join_strings(&refs, ",").as_str()).as_str());
    push_str(text, ",");
    push_str(text, csv_field(p0.footprint.as_str()).as_str());
    push_str(text, ",");
    push_str(text, csv_field(gr.lcsc.as_str()).as_str());
    push_str(text, "\n");
    proof {
        assert(refs@.map_values(|s: String| s@) == texts(refs@));
        assert(final(text)@ =~= old(text)@ + jlc_line(parts@, group_view(*gr)));
    }
}

fn push_csv_line(text: &mut String, parts: &Vec<Part>, gr: &Group)
    requires
        gr.members@.len() >= 1,
        forall|m: int| 0 <= m < gr.members@.len() ==> gr.members@[m] < parts@.len(),
    ensures final(text)@ == old(text)@ + csv_line(parts@, group_view(*gr)),
{
    let refs = member_refs(parts, &gr.members);
    let p0 = &parts[gr.members[0]];
    proof { assert(group_view(*gr).1[0] == gr.members@[0] as int); }
    let mut line = csv_field(join_strings(&refs, " ").as_str());
    push_str(&mut line, ",");
    push_nat(&mut line, gr.members.len() as u64);
    push_str(&mut line, ",");
    push_str(&mut line, csv_field(gr.component.as_str()).as_str());
    push_str(&mut line, ",");
    push_str(&mut line, csv_field(gr.value.as_str()).as_str());
    push_str(&mut line, ",");
    push_str(&mut line, csv_field(p0.footprint.as_str()).as_str());
    let ghost part1 = line@;
    let mut rest = ",".to_owned();
    push_str(&mut rest, csv_field(opt_text(&p0.manufacturer)).as_str());
    push_str(&mut rest, ",");
    push_str(&mut rest, csv_field(opt_text(&p0.mpn)).as_str());
    push_str(&mut rest, ",");
    push_str(&mut rest, csv_field(gr.lcsc.as_str()).as_str());
    push_str(&mut rest, ",");
    if p0.assemble {
        push_str(&mut rest, "yes");
    } else {
        push_str(&mut rest, "no");
    }
    push_str(&mut rest, ",");
    push_str(&mut rest, csv_field(opt_text(&p0.description)).as_str());
    push_str(&mut rest, "\n");
    push_str(text, line.as_str());
    push_str(text, rest.as_str());
    proof {
        assert(refs@.map_values(|s: String| s@) == texts(refs@));
        assert(gr.members@.len() == group_view(*gr).1.len());
        assert(final(text)@ =~= old(text)@ + csv_line(parts@, group_view(*gr)));
    }
}

/// Appends the line of the line item `gr`.
fn push_item(text: &mut String, parts: &Vec<Part>, gr: &Group, format: BomFormat)
    requires
        gr.members@.len() >= 1,
        forall|m: int| 0 <= m < gr.members@.len() ==> gr.members@[m] < parts@.len(),
    ensures final(text)@ == old(text)@ + item_line(parts@, group_view(*gr), format),
{
    match format {
        BomFormat::Jlcpcb => push_jlc_line(text, parts, gr),
        BomFormat::Csv => push_csv_line(text, parts, gr),
    }
}

/// The bill of materials of `parts`: with `all`, parts not to be assembled
/// and parts without an LCSC number are listed too.
pub fn bom(parts: &Vec<Part>, all: bool, format: BomFormat) -> (b: Bom)
    ensures
        ({
            let g = bom_groups(parts@, all, format);
            &&& b.text@ == bom_header(format) + items_text(parts@, g, format)
            &&& b.items == g.len()
            &&& b.parts == parts_in(g)
            &&& texts(b.skipped@) == skipped_refs(parts@, all)
            &&& texts(b.missing@) == missing_refs(parts@, all)
        }),
{
    let ghost ps = parts@;
    let mut groups: Vec<Group> = Vec::new();
    let mut skipped: Vec<String> = Vec::new();
    let mut missing: Vec<String> = Vec::new();
    let mut count: usize = 0;
    let mut i: usize = 0;
    proof { assert(ps.take(0) =~= Seq::<Part>::empty()); }
    while i < parts.len()
        invariant
            i <= parts@.len(), ps == parts@,
            groups_view(groups@) == bom_groups(ps.take(i as int), all, format),
            forall|j: int| 0 <= j < groups@.len() ==> (#[trigger] groups@[j]).members@.len() >= 1
                && forall|m: int| 0 <= m < groups@[j].members@.len() ==> groups@[j].members@[m] < i,
            count == parts_in(groups_view(groups@)), count <= i,
            texts(skipped@) == skipped_refs(ps.take(i as int), all),
            texts(missing@) == missing_refs(ps.take(i as int), all),
        decreases parts@.len() - i,
    {
        let p = &parts[i];
        let ghost t1 = ps.take(i + 1);
        proof {
            assert(t1.drop_last() =~= ps.take(i as int));
            assert(t1.last() == ps[i as int]);
            assert(t1.len() - 1 == i);
        }
        let ghost g0 = groups_view(groups@);
        if !p.assemble && !all {
            let ghost s0 = texts(skipped@);
            skipped.push(p.refdes.clone());
            proof {
                assert(texts(skipped@) =~= s0.push(p.refdes@));
                assert(bom_groups(t1, all, format) == g0);
                assert(skipped_refs(t1, all) == skipped_refs(ps.take(i as int), all).push(p.refdes@));
                assert(missing_refs(t1, all) == missing_refs(ps.take(i as int), all));
            }
        } else {
            proof {
                assert(skipped_refs(t1, all) == skipped_refs(ps.take(i as int), all));
            }
            if p.lcsc.is_none() {
                let ghost m0 = texts(missing@);
                missing.push(p.refdes.clone());
                proof {
                    assert(texts(missing@) =~= m0.push(p.refdes@));
                    assert(missing_refs(t1, all) == missing_refs(ps.take(i as int), all).push(p.refdes@));
                }
            } else {
                proof {
                        assert(missing_refs(t1, all) == missing_refs(ps.take(i as int), all));
                }
            }
            if p.lcsc.is_none() && !all && format == BomFormat::Jlcpcb {
                proof { assert(bom_groups(t1, all, format) == g0); }
            } else {
                let lc = opt_text(&p.lcsc);
                let ghost k = key_of(ps[i as int]);
                let mut j: usize = 0;
                while j < groups.len()
                    && !(same_str(groups[j].component.as_str(), p.component.as_str())
                        && same_str(groups[j].value.as_str(), p.value.as_str())
                        && same_str(groups[j].lcsc.as_str(), lc))
                    invariant
                        j <= groups@.len(), g0 == groups_view(groups@), k == key_of(ps[i as int]), lc@ == k.2,
                        p.component@ == k.0, p.value@ == k.1,
                        forall|x: int| 0 <= x < j ==> g0[x].0 != k,
                    decreases groups@.len() - j,
                {
                    j += 1;
                }
                proof { lemma_group_pos(g0, k, j as int); }
                if j < groups.len() {
                    let ghost old_groups = groups@;
                    groups[j].members.push(i);
                    proof {
                        assert(groups@[j as int].members@ == old_groups[j as int].members@.push(i));
                        assert(groups@[j as int].component == old_groups[j as int].component);
                        assert(group_view(groups@[j as int]).1 =~= g0[j as int].1.push(i as int));
                        assert(g0[j as int].0 == k);
                        assert forall|x: int| 0 <= x < groups@.len() && x != j implies #[trigger] groups@[x] == old_groups[x] by {}
                        let x = (k, g0[j as int].1.push(i as int));
                        assert(groups_view(groups@) =~= g0.update(j as int, x));
                        lemma_parts_in_update(g0, j as int, x);
                    }
                } else {
                    let mut members: Vec<usize> = Vec::new();
                    members.push(i);
                    let ng = Group { component: p.component.clone(), value: p.value.clone(), lcsc: lc.to_owned(), members };
                    proof {
                        assert(ng.members@.map_values(|m: usize| m as int) =~= seq![i as int]);
                        assert(group_view(ng) == (k, seq![i as int]));
                    }
                    let ghost old_groups = groups@;
                    groups.push(ng);
                    proof {
                        assert(groups@ == old_groups.push(ng));
                        assert(groups_view(groups@) =~= g0.push((k, seq![i as int])));
                        assert(groups_view(groups@).drop_last() =~= g0);
                    }
                }
                count = count + 1;
            }
        }
        i += 1;
    }
    proof { assert(ps.take(i as int) =~= ps); }
    let ghost g = groups_view(groups@);
    let mut text = String::new();
    match format {
        BomFormat::Jlcpcb => push_str(&mut text, "Comment,Designator,Footprint,LCSC Part #\n"),
        BomFormat::Csv => push_str(&mut text,
            "Designators,Quantity,Component,Value,Footprint,Manufacturer,MPN,LCSC,Assemble,Description\n"),
    }
    let ghost head = text@;
    let mut q: usize = 0;
    proof { assert(g.take(0) =~= Seq::<(BomKey, Seq<int>)>::empty()); }
    while q < groups.len()
        invariant
            q <= groups@.len(), g == groups_view(groups@), ps == parts@,
            forall|j: int| 0 <= j < groups@.len() ==> (#[trigger] groups@[j]).members@.len() >= 1
                && forall|m: int| 0 <= m < groups@[j].members@.len() ==> groups@[j].members@[m] < parts@.len(),
            text@ == head + items_text(ps, g.take(q as int), format),
        decreases groups@.len() - q,
    {
        let gr = &groups[q];
        proof {
            assert(g.take(q + 1).drop_last() =~= g.take(q as int));
            assert(g.take(q + 1).last() == g[q as int]);
        }
        push_item(&mut text, parts, gr, format);
        q += 1;
    }
    proof { assert(g.take(q as int) =~= g); }
    Bom { text, parts: count, items: groups.len(), skipped, missing }
}

} // verus!
