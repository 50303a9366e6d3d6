//! Which pins of a net its copper already joins. On each layer the net's
//! copper is merged into islands; every island that winds
//! counter-clockwise joins the pads and vias it holds; the pins are then
//! grouped by the tree they end up in, the groups in the order of their
//! tree's root. One group means the net is fully routed.

use vstd::prelude::*;
use crate::units::Point;
use crate::error::Error;
use crate::text::same_str;
use crate::geom::{union, area_sign, contains, clipper_inside, clipper_union, rings_view, real_rings, coords, pairs_area, lemma_pairs_sum, clip_failure};
use crate::islands::{forest, joined, root, link_islands, labels_links, labels_trees};
use crate::netcheck::root_of;

verus! {

/// A pin of the net: its label (`R1.1`) and the centre and copper layers
/// of each of its pads.
pub struct PinPads {
    pub name: String,
    pub pads: Vec<(Point, Vec<String>)>,
}

/// A via of the net: where it stands and the layers it joins (none listed
/// means every layer).
pub struct NetVia {
    pub at: Point,
    pub layers: Vec<String>,
}

/// Whether `ls` names `layer`.
pub open spec fn lists(ls: Seq<String>, layer: Seq<char>) -> bool {
    exists|i: int| 0 <= i < ls.len() && #[trigger] ls[i]@ == layer
}

/// Whether a pad is on `layer` and inside (or on the edge of) island `isl`.
pub open spec fn pad_in(pad: (Point, Vec<String>), layer: Seq<char>, isl: Seq<(i64, i64)>) -> bool {
    lists(pad.1@, layer) && clipper_inside(isl, (pad.0.x.0, pad.0.y.0))
}

/// Whether any pad of `pin` is in island `isl` on `layer`.
pub open spec fn pin_in(pin: PinPads, layer: Seq<char>, isl: Seq<(i64, i64)>) -> bool {
    exists|j: int| 0 <= j < pin.pads@.len() && pad_in(#[trigger] pin.pads@[j], layer, isl)
}

/// Whether via `v` joins `layer` and stands in island `isl`.
pub open spec fn via_in(v: NetVia, layer: Seq<char>, isl: Seq<(i64, i64)>) -> bool {
    (v.layers@.len() == 0 || lists(v.layers@, layer)) && clipper_inside(isl, (v.at.x.0, v.at.y.0))
}

/// The indices of the pins among the first `k` that are in the island.
pub open spec fn pins_in(pins: Seq<PinPads>, layer: Seq<char>, isl: Seq<(i64, i64)>, k: int) -> Seq<usize>
    decreases k,
{
    if k <= 0 {
        Seq::empty()
    } else {
        let s = pins_in(pins, layer, isl, k - 1);
        if pin_in(pins[k - 1], layer, isl) { s.push((k - 1) as usize) } else { s }
    }
}

/// The node numbers (`base` plus the index) of the vias among the first
/// `k` that are in the island.
pub open spec fn vias_in(vias: Seq<NetVia>, base: int, layer: Seq<char>, isl: Seq<(i64, i64)>, k: int) -> Seq<usize>
    decreases k,
{
    if k <= 0 {
        Seq::empty()
    } else {
        let s = vias_in(vias, base, layer, isl, k - 1);
        if via_in(vias[k - 1], layer, isl) { s.push((base + k - 1) as usize) } else { s }
    }
}

/// The nodes an island joins: its pins, then its vias numbered after the
/// pins.
pub open spec fn island_nodes(pins: Seq<PinPads>, vias: Seq<NetVia>, layer: Seq<char>, isl: Seq<(i64, i64)>) -> Seq<usize> {
    pins_in(pins, layer, isl, pins.len() as int) + vias_in(vias, pins.len() as int, layer, isl, vias.len() as int)
}

/// The node groups of the counter-clockwise islands among the first `k`.
pub open spec fn layer_links(pins: Seq<PinPads>, vias: Seq<NetVia>, layer: Seq<char>, isl: Seq<Seq<(i64, i64)>>, k: int) -> Seq<Seq<usize>>
    decreases k,
{
    if k <= 0 {
        Seq::empty()
    } else {
        let s = layer_links(pins, vias, layer, isl, k - 1);
        if pairs_area(isl[k - 1]) > 0 { s.push(island_nodes(pins, vias, layer, isl[k - 1])) } else { s }
    }
}

/// The islands Clipper2 makes of a layer's copper.
pub open spec fn layer_islands(rings: Seq<Vec<Point>>) -> Seq<Seq<(i64, i64)>> {
    if rings.len() == 0 { Seq::empty() } else { real_rings(clipper_union(rings_view(rings), Seq::empty())->0) }
}

/// Whether merging a layer's copper fails.
pub open spec fn union_fails(rings: Seq<Vec<Point>>) -> bool {
    rings.len() > 0 && clipper_union(rings_view(rings), Seq::empty()) is None
}

/// The node groups of the first `k` layers, layer by layer.
pub open spec fn net_links(pins: Seq<PinPads>, vias: Seq<NetVia>, layers: Seq<String>, copper: Seq<Vec<Vec<Point>>>, k: int) -> Seq<Seq<usize>>
    decreases k,
{
    if k <= 0 {
        Seq::empty()
    } else {
        let li = layer_islands(copper[k - 1]@);
        net_links(pins, vias, layers, copper, k - 1) + layer_links(pins, vias, layers[k - 1]@, li, li.len() as int)
    }
}

/// A forest over `n` nodes that joins the members of each group in
/// `links` and nothing more.
pub open spec fn linked_forest(p: Seq<usize>, n: int, links: Seq<Seq<usize>>) -> bool {
    &&& p.len() == n
    &&& forest(p)
    &&& forall|g: int, k: int| 0 <= g < links.len() && 0 <= k < links[g].len()
        ==> joined(p, #[trigger] links[g][k] as int, links[g][0] as int)
    &&& forall|lab: Seq<int>| labels_links(lab, links) ==> #[trigger] labels_trees(lab, p)
}

/// The labels, among the first `k`, of the pins whose tree has root `t`.
pub open spec fn tree_members(p: Seq<usize>, names: Seq<Seq<char>>, t: int, k: int) -> Seq<Seq<char>>
    decreases k,
{
    if k <= 0 {
        Seq::empty()
    } else {
        let s = tree_members(p, names, t, k - 1);
        if root(p, k - 1) == t { s.push(names[k - 1]) } else { s }
    }
}

/// The pins grouped by tree, for the trees whose root is below `t`, in the
/// order of the root; trees without a pin give no group.
pub open spec fn root_groups(p: Seq<usize>, names: Seq<Seq<char>>, t: int) -> Seq<Seq<Seq<char>>>
    decreases t,
{
    if t <= 0 {
        Seq::empty()
    } else {
        let g = root_groups(p, names, t - 1);
        let m = tree_members(p, names, t - 1, names.len() as int);
        if m.len() > 0 { g.push(m) } else { g }
    }
}

/// The pins' labels.
pub open spec fn pin_names(pins: Seq<PinPads>) -> Seq<Seq<char>> {
    pins.map_values(|x: PinPads| x.name@)
}

/// Groups of labels as text.
pub open spec fn name_groups(g: Seq<Vec<String>>) -> Seq<Seq<Seq<char>>> {
    g.map_values(|v: Vec<String>| v@.map_values(|s: String| s@))
}

/// Node groups as sequences.
pub open spec fn links_view(l: Seq<Vec<usize>>) -> Seq<Seq<usize>> {
    l.map_values(|v: Vec<usize>| v@)
}

fn lists_layer(ls: &Vec<String>, layer: &String) -> (r: bool)
    ensures r == lists(ls@, layer@),
{
    let mut i: usize = 0;
    while i < ls.len()
        invariant i <= ls@.len(), forall|j: int| 0 <= j < i ==> #[trigger] ls@[j]@ != layer@,
        decreases ls@.len() - i,
    {
        if same_str(ls[i].as_str(), layer.as_str()) {
            return true;
        }
        i += 1;
    }
    false
}

fn pin_inside(pin: &PinPads, layer: &String, island: &Vec<Point>) -> (r: bool)
    ensures r == pin_in(*pin, layer@, coords(island@)),
{
    let mut j: usize = 0;
    while j < pin.pads.len()
        invariant j <= pin.pads@.len(), forall|k: int| 0 <= k < j ==> !pad_in(#[trigger] pin.pads@[k], layer@, coords(island@)),
        decreases pin.pads@.len() - j,
    {
        if lists_layer(&pin.pads[j].1, layer) && contains(island, pin.pads[j].0) {
            proof { assert(pad_in(pin.pads@[j as int], layer@, coords(island@))); }
            return true;
        }
        j += 1;
    }
    false
}

/// The nodes an island joins on `layer`: the pins with a pad on the layer
/// inside it, then the vias on the layer inside it (numbered after the
/// pins).
pub fn nodes_in(pins: &Vec<PinPads>, vias: &Vec<NetVia>, layer: &String, island: &Vec<Point>) -> (r: Vec<usize>)
    requires pins@.len() + vias@.len() <= usize::MAX,
    ensures r@ == island_nodes(pins@, vias@, layer@, coords(island@)),
{
    let ghost isl = coords(island@);
    let mut r: Vec<usize> = Vec::new();
    let mut i: usize = 0;
    while i < pins.len()
        invariant i <= pins@.len(), isl == coords(island@), r@ == pins_in(pins@, layer@, isl, i as int),
        decreases pins@.len() - i,
    {
        if pin_inside(&pins[i], layer, island) {
            r.push(i);
        }
        i += 1;
    }
    let n = pins.len();
    let ghost pr = r@;
    let mut v: usize = 0;
    while v < vias.len()
        invariant
            v <= vias@.len(), n == pins@.len(), n + vias@.len() <= usize::MAX, isl == coords(island@),
            pr == pins_in(pins@, layer@, isl, n as int),
            r@ == pr + vias_in(vias@, n as int, layer@, isl, v as int),
        decreases vias@.len() - v,
    {
        let w = &vias[v];
        if (w.layers.len() == 0 || lists_layer(&w.layers, layer)) && contains(island, w.at) {
            r.push(n + v);
        }
        proof {
            assert(vias_in(vias@, n as int, layer@, isl, v + 1) == {
                let s = vias_in(vias@, n as int, layer@, isl, v as int);
                if via_in(vias@[v as int], layer@, isl) { s.push((n + v) as usize) } else { s }
            });
        }
        v += 1;
    }
    r
}

/// Appends to `links` the nodes of each counter-clockwise island of one
/// layer.
fn add_layer_links(pins: &Vec<PinPads>, vias: &Vec<NetVia>, layer: &String, islands: &Vec<Vec<Point>>, links: &mut Vec<Vec<usize>>)
    requires pins@.len() + vias@.len() <= usize::MAX,
    ensures
        links_view(final(links)@) == links_view(old(links)@)
            + layer_links(pins@, vias@, layer@, rings_view(islands@), islands@.len() as int),
{
    let ghost l0 = links_view(links@);
    let ghost iv = rings_view(islands@);
    let mut i: usize = 0;
    while i < islands.len()
        invariant
            i <= islands@.len(), pins@.len() + vias@.len() <= usize::MAX, iv == rings_view(islands@),
            links_view(links@) == l0 + layer_links(pins@, vias@, layer@, iv, i as int),
        decreases islands@.len() - i,
    {
        proof {
            lemma_pairs_sum(islands@[i as int]@, islands@[i as int]@.len() as int);
            assert(iv[i as int] == coords(islands@[i as int]@));
        }
        let ghost before = links@;
        if area_sign(&islands[i]) == 1 {
            let nodes = nodes_in(pins, vias, layer, &islands[i]);
            links.push(nodes);
            proof { assert(links_view(links@) =~= links_view(before).push(nodes@)); }
        }
        i += 1;
    }
}

/// The pins grouped by the tree of `parent` they are in, the groups in
/// the order of the tree's root, each group's labels in pin order.
pub fn pin_groups(parent: &Vec<usize>, names: &Vec<String>) -> (r: Vec<Vec<String>>)
    requires forest(parent@), names@.len() <= parent@.len(),
    ensures name_groups(r@) == root_groups(parent@, names@.map_values(|s: String| s@), parent@.len() as int),
{
    let ghost nv = names@.map_values(|s: String| s@);
    let mut roots: Vec<usize> = Vec::new();
    let mut i: usize = 0;
    while i < names.len()
        invariant
            i <= names@.len(), names@.len() <= parent@.len(), forest(parent@), roots@.len() == i,
            forall|j: int| 0 <= j < i ==> #[trigger] roots@[j] as int == root(parent@, j),
        decreases names@.len() - i,
    {
        let r = root_of(parent, i);
        roots.push(r);
        i += 1;
    }
    let mut out: Vec<Vec<String>> = Vec::new();
    let mut t: usize = 0;
    while t < parent.len()
        invariant
            t <= parent@.len(), roots@.len() == names@.len(), nv == names@.map_values(|s: String| s@),
            forall|j: int| 0 <= j < names@.len() ==> #[trigger] roots@[j] as int == root(parent@, j),
            name_groups(out@) == root_groups(parent@, nv, t as int),
        decreases parent@.len() - t,
    {
        let mut m: Vec<String> = Vec::new();
        let mut k: usize = 0;
        while k < names.len()
            invariant
                k <= names@.len(), roots@.len() == names@.len(), nv == names@.map_values(|s: String| s@),
                forall|j: int| 0 <= j < names@.len() ==> #[trigger] roots@[j] as int == root(parent@, j),
                m@.map_values(|s: String| s@) == tree_members(parent@, nv, t as int, k as int),
            decreases names@.len() - k,
        {
            let ghost before = m@;
            if roots[k] == t {
                m.push(names[k].clone());
                proof {
                    assert(m@.map_values(|s: String| s@) =~= before.map_values(|s: String| s@).push(nv[k as int]));
                }
            }
            k += 1;
        }
        let ghost before = out@;
        if m.len() > 0 {
            out.push(m);
            proof { assert(name_groups(out@) =~= name_groups(before).push(tree_members(parent@, nv, t as int, names@.len() as int))); }
        }
        t += 1;
    }
    out
}

/// Connectivity of one net: the groups of its pins that copper already
/// joins. `copper[k]` is the net's copper on `layers[k]`. A net of at most
/// one pin is one group; otherwise the copper of each layer is merged and
/// each counter-clockwise island joins the pads and vias it holds.
/// Merging fails as Clipper2 fails.
pub fn net_connectivity(pins: &Vec<PinPads>, vias: &Vec<NetVia>, layers: &Vec<String>, copper: &Vec<Vec<Vec<Point>>>) -> (r: Result<Vec<Vec<String>>, Error>)
    requires
        copper@.len() == layers@.len(),
        pins@.len() + vias@.len() <= usize::MAX,
    ensures
        pins@.len() <= 1 ==> (r matches Ok(g) && name_groups(g@) == seq![pin_names(pins@)]),
        pins@.len() > 1 ==> (r is Err <==> exists|k: int| 0 <= k < copper@.len() && union_fails(#[trigger] copper@[k]@)),
        r matches Err(e) ==> e.message@ == clip_failure(),
        pins@.len() > 1 ==> (r matches Ok(g) ==> exists|p: Seq<usize>|
            linked_forest(p, (pins@.len() + vias@.len()) as int, net_links(pins@, vias@, layers@, copper@, copper@.len() as int))
            && name_groups(g@) == #[trigger] root_groups(p, pin_names(pins@), p.len() as int)),
{
    let mut names: Vec<String> = Vec::new();
    let mut i: usize = 0;
    while i < pins.len()
        invariant i <= pins@.len(), names@.map_values(|s: String| s@) == pin_names(pins@).take(i as int),
        decreases pins@.len() - i,
    {
        let ghost before = names@;
        names.push(pins[i].name.clone());
        proof {
            assert(names@.map_values(|s: String| s@) =~= before.map_values(|s: String| s@).push(pins@[i as int].name@));
            assert(pin_names(pins@).take(i + 1) =~= pin_names(pins@).take(i as int).push(pins@[i as int].name@));
        }
        i += 1;
    }
    proof { assert(pin_names(pins@).take(pins@.len() as int) =~= pin_names(pins@)); }
    if pins.len() <= 1 {
        let mut g: Vec<Vec<String>> = Vec::new();
        g.push(names);
        proof { assert(name_groups(g@) =~= seq![pin_names(pins@)]); }
        return Ok(g);
    }
    let mut links: Vec<Vec<usize>> = Vec::new();
    let mut k: usize = 0;
    while k < layers.len()
        invariant
            k <= layers@.len(), copper@.len() == layers@.len(), pins@.len() + vias@.len() <= usize::MAX, pins@.len() > 1,
            links_view(links@) == net_links(pins@, vias@, layers@, copper@, k as int),
            forall|j: int| 0 <= j < k ==> !union_fails(#[trigger] copper@[j]@),
        decreases layers@.len() - k,
    {
        match union(&copper[k]) {
            Err(e) => {
                proof {
                    assert(union_fails(copper@[k as int]@));
                }
                return Err(e);
            }
            Ok(islands) => {
                proof {
                    assert(rings_view(islands@) == layer_islands(copper@[k as int]@));
                    assert(!union_fails(copper@[k as int]@));
                }
                add_layer_links(pins, vias, &layers[k], &islands, &mut links);
            }
        }
        k += 1;
    }
    let n = pins.len() + vias.len();
    let ghost lv = links_view(links@);
    proof {
        assert forall|g: int, m: int| 0 <= g < links@.len() && 0 <= m < links@[g]@.len() implies #[trigger] links@[g]@[m] < n by {
            lemma_links_bounded(pins@, vias@, layers@, copper@, copper@.len() as int, g, m);
            assert(lv[g] == links@[g]@);
        }
    }
    let parent = link_islands(n, &links);
    proof { assert(links@.map_values(|l: Vec<usize>| l@) == lv); }
    let g = pin_groups(&parent, &names);
    proof {
        assert(linked_forest(parent@, n as int, lv));
        assert(names@.map_values(|s: String| s@) == pin_names(pins@));
    }
    Ok(g)
}

proof fn lemma_island_nodes_bounded(pins: Seq<PinPads>, vias: Seq<NetVia>, layer: Seq<char>, isl: Seq<(i64, i64)>, m: int)
    requires 0 <= m < island_nodes(pins, vias, layer, isl).len(), pins.len() + vias.len() <= usize::MAX,
    ensures island_nodes(pins, vias, layer, isl)[m] < pins.len() + vias.len(),
{
    lemma_pins_in_bounded(pins, layer, isl, pins.len() as int);
    lemma_vias_in_bounded(vias, pins.len() as int, layer, isl, vias.len() as int);
    let a = pins_in(pins, layer, isl, pins.len() as int);
    if m >= a.len() {
        assert(island_nodes(pins, vias, layer, isl)[m] == vias_in(vias, pins.len() as int, layer, isl, vias.len() as int)[m - a.len()]);
    }
}

proof fn lemma_pins_in_bounded(pins: Seq<PinPads>, layer: Seq<char>, isl: Seq<(i64, i64)>, k: int)
    requires k <= pins.len(), k <= usize::MAX,
    ensures forall|m: int| 0 <= m < pins_in(pins, layer, isl, k).len() ==> #[trigger] pins_in(pins, layer, isl, k)[m] < k,
    decreases k,
{
    if k > 0 {
        lemma_pins_in_bounded(pins, layer, isl, k - 1);
        let s = pins_in(pins, layer, isl, k - 1);
        assert(((k - 1) as usize) as int == k - 1);
        assert forall|m: int| 0 <= m < pins_in(pins, layer, isl, k).len() implies #[trigger] pins_in(pins, layer, isl, k)[m] < k by {
            if m < s.len() { assert(pins_in(pins, layer, isl, k)[m] == s[m]); }
        }
    }
}

proof fn lemma_vias_in_bounded(vias: Seq<NetVia>, base: int, layer: Seq<char>, isl: Seq<(i64, i64)>, k: int)
    requires k <= vias.len(), 0 <= base, base + vias.len() <= usize::MAX,
    ensures forall|m: int| 0 <= m < vias_in(vias, base, layer, isl, k).len() ==> #[trigger] vias_in(vias, base, layer, isl, k)[m] < base + k,
    decreases k,
{
    if k > 0 {
        lemma_vias_in_bounded(vias, base, layer, isl, k - 1);
        let s = vias_in(vias, base, layer, isl, k - 1);
        assert(((base + k - 1) as usize) as int == base + k - 1);
        assert forall|m: int| 0 <= m < vias_in(vias, base, layer, isl, k).len() implies #[trigger] vias_in(vias, base, layer, isl, k)[m] < base + k by {
            if m < s.len() { assert(vias_in(vias, base, layer, isl, k)[m] == s[m]); }
        }
    }
}

proof fn lemma_layer_links_bounded(pins: Seq<PinPads>, vias: Seq<NetVia>, layer: Seq<char>, isl: Seq<Seq<(i64, i64)>>, k: int, g: int, m: int)
    requires
        k <= isl.len(), pins.len() + vias.len() <= usize::MAX,
        0 <= g < layer_links(pins, vias, layer, isl, k).len(),
        0 <= m < layer_links(pins, vias, layer, isl, k)[g].len(),
    ensures layer_links(pins, vias, layer, isl, k)[g][m] < pins.len() + vias.len(),
    decreases k,
{
    if k > 0 {
        let s = layer_links(pins, vias, layer, isl, k - 1);
        if g < s.len() {
            lemma_layer_links_bounded(pins, vias, layer, isl, k - 1, g, m);
        } else {
            lemma_island_nodes_bounded(pins, vias, layer, isl[k - 1], m);
        }
    }
}

proof fn lemma_links_bounded(pins: Seq<PinPads>, vias: Seq<NetVia>, layers: Seq<String>, copper: Seq<Vec<Vec<Point>>>, k: int, g: int, m: int)
    requires
        k <= copper.len(), copper.len() == layers.len(), pins.len() + vias.len() <= usize::MAX,
        0 <= g < net_links(pins, vias, layers, copper, k).len(),
        0 <= m < net_links(pins, vias, layers, copper, k)[g].len(),
    ensures net_links(pins, vias, layers, copper, k)[g][m] < pins.len() + vias.len(),
    decreases k,
{
    if k > 0 {
        let s = net_links(pins, vias, layers, copper, k - 1);
        let li = layer_islands(copper[k - 1]@);
        if g < s.len() {
            lemma_links_bounded(pins, vias, layers, copper, k - 1, g, m);
        } else {
            lemma_layer_links_bounded(pins, vias, layers[k - 1]@, li, li.len() as int, g - s.len(), m);
        }
    }
}

} // verus!
