use flatland::schema::FileRef;
use flatland::schema::{Severity, Waiver};
use flatland::changes::{apply_one, Change};
use flatland::assembly::{bom, BomFormat, Part};
use flatland::board_diff::{excess, trace_report, via_report};
use flatland::canon::{canon_points, sorted};
use flatland::schema::{Feature, Hole, Pour, Relation, Trace, Via, Where};
use flatland::edit::rename_net_refs;
use flatland::net_compare::{compare_netlists, parse_netlist_text};
use flatland::netlist::{connect_pins, disconnect_pins, fresh_net_name, list_nets, remove_net, rename_net, set_net_class, show_net, NetEditError};
use flatland::schema::Net;
use flatland::drill_write::Drill;
use flatland::drc::{features_of, matches_where, related, selects, share_layer, Item};
use flatland::emit::{parse_via_name, via_name};
use flatland::dsn_network::{dsn_network, DsnNet};
use flatland::error::{line_col_to_offset, source_span};
use flatland::gerber_write::Gerber;
use flatland::geom::{contains, rect, union};
use flatland::gerber::{file_function, parse_excellon};
use flatland::islands::{find, join, link_islands};
use flatland::layer_files::{copper_ext, copper_function, side_word};
use flatland::netcheck::{root_of, trace_netlist, ExpectedPad, PadCopper, TraceProblem};
use flatland::plot::{parse_gerber, Prim};
use flatland::sexpr::{parse, quote};
use flatland::sim::{probe_matches, unit_for};
use flatland::store::{blake3_hex, normalize, relative_url, resolve_url, Location};
use flatland::template::{expand_template, resolve_params, TemplateError};
use flatland::units::{Length, Point};

fn s(v: &str) -> String {
    v.to_string()
}

fn pad(r: &str, p: &str, nodes: Vec<usize>) -> PadCopper {
    PadCopper { refdes: s(r), pad: s(p), nodes }
}

fn want(r: &str, p: &str, net: Option<&str>) -> ExpectedPad {
    ExpectedPad { refdes: s(r), pad: s(p), net: net.map(s) }
}

#[test]
fn quoted_tokens_read_back() {
    for t in ["plain", "two words", "(paren)", "", "semi;colon"] {
        let q = quote(t);
        let nodes = parse(&q).unwrap();
        assert_eq!(nodes.len(), 1);
        assert_eq!(nodes[0].atom(), Some(t));
    }
    assert_eq!(quote("a b"), "\"a b\"");
    assert_eq!(quote("ab"), "ab");
}

#[test]
fn normalize_is_idempotent() {
    for p in ["/a/./b/../c", "a//b/", "../x/./y", "/", "./"] {
        let once = normalize(p);
        assert_eq!(normalize(&once), once);
    }
    assert_eq!(normalize("/a/./b/../c"), "/a/c");
}

#[test]
fn relative_urls_resolve_back() {
    let from = "/proj/lib/index.json";
    for target in ["/proj/lib/parts/r.json", "/proj/other/c.json", "/elsewhere/x.json"] {
        let url = relative_url(target, from, "/");
        match resolve_url(&url, from, None) {
            Location::Local(p) => assert_eq!(normalize(&p), normalize(target)),
            Location::Remote(_) => panic!("a relative url resolved remote"),
        }
    }
}

#[test]
fn via_names_read_back() {
    let n = via_name(Length(600_000), Length(300_000), 2);
    assert_eq!(n, "Via[0-1]_600:300_um");
    assert_eq!(parse_via_name(&n), Some((Length(600_000), Length(300_000))));
    let odd = via_name(Length(450_500), Length(200_000), 4);
    assert_eq!(parse_via_name(&odd), Some((Length(450_500), Length(200_000))));
    assert_eq!(parse_via_name("Via_bogus"), None);
}

#[test]
fn canonical_polyline_ignores_direction() {
    let a = vec![Point::nm(5, 5), Point::nm(0, 0), Point::nm(3, 9)];
    let mut b = a.clone();
    b.reverse();
    assert_eq!(canon_points(&a), canon_points(&b));
    assert_eq!(canon_points(&a)[0], Point::nm(3, 9));
}

#[test]
fn sorting_ignores_input_order() {
    let a = sorted(vec![s("b"), s("a"), s("c"), s("a")]);
    let b = sorted(vec![s("c"), s("a"), s("a"), s("b")]);
    assert_eq!(a, b);
    assert_eq!(a, vec![s("a"), s("a"), s("b"), s("c")]);
}

#[test]
fn blake3_of_empty_input() {
    assert_eq!(blake3_hex(b""), "af1349b9f5f9a1a6a0404dea36dcc9499bcb25c9adc112b7cc9a93cae41f3262");
    assert_ne!(blake3_hex(b"a"), blake3_hex(b""));
}

#[test]
fn vector_units_and_probes() {
    assert_eq!(unit_for("time", 1), "s");
    assert_eq!(unit_for("V(OUT)", 0), "V");
    assert!(probe_matches("v(OUT)", "v(out)"));
    assert!(probe_matches("OUT", "out"));
    assert!(!probe_matches("v(OUT)", "v(in)"));
}

#[test]
fn union_and_containment() {
    let a = rect(Point::nm(0, 0), Length(4_000_000), Length(4_000_000));
    let b = rect(Point::nm(2_000_000, 0), Length(4_000_000), Length(4_000_000));
    let u = union(&vec![a.clone(), b]).unwrap();
    assert_eq!(u.len(), 1);
    assert!(contains(&u[0], Point::nm(3_500_000, 0)));
    assert!(!contains(&a, Point::nm(3_500_000, 0)));
}

#[test]
fn excellon_hits_and_slots() {
    let text = "M48\n; DRILL file\nMETRIC\nT1C0.300\n%\nT1\nX1.5Y2.0\nX0Y0G85X1Y0\nM30\n";
    let (plated, hits) = parse_excellon("a.drl", text).unwrap();
    assert!(plated);
    assert_eq!(hits, vec![Point::nm(1_500_000, 2_000_000), Point::nm(0, 0), Point::nm(1_000_000, 0)]);
    let (plated, _) = parse_excellon("b.drl", "; NonPlated holes\n%\n").unwrap();
    assert!(!plated);
    let e = parse_excellon("c.drl", "%\nX1.5Q2\n").unwrap_err();
    assert_eq!(e.message, "c.drl: bad drill line `X1.5Q2`");
}

#[test]
fn gerber_file_function() {
    let f = file_function("G04 x*\n%TF.FileFunction,Copper,L2,Inr*%\n");
    assert_eq!(f.layer, Some(2));
    assert!(f.copper);
    let g = file_function("%TF.FileFunction,Soldermask,Top*%\n");
    assert!(!g.copper);
    assert_eq!(g.layer, None);
}

const GERBER: &str = "%FSLAX46Y46*%\n%MOMM*%\n%ADD10C,0.600000*%\n%ADD11C,0.250000*%\n\
%TO.P,R1,1*%\nD10*\nX1000000Y2000000D03*\n%TD*%\nD11*\nX0Y0D02*\nX1000000Y0D01*\nX1000000Y1000000D01*\n\
%TO.P,R1,2*%\nG36*\nX0Y0D02*\nX0Y1000000D01*\nX1000000Y1000000D01*\nX0Y0D01*\nG37*\nM02*\nX5D03*\n";

#[test]
fn gerber_primitives() {
    let prims = parse_gerber("top.gtl", GERBER).unwrap();
    assert_eq!(prims.len(), 3);
    match &prims[0] {
        Prim::Flash { at, diameter, pad } => {
            assert_eq!(*at, Point::nm(1_000_000, 2_000_000));
            assert_eq!(*diameter, Length(600_000));
            assert_eq!(pad, &Some((s("R1"), s("1"))));
        }
        _ => panic!("first object is not a flash"),
    }
    match &prims[1] {
        // The clockwise region is turned counter-clockwise.
        Prim::Region { ring, pad } => {
            assert_eq!(ring, &vec![Point::nm(1_000_000, 1_000_000), Point::nm(0, 1_000_000), Point::nm(0, 0)]);
            assert_eq!(pad, &Some((s("R1"), s("2"))));
        }
        _ => panic!("second object is not a region"),
    }
    match &prims[2] {
        // The stroke is ended only at the end of the file, with the pad then in force.
        Prim::Stroke { points, width, pad } => {
            assert_eq!(points, &vec![Point::nm(0, 0), Point::nm(1_000_000, 0), Point::nm(1_000_000, 1_000_000)]);
            assert_eq!(*width, Length(250_000));
            assert_eq!(pad, &Some((s("R1"), s("2"))));
        }
        _ => panic!("third object is not a stroke"),
    }
}

#[test]
fn gerber_errors() {
    assert_eq!(parse_gerber("a.gbr", "%MOIN*%\n").err().unwrap().message, "a.gbr: inch units are not supported by the verifier");
    assert_eq!(parse_gerber("a.gbr", "%FSLAX*%\n").err().unwrap().message, "a.gbr: bad FS");
    assert_eq!(
        parse_gerber("a.gbr", "%ADD10R,1X1*%\n").err().unwrap().message,
        "a.gbr: aperture `10R,1X1` is not a circle; the verifier reads only what pcb writes"
    );
    assert_eq!(parse_gerber("a.gbr", "%ADDC,1*%\n").err().unwrap().message, "a.gbr: bad aperture `C,1`");
    assert_eq!(parse_gerber("a.gbr", "X1D03*\n").err().unwrap().message, "a.gbr: flash without an aperture");
    assert_eq!(parse_gerber("a.gbr", "Q1*\n").err().unwrap().message, "a.gbr: unexpected `Q1`");
    assert_eq!(parse_gerber("a.gbr", "X1Y2D*\n").err().unwrap().message, "a.gbr: bad op `X1Y2D`");
    assert_eq!(parse_gerber("a.gbr", "XAY2D01*\n").err().unwrap().message, "a.gbr: bad coordinate `XAY2D01`");
    // The scale is applied: 4.6 format, a unit is 1 nm.
    let p = parse_gerber("a.gbr", "%FSLAX43Y43*%\n%ADD10C,1*%\nD10*\nX2Y3D03*\n").unwrap();
    match &p[0] {
        Prim::Flash { at, .. } => assert_eq!(*at, Point::nm(2_000, 3_000)),
        _ => panic!("not a flash"),
    }
}

#[test]
fn union_find_joins() {
    let mut parent: Vec<usize> = (0..5).collect();
    assert!(join(&mut parent, 0, 1));
    assert!(join(&mut parent, 3, 4));
    assert!(!join(&mut parent, 1, 0));
    assert!(join(&mut parent, 1, 4));
    let r = find(&mut parent, 0);
    assert_eq!(find(&mut parent, 3), r);
    assert_eq!(parent[0], r);
    assert_ne!(find(&mut parent, 2), r);
}

#[test]
fn islands_linked_by_groups() {
    let parent = link_islands(6, &vec![vec![0, 2], vec![2, 4, 5], vec![]]);
    let r0 = root_of(&parent, 0);
    assert_eq!(root_of(&parent, 5), r0);
    assert_ne!(root_of(&parent, 1), r0);
    assert_ne!(root_of(&parent, 3), root_of(&parent, 1));
}

#[test]
fn netlist_trace_findings() {
    // Islands 0..4; drills join 0 and 1.
    let parent = link_islands(5, &vec![vec![0, 1]]);
    let copper = vec![
        pad("R1", "1", vec![0]),
        pad("R1", "2", vec![2]),
        pad("R2", "1", vec![1]),
        pad("R2", "2", vec![3]),
        pad("U1", "1", vec![2, 4]),
    ];
    let expected = vec![
        want("R1", "1", Some("VCC")),
        want("R2", "1", Some("VCC")),
        want("R1", "2", Some("GND")),
        want("R2", "2", Some("GND")),
        want("U1", "1", None),
        want("J1", "1", Some("GND")),
    ];
    let report = trace_netlist(&parent, &copper, &expected);
    assert_eq!(report.missing, 1);
    assert_eq!(report.opens, 1);
    assert_eq!(report.shorts, 1);
    assert_eq!(report.nets, 2);
    let texts: Vec<String> = report.problems.iter().map(|p| p.message()).collect();
    assert_eq!(
        texts,
        vec![
            s("pad U1.1 is copper on 2 layers that nothing joins (no plated drill through it in the drill file)"),
            s("pad J1.1 has no copper in the gerbers"),
            s("open: net GND is 2 separate pieces of copper in the gerbers: R1.2 | R2.2"),
            s("short: one piece of copper in the gerbers joins GND (R1.2) and unconnected pads (U1.1)"),
        ]
    );
    let e = report.outcome(6, 2, 1).unwrap_err();
    assert_eq!(e.message, "gerbers do not match the netlist: 1 open net(s), 1 short(s), 1 missing pad(s)");
}

#[test]
fn netlist_trace_clean() {
    let parent = link_islands(2, &vec![vec![0, 1]]);
    let copper = vec![pad("R1", "1", vec![0]), pad("R1", "2", vec![1])];
    let expected = vec![want("R1", "1", Some("N")), want("R1", "2", Some("N"))];
    let report = trace_netlist(&parent, &copper, &expected);
    assert!(report.problems.is_empty());
    assert_eq!(
        report.outcome(2, 2, 1).unwrap(),
        "gerbers verified against the netlist: 2 pad(s) on 2 copper layer(s) trace back to 1 net(s) by contact alone, 1 plated drill(s) joining layers"
    );
    let p = TraceProblem::Missing { refdes: s("X"), pad: s("1") };
    assert_eq!(p.message(), "pad X.1 has no copper in the gerbers");
}

fn open_grid(w: usize, h: usize, layers: usize) -> flatland::route_search::RouteGrid {
    flatland::route_search::RouteGrid {
        w,
        h,
        free: vec![vec![true; w * h]; layers],
        penalty: vec![vec![0; w * h]; layers],
        via_ok: vec![true; w * h],
    }
}

fn goal_at(g: &flatland::route_search::RouteGrid, cells: &[(usize, usize, usize)]) -> Vec<bool> {
    let per = g.w * g.h;
    let mut goal = vec![false; per * g.free.len()];
    for &(l, x, y) in cells {
        goal[l * per + y * g.w + x] = true;
    }
    goal
}

#[test]
fn search_finds_a_straight_route() {
    let g = open_grid(5, 3, 1);
    let goal = goal_at(&g, &[(0, 4, 1)]);
    let path = flatland::route_search::route_search(&g, 60, &vec![(0, 0, 1)], &goal, (4, 1, 4, 1)).ok().unwrap();
    assert_eq!(path, vec![(0, 0, 1), (0, 1, 1), (0, 2, 1), (0, 3, 1), (0, 4, 1)]);
}

#[test]
fn search_goes_around_a_wall_and_does_not_cut_corners() {
    let mut g = open_grid(5, 5, 1);
    // A wall in column 2, rows 0..=3.
    for y in 0..4 {
        g.free[0][y * 5 + 2] = false;
    }
    let goal = goal_at(&g, &[(0, 4, 0)]);
    let path = flatland::route_search::route_search(&g, 60, &vec![(0, 0, 0)], &goal, (4, 0, 4, 0)).ok().unwrap();
    assert_eq!(path.first(), Some(&(0, 0, 0)));
    assert_eq!(path.last(), Some(&(0, 4, 0)));
    for w in path.windows(2) {
        let (a, b) = (w[0], w[1]);
        assert!(g.free[b.0][b.2 * 5 + b.1]);
        let (dx, dy) = (b.1 as i64 - a.1 as i64, b.2 as i64 - a.2 as i64);
        assert!(dx.abs() <= 1 && dy.abs() <= 1);
        if dx != 0 && dy != 0 {
            assert!(g.free[a.0][a.2 * 5 + b.1] && g.free[a.0][b.2 * 5 + a.1]);
        }
    }
    assert!(path.iter().any(|c| c.2 == 4));
}

#[test]
fn search_uses_a_via_when_a_layer_is_blocked() {
    let mut g = open_grid(5, 1, 2);
    g.free[0][2] = false;
    let goal = goal_at(&g, &[(0, 4, 0)]);
    let path = flatland::route_search::route_search(&g, 5, &vec![(0, 0, 0)], &goal, (4, 0, 4, 0)).ok().unwrap();
    assert!(path.iter().any(|c| c.0 == 1));
    assert_eq!(path.last(), Some(&(0, 4, 0)));
}

#[test]
fn search_reports_where_it_got_closest() {
    let mut g = open_grid(5, 1, 1);
    g.free[0][3] = false;
    let goal = goal_at(&g, &[(0, 4, 0)]);
    let miss = flatland::route_search::route_search(&g, 60, &vec![(0, 0, 0)], &goal, (4, 0, 4, 0)).err().unwrap();
    assert_eq!((miss.layer, miss.x, miss.y, miss.h), (0, 2, 0, 20));
}

#[test]
fn gerber_writer_text_and_read_back() {
    let mut g = Gerber::at("Copper,L1,Top", "Positive", (2024, 3, 5, 7, 8, 9));
    g.flash_circle(Point::nm(1_000_000, -2_000_000), Length(600_000));
    g.polyline(&vec![Point::nm(0, 0), Point::nm(5, 0), Point::nm(5, 7)], Length(250_000));
    g.region(&vec![Point::nm(0, 0), Point::nm(10, 0), Point::nm(10, 10)]);
    g.flash_circle(Point::nm(3, 3), Length(600_000));
    let text = g.finish();
    assert!(text.starts_with("%TF.GenerationSoftware,flatland,pcb,0.1*%\n%TF.CreationDate,2024-03-05T07:08:09+00:00*%\n%TF.FileFunction,Copper,L1,Top*%\n%TF.FilePolarity,Positive*%\n%FSLAX46Y46*%\n%MOMM*%\n"));
    assert!(text.contains("%ADD10C,0.600000*%\n%ADD11C,0.250000*%\n%LPD*%\nG01*\n"));
    assert!(text.contains("D10*\nX1000000Y-2000000D03*\nD11*\nX0Y0D02*\nX5Y0D01*\nX5Y7D01*\nG36*\nX0Y0D02*\nX10Y0D01*\nX10Y10D01*\nX0Y0D01*\nG37*\nD10*\nX3Y3D03*\nM02*\n"));
    let prims = parse_gerber("t.gtl", &text).unwrap();
    // The region comes before the stroke: a stroke is ended by the next D code.
    assert_eq!(prims.len(), 4);
    match &prims[0] {
        Prim::Flash { at, diameter, .. } => {
            assert_eq!(*at, Point::nm(1_000_000, -2_000_000));
            assert_eq!(*diameter, Length(600_000));
        }
        _ => panic!("not a flash"),
    }
    match &prims[1] {
        Prim::Region { ring, .. } => assert_eq!(ring, &vec![Point::nm(0, 0), Point::nm(10, 0), Point::nm(10, 10)]),
        _ => panic!("not a region"),
    }
    match &prims[2] {
        Prim::Stroke { points, width, .. } => {
            assert_eq!(points, &vec![Point::nm(0, 0), Point::nm(5, 0), Point::nm(5, 7)]);
            assert_eq!(*width, Length(250_000));
        }
        _ => panic!("not a stroke"),
    }
    match &prims[3] {
        Prim::Flash { at, .. } => assert_eq!(*at, Point::nm(3, 3)),
        _ => panic!("not a flash"),
    }
}

#[test]
fn gerber_writer_holes_are_cleared() {
    let mut g = Gerber::at("Copper,L2,Bot", "Positive", (-5, 12, 31, 23, 59, 59));
    let outer = vec![Point::nm(0, 0), Point::nm(100, 0), Point::nm(100, 100), Point::nm(0, 100)];
    let hole = vec![Point::nm(10, 10), Point::nm(10, 20), Point::nm(20, 20), Point::nm(20, 10)];
    g.regions_with_holes(&vec![outer.clone(), hole]);
    g.polyline(&vec![Point::nm(1, 1)], Length(0));
    let text = g.finish();
    assert!(text.contains("%TF.CreationDate,-005-12-31T23:59:59+00:00*%"));
    assert!(text.contains("G37*\n%LPC*%\nG36*\nX10Y10D02*"));
    assert!(text.ends_with("G37*\n%LPD*%\nM02*\n"));
    let prims = parse_gerber("t.gbl", &text).unwrap();
    assert_eq!(prims.len(), 1);
    match &prims[0] {
        Prim::Region { ring, .. } => assert_eq!(ring, &outer),
        _ => panic!("not a region"),
    }
}

#[test]
fn drill_writer_text_and_read_back() {
    let mut d = Drill::new(true);
    assert!(d.is_empty());
    d.hole(Point::nm(1_500_000, 2_000_400), Length(800_000));
    d.hole(Point::nm(-300, 0), Length(300_000));
    d.slot_between(Point::nm(0, 0), Point::nm(1_000_000, 0), Length(800_000));
    assert!(!d.is_empty());
    let text = d.finish();
    assert_eq!(
        text,
        "M48\n; DRILL file {flatland} \n; #@! TF.FileFunction,Plated,1,2,PTH\nFMAT,2\nMETRIC\nT1C0.300\nT2C0.800\n%\nG90\nG05\nT1\nX-0.000Y0.000\nT2\nX1.500Y2.000\nX0.000Y0.000G85X1.000Y0.000\nT0\nM30\n"
    );
    let (plated, hits) = parse_excellon("t.drl", &text).unwrap();
    assert!(plated);
    assert_eq!(hits, vec![Point::nm(0, 0), Point::nm(1_500_000, 2_000_000), Point::nm(0, 0), Point::nm(1_000_000, 0)]);
    let npth = Drill::new(false).finish();
    assert!(npth.contains("NonPlated,1,2,NPTH"));
    assert!(!parse_excellon("n.drl", &npth).unwrap().0);
}

#[test]
fn copper_layer_names_and_read_back() {
    let stack = vec![s("F.Cu"), s("In1.Cu"), s("In2.Cu"), s("B.Cu")];
    assert_eq!(side_word(&stack, 0), "Top");
    assert_eq!(side_word(&stack, 2), "Inr");
    assert_eq!(side_word(&stack, 3), "Bot");
    assert_eq!(copper_ext(&stack, 0), "gtl");
    assert_eq!(copper_ext(&stack, 1), "g2");
    assert_eq!(copper_ext(&stack, 3), "gbl");
    assert_eq!(copper_function(&stack, 2), "Copper,L3,Inr");
    let lone_bottom = vec![s("b.cu")];
    assert_eq!(side_word(&lone_bottom, 0), "Bot");
    assert_eq!(copper_ext(&lone_bottom, 0), "gbl");
    assert_eq!(side_word(&vec![s("F.Cu")], 0), "Top");
    assert_eq!(side_word(&vec![s("")], 0), "Top");
    for idx in 0..stack.len() {
        let g = Gerber::new(&copper_function(&stack, idx), "Positive");
        let read = file_function(&g.finish());
        assert!(read.copper);
        assert_eq!(read.layer, Some(idx + 1));
    }
}

#[test]
fn line_and_column_offsets() {
    let t = "ab\ncd\n";
    assert_eq!(line_col_to_offset(t, 1, 1), 0);
    assert_eq!(line_col_to_offset(t, 2, 2), 4);
    assert_eq!(line_col_to_offset(t, 1, 10), 3);
    assert_eq!(line_col_to_offset(t, 2, 0), 3);
    assert_eq!(line_col_to_offset(t, 3, 1), 6);
    assert_eq!(line_col_to_offset(t, 0, 1), 6);
    assert_eq!(line_col_to_offset("\u{e9}\nx", 2, 1), 3);
    assert_eq!(line_col_to_offset("", 1, 1), 0);
    assert_eq!(source_span("abcdef", 4, 5), (4, 2));
    assert_eq!(source_span("abcdef", 10, 1), (6, 0));
    assert_eq!(source_span("abcdef", 0, 1), (0, 1));
}

fn expand(t: &str, nets: Vec<Option<&str>>) -> Result<flatland::template::Expansion, TemplateError> {
    let pins = vec![s("1"), s("2")];
    let nets: Vec<Option<String>> = nets.into_iter().map(|n| n.map(s)).collect();
    let params = vec![(s("value"), s("1k"))];
    expand_template(t, "R1", "resistor", &pins, &nets, &params)
}

#[test]
fn spice_templates_expand() {
    let x = expand("R{ref} {pin:1} {pin:2} {value}", vec![Some("VCC"), Some("GND")]).unwrap();
    assert_eq!(x.text, "R1 VCC 0 1k");
    assert!(x.warnings.is_empty());
    assert!(x.grounded);
    let x = expand("R{ref} {pin:1} {pin:2} {value}", vec![Some("a-b"), None]).unwrap();
    assert_eq!(x.text, "R1 a_b NC_R1_2 1k");
    assert_eq!(x.warnings, vec![s("R1.2 is unconnected; it floats as node NC_R1_2")]);
    assert!(!x.grounded);
    assert_eq!(expand("V{ref}", vec![None, None]).unwrap().text, "VR1");
    assert_eq!(expand("x r{ref}", vec![None, None]).unwrap().text, "x R1");
    assert_eq!(expand("XR{ref}", vec![None, None]).unwrap().text, "XRR1");
    assert_eq!(expand("no placeholders", vec![None, None]).unwrap().text, "no placeholders");
    match expand("R{ref", vec![None, None]) {
        Err(TemplateError::Invalid(e)) => {
            assert_eq!(e.message, "spice template of `resistor` has an unclosed `{`: R{ref");
            assert_eq!(e.help, None);
        }
        other => panic!("{:?}", other),
    }
    match expand("{pin:3}", vec![None, None]) {
        Err(TemplateError::Invalid(e)) => {
            assert_eq!(e.message, "component `resistor` has no pin `3`; its pins are `1`, `2`");
            assert_eq!(e.help, Some(s("referenced as `{pin:3}` in the spice template of `resistor`")));
        }
        other => panic!("{:?}", other),
    }
    match expand("R{ref} {tol}", vec![None, None]) {
        Err(TemplateError::Unknown { error, key, names }) => {
            assert_eq!(key, "tol");
            assert_eq!(names, vec![s("value"), s("ref"), s("pin:1"), s("pin:2")]);
            assert_eq!(error.message, "spice template of `resistor` uses `{tol}` but the available placeholders are `value`, `ref`, `pin:1`, `pin:2`");
        }
        other => panic!("{:?}", other),
    }
}

#[test]
fn parameter_values_take_overrides_first() {
    let defaults = vec![(s("value"), Some(s("1k"))), (s("tol"), None), (s("power"), Some(s("0.25")))];
    let inst = vec![(s("tol"), s("5%")), (s("value"), s("1.5k"))];
    let sim = vec![(s("R1.value"), s("2k")), (s("R2.tol"), s("1%"))];
    let vals = resolve_params("R1", &defaults, &inst, &sim).unwrap();
    assert_eq!(vals, vec![(s("value"), s("2k")), (s("tol"), s("5%")), (s("power"), s("0.25"))]);
    let vals = resolve_params("R2", &defaults, &inst, &sim).unwrap();
    assert_eq!(vals, vec![(s("value"), s("1.5k")), (s("tol"), s("1%")), (s("power"), s("0.25"))]);
    let e = resolve_params("R3", &defaults, &vec![], &sim).unwrap_err();
    assert_eq!(e.message, "instance `R3` has no value for required parameter `tol`");
    assert_eq!(e.help, Some(s("set it with `pcb set R3 tol=<value>`")));
}

fn trace(net: &str, pts: Vec<(i64, i64)>, routed: bool) -> Trace {
    Trace {
        layer: s("F.Cu"),
        net: Some(s(net)),
        width: Length(250_000),
        points: pts.into_iter().map(|(x, y)| Point::nm(x, y)).collect(),
        routed,
        fanout: false,
    }
}

#[test]
fn excess_counts_equal_keys() {
    let a = vec![s("b"), s("a"), s("b"), s("c"), s("b")];
    let b = vec![s("b"), s("c"), s("d")];
    assert_eq!(excess(&a, &b), vec![1, 2, 4]);
    assert_eq!(excess(&b, &a), vec![2]);
    assert_eq!(excess(&a, &a), Vec::<usize>::new());
}

#[test]
fn redrawn_and_reordered_traces_compare_equal() {
    let a = vec![
        trace("GND", vec![(0, 0), (1_000_000, 0)], false),
        trace("VCC", vec![(0, 1_000_000), (2_000_000, 1_000_000), (2_000_000, 0)], false),
    ];
    let b = vec![
        trace("VCC", vec![(2_000_000, 0), (2_000_000, 1_000_000), (0, 1_000_000)], true),
        trace("GND", vec![(1_000_000, 0), (0, 0)], true),
    ];
    assert!(trace_report(&a, &b, "a.json", "b.json").is_empty());
    let c = vec![a[0].clone(), a[0].clone()];
    let lines = trace_report(&c, &b, "c.json", "b.json");
    assert_eq!(lines, vec![
        s("trace only in c.json: GND trace on F.Cu w 0.25mm: 0,0 -> 1,0"),
        s("trace only in b.json: VCC trace on F.Cu w 0.25mm: 2,0 -> 2,1 -> 0,1"),
    ]);
    let v1 = Via { at: Point::nm(500_000, 0), net: Some(s("GND")), drill: Length(300_000), diameter: Length(600_000), layers: vec![s("F.Cu"), s("B.Cu")], routed: false, fanout: false };
    let mut v2 = v1.clone();
    v2.layers = vec![s("B.Cu"), s("F.Cu")];
    assert!(via_report(&vec![v1.clone()], &vec![v2], "a", "b").is_empty());
    assert_eq!(via_report(&vec![v1], &vec![], "a", "b"), vec![s("via only in a: via GND at 0.5,0 drill 0.3mm dia 0.6mm")]);
}

fn item(kind: Feature, net: Option<&str>, layers: Vec<&str>) -> Item {
    Item {
        kind,
        id: s("R1.1"),
        refdes: Some(s("R1")),
        net: net.map(s),
        layers: layers.into_iter().map(s).collect(),
        geom: vec![],
        plated: Some(true),
        pad_kind: Some(s("smd")),
        footprint: Some(s("R0603")),
        component: Some(s("resistor")),
        class: None,
        center: Point::nm(0, 0),
        extra: vec![],
    }
}

#[test]
fn rule_selection_and_pairs() {
    let pad = item(Feature::Pad, Some("GND"), vec!["F.Cu"]);
    let mut text = item(Feature::Text, None, vec!["F.Cu"]);
    assert!(selects(Feature::Copper, &pad));
    assert!(!selects(Feature::Copper, &text));
    assert!(selects(Feature::SilkText, &text));
    text.extra = vec![Point::nm(1, 1)];
    assert!(selects(Feature::Copper, &text));
    assert!(!selects(Feature::SilkText, &text));
    assert!(selects(Feature::Pad, &pad) && !selects(Feature::Via, &pad));

    assert!(matches_where(&None, &pad));
    let w = Where { layer: Some(s("F.Cu")), net: Some(s("GND")), kind: Some(s("smd")), ..Default::default() };
    assert!(matches_where(&Some(w.clone()), &pad));
    let w2 = Where { layer: Some(s("B.Cu")), ..Default::default() };
    assert!(!matches_where(&Some(w2.clone()), &pad));
    assert!(matches_where(&Some(w2), &item(Feature::Hole, None, vec![])));
    let w3 = Where { plated: Some(false), ..Default::default() };
    assert!(!matches_where(&Some(w3), &pad));
    let w4 = Where { class: Some(s("power")), ..Default::default() };
    assert!(!matches_where(&Some(w4), &pad));

    let other = item(Feature::Trace, Some("GND"), vec!["B.Cu", "F.Cu"]);
    let bottom = item(Feature::Trace, Some("VCC"), vec!["B.Cu"]);
    assert!(share_layer(&pad, &other));
    assert!(!share_layer(&pad, &bottom));
    assert!(share_layer(&pad, &item(Feature::Hole, None, vec![])));
    assert!(!related(Relation::DifferentNet, &pad, &other));
    assert!(related(Relation::DifferentNet, &pad, &bottom));
    assert!(related(Relation::DifferentNet, &text, &text));
    assert!(related(Relation::SameNet, &pad, &other));
    assert!(!related(Relation::DifferentPart, &pad, &other));
    assert!(related(Relation::Any, &pad, &pad));
    assert_eq!(features_of(&pad), vec![s("R1.1"), s("R1"), s("GND")]);
    assert_eq!(features_of(&text), vec![s("R1.1"), s("R1")]);
}

#[test]
fn renaming_a_net_moves_every_reference() {
    let mut traces = vec![trace("GND", vec![(0, 0), (1, 0)], false), trace("VCC", vec![(0, 1), (1, 1)], true)];
    let mut vias = vec![Via { at: Point::nm(0, 0), net: Some(s("GND")), drill: Length(300_000), diameter: Length(600_000), layers: vec![], routed: false, fanout: false }];
    let mut pours = vec![Pour { name: s("gnd"), layer: s("B.Cu"), net: Some(s("GND")), edges: vec![], clearance: None, priority: 0, thermal: None }];
    let mut holes = vec![Hole { at: Point::nm(5, 5), drill: Length(3_000_000), plated: true, diameter: None, net: None }];
    rename_net_refs(&mut traces, &mut vias, &mut pours, &mut holes, "GND", "AGND");
    assert_eq!(traces[0].net, Some(s("AGND")));
    assert_eq!(traces[0].points, vec![Point::nm(0, 0), Point::nm(1, 0)]);
    assert_eq!(traces[1].net, Some(s("VCC")));
    assert!(traces[1].routed);
    assert_eq!(vias[0].net, Some(s("AGND")));
    assert_eq!(pours[0].net, Some(s("AGND")));
    assert_eq!(holes[0].net, None);
    rename_net_refs(&mut traces, &mut vias, &mut pours, &mut holes, "AGND", "GND");
    assert_eq!(traces[0].net, Some(s("GND")));
    assert_eq!(vias[0].net, Some(s("GND")));
    assert_eq!(pours[0].net, Some(s("GND")));
}

fn net(pins: Vec<&str>, class: Option<&str>) -> Net {
    Net { pins: pins.into_iter().map(s).collect(), class: class.map(s) }
}

#[test]
fn connecting_pins_merges_nets() {
    let mut nets = vec![
        (s("GND"), net(vec!["R1.2", "C1.2"], None)),
        (s("N$1"), net(vec!["R1.1"], Some("sig"))),
        (s("VCC"), net(vec!["U1.8"], Some("power"))),
    ];
    let mut traces = vec![trace("VCC", vec![(0, 0), (1, 0)], false)];
    let (mut vias, mut pours, mut holes) = (vec![], vec![], vec![]);
    let mut next_id: u32 = 0;
    let pins = vec![s("R1.1"), s("C1.1")];
    let c = connect_pins(&mut nets, &mut traces, &mut vias, &mut pours, &mut holes, &mut next_id, &pins, &None, false).unwrap();
    assert_eq!(c.target, "N$1");
    assert_eq!(c.pins, 2);
    assert!(c.merged.is_empty());
    assert_eq!(nets[1].1.pins, vec![s("R1.1"), s("C1.1")]);
    assert_eq!(nets[1].1.class, Some(s("sig")));

    let pins = vec![s("R1.2"), s("U1.8")];
    let e = connect_pins(&mut nets, &mut traces, &mut vias, &mut pours, &mut holes, &mut next_id, &pins, &None, false).unwrap_err();
    assert_eq!(e.message, "these pins span different named nets: `GND`, `VCC`");
    assert_eq!(e.help, Some(s("pass --merge to join them (the result is called `GND`), or check the pin references")));
    assert_eq!(nets.len(), 3);

    let c = connect_pins(&mut nets, &mut traces, &mut vias, &mut pours, &mut holes, &mut next_id, &pins, &None, true).unwrap();
    assert_eq!(c.target, "GND");
    assert_eq!(c.pins, 3);
    assert_eq!(c.merged, vec![s("VCC")]);
    assert_eq!(nets.len(), 2);
    assert_eq!(nets[0].0, "GND");
    assert_eq!(nets[0].1.pins, vec![s("R1.2"), s("C1.2"), s("U1.8")]);
    assert_eq!(nets[0].1.class, Some(s("power")));
    assert_eq!(traces[0].net, Some(s("GND")));

    let e = connect_pins(&mut nets, &mut traces, &mut vias, &mut pours, &mut holes, &mut next_id, &vec![s("J1.1")], &None, false).unwrap_err();
    assert_eq!(e.message, "connect needs at least two pins");
    let e = connect_pins(&mut nets, &mut traces, &mut vias, &mut pours, &mut holes, &mut next_id, &vec![s("J1.1")], &Some(s("bad name")), false).unwrap_err();
    assert_eq!(e.message, "`bad name` is not a valid net name");

    let c = connect_pins(&mut nets, &mut traces, &mut vias, &mut pours, &mut holes, &mut next_id, &vec![s("J1.1"), s("J1.2")], &None, false).unwrap();
    assert_eq!(c.target, "N$2");
    assert_eq!(next_id, 2);
    assert_eq!(nets[2].0, "N$2");
    assert_eq!(nets[2].1.pins, vec![s("J1.1"), s("J1.2")]);

    let c = connect_pins(&mut nets, &mut traces, &mut vias, &mut pours, &mut holes, &mut next_id, &vec![s("J2.1")], &Some(s("NEW")), false).unwrap();
    assert_eq!(c.target, "NEW");
    assert_eq!(nets[3].0, "NEW");
    assert_eq!(nets[3].1.pins, vec![s("J2.1")]);
    assert_eq!(nets[3].1.class, None);
}

#[test]
fn fresh_net_names_skip_taken_ones() {
    let nets = vec![(s("N$3"), net(vec![], None)), (s("N$4"), net(vec![], None))];
    let mut id: u32 = 2;
    assert_eq!(fresh_net_name(&mut id, &nets), "N$5");
    assert_eq!(id, 5);
    assert_eq!(fresh_net_name(&mut id, &nets), "N$6");
}

#[test]
fn disconnecting_pins() {
    let mut nets = vec![
        (s("GND"), net(vec!["R1.2", "C1.2"], None)),
        (s("N$1"), net(vec!["R1.1"], None)),
        (s("X"), net(vec!["R1.1"], None)),
    ];
    let lines = disconnect_pins(&mut nets, &vec![s("R1.1"), s("C1.2")]).unwrap();
    assert_eq!(lines, vec![s("removed R1.1 from X (net is now empty and was dropped)"), s("removed C1.2 from GND")]);
    assert_eq!(nets.len(), 2);
    assert_eq!(nets[0].1.pins, vec![s("R1.2")]);
    assert_eq!(nets[1].0, "N$1");
    assert!(nets[1].1.pins.is_empty());
    let e = disconnect_pins(&mut nets, &vec![s("R9.9")]).unwrap_err();
    assert_eq!(e.message, "pin `R9.9` is not connected to any net");
    let e = disconnect_pins(&mut nets, &vec![s("bad")]).unwrap_err();
    assert_eq!(e.message, "`bad` is not a pin reference");
}

#[test]
fn net_commands() {
    let mut nets = vec![(s("GND"), net(vec!["R1.2", "C1.2"], None)), (s("VIN"), net(vec!["J1.1"], Some("power")))];
    let mut traces = vec![trace("VIN", vec![(0, 0), (1, 0)], false), trace("GND", vec![(0, 1), (1, 1)], false)];
    let mut vias = vec![Via { at: Point::nm(0, 0), net: Some(s("VIN")), drill: Length(300_000), diameter: Length(600_000), layers: vec![], routed: false, fanout: false }];
    let mut pours = vec![Pour { name: s("fill"), layer: s("B.Cu"), net: Some(s("VIN")), edges: vec![], clearance: None, priority: 0, thermal: None }];
    let mut holes: Vec<Hole> = vec![];
    assert_eq!(list_nets(&nets), vec![s("GND: R1.2 C1.2"), s("VIN [power]: J1.1")]);
    assert_eq!(list_nets(&vec![]), vec![s("no nets yet; create them with `pcb connect <pin> <pin>`")]);
    assert_eq!(show_net(&nets, &traces, &vias, &pours, "VIN").unwrap(),
        vec![s("VIN: 1 pin(s)"), s("  J1.1"), s("  traces: 1, vias: 1, pours: fill")]);
    assert_eq!(show_net(&nets, &traces, &vias, &pours, "GND").unwrap()[3], "  traces: 1, vias: 0, pours: -");
    match show_net(&nets, &traces, &vias, &pours, "VCC") {
        Err(NetEditError::NoSuchNet { error, name, names }) => {
            assert_eq!(error.message, "no net named `VCC`; nets are `GND`, `VIN`");
            assert_eq!(name, "VCC");
            assert_eq!(names, vec![s("GND"), s("VIN")]);
        }
        other => panic!("{:?}", other),
    }
    match rename_net(&mut nets, &mut traces, &mut vias, &mut pours, &mut holes, "VIN", "GND") {
        Err(NetEditError::Invalid(e)) => assert_eq!(e.message, "a net named `GND` already exists"),
        other => panic!("{:?}", other),
    }
    rename_net(&mut nets, &mut traces, &mut vias, &mut pours, &mut holes, "VIN", "V5").unwrap();
    assert_eq!(nets[1].0, "V5");
    assert_eq!(traces[0].net, Some(s("V5")));
    assert_eq!(vias[0].net, Some(s("V5")));
    assert_eq!(pours[0].net, Some(s("V5")));
    let classes = vec![s("power"), s("signal")];
    set_net_class(&mut nets, &classes, "GND", "signal").unwrap();
    assert_eq!(nets[0].1.class, Some(s("signal")));
    set_net_class(&mut nets, &classes, "GND", "-").unwrap();
    assert_eq!(nets[0].1.class, None);
    match set_net_class(&mut nets, &classes, "GND", "hv") {
        Err(NetEditError::Invalid(e)) => {
            assert_eq!(e.message, "no net class `hv`; classes are `power`, `signal`");
            assert_eq!(e.help, Some(s("define it with `pcb rules class hv --width <w> --clearance <c>`")));
        }
        other => panic!("{:?}", other),
    }
    remove_net(&mut nets, &mut traces, &mut vias, &mut pours, "V5").unwrap();
    assert_eq!(nets.len(), 1);
    assert_eq!(traces.len(), 1);
    assert_eq!(traces[0].net, Some(s("GND")));
    assert!(vias.is_empty());
    assert_eq!(pours[0].net, None);
    assert!(remove_net(&mut nets, &mut traces, &mut vias, &mut pours, "V5").is_err());
}

#[test]
fn comparing_netlists() {
    let text = "# from the schematic\nGND: R1.2 C1.2\r\nVCC: R1.1\nSIG:U1.2   \n\nno colon here\nGND:  C1.2\tR1.2\n";
    let ext = parse_netlist_text(text);
    assert_eq!(ext, vec![
        (s("GND"), vec![s("C1.2"), s("R1.2")]),
        (s("VCC"), vec![s("R1.1")]),
        (s("SIG"), vec![s("U1.2")]),
    ]);
    let nets = vec![
        (s("GND"), net(vec!["R1.2", "C1.2"], None)),
        (s("VIN"), net(vec!["R1.1"], None)),
        (s("N$3"), net(vec!["U1.1"], None)),
    ];
    let (lines, problems) = compare_netlists(&ext, &nets);
    assert_eq!(lines, vec![
        s("U1.2: on net SIG in the file, on no net on the board"),
        s("U1.1: on net N$3 on the board, absent from the file"),
        s("net VCC in the file is called VIN on the board"),
        s("net SIG in the file is missing from the board"),
        s("net N$3 is on the board only"),
    ]);
    assert_eq!(problems, 4);
    let same = vec![(s("GND"), vec![s("C1.2"), s("R1.2")]), (s("VIN"), vec![s("R1.1")]), (s("N$3"), vec![s("U1.1")])];
    assert_eq!(compare_netlists(&same, &nets), (vec![], 0));
    let moved = vec![(s("GND"), vec![s("C1.2")]), (s("VIN"), vec![s("R1.1"), s("R1.2")]), (s("N$3"), vec![s("U1.1")])];
    let (lines, problems) = compare_netlists(&moved, &nets);
    assert_eq!(lines, vec![s("R1.2: on net VIN in the file, on net GND on the board")]);
    assert_eq!(problems, 1);
}

fn part(r: &str, comp: &str, value: &str, lcsc: Option<&str>, fp: &str, assemble: bool) -> Part {
    Part {
        refdes: s(r),
        component: s(comp),
        value: s(value),
        lcsc: lcsc.map(s),
        mpn: None,
        manufacturer: None,
        footprint: s(fp),
        assemble,
        description: None,
    }
}

#[test]
fn bill_of_materials_groups_parts() {
    let parts = vec![
        part("R1", "resistor", "10k", Some("C1"), "R0603", true),
        part("C1", "cap", "100n", None, "C0603", true),
        part("R2", "resistor", "10k", Some("C1"), "R0603", true),
        part("J1", "conn", "J", Some("C2"), "JST", false),
    ];
    let b = bom(&parts, false, BomFormat::Jlcpcb);
    assert_eq!(b.text, "Comment,Designator,Footprint,LCSC Part #\n10k,\"R1,R2\",R0603,C1\n");
    assert_eq!((b.parts, b.items), (2, 1));
    assert_eq!(b.skipped, vec![s("J1")]);
    assert_eq!(b.missing, vec![s("C1")]);
    let b = bom(&parts, false, BomFormat::Csv);
    assert_eq!(b.text, "Designators,Quantity,Component,Value,Footprint,Manufacturer,MPN,LCSC,Assemble,Description\nR1 R2,2,resistor,10k,R0603,,,C1,yes,\nC1,1,cap,100n,C0603,,,,yes,\n");
    assert_eq!((b.parts, b.items), (3, 2));
    let b = bom(&parts, true, BomFormat::Jlcpcb);
    assert_eq!((b.parts, b.items), (4, 3));
    assert!(b.skipped.is_empty());
    assert!(b.text.ends_with("J,J1,JST,C2\n"));
}

#[test]
fn search_finds_a_route_that_needs_a_via_around_a_full_wall() {
    // Layer 0 is cut in two by a full wall; the only way over is through
    // layer 1, so a search that never changed layers would miss.
    let mut g = open_grid(5, 3, 2);
    for y in 0..3 {
        g.free[0][y * 5 + 2] = false;
    }
    let goal = goal_at(&g, &[(0, 4, 1)]);
    let path = flatland::route_search::route_search(&g, 60, &vec![(0, 0, 1)], &goal, (4, 1, 4, 1)).ok().unwrap();
    assert_eq!(path.first(), Some(&(0, 0, 1)));
    assert_eq!(path.last(), Some(&(0, 4, 1)));
    assert!(path.iter().any(|c| c.0 == 1));
}

#[test]
fn search_misses_only_when_walled_off_on_every_layer() {
    let mut g = open_grid(5, 3, 2);
    for l in 0..2 {
        for y in 0..3 {
            g.free[l][y * 5 + 2] = false;
        }
    }
    let goal = goal_at(&g, &[(0, 4, 1)]);
    assert!(flatland::route_search::route_search(&g, 60, &vec![(0, 0, 1)], &goal, (4, 1, 4, 1)).is_err());
}

fn drawn(net: Option<&str>, routed: bool, fanout: bool) -> Trace {
    Trace {
        layer: s("F.Cu"),
        net: net.map(s),
        width: Length(250_000),
        points: vec![Point::nm(0, 0), Point::nm(1_000_000, 0)],
        routed,
        fanout,
    }
}

fn placed(net: Option<&str>, routed: bool, fanout: bool) -> Via {
    Via { at: Point::nm(0, 0), net: net.map(s), drill: Length(300_000), diameter: Length(600_000), layers: vec![], routed, fanout }
}

#[test]
fn routing_keeps_only_hand_drawn_copper() {
    let mut traces = vec![drawn(Some("A"), false, false), drawn(Some("A"), true, false), drawn(Some("B"), false, true), drawn(None, false, false)];
    let mut vias = vec![placed(Some("GND"), false, true), placed(Some("A"), false, false), placed(Some("A"), true, false)];
    flatland::wiring::keep_hand_drawn(&mut traces, &mut vias);
    assert_eq!(traces.len(), 2);
    assert_eq!(traces[0].net.as_deref(), Some("A"));
    assert!(!traces[0].routed && !traces[0].fanout);
    assert_eq!(traces[1].net, None);
    assert_eq!(vias.len(), 1);
    assert_eq!(vias[0].net.as_deref(), Some("A"));
    assert!(!vias[0].routed);
}

#[test]
fn trace_clear_drops_all_routed_or_one_net() {
    let base = || vec![drawn(Some("A"), false, false), drawn(Some("A"), true, false), drawn(Some("B"), true, false), drawn(None, false, false)];
    let vbase = || vec![placed(Some("A"), true, false), placed(Some("B"), false, false)];

    let (mut t, mut v) = (base(), vbase());
    assert_eq!(flatland::wiring::clear_traces(&mut t, &mut v, false, &None), (4, 2));
    assert!(t.is_empty() && v.is_empty());

    let (mut t, mut v) = (base(), vbase());
    assert_eq!(flatland::wiring::clear_traces(&mut t, &mut v, true, &None), (2, 1));
    assert_eq!(t.len(), 2);
    assert!(t.iter().all(|x| !x.routed));
    assert_eq!(v[0].net.as_deref(), Some("B"));

    let (mut t, mut v) = (base(), vbase());
    assert_eq!(flatland::wiring::clear_traces(&mut t, &mut v, false, &Some(s("A"))), (2, 1));
    assert_eq!(t.len(), 2);
    assert_eq!(t[0].net.as_deref(), Some("B"));
    assert_eq!(t[1].net, None);

    // Routed copper of one net only: a hand-drawn trace of that net stays.
    let (mut t, mut v) = (base(), vbase());
    assert_eq!(flatland::wiring::clear_traces(&mut t, &mut v, true, &Some(s("A"))), (1, 1));
    assert_eq!(t.len(), 3);
    assert!(t[0].net.as_deref() == Some("A") && !t[0].routed);
}

fn nets_ab() -> Vec<(String, Net)> {
    vec![
        (s("A"), Net { pins: vec![s("R1.1")], class: Some(s("power")) }),
        (s("B"), Net { pins: vec![s("R1.2")], class: None }),
    ]
}

fn classes() -> Vec<(String, flatland::schema::NetClass)> {
    vec![(s("power"), flatland::schema::NetClass { trace_width: Some(Length(500_000)), clearance: None, via_drill: None, via_diameter: None })]
}

fn square_pad(net: &str, x: i64) -> flatland::wiring::PadAt {
    flatland::wiring::PadAt {
        layers: vec![s("F.Cu")],
        copper: vec![Point::nm(x - 500_000, -500_000), Point::nm(x + 500_000, -500_000), Point::nm(x + 500_000, 500_000), Point::nm(x - 500_000, 500_000)],
        net: Some(s(net)),
    }
}

#[test]
fn trace_add_takes_the_net_of_the_pads_and_its_class_width() {
    let mut traces: Vec<Trace> = Vec::new();
    let pads = vec![square_pad("A", 0), square_pad("B", 5_000_000)];
    let pts = vec![Point::nm(0, 0), Point::nm(0, 0), Point::nm(2_000_000, 0)];
    let got = flatland::wiring::add_trace(&mut traces, &nets_ab(), &classes(), Length(200_000), &pads, "F.Cu", &pts, None, &None).ok().unwrap();
    assert_eq!(got.as_deref(), Some("A"));
    assert_eq!(traces.len(), 1);
    assert_eq!(traces[0].points, vec![Point::nm(0, 0), Point::nm(2_000_000, 0)]);
    assert_eq!(traces[0].width, Length(500_000));
    assert!(!traces[0].routed && !traces[0].fanout);

    // The pad at the last point wins over the one at the first.
    let pts = vec![Point::nm(0, 0), Point::nm(5_000_000, 0)];
    let got = flatland::wiring::add_trace(&mut traces, &nets_ab(), &classes(), Length(200_000), &pads, "F.Cu", &pts, None, &None).ok().unwrap();
    assert_eq!(got.as_deref(), Some("B"));
    assert_eq!(traces[1].width, Length(200_000));

    // On another layer no pad lends its net.
    let got = flatland::wiring::add_trace(&mut traces, &nets_ab(), &classes(), Length(200_000), &pads, "B.Cu", &pts, Some(Length(300_000)), &None).ok().unwrap();
    assert_eq!(got, None);
    assert_eq!(traces[2].width, Length(300_000));
}

#[test]
fn trace_add_refuses_too_few_points_and_unknown_nets() {
    let mut traces: Vec<Trace> = Vec::new();
    let pts = vec![Point::nm(1, 1), Point::nm(1, 1)];
    match flatland::wiring::add_trace(&mut traces, &nets_ab(), &classes(), Length(200_000), &vec![], "F.Cu", &pts, None, &None) {
        Err(NetEditError::Invalid(e)) => assert_eq!(e.message, "a trace needs two distinct points"),
        _ => panic!("expected a refusal"),
    }
    let pts = vec![Point::nm(0, 0), Point::nm(1, 1)];
    match flatland::wiring::add_trace(&mut traces, &nets_ab(), &classes(), Length(200_000), &vec![], "F.Cu", &pts, None, &Some(s("C"))) {
        Err(NetEditError::NoSuchNet { error, name, .. }) => {
            assert_eq!(name, "C");
            assert_eq!(error.message, "no net named `C`; nets are `A`, `B`");
        }
        _ => panic!("expected an unknown net"),
    }
    assert!(traces.is_empty());
}

#[test]
fn parsed_spans_nest_and_quoted_tokens_span_themselves() {
    let text = "(pcb (net \"a b\") x)";
    let nodes = parse(text).ok().unwrap();
    assert_eq!(nodes.len(), 1);
    let (s0, e0) = nodes[0].span();
    assert_eq!((s0, e0), (0, text.len()));
    let items = nodes[0].items();
    let mut last = s0 + 1;
    for it in items {
        let (a, b) = it.span();
        assert!(last <= a && a < b && b <= e0 - 1);
        last = b;
    }
    let q = quote("a b");
    let back = parse(&q).ok().unwrap();
    assert_eq!(back[0].span(), (0, q.len()));
    assert_eq!(back[0].atom(), Some("a b"));
}

#[test]
fn a_leg_splits_into_runs_with_a_via_at_each_layer_change() {
    let leg = vec![(0, 0, 0), (0, 1, 0), (1, 1, 0), (1, 2, 0), (1, 3, 1), (0, 3, 1)];
    let (runs, vias) = flatland::route_pieces::leg_runs(&leg);
    assert_eq!(runs, vec![(0, vec![(0, 0), (1, 0)]), (1, vec![(1, 0), (2, 0), (3, 1)]), (0, vec![(3, 1)])]);
    assert_eq!(vias, vec![(1, 0), (3, 1)]);
    let (runs, vias) = flatland::route_pieces::leg_runs(&vec![]);
    assert!(runs.is_empty() && vias.is_empty());
}

#[test]
fn pieces_join_into_traces_that_land_on_the_pads() {
    let sq = |x: i64| vec![Point::nm(x - 100, -100), Point::nm(x + 100, -100), Point::nm(x + 100, 100), Point::nm(x - 100, 100)];
    let pieces = vec![
        (s("F.Cu"), vec![Point::nm(50, 0), Point::nm(1000, 0)]),
        (s("F.Cu"), vec![Point::nm(1000, 0), Point::nm(2000, 0)]),
        (s("B.Cu"), vec![Point::nm(2000, 0)]),
        (s("B.Cu"), vec![Point::nm(2000, 0), Point::nm(2000, 0), Point::nm(3000, 30)]),
    ];
    let ts = flatland::route_pieces::finish_traces(&pieces, "SIG", Length(200_000), &sq(0), Point::nm(0, 0), &sq(3000), Point::nm(3000, 0));
    assert_eq!(ts.len(), 2);
    assert_eq!(ts[0].layer, "F.Cu");
    assert_eq!(ts[0].points, vec![Point::nm(0, 0), Point::nm(1000, 0), Point::nm(2000, 0)]);
    assert_eq!(ts[1].layer, "B.Cu");
    assert_eq!(ts[1].points, vec![Point::nm(2000, 0), Point::nm(3000, 0)]);
    assert!(ts.iter().all(|t| t.net.as_deref() == Some("SIG") && t.width == Length(200_000) && !t.routed && !t.fanout));
}

fn island_sq(x0: i64, x1: i64) -> Vec<Vec<Point>> {
    vec![vec![Point::nm(x0, 0), Point::nm(x1, 0), Point::nm(x1, 1000), Point::nm(x0, 1000)]]
}

#[test]
fn drills_join_the_islands_they_pierce_and_pads_find_their_island() {
    let islands = vec![island_sq(0, 1000), island_sq(500, 1500), island_sq(3000, 4000)];
    let links = flatland::islands::drill_links(&islands, &vec![Point::nm(700, 500), Point::nm(3500, 500), Point::nm(9000, 0)]);
    assert_eq!(links, vec![vec![0, 1], vec![2], vec![]]);
    // The centre finds the first island from `from` on.
    let outline = vec![Point::nm(2900, 100), Point::nm(3100, 100), Point::nm(3100, 300), Point::nm(2900, 300)];
    assert_eq!(flatland::islands::pad_island(&islands, 0, Point::nm(700, 500), &outline), Some(0));
    assert_eq!(flatland::islands::pad_island(&islands, 1, Point::nm(700, 500), &outline), Some(1));
    // The centre misses; a point of the outline lands in island 2.
    assert_eq!(flatland::islands::pad_island(&islands, 0, Point::nm(2900, 200), &outline), Some(2));
    assert_eq!(flatland::islands::pad_island(&islands, 0, Point::nm(9000, 0), &vec![Point::nm(9000, 0)]), None);
}

#[test]
fn change_lists_apply_to_traces_and_vias() {
    let mut traces = vec![drawn(Some("A"), false, false), drawn(Some("B"), true, false)];
    let mut vias = vec![placed(Some("A"), false, false)];
    let pts = vec![Point::nm(0, 0), Point::nm(5, 5)];
    let parts = vec![s("R1"), s("U1")];
    assert_eq!(apply_one(&mut traces, &mut vias, &parts, Length(300_000), Length(600_000), &Change::MovePart { refdes: s("U1") }).unwrap(), Some(1));
    let e = apply_one(&mut traces, &mut vias, &parts, Length(300_000), Length(600_000), &Change::MovePart { refdes: s("C9") }).unwrap_err();
    assert_eq!(e.message, "no instance named `C9`");

    assert!(apply_one(&mut traces, &mut vias, &parts, Length(300_000), Length(600_000),
        &Change::SetTracePoints { trace: 1, points: pts.clone(), width: Some(Length(400_000)) }).is_ok());
    assert_eq!(traces[1].points, pts);
    assert_eq!(traces[1].width, Length(400_000));
    assert!(traces[1].routed);

    let e = apply_one(&mut traces, &mut vias, &parts, Length(300_000), Length(600_000),
        &Change::SetTracePoints { trace: 7, points: pts.clone(), width: None }).unwrap_err();
    assert_eq!(e.message, "no trace #7");
    let e = apply_one(&mut traces, &mut vias, &parts, Length(300_000), Length(600_000),
        &Change::SetTracePoints { trace: 0, points: vec![Point::nm(0, 0)], width: None }).unwrap_err();
    assert_eq!(e.message, "trace #0 needs two points");
    let e = apply_one(&mut traces, &mut vias, &parts, Length(300_000), Length(600_000),
        &Change::AddTrace { layer: s("F.Cu"), net: None, width: Length(1), points: vec![] }).unwrap_err();
    assert_eq!(e.message, "a trace needs two points");

    assert!(apply_one(&mut traces, &mut vias, &parts, Length(300_000), Length(600_000),
        &Change::AddTrace { layer: s("B.Cu"), net: Some(s("C")), width: Length(150_000), points: pts.clone() }).is_ok());
    assert_eq!(traces.len(), 3);
    assert_eq!(traces[2].layer, "B.Cu");
    assert!(apply_one(&mut traces, &mut vias, &parts, Length(300_000), Length(600_000), &Change::DeleteTrace { trace: 0 }).is_ok());
    assert_eq!(traces.len(), 2);
    assert_eq!(traces[0].net.as_deref(), Some("B"));

    assert!(apply_one(&mut traces, &mut vias, &parts, Length(300_000), Length(600_000),
        &Change::AddVia { at: Point::nm(9, 9), net: None, drill: None, diameter: Some(Length(700_000)) }).is_ok());
    assert_eq!((vias[1].drill, vias[1].diameter), (Length(300_000), Length(700_000)));
    assert!(apply_one(&mut traces, &mut vias, &parts, Length(300_000), Length(600_000), &Change::MoveVia { via: 0, to: Point::nm(1, 2) }).is_ok());
    assert_eq!(vias[0].at, Point::nm(1, 2));
    let e = apply_one(&mut traces, &mut vias, &parts, Length(300_000), Length(600_000), &Change::DeleteVia { via: 5 }).unwrap_err();
    assert_eq!(e.message, "no via #5");
    assert!(apply_one(&mut traces, &mut vias, &parts, Length(300_000), Length(600_000), &Change::DeleteVia { via: 0 }).is_ok());
    assert_eq!(vias.len(), 1);
    assert!(apply_one(&mut traces, &mut vias, &parts, Length(300_000), Length(600_000), &Change::Note).is_ok());
}

#[test]
fn kicad_copper_writes_segments_then_vias_with_numbered_uuids() {
    let t = Trace {
        layer: s("F.Cu"),
        net: Some(s("GND")),
        width: Length(250_000),
        points: vec![Point::nm(0, 0), Point::nm(1_000_000, 0), Point::nm(1_000_000, -1_500_000)],
        routed: false,
        fanout: false,
    };
    let v = Via { at: Point::nm(2_000_000, 0), net: None, drill: Length(300_000), diameter: Length(600_000), layers: vec![], routed: false, fanout: false };
    let mut ids = flatland::kicad::Uuids(0);
    let text = flatland::kicad::kicad_copper(&vec![t], &vec![v], &vec![s("VCC"), s("GND")], &mut ids);
    assert_eq!(ids.0, 3);
    assert_eq!(
        text,
        "  (segment (start 0 0) (end 1 0) (width 0.25) (layer \"F.Cu\") (net 2) (uuid \"f1a71a4d-0000-4000-8000-000000000001\"))\n\
         \x20 (segment (start 1 0) (end 1 1.5) (width 0.25) (layer \"F.Cu\") (net 2) (uuid \"f1a71a4d-0000-4000-8000-000000000002\"))\n\
         \x20 (via (at 2 0) (size 0.6) (drill 0.3) (layers \"F.Cu\" \"B.Cu\") (uuid \"f1a71a4d-0000-4000-8000-000000000003\"))\n"
    );
}

#[test]
fn kicad_net_table_numbers_nets_from_one() {
    assert_eq!(flatland::kicad::kicad_nets(&vec![]), "  (net 0 \"\")\n");
    assert_eq!(
        flatland::kicad::kicad_nets(&vec![s("GND"), s("V\"1")]),
        "  (net 0 \"\")\n  (net 1 \"GND\")\n  (net 2 \"V\\\"1\")\n"
    );
}

fn finding(rule: &str, sev: flatland::schema::Severity, feats: &[&str]) -> flatland::drc::Finding {
    flatland::drc::Finding { rule: s(rule), severity: sev, message: format!("{rule} hit"), at: None, features: feats.iter().map(|f| s(f)).collect(), waived: None }
}

#[test]
fn drc_findings_are_waived_then_reported_errors_first_by_rule() {
    let mut fs = vec![
        finding("b:width", Severity::Warning, &["R1"]),
        finding("a:gap", Severity::Error, &["U1"]),
        finding("b:width", Severity::Warning, &["R2"]),
        finding("a:clear", Severity::Error, &["C1", "GND"]),
        finding("info", Severity::Info, &[]),
    ];
    let ws = vec![
        Waiver { rule: s("a:clear"), features: vec![s("GND")], reason: s("plane") },
        Waiver { rule: s("b:width"), features: vec![], reason: s("all widths") },
        Waiver { rule: s("a:gap"), features: vec![s("U9")], reason: s("other part") },
    ];
    flatland::drc_run::finish_findings(&mut fs, &ws);
    let order: Vec<(&str, Option<&str>)> = fs.iter().map(|f| (f.rule.as_str(), f.waived.as_deref())).collect();
    assert_eq!(order, vec![
        ("a:clear", Some("plane")), ("a:gap", None), ("b:width", Some("all widths")), ("b:width", Some("all widths")), ("info", None),
    ]);
    assert_eq!(fs[2].features, vec![s("R1")]);
    assert_eq!(fs[3].features, vec![s("R2")]);
    assert_eq!(flatland::drc_run::count_open(&fs, Severity::Error), 1);
    assert_eq!(flatland::drc_run::count_open(&fs, Severity::Warning), 0);
    assert_eq!(flatland::drc_run::count_waived(&fs), 3);
}

#[test]
fn drc_rule_sets_for_other_layer_counts_warn() {
    let sets = vec![(s("basic"), vec![]), (s("jlc4"), vec![4, 6]), (s("jlc2"), vec![2])];
    let w = flatland::drc_run::applies_warnings(&sets, 2);
    assert_eq!(w.len(), 1);
    assert_eq!(w[0].rule, "jlc4:applies");
    assert_eq!(w[0].severity, flatland::schema::Severity::Warning);
    assert_eq!(w[0].message, "rule set `jlc4` is for 4/6-layer boards, this board has 2");
}

#[test]
fn drc_waive_and_unwaive_edit_the_waiver_list() {
    let mut ws: Vec<flatland::schema::Waiver> = vec![];
    let known = vec![s("basic:clearance"), s("project:wide")];
    let e = flatland::drc_run::add_waiver(&mut ws, &known, "nope", &vec![], "x").unwrap_err();
    assert_eq!(e.message, "no rule `nope` to waive");
    assert!(flatland::drc_run::add_waiver(&mut ws, &known, "project:wide", &vec![s("R1")], "ok").is_ok());
    assert!(flatland::drc_run::add_waiver(&mut ws, &known, "basic:clearance", &vec![], "all").is_ok());
    assert_eq!(ws.len(), 2);
    assert_eq!(ws[0].features, vec![s("R1")]);
    let e = flatland::drc_run::remove_waivers(&mut ws, "other").unwrap_err();
    assert_eq!(e.message, "no waivers for `other`");
    assert!(flatland::drc_run::remove_waivers(&mut ws, "project:wide").is_ok());
    assert_eq!(ws.len(), 1);
    assert_eq!(ws[0].rule, "basic:clearance");
}

#[test]
fn index_verify_reports_each_problem_of_an_entry() {
    use_index_checks();
}

fn use_index_checks() {
    let comp = b"{\"name\":\"r\"}".to_vec();
    let fpb = b"{\"pads\":[]}".to_vec();
    let h = blake3_hex(&comp);
    let fh = blake3_hex(&fpb);
    let ok = flatland::index_check::entry_problems("c.json", &Some(comp.clone()), &Some(h.to_uppercase()), &Some((s("f.json"), Some(fpb.clone()), Some(fh.clone()))));
    assert!(ok.is_empty());
    let missing = flatland::index_check::entry_problems("c.json", &None, &Some(h.clone()), &None);
    assert_eq!(missing, vec![s("missing file c.json")]);
    let bad = flatland::index_check::entry_problems("c.json", &Some(comp.clone()), &Some(s("00")), &Some((s("f.json"), Some(fpb.clone()), Some(s("11")))));
    assert_eq!(bad, vec![format!("hash mismatch (expected 00, actual {h})"), s("footprint hash mismatch for f.json")]);
    let none = flatland::index_check::entry_problems("c.json", &Some(comp.clone()), &None, &Some((s("f.json"), None, None)));
    assert_eq!(none, vec![s("no hash recorded"), s("missing footprint f.json")]);
    let unhashed = flatland::index_check::entry_problems("c.json", &Some(comp.clone()), &Some(h.clone()), &Some((s("f.json"), Some(fpb), None)));
    assert_eq!(unhashed, vec![s("footprint has no hash recorded")]);
    assert_eq!(flatland::index_check::refreshed_hash(&Some(h.clone()), &comp), (h.clone(), false));
    assert_eq!(flatland::index_check::refreshed_hash(&None, &comp), (h.clone(), true));
}

#[test]
fn index_remove_by_url_or_name() {
    let base = || vec![FileRef { url: s("a/index.json"), blake3: None }, FileRef { url: s("b/index.json"), blake3: None }, FileRef { url: s("c/index.json"), blake3: None }];
    let names = vec![Some(s("alpha")), None, Some(s("gamma"))];
    let mut refs = base();
    assert!(flatland::index_check::remove_index(&mut refs, &names, "gamma").is_ok());
    assert_eq!(refs.iter().map(|r| r.url.as_str()).collect::<Vec<_>>(), vec!["a/index.json", "b/index.json"]);
    let mut refs = base();
    assert!(flatland::index_check::remove_index(&mut refs, &names, "b/index.json").is_ok());
    assert_eq!(refs.len(), 2);
    let mut refs = base();
    let e = flatland::index_check::remove_index(&mut refs, &names, "beta").unwrap_err();
    assert_eq!(e.message, "no index named `beta`; indexes are `alpha`, `gamma`");
    assert_eq!(refs.len(), 3);
}

#[test]
fn pin_route_plan_checks_nets_layers_and_takes_class_width() {
    let nets = nets_ab();
    let layers = vec![s("F.Cu"), s("B.Cu")];
    let p = flatland::route_plan::pin_route_plan("R1.1", "U1.3", &Some(s("A")), &Some(s("A")), &nets, &classes(),
        Length(200_000), Length(150_000), None, &layers, &None).ok().unwrap();
    assert_eq!(p.net, "A");
    assert_eq!(p.width, Length(500_000));
    assert_eq!(p.clearance, Length(150_000));
    assert_eq!(p.layers, layers);
    let p = flatland::route_plan::pin_route_plan("R1.1", "U1.3", &Some(s("B")), &Some(s("B")), &nets, &classes(),
        Length(200_000), Length(150_000), Some(Length(300_000)), &layers, &Some(s("B.Cu"))).ok().unwrap();
    assert_eq!((p.width, p.layers.clone()), (Length(300_000), vec![s("B.Cu")]));
    let e = flatland::route_plan::pin_route_plan("R1.1", "U1.3", &Some(s("A")), &Some(s("B")), &nets, &classes(),
        Length(200_000), Length(150_000), None, &layers, &None).err().unwrap();
    assert_eq!(e.message, "R1.1 is on net A but U1.3 is on net B");
    let e = flatland::route_plan::pin_route_plan("R1.1", "U1.3", &None, &Some(s("B")), &nets, &classes(),
        Length(200_000), Length(150_000), None, &layers, &None).err().unwrap();
    assert_eq!((e.message.as_str(), e.help.as_deref()), ("both pins must be on a net", Some("`pcb connect R1.1 U1.3 --net <name>`")));
    let e = flatland::route_plan::pin_route_plan("R1.1", "U1.3", &Some(s("A")), &Some(s("A")), &nets, &classes(),
        Length(200_000), Length(150_000), None, &layers, &Some(s("In1.Cu"))).err().unwrap();
    assert_eq!((e.message.as_str(), e.help.as_deref()), ("no copper layer `In1.Cu`", Some("layers are F.Cu, B.Cu")));
    assert_eq!(flatland::route_plan::goal_box(&vec![(0, 3, 4), (1, 1, 7), (0, 5, 2)]), (1, 2, 5, 7));
}

#[test]
fn ratsnest_spans_islands_nearest_first() {
    let pts = vec![Point::nm(0, 0), Point::nm(10, 0), Point::nm(10, 5), Point::nm(100, 0)];
    assert_eq!(flatland::ratsnest::spanning_wires(&pts), vec![(0, 1), (1, 2), (1, 3)]);
    let ties = vec![Point::nm(0, 0), Point::nm(1, 0), Point::nm(-1, 0)];
    assert_eq!(flatland::ratsnest::spanning_wires(&ties), vec![(0, 1), (0, 2)]);
    assert!(flatland::ratsnest::spanning_wires(&vec![Point::nm(3, 3)]).is_empty());
}

#[test]
fn spice_deck_is_assembled_in_order_or_refused() {
    let v = |xs: &[&str]| xs.iter().map(|x| s(x)).collect::<Vec<String>>();
    let deck = flatland::spice_deck::netlist_deck(
        "amp", "dc1", ".op", &Some(s("27")), &v(&["tnom=25", "gmin=1e-12"]), &v(&["/lib/a.lib"]),
        &vec![(s("D1N4148"), s(".model D1N4148 D"))], &v(&["R1 in out 1k", "V1 in 0 5\n"]), &v(&["* hi"]),
        &v(&["v(out)", "@r1[i]"]), &v(&["J1 (conn)"]), &v(&["first", "second"]), true,
    ).ok().unwrap();
    assert_eq!(deck, "* warning: second\n* warning: first\n* not simulated (no spice model): J1 (conn)\n\
* amp — simulation `dc1` (.op)\n.title amp dc1\n.temp 27\n.options tnom=25 gmin=1e-12\n.include \"/lib/a.lib\"\n\
* model for D1N4148\n.model D1N4148 D\n* elements\nR1 in out 1k\nV1 in 0 5\n* extra\n* hi\n.op\n.save all\n.save @r1[i]\n.end\n");
    let e = flatland::spice_deck::netlist_deck("amp", "dc1", ".op", &None, &vec![], &vec![], &vec![], &vec![], &vec![], &vec![], &vec![], &vec![], true).unwrap_err();
    assert_eq!(e.message, "nothing to simulate: no instance has a spice model");
    let e = flatland::spice_deck::netlist_deck("amp", "dc1", ".op", &None, &vec![], &vec![], &vec![], &v(&["R1 a b 1"]), &vec![], &vec![], &vec![], &vec![], false).unwrap_err();
    assert_eq!(e.message, "the circuit has no ground: no net is named GND (or 0)");
}

#[test]
fn project_validation_reports_the_first_problem() {
    use_validation();
}

fn use_validation() {
    let layers = vec![s("F.Cu"), s("B.Cu")];
    let net = |n: &str, pins: &[&str], class: Option<&str>| (s(n), Net { pins: pins.iter().map(|p| s(p)).collect(), class: class.map(s) });
    let nets = vec![net("GND", &["R1.2", "C1.2"], None), net("VIN", &["R1.1"], Some("power"))];
    let classes = vec![s("power")];
    let ok = flatland::validate::validate_project(&layers, &nets, &classes, &vec![], &vec![drawn(Some("GND"), false, false)], &vec![placed(Some("VIN"), false, false)], &vec![]);
    assert!(ok.is_ok());
    let e = flatland::validate::validate_project(&vec![], &nets, &classes, &vec![], &vec![], &vec![], &vec![]).unwrap_err();
    assert_eq!(e.message, "the stackup has no copper layers");
    let dup = vec![net("GND", &["R1.2"], None), net("VIN", &["R1.1", "R1.2"], None)];
    let e = flatland::validate::validate_project(&layers, &dup, &classes, &vec![], &vec![], &vec![], &vec![]).unwrap_err();
    assert_eq!(e.message, "pin `R1.2` is listed in both net `GND` and net `VIN`");
    let bad = vec![net("GND", &["R1"], None)];
    let e = flatland::validate::validate_project(&layers, &bad, &classes, &vec![], &vec![], &vec![], &vec![]).unwrap_err();
    assert_eq!(e.message, "`R1` is not a pin reference");
    let e = flatland::validate::validate_project(&layers, &nets, &vec![], &vec![], &vec![], &vec![], &vec![]).unwrap_err();
    assert_eq!(e.message, "net `VIN` has class `power` but no such class is defined in design_rules.net_classes");
    assert_eq!(e.help.as_deref(), Some("add it with `pcb rules class power --width ... --clearance ...`"));
    let hole = Hole { at: Point::nm(1_000_000, 2_500_000), drill: Length(1_000_000), plated: false, diameter: None, net: Some(s("GND")) };
    let e = flatland::validate::validate_project(&layers, &nets, &classes, &vec![hole], &vec![], &vec![], &vec![]).unwrap_err();
    assert_eq!(e.message, "hole at 1,2.5 has a net but is not plated");
    let mut t = drawn(Some("GND"), false, false);
    t.layer = s("In1.Cu");
    let e = flatland::validate::validate_project(&layers, &nets, &classes, &vec![], &vec![t], &vec![], &vec![]).unwrap_err();
    assert_eq!(e.message, "trace is on layer `In1.Cu` but the stackup only has `F.Cu`, `B.Cu`");
    let e = flatland::validate::validate_project(&layers, &nets, &classes, &vec![], &vec![drawn(Some("X"), false, false)], &vec![], &vec![]).unwrap_err();
    assert_eq!(e.message, "trace on `F.Cu` references unknown net `X`");
    let pour = Pour { name: s("fill"), layer: s("B.Cu"), net: Some(s("NOPE")), edges: vec![], clearance: None, priority: 0, thermal: None };
    let e = flatland::validate::validate_project(&layers, &nets, &classes, &vec![], &vec![], &vec![], &vec![pour]).unwrap_err();
    assert_eq!(e.message, "pour `fill` references unknown net `NOPE`");
}

fn pin_at(name: &str, x: i64, layer: &str) -> flatland::connect::PinPads {
    flatland::connect::PinPads { name: s(name), pads: vec![(Point::nm(x, 0), vec![s(layer)])] }
}

#[test]
fn connectivity_single_pin_is_one_group() {
    let pins = vec![pin_at("R1.1", 0, "F.Cu")];
    let g = flatland::connect::net_connectivity(&pins, &vec![], &vec![s("F.Cu")], &vec![vec![]]).unwrap();
    assert_eq!(g, vec![vec![s("R1.1")]]);
    let none: Vec<flatland::connect::PinPads> = vec![];
    let g = flatland::connect::net_connectivity(&none, &vec![], &vec![], &vec![]).unwrap();
    assert_eq!(g, vec![Vec::<String>::new()]);
}

#[test]
fn connectivity_without_copper_leaves_each_pin_alone() {
    let pins = vec![pin_at("R1.1", 0, "F.Cu"), pin_at("R2.1", 5_000_000, "F.Cu")];
    let g = flatland::connect::net_connectivity(&pins, &vec![], &vec![s("F.Cu")], &vec![vec![]]).unwrap();
    assert_eq!(g, vec![vec![s("R1.1")], vec![s("R2.1")]]);
}

#[test]
fn connectivity_joins_pins_on_one_island() {
    let pins = vec![pin_at("R1.1", 0, "F.Cu"), pin_at("R2.1", 5_000_000, "F.Cu"), pin_at("R3.1", 50_000_000, "F.Cu")];
    let strip = rect(Point::nm(2_500_000, 0), Length(8_000_000), Length(1_000_000));
    let g = flatland::connect::net_connectivity(&pins, &vec![], &vec![s("F.Cu")], &vec![vec![strip.clone()]]).unwrap();
    assert_eq!(g, vec![vec![s("R1.1"), s("R2.1")], vec![s("R3.1")]]);
    // The same copper on another layer than the pads joins nothing.
    let g = flatland::connect::net_connectivity(&pins, &vec![], &vec![s("F.Cu"), s("B.Cu")], &vec![vec![], vec![strip]]).unwrap();
    assert_eq!(g.len(), 3);
}

#[test]
fn connectivity_goes_through_vias() {
    let pins = vec![pin_at("U1.1", 0, "F.Cu"), pin_at("U2.1", 20_000_000, "B.Cu")];
    let top = rect(Point::nm(5_000_000, 0), Length(12_000_000), Length(1_000_000));
    let bottom = rect(Point::nm(15_000_000, 0), Length(12_000_000), Length(1_000_000));
    let via = flatland::connect::NetVia { at: Point::nm(10_000_000, 0), layers: vec![] };
    let layers = vec![s("F.Cu"), s("B.Cu")];
    let g = flatland::connect::net_connectivity(&pins, &vec![via], &layers, &vec![vec![top.clone()], vec![bottom.clone()]]).unwrap();
    assert_eq!(g, vec![vec![s("U1.1"), s("U2.1")]]);
    // A via that only joins the top layer leaves the pins apart.
    let blind = flatland::connect::NetVia { at: Point::nm(10_000_000, 0), layers: vec![s("F.Cu")] };
    let g = flatland::connect::net_connectivity(&pins, &vec![blind], &layers, &vec![vec![top], vec![bottom]]).unwrap();
    assert_eq!(g.len(), 2);
}

#[test]
fn pin_groups_follow_root_order() {
    let parent = vec![2usize, 1, 2, 1];
    let names = vec![s("a"), s("b"), s("c"), s("d")];
    assert_eq!(flatland::connect::pin_groups(&parent, &names), vec![vec![s("b"), s("d")], vec![s("a"), s("c")]]);
}

#[test]
fn point_parse_reads_both_halves() {
    assert_eq!(Point::parse("0.5in,10mm"), Ok(Point::nm(12_700_000, 10_000_000)));
}

#[test]
fn route_refuses_pins_already_joined() {
    let a = rect(Point::nm(0, 0), Length(4_000_000), Length(4_000_000));
    let b = rect(Point::nm(2_000_000, 0), Length(4_000_000), Length(4_000_000));
    let far = rect(Point::nm(20_000_000, 0), Length(4_000_000), Length(4_000_000));
    let start = vec![(s("F.Cu"), vec![a.clone()])];
    let e = flatland::route_plan::check_not_joined("R1.1", "R2.1", &start, &vec![(s("F.Cu"), vec![b.clone()])]).unwrap_err();
    assert_eq!(e.message, "R1.1 and R2.1 are already connected");
    assert!(flatland::route_plan::check_not_joined("R1.1", "R2.1", &start, &vec![(s("B.Cu"), vec![b])]).is_ok());
    assert!(flatland::route_plan::check_not_joined("R1.1", "R2.1", &start, &vec![(s("F.Cu"), vec![far])]).is_ok());
    assert!(flatland::route_plan::check_not_joined("R1.1", "R2.1", &start, &vec![(s("F.Cu"), vec![])]).is_ok());
}

fn pad_item(id: &str, refdes: &str, net: &str, x: i64) -> Item {
    let mut it = item(Feature::Pad, Some(net), vec!["F.Cu"]);
    it.id = s(id);
    it.refdes = Some(s(refdes));
    it.center = Point::nm(x, 0);
    it.geom = vec![rect(Point::nm(x, 0), Length(1_000_000), Length(1_000_000))];
    it
}

#[test]
fn clearance_pairs_each_pair_once() {
    let items = vec![pad_item("R2.1", "R2", "A", 0), pad_item("R1.1", "R1", "B", 1_200_000), pad_item("R3.1", "R3", "C", 50_000_000)];
    let tiled = vec![false, false, false];
    let d = Length(200_000);
    let pairs = flatland::drc_pairs::clearance_pairs(&items, &tiled, Feature::Pad, &None, Feature::Pad, Relation::DifferentNet, d);
    // R1.1 sorts before R2.1, so the pair is tested from R1.1; R3.1 is far away.
    assert_eq!(pairs, vec![(1, 0)]);
    // A tiled pour is probed from the untiled side.
    let pairs = flatland::drc_pairs::clearance_pairs(&items, &vec![false, true, false], Feature::Pad, &None, Feature::Pad, Relation::DifferentNet, d);
    assert_eq!(pairs, vec![(0, 1)]);
    // Same net: not a different-net pair.
    let same = vec![pad_item("R2.1", "R2", "A", 0), pad_item("R1.1", "R1", "A", 1_200_000)];
    assert!(flatland::drc_pairs::clearance_pairs(&same, &vec![false, false], Feature::Pad, &None, Feature::Pad, Relation::DifferentNet, d).is_empty());
    // A pad and its own hole are one thing.
    let mut hole = pad_item("R2.1 hole", "R2", "B", 0);
    hole.kind = Feature::Hole;
    let with_hole = vec![pad_item("R2.1", "R2", "A", 0), hole];
    assert!(flatland::drc_pairs::clearance_pairs(&with_hole, &vec![false, false], Feature::Pad, &None, Feature::Hole, Relation::Any, d).is_empty());
}

#[test]
fn clearance_message_text() {
    assert_eq!(flatland::drc_pairs::clearance_message("R1.1", "R2.1", Length(200_000), false), "R1.1 and R2.1 are closer than 0.2mm");
    assert_eq!(flatland::drc_pairs::clearance_message("R1.1", "R2.1", Length(200_000), true), "R1.1 and R2.1 overlap");
    assert_eq!(flatland::drc_pairs::clearance_message("R1.1", "R2.1", Length(0), false), "R1.1 and R2.1 overlap");
}

fn hand_trace(net: Option<&str>, routed: bool, fanout: bool) -> Trace {
    Trace { layer: s("F.Cu"), net: net.map(s), width: Length(250_000), points: vec![Point::nm(0, 0), Point::nm(1_500_000, -2_000_000)], routed, fanout }
}

#[test]
fn trace_listing_lines() {
    let traces = vec![hand_trace(Some("GND"), true, false), hand_trace(None, false, true), hand_trace(Some("VIN"), false, false)];
    let lines = flatland::trace_list::trace_lines(&traces);
    assert_eq!(lines, vec![
        s("#0: F.Cu net GND w 0.25mm 0,0 -> 1.5,-2 (routed)"),
        s("#1: F.Cu net - w 0.25mm 0,0 -> 1.5,-2 (fanout)"),
        s("#2: F.Cu net VIN w 0.25mm 0,0 -> 1.5,-2"),
    ]);
}

#[test]
fn trace_remove_by_number() {
    let mut traces = vec![hand_trace(Some("GND"), false, false), hand_trace(None, false, false)];
    let e = flatland::trace_list::remove_trace(&mut traces, 2).unwrap_err();
    assert_eq!(e.message, "no trace #2");
    assert_eq!(e.help, Some(s("`pcb trace list` numbers them")));
    assert_eq!(traces.len(), 2);
    let m = flatland::trace_list::remove_trace(&mut traces, 1).unwrap();
    assert_eq!(m, "removed trace #1 (no net on F.Cu, 2 point(s)); later indices shift down by one");
    assert_eq!(traces.len(), 1);
    assert_eq!(traces[0].net, Some(s("GND")));
}

#[test]
fn trim_must_not_split_a_net() {
    let before = vec![(s("GND"), 1usize), (s("VIN"), 2)];
    assert!(flatland::trace_list::check_trim_keeps_nets(&before, &vec![(s("GND"), 1), (s("VIN"), 2)]).is_ok());
    let e = flatland::trace_list::check_trim_keeps_nets(&before, &vec![(s("GND"), 1), (s("VIN"), 3)]).unwrap_err();
    assert_eq!(e.message, "trimming would split net VIN (3 islands from 2); nothing changed");
    // A net missing before counts as one island.
    let e = flatland::trace_list::check_trim_keeps_nets(&before, &vec![(s("NEW"), 2)]).unwrap_err();
    assert_eq!(e.message, "trimming would split net NEW (2 islands from 1); nothing changed");
}

#[test]
fn kicad_header_lists_layers() {
    let h = flatland::kicad::kicad_header(Length(1_600_000), &vec![s("F.Cu"), s("In1.Cu"), s("B.Cu")], Length(50_000));
    assert!(h.starts_with("(kicad_pcb (version 20240108) (generator \"flatland\") (generator_version \"0.1\")\n  (general (thickness 1.6) (legacy_teardrops no))\n  (paper \"A4\")\n"));
    assert!(h.contains("  (layers\n    (0 \"F.Cu\" signal)\n    (1 \"In1.Cu\" signal)\n    (31 \"B.Cu\" signal)\n    (32 \"B.Adhes\" user \"B.Adhesive\")\n"));
    assert!(h.contains("    (49 \"F.Fab\" user)\n  )\n"));
    assert!(h.ends_with("  (setup (pad_to_mask_clearance 0.05) (allow_soldermask_bridges_in_footprints no) (pcbplotparams))\n"));
    let single = flatland::kicad::kicad_header(Length(800_000), &vec![s("F.Cu")], Length(0));
    assert!(single.contains("    (0 \"F.Cu\" signal)\n    (31 \"B.Cu\" signal)\n"));
}

#[test]
fn dsn_wiring_protects_existing_copper() {
    assert_eq!(flatland::dsn_wiring::dsn_wiring(&vec![], &vec![], 2), "");
    let t = Trace { layer: s("F.Cu"), net: Some(s("GND")), width: Length(250_000), points: vec![Point::nm(0, 0), Point::nm(1_500_000, -2_000_000)], routed: false, fanout: false };
    let v = Via { at: Point::nm(500_000, 0), net: None, drill: Length(300_000), diameter: Length(600_000), layers: vec![], routed: false, fanout: false };
    let w = flatland::dsn_wiring::dsn_wiring(&vec![t], &vec![v], 2);
    let via = quote(&via_name(Length(600_000), Length(300_000), 2));
    assert_eq!(w, format!("  (wiring\n    (wire (path F.Cu 250 0 0 1500 -2000) (net GND) (type protect))\n    (via {via} 500 0 (type protect))\n  )\n"));
}

#[test]
fn dsn_network_groups_nets_by_class() {
    let power = flatland::schema::NetClass { trace_width: Some(Length(500_000)), clearance: None, via_drill: None, via_diameter: Some(Length(800_000)) };
    let classes = vec![(s("power"), power)];
    let net = |name: &str, pins: Vec<&str>, class: Option<&str>| DsnNet { name: s(name), pins: pins.into_iter().map(s).collect(), class: class.map(s) };
    let nets = vec![
        net("GND", vec!["R1-2", "C1-1"], None),
        net("VIN", vec!["R1-1"], Some("power")),
        net("NC", vec![], None),
        net("VCC", vec!["U1-8"], None),
    ];
    let text = dsn_network(&nets, &classes, Length(250_000), Length(200_000), Length(600_000), Length(300_000), 2);
    let v_default = quote(&via_name(Length(600_000), Length(300_000), 2));
    let v_power = quote(&via_name(Length(800_000), Length(300_000), 2));
    let (a, b, c, d) = (quote("R1-2"), quote("C1-1"), quote("R1-1"), quote("U1-8"));
    let expected = format!(
        "  (network\n    (net GND (pins {a} {b}))\n    (net VIN (pins {c}))\n    (net VCC (pins {d}))\n    (class default GND VCC\n      (circuit (use_via {v_default}))\n      (rule (width 250) (clearance 200))\n    )\n    (class power VIN\n      (circuit (use_via {v_power}))\n      (rule (width 500) (clearance 200))\n    )\n  )\n"
    );
    assert_eq!(text, expected);
}
