use flatland::geom::{check_closed, difference, rect, union, Edge};
use flatland::sexpr::parse;
use flatland::store::{relative_url, resolve_url, Location};
use flatland::units::{Length, Point};

fn mm(v: f64) -> Length {
    Length::from_nm((v * 1e6).round() as i64)
}

fn pmm(x: f64, y: f64) -> Point {
    Point::new(mm(x), mm(y))
}

fn area(ring: &[Point]) -> f64 {
    let mut a = 0.0;
    for i in 0..ring.len() {
        let p = ring[i];
        let q = ring[(i + 1) % ring.len()];
        a += p.x.nm() as f64 * q.y.nm() as f64 - q.x.nm() as f64 * p.y.nm() as f64;
    }
    a / 2.0
}

#[test]
fn parses() {
    let nodes = parse("(pcb \"a b\" (net GND (pins R1-1 R2-2)))").unwrap();
    assert_eq!(nodes.len(), 1);
    let pcb = &nodes[0];
    assert!(pcb.is("pcb"));
    assert_eq!(pcb.arg(1), Some("a b"));
    let net = pcb.child("net").unwrap();
    assert_eq!(net.arg(1), Some("GND"));
    assert_eq!(net.child("pins").unwrap().args(), vec!["R1-1", "R2-2"]);
    assert!(parse("(a (b)").is_err());
}

#[test]
fn square_area() {
    let r = rect(Point::nm(0, 0), mm(2.0), mm(2.0));
    assert!((area(&r) - 4e12).abs() < 1.0);
}

#[test]
fn closes_outline() {
    let e = vec![
        Edge::Line { from: pmm(0.0, 0.0), to: pmm(10.0, 0.0) },
        Edge::Arc { from: pmm(10.0, 0.0), to: pmm(10.0, 10.0), center: pmm(10.0, 5.0), clockwise: false },
        Edge::Line { from: pmm(10.0, 10.0), to: pmm(0.0, 10.0) },
        Edge::Line { from: pmm(0.0, 10.0), to: pmm(0.0, 0.0) },
    ];
    assert!(check_closed(&e, "test").is_ok());
    let bad = vec![e[0].clone(), e[2].clone()];
    assert!(check_closed(&bad, "test").is_err());
}

#[test]
fn boolean_ops() {
    let a = rect(Point::nm(0, 0), mm(4.0), mm(4.0));
    let b = rect(pmm(2.0, 0.0), mm(4.0), mm(4.0));
    let u = union(&vec![a.clone(), b.clone()]).unwrap();
    let ua: f64 = u.iter().map(|r| area(r)).sum();
    assert!((ua / 1e12 - 24.0).abs() < 0.01);
    let d = difference(&vec![a.clone()], &vec![b]).unwrap();
    let da: f64 = d.iter().map(|r| area(r)).sum();
    assert!((da / 1e12 - 8.0).abs() < 0.01);
}

#[test]
fn urls() {
    let r = "/a/b/index.json";
    assert_eq!(resolve_url("c/d.json", r, None), Location::Local("/a/b/c/d.json".to_string()));
    assert_eq!(resolve_url("../x.json", r, None), Location::Local("/a/b/../x.json".to_string()));
    assert_eq!(resolve_url("file:///tmp/x.json", r, None), Location::Local("/tmp/x.json".to_string()));
    assert!(matches!(resolve_url("https://x/y.json", r, None), Location::Remote(_)));
    assert_eq!(relative_url("/a/b/c/d.json", "/a/b/index.json", "/"), "c/d.json");
    assert_eq!(relative_url("/a/x.json", "/a/b/index.json", "/"), "../x.json");
}

#[test]
fn parse_lengths() {
    assert_eq!(Length::parse("1.5").unwrap(), mm(1.5));
    assert_eq!(Length::parse("1.5mm").unwrap(), mm(1.5));
    assert_eq!(Length::parse("10mil").unwrap(), mm(0.254));
    assert_eq!(Length::parse("1in").unwrap(), mm(25.4));
    assert_eq!(Length::parse("100um").unwrap(), Length(100_000));
    assert!(Length::parse("3 furlongs").is_err());
}
