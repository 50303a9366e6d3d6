//! The records of the project, component, footprint, index and rule files,
//! as the library reads them, with their small rules.

use vstd::prelude::*;
use crate::units::{Length, Point};
use crate::geom::Edge;

verus! {

/// A link to another file, with the BLAKE3 it had when it was linked.
#[derive(Clone, Debug, PartialEq, Eq, Default)]
pub struct FileRef {
    pub url: String,
    pub blake3: Option<String>,
}

impl FileRef {
    /// A link with no recorded hash.
    pub fn new(url: String) -> (r: FileRef)
        ensures r.url@ == url@, r.blake3 is None,
    {
        FileRef { url, blake3: None }
    }
}

/// A component pin and the footprint pad(s) it lands on.
#[derive(Clone, Debug)]
pub struct Pin {
    pub name: String,
    pub pad: Option<PadRef>,
    pub description: Option<String>,
}

/// One pad name or several (a pin on several pads).
#[derive(Clone, Debug, PartialEq, Eq)]
pub enum PadRef {
    One(String),
    Many(Vec<String>),
}

/// The pad a pin names first: its own name where it names none.
pub open spec fn pad_name_of(p: Pin) -> Seq<char> {
    match p.pad {
        None => p.name@,
        Some(PadRef::One(s)) => s@,
        Some(PadRef::Many(v)) => if v@.len() > 0 { v@[0]@ } else { p.name@ },
    }
}

/// Every pad a pin lands on.
pub open spec fn pad_names_of(p: Pin) -> Seq<Seq<char>> {
    match p.pad {
        None => seq![p.name@],
        Some(PadRef::One(s)) => seq![s@],
        Some(PadRef::Many(v)) => v@.map_values(|s: String| s@),
    }
}

impl Pin {
    /// The pad the pin lands on (the first, where it lands on several).
    pub fn pad_name(&self) -> (r: &str)
        ensures r@ == pad_name_of(*self),
    {
        match &self.pad {
            None => self.name.as_str(),
            Some(PadRef::One(p)) => p.as_str(),
            Some(PadRef::Many(v)) => if v.len() > 0 { v[0].as_str() } else { self.name.as_str() },
        }
    }

    /// Every pad the pin lands on.
    pub fn pad_names(&self) -> (r: Vec<&str>)
        ensures r@.len() == pad_names_of(*self).len(),
            forall|i: int| 0 <= i < r@.len() ==> r@[i]@ == pad_names_of(*self)[i],
    {
        match &self.pad {
            None => {
                let mut r: Vec<&str> = Vec::new();
                r.push(self.name.as_str());
                r
            },
            Some(PadRef::One(p)) => {
                let mut r: Vec<&str> = Vec::new();
                r.push(p.as_str());
                r
            },
            Some(PadRef::Many(v)) => {
                let mut r: Vec<&str> = Vec::new();
                let mut i: usize = 0;
                while i < v.len()
                    invariant
                        i <= v@.len(), r@.len() == i,
                        forall|k: int| 0 <= k < i ==> r@[k]@ == v@[k]@,
                    decreases v@.len() - i,
                {
                    r.push(v[i].as_str());
                    i += 1;
                }
                r
            },
        }
    }
}

/// A component parameter: its default and what it means.
#[derive(Clone, Debug, Default)]
pub struct Parameter {
    pub default: Option<String>,
    pub description: Option<String>,
}

/// How a component is simulated.
#[derive(Clone, Debug, Default)]
pub struct SpiceModel {
    pub template: String,
    pub model: Option<String>,
    pub includes: Vec<FileRef>,
}

/// A component listed in an index, by the file it lives in.
#[derive(Clone, Debug)]
pub struct IndexEntry {
    pub file: FileRef,
    pub description: Option<String>,
}

/// Surface-mount or through-hole.
#[derive(Clone, Copy, PartialEq, Eq, Structural, Debug)]
pub enum PadType {
    Smd,
    ThroughHole,
}

/// The copper outline of a pad.
#[derive(Clone, Copy, PartialEq, Eq, Structural, Debug)]
pub enum PadShape {
    Circle,
    Rect,
    RoundRect,
    Oval,
}

/// A silkscreen or courtyard drawing of a footprint.
#[derive(Clone, Debug, PartialEq)]
pub enum Graphic {
    Line { from: Point, to: Point, width: Option<Length> },
    Arc { from: Point, to: Point, center: Point, clockwise: bool, width: Option<Length> },
    Circle { center: Point, diameter: Length, width: Option<Length> },
    Polyline { points: Vec<Point>, width: Option<Length> },
    Polygon { points: Vec<Point> },
    Text { at: Point, text: String, size: Option<Length> },
}

/// The stroke width a drawing asks for, where it draws strokes.
pub open spec fn graphic_width(g: Graphic) -> Option<Length> {
    match g {
        Graphic::Line { width, .. } => width,
        Graphic::Arc { width, .. } => width,
        Graphic::Circle { width, .. } => width,
        Graphic::Polyline { width, .. } => width,
        Graphic::Polygon { .. } => None,
        Graphic::Text { .. } => None,
    }
}

impl Graphic {
    /// The stroke width the drawing asks for.
    pub fn width(&self) -> (r: Option<Length>)
        ensures r == graphic_width(*self),
    {
        match self {
            Graphic::Line { width, .. } => *width,
            Graphic::Arc { width, .. } => *width,
            Graphic::Circle { width, .. } => *width,
            Graphic::Polyline { width, .. } => *width,
            Graphic::Polygon { .. } => None,
            Graphic::Text { .. } => None,
        }
    }
}

/// Which layers and material a rule set is for.
#[derive(Clone, Debug, Default)]
pub struct Applies {
    pub layers: Vec<usize>,
    pub material: Option<String>,
}

/// How much a design-rule finding matters.
#[derive(Clone, Copy, PartialEq, Eq, Structural, PartialOrd, Ord, Debug, Default)]
pub enum Severity {
    Info,
    Warning,
    #[default]
    Error,
}

impl Severity {
    /// The severity as written in rule files and reports.
    pub fn to_string(&self) -> (r: String)
        ensures r@ == match *self {
            Severity::Info => "info"@,
            Severity::Warning => "warning"@,
            Severity::Error => "error"@,
        },
    {
        match self {
            Severity::Info => String::from_str("info"),
            Severity::Warning => String::from_str("warning"),
            Severity::Error => String::from_str("error"),
        }
    }
}

/// The kinds of board feature a design rule can select.
#[derive(Clone, Copy, PartialEq, Eq, Structural, Hash, Debug)]
pub enum Feature {
    Trace,
    Via,
    Pad,
    Hole,
    Pour,
    PourPiece,
    Copper,
    MaskOpening,
    Silk,
    SilkText,
    Text,
    Courtyard,
    Outline,
    Board,
    Net,
    Pin,
    Part,
}

/// A feature kind as written in rule files.
pub open spec fn feature_name(f: Feature) -> Seq<char> {
    match f {
        Feature::Trace => "trace"@,
        Feature::Via => "via"@,
        Feature::Pad => "pad"@,
        Feature::Hole => "hole"@,
        Feature::Pour => "pour"@,
        Feature::PourPiece => "pour_piece"@,
        Feature::Copper => "copper"@,
        Feature::MaskOpening => "mask_opening"@,
        Feature::Silk => "silk"@,
        Feature::SilkText => "silk_text"@,
        Feature::Text => "text"@,
        Feature::Courtyard => "courtyard"@,
        Feature::Outline => "outline"@,
        Feature::Board => "board"@,
        Feature::Net => "net"@,
        Feature::Pin => "pin"@,
        Feature::Part => "part"@,
    }
}

impl Feature {
    /// The feature kind as written in rule files and reports.
    pub fn to_string(&self) -> (r: String)
        ensures r@ == feature_name(*self),
    {
        String::from_str(match self {
            Feature::Trace => "trace",
            Feature::Via => "via",
            Feature::Pad => "pad",
            Feature::Hole => "hole",
            Feature::Pour => "pour",
            Feature::PourPiece => "pour_piece",
            Feature::Copper => "copper",
            Feature::MaskOpening => "mask_opening",
            Feature::Silk => "silk",
            Feature::SilkText => "silk_text",
            Feature::Text => "text",
            Feature::Courtyard => "courtyard",
            Feature::Outline => "outline",
            Feature::Board => "board",
            Feature::Net => "net",
            Feature::Pin => "pin",
            Feature::Part => "part",
        })
    }
}

/// Filters a rule puts on the features it selects.
#[derive(Clone, Debug, Default, PartialEq)]
pub struct Where {
    pub layer: Option<String>,
    pub net: Option<String>,
    pub class: Option<String>,
    pub plated: Option<bool>,
    pub kind: Option<String>,
    pub refdes: Option<String>,
    pub footprint: Option<String>,
    pub component: Option<String>,
}

/// Which pairs of features a clearance rule measures.
#[derive(Clone, Copy, PartialEq, Eq, Structural, Debug, Default)]
pub enum Relation {
    #[default]
    DifferentNet,
    Any,
    DifferentPart,
    SameNet,
}

/// An accepted exception to a rule, with the reason.
#[derive(Clone, Debug, PartialEq)]
pub struct Waiver {
    pub rule: String,
    pub features: Vec<String>,
    pub reason: String,
}

/// The copper layer stack, top to bottom, and the board's thicknesses.
#[derive(Clone, Debug)]
pub struct Stackup {
    pub copper_layers: Vec<String>,
    pub board_thickness: Length,
    pub copper_thickness: Length,
}

/// The board thickness where a stackup gives none: 1.6 mm.
pub fn default_board_thickness() -> (r: Length)
    ensures r.0 == 1_600_000,
{
    Length(1_600_000)
}

/// The copper thickness where a stackup gives none: 35 µm.
pub fn default_copper_thickness() -> (r: Length)
    ensures r.0 == 35_000,
{
    Length(35_000)
}

impl Default for Stackup {
    /// Two layers, `F.Cu` over `B.Cu`, on a 1.6 mm board with 35 µm copper.
    fn default() -> (r: Stackup)
        ensures
            r.copper_layers@.len() == 2,
            r.copper_layers@[0]@ == "F.Cu"@,
            r.copper_layers@[1]@ == "B.Cu"@,
            r.board_thickness.0 == 1_600_000,
            r.copper_thickness.0 == 35_000,
    {
        let mut layers: Vec<String> = Vec::new();
        layers.push(String::from_str("F.Cu"));
        layers.push(String::from_str("B.Cu"));
        Stackup { copper_layers: layers, board_thickness: default_board_thickness(), copper_thickness: default_copper_thickness() }
    }
}

/// Which face of the board a part sits on.
#[derive(Clone, Copy, PartialEq, Eq, Structural, Debug, Default)]
pub enum Side {
    #[default]
    Top,
    Bottom,
}

impl Side {
    /// The side as written in files and on the command line.
    pub fn to_string(&self) -> (r: String)
        ensures r@ == (match *self { Side::Top => "top"@, Side::Bottom => "bottom"@ }),
    {
        match self {
            Side::Top => String::from_str("top"),
            Side::Bottom => String::from_str("bottom"),
        }
    }
}

/// The top copper layer: the first listed, `F.Cu` where none is.
pub open spec fn top_layer(s: Seq<String>) -> Seq<char> {
    if s.len() > 0 { s[0]@ } else { "F.Cu"@ }
}

/// The bottom copper layer: the last listed, `B.Cu` where none is.
pub open spec fn bottom_layer(s: Seq<String>) -> Seq<char> {
    if s.len() > 0 { s.last()@ } else { "B.Cu"@ }
}

impl Stackup {
    /// The top copper layer.
    pub fn top(&self) -> (r: &str)
        ensures r@ == top_layer(self.copper_layers@),
    {
        if self.copper_layers.len() > 0 { self.copper_layers[0].as_str() } else { "F.Cu" }
    }

    /// The bottom copper layer.
    pub fn bottom(&self) -> (r: &str)
        ensures r@ == bottom_layer(self.copper_layers@),
    {
        let n = self.copper_layers.len();
        if n > 0 { self.copper_layers[n - 1].as_str() } else { "B.Cu" }
    }

    /// The outer copper layer on a side of the board.
    pub fn layer_for_side(&self, side: Side) -> (r: &str)
        ensures r@ == (match side { Side::Top => top_layer(self.copper_layers@), Side::Bottom => bottom_layer(self.copper_layers@) }),
    {
        match side {
            Side::Top => self.top(),
            Side::Bottom => self.bottom(),
        }
    }

    /// Whether the stack has a copper layer called `name`.
    pub fn has_layer(&self, name: &str) -> (r: bool)
        ensures r == exists|i: int| 0 <= i < self.copper_layers@.len() && (#[trigger] self.copper_layers@[i])@ == name@,
    {
        match self.layer_index(name) {
            Some(_) => true,
            None => false,
        }
    }

    /// The position of the layer `name` in the stack, top first.
    pub fn layer_index(&self, name: &str) -> (r: Option<usize>)
        ensures
            match r {
                Some(i) => i < self.copper_layers@.len() && self.copper_layers@[i as int]@ == name@
                    && forall|j: int| 0 <= j < i ==> (#[trigger] self.copper_layers@[j])@ != name@,
                None => forall|j: int| 0 <= j < self.copper_layers@.len() ==> (#[trigger] self.copper_layers@[j])@ != name@,
            },
    {
        let mut i: usize = 0;
        while i < self.copper_layers.len()
            invariant
                i <= self.copper_layers@.len(),
                forall|j: int| 0 <= j < i ==> (#[trigger] self.copper_layers@[j])@ != name@,
            decreases self.copper_layers@.len() - i,
        {
            if crate::text::same_str(self.copper_layers[i].as_str(), name) {
                return Some(i);
            }
            i += 1;
        }
        None
    }
}

/// Widths, clearances and via sizes for the nets of a class.
#[derive(Clone, Debug, Default)]
pub struct NetClass {
    pub trace_width: Option<Length>,
    pub clearance: Option<Length>,
    pub via_drill: Option<Length>,
    pub via_diameter: Option<Length>,
}

/// The pins a net joins and its class.
#[derive(Clone, Debug, Default)]
pub struct Net {
    pub pins: Vec<String>,
    pub class: Option<String>,
}

/// A mounting or tooling hole.
#[derive(Clone, Debug)]
pub struct Hole {
    pub at: Point,
    pub drill: Length,
    pub plated: bool,
    pub diameter: Option<Length>,
    pub net: Option<String>,
}

/// A copper pour: an outline on a layer, filled with a net's copper.
#[derive(Clone, Debug)]
pub struct Pour {
    pub name: String,
    pub layer: String,
    pub net: Option<String>,
    pub edges: Vec<Edge>,
    pub clearance: Option<Length>,
    pub priority: i32,
    pub thermal: Option<bool>,
}

/// A copper trace along a polyline.
#[derive(Clone, Debug)]
pub struct Trace {
    pub layer: String,
    pub net: Option<String>,
    pub width: Length,
    pub points: Vec<Point>,
    /// Drawn by the autorouter: replaced on the next routing run.
    pub routed: bool,
    /// A stub from an SMD pad to a plane via, drawn before routing: also
    /// replaced on the next routing run.
    pub fanout: bool,
}

/// A via between copper layers.
#[derive(Clone, Debug)]
pub struct Via {
    pub at: Point,
    pub net: Option<String>,
    pub drill: Length,
    pub diameter: Length,
    pub layers: Vec<String>,
    /// Placed by the autorouter: replaced on the next routing run.
    pub routed: bool,
    /// A via dropped for a plane net before routing: also replaced on the
    /// next routing run.
    pub fanout: bool,
}

/// Where the external router is and how long it may run.
#[derive(Clone, Debug, Default)]
pub struct RoutingConfig {
    pub freerouting: Option<String>,
    pub java: Option<String>,
    pub max_passes: Option<u32>,
}

/// Whether a counter is zero (and so left out of a file).
pub fn is_zero_u32(v: &u32) -> (r: bool)
    ensures r == (*v == 0),
{
    *v == 0
}

/// Whether a priority is zero (and so left out of a file).
pub fn is_zero_i32(v: &i32) -> (r: bool)
    ensures r == (*v == 0),
{
    *v == 0
}

/// The width of the thermal relief spokes where the rules give none: 0.3 mm.
pub fn default_spoke_width() -> (r: Length)
    ensures r.0 == 300_000,
{
    Length(300_000)
}

/// The AC sweep where a simulation gives none: `dec`.
pub fn default_dec() -> (r: String)
    ensures r@ == "dec"@,
{
    String::from_str("dec")
}

} // verus!
