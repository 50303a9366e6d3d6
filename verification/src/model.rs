//! Pin references, layer checks, and the records the resolved board holds.

use vstd::prelude::*;
use crate::units::Point;
use crate::schema::{Hole, Pour, Stackup};
use crate::error::{Error, list_names, names_text};
use crate::text::{push_str, chars_of, find_in, copy_range, string_from};
use crate::decimal::find_char;
use crate::canon::texts;

verus! {

/// `R1.2` read as instance `R1` and pin `2`: the parts around the first
/// `.`, both non-empty.
pub open spec fn pin_ref_parts(s: Seq<char>) -> Option<(Seq<char>, Seq<char>)> {
    let i = find_char(s, '.');
    if i < s.len() && i > 0 && i + 1 < s.len() { Some((s.take(i), s.skip(i + 1))) } else { None }
}

/// Parse `R1.2` into (`R1`, `2`).
pub fn parse_pin_ref(s: &str) -> (r: Result<(String, String), Error>)
    ensures
        match pin_ref_parts(s@) {
            Some((a, b)) => r matches Ok((x, y)) && x@ == a && y@ == b,
            None => r matches Err(e) && e.message@ == "`"@ + s@ + "` is not a pin reference"@,
        },
{
    let v = chars_of(s);
    let n = v.len();
    proof { assert(v@.subrange(0, n as int) =~= v@); }
    let i = find_in(v.as_slice(), 0, n, '.');
    if i < n && i > 0 && i + 1 < n {
        let a = string_from(copy_range(v.as_slice(), 0, i).as_slice());
        let b = string_from(copy_range(v.as_slice(), i + 1, n).as_slice());
        proof {
            assert(v@.subrange(0, i as int) =~= v@.take(i as int));
            assert(v@.subrange(i + 1, n as int) =~= v@.skip(i + 1));
        }
        return Ok((a, b));
    }
    let mut m = String::from_str("`");
    push_str(&mut m, s);
    push_str(&mut m, "` is not a pin reference");
    Err(Error::with_help(m, String::from_str("pins are written `<instance>.<pin>`, e.g. `R1.1` or `U1.VCC`")))
}

/// Check that a feature's layer is in the stack. The error names the
/// stack's layers; it carries no hint (a spelling suggestion is added by
/// the caller).
pub fn check_layer(stackup: &Stackup, layer: &str, what: &str) -> (r: Result<(), Error>)
    ensures
        (exists|i: int| 0 <= i < stackup.copper_layers@.len() && (#[trigger] stackup.copper_layers@[i])@ == layer@) ==> r is Ok,
        !(exists|i: int| 0 <= i < stackup.copper_layers@.len() && (#[trigger] stackup.copper_layers@[i])@ == layer@) ==> (
            r matches Err(e) && e.help is None
            && e.message@ == what@ + " is on layer `"@ + layer@ + "` but the stackup only has "@
                + names_text(texts(stackup.copper_layers@))),
{
    if stackup.has_layer(layer) {
        return Ok(());
    }
    let mut m = String::new();
    push_str(&mut m, what);
    push_str(&mut m, " is on layer `");
    push_str(&mut m, layer);
    push_str(&mut m, "` but the stackup only has ");
    push_str(&mut m, &list_names(&stackup.copper_layers));
    Err(Error::msg(m))
}

/// A net of the board and the pins it joins.
#[derive(Clone, Debug)]
pub struct NetInfo {
    pub name: String,
    pub class: Option<String>,
    /// (refdes, pin) pairs.
    pub pins: Vec<(String, String)>,
}

/// A hole that is not part of a footprint.
#[derive(Clone, Debug)]
pub struct BoardHole {
    pub hole: Hole,
    pub ring: Vec<Point>,
    /// Copper ring for plated holes.
    pub copper: Option<Vec<Point>>,
}

/// A pour and the copper it fills.
#[derive(Clone, Debug)]
pub struct PourResult {
    pub pour: Pour,
    /// Requested area (before clearance).
    pub outline: Vec<Point>,
    /// Filled copper after clearances.
    pub copper: Vec<Vec<Point>>,
}

} // verus!
