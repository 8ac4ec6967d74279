//! Unit-suffixed quantities in the design JSON and on the command line.
//!
//! A quantity string carries a number and an optional unit suffix:
//! `"5mm"`, `"6 mm"`, `"6.8cm"`, `"500g"`, `"0.5kg"`, `"3.2N"`, `"3 GPa"`.
//! The unit is the trailing run of ASCII letters (a leading scan would cut
//! exponent forms like `"2e-3m"` at the `e`), matched case-insensitively
//! and possibly separated from the number by whitespace.  Length units:
//! `m`, `cm`, `mm`.  Force units: `N`, `kg` (kilogram-force), `g`
//! (gram-force).  Pressure units: `Pa`, `kPa`, `MPa`, `GPa`.  A string
//! without a unit is in the field's bare unit; a unit of the wrong kind is
//! an error.
//!
//! This module reads the text and gives each unit's size as an exact
//! ratio; the numeric value (a floating-point literal, see
//! [`crate::text::is_float_literal`]) is converted and scaled by the
//! caller.
use vstd::prelude::*;
use crate::text::{
    chars_of, float_literal_at, is_float_literal, lower_equals, lower_seq, trail_alpha,
    trailing_alpha_start, trim, trim_bounds,
};

verus! {

/// The kind of a quantity field.
#[derive(PartialEq, Eq, Structural, Clone, Copy, Debug)]
pub enum QuantityKind {
    Length,
    Force,
    Pressure,
}

/// A recognised unit.
#[derive(PartialEq, Eq, Structural, Clone, Copy, Debug)]
pub enum Unit {
    Metre,
    Centimetre,
    Millimetre,
    Newton,
    KilogramForce,
    GramForce,
    Pascal,
    Kilopascal,
    Megapascal,
    Gigapascal,
}

/// A quantity read from text: the number's literal and its unit, if any.
#[derive(PartialEq, Eq, Debug)]
pub struct Quantity {
    pub number: String,
    pub unit: Option<Unit>,
}

/// The size of a unit in its kind's base unit (metres, newtons, pascals),
/// as an exact ratio `(numerator, denominator)`.  A kilogram-force is
/// standard gravity, 9.80665 N; a gram-force a thousandth of that.
pub open spec fn unit_scale(u: Unit) -> (u64, u64) {
    match u {
        Unit::Metre => (1, 1),
        Unit::Centimetre => (1, 100),
        Unit::Millimetre => (1, 1000),
        Unit::Newton => (1, 1),
        Unit::KilogramForce => (980665, 100000),
        Unit::GramForce => (980665, 100000000),
        Unit::Pascal => (1, 1),
        Unit::Kilopascal => (1000, 1),
        Unit::Megapascal => (1000000, 1),
        Unit::Gigapascal => (1000000000, 1),
    }
}

impl Unit {
    /// The unit's size in its kind's base unit (see [`unit_scale`]).
    pub fn scale(&self) -> (r: (u64, u64))
        ensures
            r == unit_scale(*self),
    {
        match self {
            Unit::Metre => (1, 1),
            Unit::Centimetre => (1, 100),
            Unit::Millimetre => (1, 1000),
            Unit::Newton => (1, 1),
            Unit::KilogramForce => (980665, 100000),
            Unit::GramForce => (980665, 100000000),
            Unit::Pascal => (1, 1),
            Unit::Kilopascal => (1000, 1),
            Unit::Megapascal => (1000000, 1),
            Unit::Gigapascal => (1000000000, 1),
        }
    }
}

/// The unit a suffix names for a field kind (case-insensitive).
pub open spec fn unit_spec(kind: QuantityKind, u: Seq<char>) -> Option<Unit> {
    let l = lower_seq(u);
    match kind {
        QuantityKind::Length => if l == "m"@ {
            Some(Unit::Metre)
        } else if l == "cm"@ {
            Some(Unit::Centimetre)
        } else if l == "mm"@ {
            Some(Unit::Millimetre)
        } else {
            None
        },
        QuantityKind::Force => if l == "n"@ {
            Some(Unit::Newton)
        } else if l == "kg"@ {
            Some(Unit::KilogramForce)
        } else if l == "g"@ {
            Some(Unit::GramForce)
        } else {
            None
        },
        QuantityKind::Pressure => if l == "pa"@ {
            Some(Unit::Pascal)
        } else if l == "kpa"@ {
            Some(Unit::Kilopascal)
        } else if l == "mpa"@ {
            Some(Unit::Megapascal)
        } else if l == "gpa"@ {
            Some(Unit::Gigapascal)
        } else {
            None
        },
    }
}

/// The unit suffix of a quantity text: the trailing ASCII letters of the
/// trimmed text.
pub open spec fn unit_text(text: Seq<char>) -> Seq<char> {
    let t = trim(text);
    t.skip(t.len() - trail_alpha(t))
}

/// The number part of a quantity text: what precedes the unit, trimmed.
pub open spec fn number_text(text: Seq<char>) -> Seq<char> {
    let t = trim(text);
    trim(t.take(t.len() - trail_alpha(t)))
}

pub open spec fn number_error(text: Seq<char>) -> Seq<char> {
    "invalid quantity '"@ + text + "' (cannot read a number)"@
}

pub open spec fn expected_units(kind: QuantityKind) -> Seq<char> {
    match kind {
        QuantityKind::Length => "' for a length (expected m, cm, mm)"@,
        QuantityKind::Force => "' for a force (expected N, kg, g)"@,
        QuantityKind::Pressure => "' for a pressure (expected Pa, kPa, MPa, GPa)"@,
    }
}

pub open spec fn unit_error(kind: QuantityKind, text: Seq<char>) -> Seq<char> {
    "invalid quantity '"@ + text + expected_units(kind)
}

/// Split a quantity string into (number, unit): the number's literal and
/// the unit suffix (`None` when there is none).  The number must be a
/// floating-point literal.
pub fn split_quantity(text: &str) -> (r: Result<(String, Option<String>), String>)
    ensures
        match r {
            Ok((num, unit)) => {
                &&& is_float_literal(number_text(text@))
                &&& num@ == number_text(text@)
                &&& match unit {
                    None => unit_text(text@).len() == 0,
                    Some(u) => u@ == unit_text(text@) && u@.len() > 0,
                }
            },
            Err(e) => !is_float_literal(number_text(text@)) && e@ == number_error(text@),
        },
{
    let cs = chars_of(text);
    let n: usize = cs.len();
    let (a, b) = trim_bounds(&cs, 0, n);
    assert(cs@.subrange(0, n as int) =~= text@);
    let c: usize = trailing_alpha_start(&cs, a, b);
    let ghost t = cs@.subrange(a as int, b as int);
    assert(t.take(t.len() - trail_alpha(t)) =~= cs@.subrange(a as int, c as int));
    assert(t.skip(t.len() - trail_alpha(t)) =~= cs@.subrange(c as int, b as int));
    let (x, y) = trim_bounds(&cs, a, c);
    if !float_literal_at(&cs, x, y) {
        let e = String::from_str("invalid quantity '").concat(text).concat(
            "' (cannot read a number)",
        );
        return Err(e);
    }
    let num = String::from_str(text.substring_char(x, y));
    if c == b {
        assert(unit_text(text@).len() == 0);
        Ok((num, None))
    } else {
        let unit = String::from_str(text.substring_char(c, b));
        Ok((num, Some(unit)))
    }
}

/// The unit `unit` names for a field of `kind`, if any.
pub fn unit_for(kind: QuantityKind, unit: &str) -> (r: Option<Unit>)
    ensures
        r == unit_spec(kind, unit@),
{
    let cs = chars_of(unit);
    let n: usize = cs.len();
    assert(cs@.subrange(0, n as int) =~= unit@);
    match kind {
        QuantityKind::Length => if lower_equals(&cs, 0, n, "m") {
            Some(Unit::Metre)
        } else if lower_equals(&cs, 0, n, "cm") {
            Some(Unit::Centimetre)
        } else if lower_equals(&cs, 0, n, "mm") {
            Some(Unit::Millimetre)
        } else {
            None
        },
        QuantityKind::Force => if lower_equals(&cs, 0, n, "n") {
            Some(Unit::Newton)
        } else if lower_equals(&cs, 0, n, "kg") {
            Some(Unit::KilogramForce)
        } else if lower_equals(&cs, 0, n, "g") {
            Some(Unit::GramForce)
        } else {
            None
        },
        QuantityKind::Pressure => if lower_equals(&cs, 0, n, "pa") {
            Some(Unit::Pascal)
        } else if lower_equals(&cs, 0, n, "kpa") {
            Some(Unit::Kilopascal)
        } else if lower_equals(&cs, 0, n, "mpa") {
            Some(Unit::Megapascal)
        } else if lower_equals(&cs, 0, n, "gpa") {
            Some(Unit::Gigapascal)
        } else {
            None
        },
    }
}

/// Read a quantity of `kind` from text: a number with no unit (the
/// field's bare unit) or with a unit of that kind.  A unreadable number
/// and a unit of another kind are errors, with the messages the design
/// file reader reports.
pub fn quantity(kind: QuantityKind, text: &str) -> (r: Result<Quantity, String>)
    ensures
        match r {
            Ok(q) => {
                &&& is_float_literal(number_text(text@))
                &&& q.number@ == number_text(text@)
                &&& if unit_text(text@).len() == 0 {
                    q.unit is None
                } else {
                    unit_spec(kind, unit_text(text@)) == Some(q.unit->0)
                }
            },
            Err(e) => if !is_float_literal(number_text(text@)) {
                e@ == number_error(text@)
            } else {
                &&& unit_text(text@).len() > 0
                &&& unit_spec(kind, unit_text(text@)) is None
                &&& e@ == unit_error(kind, text@)
            },
        },
{
    match split_quantity(text) {
        Err(e) => Err(e),
        Ok((number, None)) => Ok(Quantity { number, unit: None }),
        Ok((number, Some(u))) => match unit_for(kind, u.as_str()) {
            Some(unit) => Ok(Quantity { number, unit: Some(unit) }),
            None => {
                let tail = match kind {
                    QuantityKind::Length => "' for a length (expected m, cm, mm)",
                    QuantityKind::Force => "' for a force (expected N, kg, g)",
                    QuantityKind::Pressure => "' for a pressure (expected Pa, kPa, MPa, GPa)",
                };
                Err(String::from_str("invalid quantity '").concat(text).concat(tail))
            },
        },
    }
}

} // verus!
