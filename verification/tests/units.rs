use proply_rs::units::{quantity, split_quantity, unit_for, Quantity, QuantityKind, Unit};
use serde_json::Value;

/// Standard gravity (m/s^2), as the kilogram-force is defined.
const G0: f64 = 9.80665;

/// A design-file value of `kind` in its storage unit (`storage` base units
/// per stored unit): a bare JSON number passes through, a string is read by
/// the library and scaled by its unit's exact ratio.
fn read(kind: QuantityKind, value: &Value, storage: f64) -> Result<f64, String> {
    match value {
        Value::Number(n) => Ok(n.as_f64().unwrap_or(f64::NAN)),
        Value::String(s) => {
            let q = quantity(kind, s)?;
            let v: f64 = q.number.parse().expect("a floating-point literal");
            match q.unit {
                None => Ok(v),
                Some(u) => {
                    let (num, den) = u.scale();
                    Ok(v * (num as f64 / den as f64) / storage)
                }
            }
        }
        other => Err(format!(
            "invalid quantity '{other}' (expected a number or a unit-suffixed string)"
        )),
    }
}

fn length(value: Value, storage_m: f64) -> Result<f64, String> {
    read(QuantityKind::Length, &value, storage_m)
}

fn force(value: Value) -> Result<f64, String> {
    read(QuantityKind::Force, &value, 1.0)
}

fn pressure(value: Value) -> Result<f64, String> {
    read(QuantityKind::Pressure, &value, 1.0)
}

fn parse_pressure(text: &str) -> Result<f64, String> {
    read(QuantityKind::Pressure, &Value::from(text), 1.0)
}

fn num(x: f64) -> Value {
    Value::from(x)
}

fn text(s: &str) -> Value {
    Value::from(s)
}

#[test]
fn lengths_in_metres() {
    assert_eq!(length(num(0.068), 1.0).unwrap(), 0.068);
    assert_eq!(length(text("0.068"), 1.0).unwrap(), 0.068);
    assert_eq!(length(text("6.8cm"), 1.0).unwrap(), 0.068);
    assert_eq!(length(text("68 mm"), 1.0).unwrap(), 0.068);
    assert_eq!(length(text("5mm"), 1.0).unwrap(), 0.005);
    assert_eq!(length(text("2e-3m"), 1.0).unwrap(), 0.002);
    assert_eq!(length(text("1.5 MM"), 1.0).unwrap(), 0.0015);
}

#[test]
fn lengths_in_millimetres() {
    assert_eq!(length(num(0.25), 1.0e-3).unwrap(), 0.25);
    assert_eq!(length(text("0.25"), 1.0e-3).unwrap(), 0.25);
    assert_eq!(length(text("0.25mm"), 1.0e-3).unwrap(), 0.25);
    assert_eq!(length(text("0.025cm"), 1.0e-3).unwrap(), 0.25);
    assert_eq!(length(text("1m"), 1.0e-3).unwrap(), 1000.0);
}

#[test]
fn forces_in_newtons() {
    assert_eq!(force(num(4.0)).unwrap(), 4.0);
    assert_eq!(force(text("4N")).unwrap(), 4.0);
    assert_eq!(force(text("4 n")).unwrap(), 4.0);
    assert!((force(text("0.5kg")).unwrap() - 0.5 * G0).abs() < 1e-12);
    assert!((force(text("500g")).unwrap() - 0.5 * G0).abs() < 1e-9);
    assert!((force(text("2KG")).unwrap() - 2.0 * G0).abs() < 1e-12);
}

#[test]
fn pressures_in_pascals() {
    assert_eq!(pressure(num(3.0e9)).unwrap(), 3.0e9);
    assert_eq!(pressure(text("3e9")).unwrap(), 3.0e9);
    assert_eq!(pressure(text("3GPa")).unwrap(), 3.0e9);
    assert_eq!(pressure(text("3 GPa")).unwrap(), 3.0e9);
    assert_eq!(pressure(text("3000 MPa")).unwrap(), 3.0e9);
    assert_eq!(pressure(text("2.5kpa")).unwrap(), 2500.0);
    assert_eq!(pressure(text("1Pa")).unwrap(), 1.0);
    // A force unit is not a pressure.
    let err = pressure(text("500g")).unwrap_err();
    assert!(err.contains("Pa, kPa, MPa, GPa"), "{}", err);
    // The command-line reader follows the same rules.
    assert_eq!(parse_pressure("3 GPa").unwrap(), 3.0e9);
    assert_eq!(parse_pressure("3e9").unwrap(), 3.0e9);
    assert!(parse_pressure("5 furlongs").is_err());
}

#[test]
fn bad_quantities_error() {
    // A force unit on a length field.
    let err = length(text("500g"), 1.0).unwrap_err();
    assert!(err.contains("500g") && err.contains("m, cm, mm"), "{}", err);
    // A length unit on a force field.
    let err = force(text("5mm")).unwrap_err();
    assert!(err.contains("N, kg, g"), "{}", err);
    // Unknown units.
    assert!(force(text("5 furlongs")).is_err());
    // Non-numeric value.
    assert!(length(text("amm"), 1.0).is_err());
    // Wrong JSON type.
    assert!(length(Value::Bool(true), 1.0).is_err());
    assert!(force(Value::Array(vec![num(1.0)])).is_err());
}

#[test]
fn unit_sizes_are_exact_ratios() {
    assert_eq!(Unit::Centimetre.scale(), (1, 100));
    assert_eq!(Unit::Millimetre.scale(), (1, 1000));
    assert_eq!(Unit::KilogramForce.scale(), (980665, 100000));
    assert_eq!(Unit::GramForce.scale(), (980665, 100000000));
    assert_eq!(Unit::Gigapascal.scale(), (1000000000, 1));
}

fn q(number: &str, unit: Option<Unit>) -> Quantity {
    Quantity {
        number: number.to_string(),
        unit,
    }
}

#[test]
fn lengths_read_number_and_unit() {
    let l = QuantityKind::Length;
    assert_eq!(quantity(l, "0.068").unwrap(), q("0.068", None));
    assert_eq!(quantity(l, "6.8cm").unwrap(), q("6.8", Some(Unit::Centimetre)));
    assert_eq!(quantity(l, "68 mm").unwrap(), q("68", Some(Unit::Millimetre)));
    assert_eq!(quantity(l, "5mm").unwrap(), q("5", Some(Unit::Millimetre)));
    assert_eq!(quantity(l, "2e-3m").unwrap(), q("2e-3", Some(Unit::Metre)));
    assert_eq!(quantity(l, "1.5 MM").unwrap(), q("1.5", Some(Unit::Millimetre)));
    assert_eq!(quantity(l, "  0.025cm ").unwrap(), q("0.025", Some(Unit::Centimetre)));
}

#[test]
fn forces_read_number_and_unit() {
    let f = QuantityKind::Force;
    assert_eq!(quantity(f, "4N").unwrap(), q("4", Some(Unit::Newton)));
    assert_eq!(quantity(f, "4 n").unwrap(), q("4", Some(Unit::Newton)));
    assert_eq!(quantity(f, "0.5kg").unwrap(), q("0.5", Some(Unit::KilogramForce)));
    assert_eq!(quantity(f, "500g").unwrap(), q("500", Some(Unit::GramForce)));
    assert_eq!(quantity(f, "2KG").unwrap(), q("2", Some(Unit::KilogramForce)));
}

#[test]
fn pressures_read_number_and_unit() {
    let p = QuantityKind::Pressure;
    assert_eq!(quantity(p, "3e9").unwrap(), q("3e9", None));
    assert_eq!(quantity(p, "3GPa").unwrap(), q("3", Some(Unit::Gigapascal)));
    assert_eq!(quantity(p, "3 GPa").unwrap(), q("3", Some(Unit::Gigapascal)));
    assert_eq!(quantity(p, "3000 MPa").unwrap(), q("3000", Some(Unit::Megapascal)));
    assert_eq!(quantity(p, "2.5kpa").unwrap(), q("2.5", Some(Unit::Kilopascal)));
    assert_eq!(quantity(p, "1Pa").unwrap(), q("1", Some(Unit::Pascal)));
    let err = quantity(p, "500g").unwrap_err();
    assert!(err.contains("Pa, kPa, MPa, GPa"), "{}", err);
    assert!(quantity(p, "5 furlongs").is_err());
}

#[test]
fn wrong_units_and_bad_numbers_are_errors() {
    let err = quantity(QuantityKind::Length, "500g").unwrap_err();
    assert_eq!(err, "invalid quantity '500g' for a length (expected m, cm, mm)");
    let err = quantity(QuantityKind::Force, "5mm").unwrap_err();
    assert_eq!(err, "invalid quantity '5mm' for a force (expected N, kg, g)");
    assert!(quantity(QuantityKind::Force, "5 furlongs").is_err());
    let err = quantity(QuantityKind::Length, "amm").unwrap_err();
    assert_eq!(err, "invalid quantity 'amm' (cannot read a number)");
    assert!(quantity(QuantityKind::Length, "").is_err());
    assert!(quantity(QuantityKind::Length, "1.2.3m").is_err());
}

#[test]
fn split_keeps_exponents_and_special_values() {
    assert_eq!(
        split_quantity("2e-3m").unwrap(),
        ("2e-3".to_string(), Some("m".to_string()))
    );
    assert_eq!(split_quantity(" 5 ").unwrap(), ("5".to_string(), None));
    // The unit is the trailing run of letters, so "inf" reads as a unit
    // and leaves no number.
    assert!(split_quantity("-inf").is_err());
    assert_eq!(split_quantity("+.5E+2mm").unwrap(), ("+.5E+2".to_string(), Some("mm".to_string())));
    assert!(split_quantity("mm").is_err());
}

#[test]
fn units_match_case_insensitively_within_their_kind() {
    assert_eq!(unit_for(QuantityKind::Length, "Cm"), Some(Unit::Centimetre));
    assert_eq!(unit_for(QuantityKind::Force, "G"), Some(Unit::GramForce));
    assert_eq!(unit_for(QuantityKind::Pressure, "kPA"), Some(Unit::Kilopascal));
    assert_eq!(unit_for(QuantityKind::Length, "g"), None);
    assert_eq!(unit_for(QuantityKind::Pressure, "m"), None);
}
