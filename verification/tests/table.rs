use konvert::{build_conversions, knows_unit, Calculation, Conversion};

type Formula = fn(f64) -> f64;
type Entry = (&'static str, Calculation<f64, Formula>, &'static str);

fn reciprocal(rate: f64) -> f64 {
    1.0 / rate
}

fn to_fahrenheit(c: f64) -> f64 {
    c * 9.0 / 5.0 + 32.0
}

fn to_celsius(f: f64) -> f64 {
    (f - 32.0) * 5.0 / 9.0
}

fn entries() -> Vec<Entry> {
    vec![
        ("kg", Calculation::Rate(2.0), "lbs"),
        ("C", Calculation::Func { forward: to_fahrenheit, reverse: to_celsius }, "F"),
        ("l", Calculation::Rate(10.0), "dl"),
    ]
}

fn rate_of(conversion: &Conversion<f64, Formula>) -> f64 {
    match conversion.calculation {
        Calculation::Rate(rate) => rate,
        Calculation::Func { .. } => panic!("expected a rate"),
    }
}

fn forward_of(conversion: &Conversion<f64, Formula>) -> Formula {
    match conversion.calculation {
        Calculation::Rate(_) => panic!("expected a pair of formulas"),
        Calculation::Func { forward, .. } => forward,
    }
}

#[test]
fn build_of_nothing_is_empty() {
    let none: Vec<Entry> = Vec::new();
    assert_eq!(build_conversions(&none, reciprocal).len(), 0);
}

#[test]
fn build_puts_each_inverse_after_its_conversion() {
    let table = build_conversions(&entries(), reciprocal);
    let units: Vec<(&str, &str)> =
        table.iter().map(|c| (c.source_unit.as_str(), c.target_unit.as_str())).collect();
    assert_eq!(
        units,
        vec![("kg", "lbs"), ("lbs", "kg"), ("C", "F"), ("F", "C"), ("l", "dl"), ("dl", "l")]
    );
}

#[test]
fn build_keeps_calculations_and_inverts_them() {
    let table = build_conversions(&entries(), reciprocal);
    assert_eq!(rate_of(&table[0]), 2.0);
    assert_eq!(rate_of(&table[1]), 0.5);
    assert_eq!(forward_of(&table[2])(100.0), 212.0);
    assert_eq!(forward_of(&table[3])(212.0), 100.0);
    assert_eq!(rate_of(&table[4]), 10.0);
    assert_eq!(rate_of(&table[5]), 0.1);
}

#[test]
fn knows_unit_finds_sources_and_targets() {
    let mut table: Vec<Conversion<f64, Formula>> = Vec::new();
    table.push(Conversion::new("kg", Calculation::Rate(1000.0), "g"));
    table.push(Conversion::new("g", Calculation::Rate(1000.0), "mg"));
    assert!(knows_unit(&table, "kg"));
    assert!(knows_unit(&table, "g"));
    assert!(knows_unit(&table, "mg"));
}

#[test]
fn knows_unit_rejects_what_the_table_does_not_name() {
    let table = build_conversions(&entries(), reciprocal);
    assert!(!knows_unit(&table, "oz"));
    assert!(!knows_unit(&table, "KG"));
    assert!(!knows_unit(&table, "k"));
    assert!(!knows_unit(&table, ""));
    let empty: Vec<Conversion<f64, Formula>> = Vec::new();
    assert!(!knows_unit(&empty, "kg"));
}
