use std::collections::HashMap;

use orn_cli::resolve::{resolve_pass_cap, resolve_pass_outcomes};
use orn_cli::table::{ConstantTable, ConstantTypes, ConstantValue, get_variables_map};

fn plain(value: &str) -> ConstantValue {
    ConstantValue { ty_name: "u64".to_string(), value: value.to_string(), comment: None }
}

// The evaluation step that drives the verified passes, as the program
// runs it: math-parse on every ASCII value, against a snapshot of the
// table.
fn evaluation_outcomes(table: &ConstantTable) -> Vec<Option<i64>> {
    let map: HashMap<String, String> = get_variables_map(table).into_iter().collect();
    let mut outcomes: Vec<Option<i64>> = Vec::new();
    for i in 0..table.len() {
        let value = &table.entry_at(i).def.value;
        let outcome = if value.is_ascii() {
            match math_parse::MathParse::parse(value) {
                Ok(expression) => expression.solve_int(Some(&map)).ok(),
                Err(_) => None,
            }
        } else {
            None
        };
        outcomes.push(outcome);
    }
    outcomes
}

fn resolve_constants(table: &mut ConstantTable) {
    for _ in 0..resolve_pass_cap() {
        let outcomes = evaluation_outcomes(table);
        if !resolve_pass_outcomes(table, &outcomes) {
            break;
        }
    }
}

fn value_of(table: &ConstantTable, name: &str) -> String {
    match table.get(name) {
        Some(d) => d.value.clone(),
        None => panic!("missing constant"),
    }
}

#[test]
fn resolution_converges_over_references() {
    let mut table = ConstantTable::new();
    assert!(table.insert("A".to_string(), plain("1")));
    assert!(table.insert("B".to_string(), plain("A + 1")));
    assert!(table.insert("C".to_string(), plain("B * 2")));
    resolve_constants(&mut table);
    assert_eq!(value_of(&table, "A"), "0x1");
    assert_eq!(value_of(&table, "B"), "0x2");
    assert_eq!(value_of(&table, "C"), "0x4");
}

#[test]
fn self_reference_terminates_unresolved() {
    let mut table = ConstantTable::new();
    assert!(table.insert("A".to_string(), plain("A + 1")));
    resolve_constants(&mut table);
    assert_eq!(value_of(&table, "A"), "A + 1");
}

#[test]
fn hex_values_are_canonical() {
    let mut table = ConstantTable::new();
    assert!(table.insert("ZERO".to_string(), plain("0")));
    assert!(table.insert("BIG".to_string(), plain("255")));
    assert!(table.insert("NEG".to_string(), plain("0 - 5")));
    assert!(table.insert("KEPT".to_string(), plain("0x10")));
    resolve_constants(&mut table);
    assert_eq!(value_of(&table, "ZERO"), "0x0");
    assert_eq!(value_of(&table, "BIG"), "0xff");
    assert_eq!(value_of(&table, "NEG"), "0xfffffffffffffffb");
    assert_eq!(value_of(&table, "KEPT"), "0x10");
}

#[test]
fn non_ascii_value_is_left_alone() {
    let mut table = ConstantTable::new();
    assert!(table.insert("PRICE".to_string(), plain("\u{20ac}10")));
    assert!(table.insert("PLAIN".to_string(), plain("2 + 2")));
    resolve_constants(&mut table);
    assert_eq!(value_of(&table, "PRICE"), "\u{20ac}10");
    assert_eq!(value_of(&table, "PLAIN"), "0x4");
}

#[test]
fn variables_map_lists_entries_sorted() {
    let mut table = ConstantTable::new();
    assert!(table.insert("LATE_NAME".to_string(), plain("2")));
    assert!(table.insert("EARLY_NAME".to_string(), plain("1")));
    let vars = get_variables_map(&table);
    assert_eq!(vars.len(), 2);
    assert_eq!(vars[0].0, "EARLY_NAME");
    assert_eq!(vars[0].1, "1");
    assert_eq!(vars[1].0, "LATE_NAME");
    assert_eq!(vars[1].1, "2");
}

#[test]
fn insert_replaces_and_rejects() {
    let mut table = ConstantTable::new();
    assert!(table.insert("NAME".to_string(), plain("1")));
    assert!(table.insert("NAME".to_string(), plain("2")));
    assert_eq!(table.len(), 1);
    assert_eq!(value_of(&table, "NAME"), "2");
    assert!(!table.insert("lower_case".to_string(), plain("3")));
    assert!(!table.insert("".to_string(), plain("3")));
    assert_eq!(table.len(), 1);
    assert!(table.get("MISSING").is_none());
}

#[test]
fn constant_type_shapes() {
    let t = ConstantTypes::Hex { value: "0x1".to_string() };
    assert!(matches!(t, ConstantTypes::Hex { .. }));
    let n = ConstantTypes::Number { value: "7".to_string() };
    assert!(matches!(n, ConstantTypes::Number { .. }));
    let s = ConstantTypes::String { value: "seven".to_string() };
    assert!(matches!(s, ConstantTypes::String { .. }));
}
