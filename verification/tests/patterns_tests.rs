use orn_cli::patterns::{get_const_funcs_regex, get_const_regex, get_import_regex};
use orn_cli::table::{ConstantTable, ConstantValue};

fn plain(value: &str) -> ConstantValue {
    ConstantValue { ty_name: "u64".to_string(), value: value.to_string(), comment: None }
}

fn two_name_table() -> ConstantTable {
    let mut table = ConstantTable::new();
    assert!(table.insert("FOO".to_string(), plain("0x1")));
    assert!(table.insert("FOO_BAR".to_string(), plain("0x2")));
    table
}

#[test]
fn const_regex_orders_longest_prefix_first() {
    let table = two_name_table();
    assert_eq!(get_const_regex(&table), "(FOO_BAR)|(FOO)");
}

#[test]
fn const_regex_single_name() {
    let mut table = ConstantTable::new();
    assert!(table.insert("ONLY".to_string(), plain("0x1")));
    assert_eq!(get_const_regex(&table), "(ONLY)");
}

#[test]
fn import_regex_wraps_alternation() {
    let table = two_name_table();
    assert_eq!(
        get_import_regex(&table),
        "    use\\s+[a-zA-Z0-9_:,{}()\\s]*((FOO_BAR)|(FOO))[a-zA-Z0-9_:,{}()\\s]*;\n"
    );
}

#[test]
fn const_funcs_regex_wraps_alternation() {
    let table = two_name_table();
    assert_eq!(
        get_const_funcs_regex(&table),
        "\\s*public fun ((FOO_BAR)|(FOO))\\(\\)\\s*:\\s*(\\w+)\\s*\\{\\s*([^}]*)*\\}"
    );
}
