use orn_cli::rewrite::{create_const_block, gen_consts, unused_constants, used_constants};
use orn_cli::table::{ConstantTable, ConstantValue};

const BEGIN_MARKER: &str = "    // This line is used for generating constants DO NOT REMOVE!\n";
const END_MARKER: &str = "    // End of generating constants!\n\n";

fn with_comment(value: &str, comment: &str) -> ConstantValue {
    ConstantValue {
        ty_name: "u64".to_string(),
        value: value.to_string(),
        comment: Some(comment.to_string()),
    }
}

fn plain(value: &str) -> ConstantValue {
    ConstantValue { ty_name: "u64".to_string(), value: value.to_string(), comment: None }
}

fn sample_table() -> ConstantTable {
    let mut table = ConstantTable::new();
    assert!(table.insert("FOO".to_string(), with_comment("0x1", "Foo constant")));
    assert!(table.insert("FOO_BAR".to_string(), plain("0x2")));
    assert!(table.insert("MAX_SIZE".to_string(), plain("0x10")));
    table
}

#[test]
fn accessor_round_trip() {
    let table = sample_table();
    let input = "module test {\n    use lib::consts::{FOO, other};\n    use lib::single::FOO_BAR;\n\n    public fun FOO(): u64 {\n        1\n    }\n\n    fun f(): u64 {\n        FOO() + FOO_BAR() + other()\n    }\n    // FOO() in a comment stays\n}\n";
    let out = gen_consts(input, &table);
    assert!(!out.contains("public fun"));
    assert!(out.contains("FOO + FOO_BAR + other()"));
    assert!(out.contains("// FOO() in a comment stays"));
    assert!(out.contains("const FOO: u64 = 0x1;"));
    assert!(out.contains("// Foo constant"));
    assert!(out.contains("const FOO_BAR: u64 = 0x2;"));
    assert!(!out.contains("const MAX_SIZE"));
    // FOO is declared locally, so its import needs no cleanup; FOO_BAR was
    // only imported and called, so its import goes.
    assert!(out.contains("use lib::consts::{FOO, other};"));
    assert!(!out.contains("use lib::single::FOO_BAR;"));
    assert_eq!(out.matches(BEGIN_MARKER).count(), 1);
    assert_eq!(out.matches(END_MARKER).count(), 1);
}

#[test]
fn rewriter_is_idempotent_on_samples() {
    let table = sample_table();
    let inputs = [
        "module test {\n    use lib::consts::{FOO, other};\n    use lib::single::FOO_BAR;\n\n    public fun FOO(): u64 {\n        1\n    }\n\n    fun f(): u64 {\n        FOO() + FOO_BAR() + other()\n    }\n}\n",
        "module test {\n    fun f(): u64 { FOO() }\n}\n",
        "module test {\n    fun f(): u64 { nothing_known() }\n}\n",
        "module test {\n    // This line is used for generating constants DO NOT REMOVE!\n    const STALE_ONE: u64 = 0x9;\n    // End of generating constants!\n\n    fun f(): u64 { FOO() }\n}\n",
    ];
    for input in inputs {
        let once = gen_consts(input, &table);
        let twice = gen_consts(&once, &table);
        assert_eq!(twice, once);
    }
}

#[test]
fn single_name_import_removed() {
    let table = sample_table();
    let input = "module m {\n    use p::FOO;\n\n    fun f(): u64 { FOO() }\n}\n";
    let out = gen_consts(input, &table);
    assert!(!out.contains("use p::FOO;"));
    assert!(out.contains("fun f(): u64 { FOO }"));
    assert!(out.contains("const FOO: u64 = 0x1;"));
}

#[test]
fn import_without_call_form_is_kept() {
    let table = sample_table();
    let input = "module m {\n    use p::FOO;\n\n    fun f(): u64 { FOO }\n}\n";
    let out = gen_consts(input, &table);
    // FOO is never used in call form, so nothing flags its import.
    assert!(out.contains("use p::FOO;"));
    assert!(out.contains("const FOO: u64 = 0x1;"));
    let twice = gen_consts(&out, &table);
    assert_eq!(twice, out);
}

#[test]
fn declared_accessor_suppresses_import_cleanup() {
    let table = sample_table();
    let input = "module m {\n    use p::FOO;\n\n    public fun FOO(): u64 {\n        1\n    }\n\n    fun f(): u64 { FOO() }\n}\n";
    let out = gen_consts(input, &table);
    // The call site is rewritten, but the locally declared accessor keeps
    // its import from being treated as needing cleanup.
    assert!(!out.contains("public fun"));
    assert!(out.contains("use p::FOO;"));
    assert!(out.contains("fun f(): u64 { FOO }"));
}

#[test]
fn brace_import_keeps_other_names() {
    let table = sample_table();
    let input = "module m {\n    use p::{alpha, FOO, beta};\n\n    fun f(): u64 { FOO() }\n}\n";
    let out = gen_consts(input, &table);
    assert!(out.contains("use p::{alpha, beta};"));
    assert!(!out.contains("{alpha, FOO, beta}"));
}

#[test]
fn brace_import_emptied_is_removed() {
    let table = sample_table();
    let input = "module m {\n    use p::{FOO, FOO_BAR};\n\n    fun f(): u64 { FOO() + FOO_BAR() }\n}\n";
    let out = gen_consts(input, &table);
    assert!(!out.contains("use p::"));
    assert!(out.contains("const FOO: u64 = 0x1;"));
    assert!(out.contains("const FOO_BAR: u64 = 0x2;"));
}

#[test]
fn unrelated_imports_untouched() {
    let table = sample_table();
    let input = "module m {\n    use p::{alpha,   beta};\n    use q::gamma;\n\n    fun f(): u64 { FOO() }\n}\n";
    let out = gen_consts(input, &table);
    assert!(out.contains("use p::{alpha,   beta};"));
    assert!(out.contains("use q::gamma;"));
}

#[test]
fn block_regeneration_replaces_stale_content() {
    let table = sample_table();
    let input = "module test {\n    // This line is used for generating constants DO NOT REMOVE!\n    const STALE_ONE: u64 = 0x9;\n    // End of generating constants!\n\n    fun f(): u64 { FOO() }\n}\n";
    let out = gen_consts(input, &table);
    assert!(!out.contains("STALE_ONE"));
    assert!(out.contains("const FOO: u64 = 0x1;"));
    assert_eq!(out.matches(BEGIN_MARKER).count(), 1);
    assert_eq!(out.matches(END_MARKER).count(), 1);
    let expected = "module test {\n    // This line is used for generating constants DO NOT REMOVE!\n    // Foo constant\n    const FOO: u64 = 0x1;\n    // End of generating constants!\n\n    fun f(): u64 { FOO }\n}\n";
    assert_eq!(out, expected);
}

#[test]
fn stale_block_holding_a_brace_is_still_cleared() {
    let table = sample_table();
    let input = "module test {\n    // This line is used for generating constants DO NOT REMOVE!\n    const STALE_ONE: u64 = 0x9; // stale } brace\n    // End of generating constants!\n\n    fun f(): u64 { FOO() }\n}\n";
    let out = gen_consts(input, &table);
    assert!(!out.contains("STALE_ONE"));
    assert!(out.contains("const FOO: u64 = 0x1;"));
    assert_eq!(out.matches(BEGIN_MARKER).count(), 1);
    assert_eq!(out.matches(END_MARKER).count(), 1);
    let twice = gen_consts(&out, &table);
    assert_eq!(twice, out);
}

#[test]
fn markers_kept_empty_when_nothing_used() {
    let table = sample_table();
    let input = "module test {\n    // This line is used for generating constants DO NOT REMOVE!\n    const STALE_ONE: u64 = 0x9;\n    // End of generating constants!\n\n    fun f(): u64 { nothing_known() }\n}\n";
    let out = gen_consts(input, &table);
    assert!(!out.contains("STALE_ONE"));
    assert!(!out.contains("const FOO"));
    assert_eq!(out.matches(BEGIN_MARKER).count(), 1);
    assert_eq!(out.matches(END_MARKER).count(), 1);
}

#[test]
fn untouched_file_stays_identical() {
    let table = sample_table();
    let input = "module m {\n    use p::{alpha, beta};\n\n    fun f(): u64 { nothing_known() }\n}\n";
    let out = gen_consts(input, &table);
    assert_eq!(out, input);
}

#[test]
fn block_inserted_after_first_brace_without_imports() {
    let table = sample_table();
    let input = "module test {\n    fun f(): u64 { FOO() }\n}\n";
    let out = gen_consts(input, &table);
    let expected = "module test {\n    // This line is used for generating constants DO NOT REMOVE!\n    // Foo constant\n    const FOO: u64 = 0x1;\n    // End of generating constants!\n\n    fun f(): u64 { FOO }\n}\n";
    assert_eq!(out, expected);
}

#[test]
fn block_inserted_after_import_run() {
    let table = sample_table();
    let input = "module m {\n    use p::{alpha, beta};\n\n    fun f(): u64 { FOO() }\n}\n";
    let out = gen_consts(input, &table);
    let expected = "module m {\n    use p::{alpha, beta};\n\n    // This line is used for generating constants DO NOT REMOVE!\n    // Foo constant\n    const FOO: u64 = 0x1;\n    // End of generating constants!\n\n\n\n    fun f(): u64 { FOO }\n}\n";
    assert_eq!(out, expected);
}

#[test]
fn name_collision_is_safe() {
    let table = sample_table();
    let input = "module m {\n    fun f(): u64 { FOO_BAR() + FOO_BAR + FOOX }\n}\n";
    let out = gen_consts(input, &table);
    assert!(out.contains("fun f(): u64 { FOO_BAR + FOO_BAR + FOOX }"));
    assert!(!out.contains("FOO_BAR()"));
    assert!(!out.contains("FOO _BAR"));
}

#[test]
fn used_and_unused_reports() {
    let table = sample_table();
    let input = "module m {\n    fun f(): u64 { FOO() + FOO_BAR }\n}\n";
    let used = used_constants(input, &table);
    assert_eq!(used, vec!["FOO".to_string(), "FOO_BAR".to_string()]);
    let unused = unused_constants(&used, &table);
    assert_eq!(unused, vec!["MAX_SIZE".to_string()]);
}

#[test]
fn one_unused_constant_is_reported() {
    let mut table = ConstantTable::new();
    assert!(table.insert("X".to_string(), plain("0x1")));
    assert!(table.insert("Y".to_string(), plain("0x2")));
    let input = "module m {\n    fun f(): u64 { X() }\n}\n";
    let used = used_constants(input, &table);
    assert_eq!(used, vec!["X".to_string()]);
    let unused = unused_constants(&used, &table);
    assert_eq!(unused, vec!["Y".to_string()]);
}

#[test]
fn const_block_rendering_is_exact() {
    let table = sample_table();
    let consts = vec!["FOO".to_string(), "FOO_BAR".to_string()];
    let block = create_const_block(&consts, &table);
    let expected = "    // This line is used for generating constants DO NOT REMOVE!\n    // Foo constant\n    const FOO: u64 = 0x1;\n    const FOO_BAR: u64 = 0x2;\n    // End of generating constants!\n\n";
    assert_eq!(block, expected);
    let empty: Vec<String> = vec![];
    assert_eq!(create_const_block(&empty, &table), "");
}
