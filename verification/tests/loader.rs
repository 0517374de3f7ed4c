use lib::loader::{load_program, LoadError};
use std::collections::HashMap;

fn sources(pairs: &[(&str, &str)]) -> HashMap<String, String> {
    pairs.iter().map(|(k, v)| (k.to_string(), v.to_string())).collect()
}

#[test]
fn loads_and_merges_simple_import() {
    let src = sources(&[
        ("geometry", "module geometry\nexport struct Point { x: Int }\nexport fn getX(p: Point) -> Int { return p.x }"),
        ("main", "module main\nimport geometry\nfn main() { p := Point { x: 5 }\nprint(getX(p)) }"),
    ]);
    let program = load_program("main", &src).unwrap();
    assert_eq!(program.structs.len(), 1);
    assert_eq!(program.functions.len(), 2);
}

#[test]
fn detects_module_name_mismatch() {
    let src = sources(&[("foo", "module bar\nfn f() {}")]);
    let err = load_program("foo", &src).unwrap_err();
    assert!(matches!(err, LoadError::ModuleNameMismatch { .. }));
}

#[test]
fn detects_cyclic_import() {
    let src = sources(&[
        ("a", "module a\nimport b\nfn fa() {}"),
        ("b", "module b\nimport a\nfn fb() {}"),
    ]);
    let err = load_program("a", &src).unwrap_err();
    assert!(matches!(err, LoadError::CyclicImport(_)));
}

#[test]
fn detects_duplicate_declaration_across_modules() {
    let src = sources(&[
        ("a", "module a\nimport b\nfn shared() {}"),
        ("b", "module b\nfn shared() {}"),
    ]);
    let err = load_program("a", &src).unwrap_err();
    assert!(matches!(err, LoadError::DuplicateDeclaration { .. }));
}

#[test]
fn blocks_use_of_non_exported_symbol() {
    let src = sources(&[
        ("geometry", "module geometry\nfn helper() -> Int { return 1 }"),
        ("main", "module main\nimport geometry\nfn main() { print(helper()) }"),
    ]);
    let err = load_program("main", &src).unwrap_err();
    assert!(matches!(err, LoadError::SymbolNotAccessible { .. }));
}

#[test]
fn blocks_use_of_symbol_without_direct_import() {
    let src = sources(&[
        ("a", "module a\nexport fn foo() -> Int { return 1 }"),
        ("b", "module b\nimport a\nfn useFoo() -> Int { return foo() }"),
        ("main", "module main\nimport b\nfn main() { print(foo()) }"),
    ]);
    let err = load_program("main", &src).unwrap_err();
    assert!(matches!(err, LoadError::SymbolNotAccessible { .. }));
}

#[test]
fn lex_error_message_is_the_debug_text() {
    let src = sources(&[("m", "module m\nfn f() { x := \"open }")]);
    let err = load_program("m", &src).unwrap_err();
    assert_eq!(err, LoadError::Lex("UnterminatedString { line: 2, column: 15 }".to_string()));
}

#[test]
fn overflowing_literal_is_a_lex_error() {
    let src = sources(&[("m", "module m\nfn f() { x := 99999999999999999999 }")]);
    let err = load_program("m", &src).unwrap_err();
    assert_eq!(err, LoadError::Lex("integer literal out of range".to_string()));
}

struct Fixed;

impl lib::loader::ModuleReader for Fixed {
    fn read_text(&self, name: &str) -> Result<String, LoadError> {
        match name {
            "main" => Ok("module main\nimport util\nfn main() { print(twice(2)) }".to_string()),
            "util" => Ok("module util\nexport fn twice(x: Int) -> Int { return x * 2 }".to_string()),
            _ => Err(LoadError::Io(format!("no module {name}"))),
        }
    }
}

#[test]
fn reader_source_loads_through_its_reader() {
    let source = lib::loader::ReaderSource { reader: Fixed };
    let program = load_program("main", &source).unwrap();
    assert_eq!(program.functions.len(), 2);
}

#[test]
fn reader_source_passes_on_read_errors() {
    let source = lib::loader::ReaderSource { reader: Fixed };
    assert_eq!(load_program("other", &source).unwrap_err(), LoadError::Io("no module other".to_string()));
}

#[test]
fn map_source_reports_missing_module() {
    let src = sources(&[("a", "module a\nimport b\nfn fa() {}")]);
    assert_eq!(load_program("a", &src).unwrap_err(), LoadError::Io("module `b` not found".to_string()));
}
