use codetype::exercise::Exercise;
use codetype::extractor::typescript::TypeScriptConfig;
use codetype::extractor::{Extractor, LengthFilter};

const PERMISSIVE: LengthFilter = LengthFilter {
    min_lines: 1,
    max_lines: 10_000,
    min_bytes: 1,
    max_bytes: 1_000_000,
};

fn extract_permissive(source: &str) -> Vec<Exercise> {
    Extractor::new(TypeScriptConfig)
        .with_filter(PERMISSIVE)
        .extract("test.ts", source.as_bytes())
        .expect("extract should not fail on well-formed TypeScript")
}

// -- grammar coverage ----------------------------------------------------

#[test]
fn typescript_function_is_extracted() {
    assert_eq!(extract_permissive("function hello() {}\n").len(), 1);
}

#[test]
fn typescript_class_is_extracted() {
    assert_eq!(extract_permissive("class Foo { bar() {} }\n").len(), 1);
}

#[test]
fn abstract_class_is_extracted() {
    assert_eq!(
        extract_permissive("abstract class Base { abstract f(): void; }\n").len(),
        1
    );
}

#[test]
fn interface_is_extracted() {
    assert_eq!(
        extract_permissive("interface Shape { area(): number; }\n").len(),
        1
    );
}

#[test]
fn typescript_type_alias_is_extracted() {
    assert_eq!(extract_permissive("type MyInt = number;\n").len(), 1);
}

#[test]
fn typescript_enum_is_extracted() {
    assert_eq!(extract_permissive("enum Color { Red, Green }\n").len(), 1);
}

#[test]
fn lexical_declaration_is_extracted() {
    assert_eq!(extract_permissive("const answer = 42;\n").len(), 1);
}

#[test]
fn import_is_not_extracted() {
    assert_eq!(extract_permissive("import { x } from \"y\";\n").len(), 0);
}

#[test]
fn exported_class_is_found_through_export_statement() {
    // `export class Exported {}` is an export_statement wrapping a
    // class_declaration. The driver descends through the export and emits
    // the inner declaration.
    let result = extract_permissive("export class Exported { run() {} }\n");
    assert_eq!(result.len(), 1);
    assert!(result[0].text.starts_with("class Exported"));
}

// -- comment stripping ---------------------------------------------------

#[test]
fn typescript_strips_line_comment() {
    let src = "\
function foo() {
// a comment
const x = 1;
console.log(x);
}
";
    let result = extract_permissive(src);
    assert_eq!(result.len(), 1);
    assert!(!result[0].text.contains("//"));
    assert!(!result[0].text.contains("a comment"));
}

#[test]
fn strips_block_and_jsdoc_comments() {
    let src = "\
/** JSDoc for foo. */
function foo() {
/* inner block */
const x = 1;
console.log(x);
}
";
    let result = extract_permissive(src);
    assert!(result.iter().all(|e| !e.text.contains("/*")));
    assert!(result.iter().all(|e| !e.text.contains("JSDoc")));
    assert!(result.iter().all(|e| !e.text.contains("inner block")));
}

// -- recursive descent: too-big class surfaces its methods ---------------

#[test]
fn typescript_too_big_class_descends_into_methods() {
    let filter = LengthFilter {
        min_lines: 4,
        max_lines: 8,
        min_bytes: 1,
        max_bytes: 1_000,
    };
    let method =
        "    m(x: number): number {\n        const r = x * 2;\n        return r;\n    }\n";
    let src = format!("class C {{\n{method}{method}{method}}}\n");
    let result = Extractor::new(TypeScriptConfig)
        .with_filter(filter)
        .extract("test.ts", src.as_bytes())
        .unwrap();
    assert_eq!(result.len(), 3);
    for ex in &result {
        assert!(ex.text.starts_with("m("));
    }
}
