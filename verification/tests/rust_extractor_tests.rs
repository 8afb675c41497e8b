use codetype::exercise::Exercise;
use codetype::extractor::rust::RustConfig;
use codetype::extractor::{Extractor, LengthFilter};

const PERMISSIVE: LengthFilter = LengthFilter {
    min_lines: 1,
    max_lines: 10_000,
    min_bytes: 1,
    max_bytes: 1_000_000,
};

fn extract_permissive(source: &str) -> Vec<Exercise> {
    Extractor::new(RustConfig)
        .with_filter(PERMISSIVE)
        .extract("test.rs", source.as_bytes())
        .expect("extract should not fail on well-formed Rust")
}

// -- grammar coverage: one pinning test per Rust construct ---------------

#[test]
fn rust_function_is_extracted() {
    assert_eq!(extract_permissive("fn hello() {}\n").len(), 1);
}

#[test]
fn rust_struct_is_extracted() {
    assert_eq!(extract_permissive("struct Point { x: i32 }\n").len(), 1);
}

#[test]
fn rust_enum_is_extracted() {
    assert_eq!(extract_permissive("enum Color { Red, Green }\n").len(), 1);
}

#[test]
fn union_is_extracted() {
    assert_eq!(extract_permissive("union U { a: u32 }\n").len(), 1);
}

#[test]
fn trait_is_extracted() {
    assert_eq!(
        extract_permissive("trait T { fn required(&self); }\n").len(),
        1
    );
}

#[test]
fn impl_is_extracted() {
    assert_eq!(
        extract_permissive("impl Point { fn new() -> Self { Point { x: 0 } } }\n").len(),
        1
    );
}

#[test]
fn mod_is_extracted() {
    assert_eq!(extract_permissive("mod thing { pub fn f() {} }\n").len(), 1);
}

#[test]
fn const_is_extracted() {
    assert_eq!(extract_permissive("const MAX: u32 = 10;\n").len(), 1);
}

#[test]
fn static_is_extracted() {
    assert_eq!(extract_permissive("static NAME: &str = \"x\";\n").len(), 1);
}

#[test]
fn rust_type_alias_is_extracted() {
    assert_eq!(extract_permissive("type MyInt = i32;\n").len(), 1);
}

#[test]
fn macro_definition_is_extracted() {
    assert_eq!(
        extract_permissive("macro_rules! mymac { () => {}; }\n").len(),
        1
    );
}

#[test]
fn use_declaration_is_not_extracted() {
    assert_eq!(extract_permissive("use std::fmt;\n").len(), 0);
}

// -- comment stripping ---------------------------------------------------

#[test]
fn rust_strips_line_comment() {
    let src = "\
fn foo() {
// a comment
let x = 1;
println!(\"{x}\");
}
";
    let result = extract_permissive(src);
    assert_eq!(result.len(), 1);
    assert!(!result[0].text.contains("//"));
    assert!(!result[0].text.contains("a comment"));
}

#[test]
fn rust_strips_block_comment() {
    let src = "\
fn foo() {
/* a block comment */
let x = 1;
println!(\"{x}\");
}
";
    let result = extract_permissive(src);
    assert_eq!(result.len(), 1);
    assert!(!result[0].text.contains("/*"));
    assert!(!result[0].text.contains("a block comment"));
}

#[test]
fn rust_strips_doc_comment() {
    // `///` doc comments must be stripped too. If tree-sitter-rust ever
    // splits these into a distinct kind, this test fails and we extend
    // `is_comment`.
    let src = "\
/// A documenting comment.
fn foo() {
let x = 1;
println!(\"{x}\");
}
";
    let result = extract_permissive(src);
    assert!(result.iter().all(|e| !e.text.contains("///")));
    assert!(result.iter().all(|e| !e.text.contains("documenting")));
}

// -- recursive descent: too-big impl surfaces its methods ----------------

#[test]
fn too_big_impl_descends_into_methods() {
    let filter = LengthFilter {
        min_lines: 4,
        max_lines: 8,
        min_bytes: 1,
        max_bytes: 1_000,
    };
    let method = "    fn m(&self, x: i32) -> i32 {\n        let r = x * 2;\n        r\n    }\n";
    let src = format!("impl C {{\n{method}{method}{method}}}\n");
    let result = Extractor::new(RustConfig)
        .with_filter(filter)
        .extract("test.rs", src.as_bytes())
        .unwrap();
    assert_eq!(result.len(), 3);
    for ex in &result {
        assert!(ex.text.starts_with("fn m"));
    }
}

#[test]
fn extracted_ranges_are_disjoint_and_in_source_order() {
    let source = "fn a() {}\n\nstruct B { x: i32 }\n\nimpl B {\n    fn c(&self) -> i32 { self.x }\n}\n\nenum D { E, F }\n";
    let found = extract_permissive(source);
    assert!(found.len() >= 4);
    for e in &found {
        assert!(e.byte_range.start <= e.byte_range.end);
        assert!(e.byte_range.end <= source.len());
    }
    for pair in found.windows(2) {
        assert!(pair[0].byte_range.end <= pair[1].byte_range.start);
    }
}
