//! Rust language vocabulary for the shared [`Extractor`](super::Extractor):
//! the tree-sitter-rust grammar and the node kinds that count as
//! declarations and comments.

use super::registry::Language;
use super::LanguageConfig;
use crate::text::{str_among, str_views};
use vstd::prelude::*;

verus! {

/// Rust's [`LanguageConfig`]. Zero-sized.
#[derive(Debug, Clone, Copy)]
pub struct RustConfig;

/// Declaration node kinds (`*_item` in tree-sitter-rust) that become
/// Exercises.
pub open spec fn rust_declaration_kinds() -> Seq<Seq<char>> {
    seq![
        "function_item"@,
        "struct_item"@,
        "enum_item"@,
        "union_item"@,
        "trait_item"@,
        "impl_item"@,
        "mod_item"@,
        "const_item"@,
        "static_item"@,
        "type_item"@,
        "macro_definition"@,
    ]
}

/// Comment node kinds of tree-sitter-rust.
pub open spec fn rust_comment_kinds() -> Seq<Seq<char>> {
    seq!["line_comment"@, "block_comment"@]
}

impl LanguageConfig for RustConfig {
    open spec fn spec_language(&self) -> Seq<char> {
        "rust"@
    }

    open spec fn spec_extensions(&self) -> Seq<Seq<char>> {
        seq!["rs"@]
    }

    open spec fn spec_grammar(&self) -> Language {
        Language::Rust
    }

    open spec fn spec_is_declaration(&self, kind: Seq<char>) -> bool {
        rust_declaration_kinds().contains(kind)
    }

    open spec fn spec_is_comment(&self, kind: Seq<char>) -> bool {
        rust_comment_kinds().contains(kind)
    }

    fn language(&self) -> (r: &'static str) {
        "rust"
    }

    fn extensions(&self) -> (r: Vec<&'static str>) {
        let r = vec!["rs"];
        proof {
            assert(str_views(r@) =~= seq!["rs"@]);
        }
        r
    }

    fn grammar(&self) -> (r: Language) {
        Language::Rust
    }

    fn is_declaration(&self, kind: &str) -> (r: bool) {
        let kinds = vec![
            "function_item",
            "struct_item",
            "enum_item",
            "union_item",
            "trait_item",
            "impl_item",
            "mod_item",
            "const_item",
            "static_item",
            "type_item",
            "macro_definition",
        ];
        proof {
            assert(str_views(kinds@) =~= rust_declaration_kinds());
        }
        str_among(kind, &kinds)
    }

    fn is_comment(&self, kind: &str) -> (r: bool) {
        let kinds = vec!["line_comment", "block_comment"];
        proof {
            assert(str_views(kinds@) =~= rust_comment_kinds());
        }
        str_among(kind, &kinds)
    }
}

} // verus!
