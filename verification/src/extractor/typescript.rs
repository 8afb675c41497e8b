//! TypeScript language vocabulary for the shared [`Extractor`](super::Extractor):
//! tree-sitter-typescript's TypeScript grammar (`.ts` files) and the node kinds that count as
//! declarations and comments.

use super::registry::Language;
use super::LanguageConfig;
use crate::text::{str_among, str_views};
use vstd::prelude::*;

verus! {

/// TypeScript's [`LanguageConfig`]. Zero-sized.
#[derive(Debug, Clone, Copy)]
pub struct TypeScriptConfig;

/// Declaration node kinds that become Exercises. `export_statement` is not
/// one: the walk descends through it to the declaration it wraps.
pub open spec fn typescript_declaration_kinds() -> Seq<Seq<char>> {
    seq![
        "function_declaration"@,
        "class_declaration"@,
        "abstract_class_declaration"@,
        "method_definition"@,
        "interface_declaration"@,
        "type_alias_declaration"@,
        "enum_declaration"@,
        "lexical_declaration"@,
    ]
}

/// Comment node kinds of tree-sitter-typescript.
pub open spec fn typescript_comment_kinds() -> Seq<Seq<char>> {
    seq!["comment"@]
}

impl LanguageConfig for TypeScriptConfig {
    open spec fn spec_language(&self) -> Seq<char> {
        "typescript"@
    }

    open spec fn spec_extensions(&self) -> Seq<Seq<char>> {
        seq!["ts"@]
    }

    open spec fn spec_grammar(&self) -> Language {
        Language::TypeScript
    }

    open spec fn spec_is_declaration(&self, kind: Seq<char>) -> bool {
        typescript_declaration_kinds().contains(kind)
    }

    open spec fn spec_is_comment(&self, kind: Seq<char>) -> bool {
        typescript_comment_kinds().contains(kind)
    }

    fn language(&self) -> (r: &'static str) {
        "typescript"
    }

    fn extensions(&self) -> (r: Vec<&'static str>) {
        let r = vec!["ts"];
        proof {
            assert(str_views(r@) =~= seq!["ts"@]);
        }
        r
    }

    fn grammar(&self) -> (r: Language) {
        Language::TypeScript
    }

    fn is_declaration(&self, kind: &str) -> (r: bool) {
        let kinds = vec![
            "function_declaration",
            "class_declaration",
            "abstract_class_declaration",
            "method_definition",
            "interface_declaration",
            "type_alias_declaration",
            "enum_declaration",
            "lexical_declaration",
        ];
        proof {
            assert(str_views(kinds@) =~= typescript_declaration_kinds());
        }
        str_among(kind, &kinds)
    }

    fn is_comment(&self, kind: &str) -> (r: bool) {
        let kinds = vec!["comment"];
        proof {
            assert(str_views(kinds@) =~= typescript_comment_kinds());
        }
        str_among(kind, &kinds)
    }
}

} // verus!
