//! Swift language vocabulary for the shared [`Extractor`](super::Extractor):
//! the tree-sitter-swift grammar and the node kinds that count as
//! declarations and comments.

use super::registry::Language;
use super::LanguageConfig;
use crate::text::{str_among, str_views};
use vstd::prelude::*;

verus! {

/// Swift's [`LanguageConfig`]. Zero-sized.
#[derive(Debug, Clone, Copy)]
pub struct SwiftConfig;

/// Declaration node kinds that become Exercises. `class_declaration` is
/// tree-sitter-swift's umbrella kind for `class`, `struct`, `enum`,
/// `extension` and `actor`.
pub open spec fn swift_declaration_kinds() -> Seq<Seq<char>> {
    seq![
        "function_declaration"@,
        "class_declaration"@,
        "protocol_declaration"@,
        "property_declaration"@,
        "typealias_declaration"@,
    ]
}

/// Comment node kinds of tree-sitter-swift.
pub open spec fn swift_comment_kinds() -> Seq<Seq<char>> {
    seq!["comment"@, "multiline_comment"@]
}

impl LanguageConfig for SwiftConfig {
    open spec fn spec_language(&self) -> Seq<char> {
        "swift"@
    }

    open spec fn spec_extensions(&self) -> Seq<Seq<char>> {
        seq!["swift"@]
    }

    open spec fn spec_grammar(&self) -> Language {
        Language::Swift
    }

    open spec fn spec_is_declaration(&self, kind: Seq<char>) -> bool {
        swift_declaration_kinds().contains(kind)
    }

    open spec fn spec_is_comment(&self, kind: Seq<char>) -> bool {
        swift_comment_kinds().contains(kind)
    }

    fn language(&self) -> (r: &'static str) {
        "swift"
    }

    fn extensions(&self) -> (r: Vec<&'static str>) {
        let r = vec!["swift"];
        proof {
            assert(str_views(r@) =~= seq!["swift"@]);
        }
        r
    }

    fn grammar(&self) -> (r: Language) {
        Language::Swift
    }

    fn is_declaration(&self, kind: &str) -> (r: bool) {
        let kinds = vec![
            "function_declaration",
            "class_declaration",
            "protocol_declaration",
            "property_declaration",
            "typealias_declaration",
        ];
        proof {
            assert(str_views(kinds@) =~= swift_declaration_kinds());
        }
        str_among(kind, &kinds)
    }

    fn is_comment(&self, kind: &str) -> (r: bool) {
        let kinds = vec!["comment", "multiline_comment"];
        proof {
            assert(str_views(kinds@) =~= swift_comment_kinds());
        }
        str_among(kind, &kinds)
    }
}

} // verus!
