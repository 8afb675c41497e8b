//! The set of languages CodeType knows how to drill, plus selection logic.
//!
//! Two ways a language gets chosen: the user names it explicitly with
//! `--lang` (→ [`by_name`]), or it is inferred from what's in the repo
//! (→ [`detect_dominant`]). Both return a [`Language`], which is itself a
//! [`LanguageConfig`] ready to hand to an [`Extractor`](super::Extractor).

use super::rust::RustConfig;
use super::swift::SwiftConfig;
use super::typescript::TypeScriptConfig;
use super::LanguageConfig;
use crate::paths::{extension_in, extension_matches};
use crate::text::{
    chars_of, is_ws, join, join_chars, str_views, string_of, string_views, trim, trim_chars,
    trim_end, trim_start,
};
use vstd::prelude::*;

verus! {

/// One of the supported languages.
#[derive(Debug, Clone, Copy, PartialEq, Eq, Structural)]
pub enum Language {
    Swift,
    Rust,
    TypeScript,
}

impl LanguageConfig for Language {
    open spec fn spec_language(&self) -> Seq<char> {
        match self {
            Language::Swift => SwiftConfig.spec_language(),
            Language::Rust => RustConfig.spec_language(),
            Language::TypeScript => TypeScriptConfig.spec_language(),
        }
    }

    open spec fn spec_extensions(&self) -> Seq<Seq<char>> {
        match self {
            Language::Swift => SwiftConfig.spec_extensions(),
            Language::Rust => RustConfig.spec_extensions(),
            Language::TypeScript => TypeScriptConfig.spec_extensions(),
        }
    }

    open spec fn spec_grammar(&self) -> Language {
        *self
    }

    open spec fn spec_is_declaration(&self, kind: Seq<char>) -> bool {
        match self {
            Language::Swift => SwiftConfig.spec_is_declaration(kind),
            Language::Rust => RustConfig.spec_is_declaration(kind),
            Language::TypeScript => TypeScriptConfig.spec_is_declaration(kind),
        }
    }

    open spec fn spec_is_comment(&self, kind: Seq<char>) -> bool {
        match self {
            Language::Swift => SwiftConfig.spec_is_comment(kind),
            Language::Rust => RustConfig.spec_is_comment(kind),
            Language::TypeScript => TypeScriptConfig.spec_is_comment(kind),
        }
    }

    fn language(&self) -> (r: &'static str) {
        match self {
            Language::Swift => SwiftConfig.language(),
            Language::Rust => RustConfig.language(),
            Language::TypeScript => TypeScriptConfig.language(),
        }
    }

    fn extensions(&self) -> (r: Vec<&'static str>) {
        match self {
            Language::Swift => SwiftConfig.extensions(),
            Language::Rust => RustConfig.extensions(),
            Language::TypeScript => TypeScriptConfig.extensions(),
        }
    }

    fn grammar(&self) -> (r: Language) {
        *self
    }

    fn is_declaration(&self, kind: &str) -> (r: bool) {
        match self {
            Language::Swift => SwiftConfig.is_declaration(kind),
            Language::Rust => RustConfig.is_declaration(kind),
            Language::TypeScript => TypeScriptConfig.is_declaration(kind),
        }
    }

    fn is_comment(&self, kind: &str) -> (r: bool) {
        match self {
            Language::Swift => SwiftConfig.is_comment(kind),
            Language::Rust => RustConfig.is_comment(kind),
            Language::TypeScript => TypeScriptConfig.is_comment(kind),
        }
    }
}

/// Every supported language, in priority order (the tie-break order of
/// [`detect_dominant`]).
pub open spec fn languages() -> Seq<Language> {
    seq![Language::Swift, Language::Rust, Language::TypeScript]
}

/// Every language CodeType supports, in priority order.
pub fn available() -> (r: Vec<Language>)
    ensures
        r@ == languages(),
{
    let r = vec![Language::Swift, Language::Rust, Language::TypeScript];
    proof {
        assert(r@ =~= languages());
    }
    r
}

/// The names of `ls`.
pub open spec fn language_names(ls: Seq<Language>) -> Seq<Seq<char>> {
    ls.map_values(|l: Language| l.spec_language())
}

/// Comma-separated list of supported language names, for help/error text.
pub fn supported_names() -> (r: String)
    ensures
        r@ == join(language_names(languages()), ", "@),
{
    let langs = available();
    let mut names: Vec<Vec<char>> = Vec::new();
    let mut i: usize = 0;
    while i < langs.len()
        invariant
            langs@ == languages(),
            i <= langs@.len(),
            crate::text::views(names@) == language_names(languages()).take(i as int),
        decreases langs@.len() - i,
    {
        let n = chars_of(langs[i].language());
        let ghost before = names@;
        names.push(n);
        proof {
            assert(crate::text::views(names@) =~= crate::text::views(before).push(n@));
            assert(language_names(languages()).take(i + 1) =~= language_names(languages()).take(
                i as int,
            ).push(langs@[i as int].spec_language()));
        }
        i = i + 1;
    }
    proof {
        assert(language_names(languages()).take(3) =~= language_names(languages()));
    }
    let sep = chars_of(", ");
    let joined = join_chars(&names, sep.as_slice());
    string_of(joined.as_slice())
}

/// `s` with ASCII upper-case letters lowered (`str::to_ascii_lowercase`).
pub open spec fn ascii_lower(s: Seq<char>) -> Seq<char> {
    s.map_values(|c: char| lower_char(c))
}

pub open spec fn lower_char(c: char) -> char {
    if 'A' <= c <= 'Z' {
        ((c as u32) + 32) as char
    } else {
        c
    }
}

fn to_ascii_lower(s: &[char]) -> (r: Vec<char>)
    ensures
        r@ == ascii_lower(s@),
{
    let mut r: Vec<char> = Vec::new();
    let mut i: usize = 0;
    while i < s.len()
        invariant
            i <= s@.len(),
            r@ == ascii_lower(s@.take(i as int)),
        decreases s@.len() - i,
    {
        let c = s[i];
        let l = if 'A' <= c && c <= 'Z' {
            char_plus_32(c)
        } else {
            c
        };
        r.push(l);
        i = i + 1;
        proof {
            assert(ascii_lower(s@.take(i as int)) =~= ascii_lower(s@.take(i - 1)).push(
                lower_char(s@[i - 1]),
            ));
        }
    }
    proof {
        assert(s@.take(s@.len() as int) =~= s@);
    }
    r
}

fn char_plus_32(c: char) -> (r: char)
    requires
        'A' <= c <= 'Z',
    ensures
        r == ((c as u32) + 32) as char,
{
    ((c as u8) + 32) as char
}

/// Whether `want` is an accepted alias of `language` (`ts`, `rs`).
pub open spec fn alias_spec(language: Seq<char>, want: Seq<char>) -> bool {
    (language == "typescript"@ && want == "ts"@) || (language == "rust"@ && want == "rs"@)
}

pub fn is_alias(language: &str, want: &str) -> (r: bool)
    ensures
        r == alias_spec(language@, want@),
{
    let l = chars_of(language);
    let w = chars_of(want);
    let ts = chars_of("typescript");
    let ts_alias = chars_of("ts");
    let rust = chars_of("rust");
    let rs = chars_of("rs");
    (crate::text::chars_eq(l.as_slice(), ts.as_slice()) && crate::text::chars_eq(
        w.as_slice(),
        ts_alias.as_slice(),
    )) || (crate::text::chars_eq(l.as_slice(), rust.as_slice()) && crate::text::chars_eq(
        w.as_slice(),
        rs.as_slice(),
    ))
}

/// Whether language `l` answers to the normalized name `want`.
pub open spec fn answers_to(l: Language, want: Seq<char>) -> bool {
    l.spec_language() == want || alias_spec(l.spec_language(), want)
}

/// Index of the first language in `ls` answering to `want` (or `ls.len()`).
pub open spec fn first_answering(ls: Seq<Language>, want: Seq<char>) -> int
    decreases ls.len(),
{
    if ls.len() == 0 {
        0
    } else if answers_to(ls[0], want) {
        0
    } else {
        1 + first_answering(ls.drop_first(), want)
    }
}

/// What [`by_name`] returns: the first language whose name (or alias)
/// equals `name` trimmed and lower-cased.
pub open spec fn by_name_spec(name: Seq<char>) -> Option<Language> {
    let want = ascii_lower(trim(name));
    let i = first_answering(languages(), want);
    if i < languages().len() {
        Some(languages()[i])
    } else {
        None
    }
}

proof fn lemma_first_answering(ls: Seq<Language>, want: Seq<char>, i: int)
    requires
        0 <= i <= ls.len(),
        forall|j: int| 0 <= j < i ==> !answers_to(ls[j], want),
        i < ls.len() ==> answers_to(ls[i], want),
    ensures
        first_answering(ls, want) == i,
    decreases i,
{
    if i > 0 {
        lemma_first_answering(ls.drop_first(), want, i - 1);
    }
}

/// Look up a language by its name (case-insensitive, trimmed), accepting
/// the aliases `ts` and `rs`. `None` for an unknown name.
pub fn by_name(name: &str) -> (r: Option<Language>)
    ensures
        r == by_name_spec(name@),
{
    let chars = chars_of(name);
    let trimmed = trim_chars(chars.as_slice());
    let want_chars = to_ascii_lower(trimmed.as_slice());
    let want = string_of(want_chars.as_slice());
    let langs = available();
    let mut i: usize = 0;
    while i < langs.len()
        invariant
            langs@ == languages(),
            i <= langs@.len(),
            want@ == ascii_lower(trim(name@)),
            want_chars@ == want@,
            forall|j: int| 0 <= j < i ==> !answers_to(languages()[j], want@),
        decreases langs@.len() - i,
    {
        let l = langs[i];
        let lang_name = l.language();
        assert(lang_name@ == l.spec_language());
        let lname = chars_of(lang_name);
        assert(l == languages()[i as int]);
        if crate::text::chars_eq(lname.as_slice(), want_chars.as_slice()) || is_alias(
            l.language(),
            want.as_str(),
        ) {
            proof {
                lemma_first_answering(languages(), want@, i as int);
            }
            return Some(l);
        }
        i = i + 1;
    }
    proof {
        lemma_first_answering(languages(), want@, 3);
    }
    None
}

/// How many of `files` have one of `l`'s extensions.
pub open spec fn claimed_count(files: Seq<Seq<char>>, l: Language) -> nat
    decreases files.len(),
{
    if files.len() == 0 {
        0
    } else {
        claimed_count(files.drop_last(), l) + if extension_in(files.last(), l.spec_extensions()) {
            1nat
        } else {
            0nat
        }
    }
}

/// The index, among the first `n` languages, of the one claiming the most
/// files (earliest wins ties), or `None` when none claims any.
pub open spec fn dominant_among(files: Seq<Seq<char>>, n: int) -> Option<int>
    decreases n,
{
    if n <= 0 {
        None
    } else {
        let c = claimed_count(files, languages()[n - 1]);
        match dominant_among(files, n - 1) {
            None => if c > 0 {
                Some(n - 1)
            } else {
                None
            },
            Some(b) => if c > claimed_count(files, languages()[b]) {
                Some(n - 1)
            } else {
                Some(b)
            },
        }
    }
}

/// What [`detect_dominant`] returns.
pub open spec fn detect_spec(files: Seq<Seq<char>>) -> Option<Language> {
    match dominant_among(files, 3) {
        Some(i) => Some(languages()[i]),
        None => None,
    }
}

fn count_claimed(files: &[String], l: Language) -> (r: usize)
    ensures
        r == claimed_count(string_views(files@), l),
{
    let exts = l.extensions();
    let mut n: usize = 0;
    let mut i: usize = 0;
    while i < files.len()
        invariant
            i <= files@.len(),
            str_views(exts@) == l.spec_extensions(),
            n == claimed_count(string_views(files@).take(i as int), l),
            n <= i,
        decreases files@.len() - i,
    {
        proof {
            let t = string_views(files@).take(i + 1);
            assert(t.drop_last() =~= string_views(files@).take(i as int));
            assert(t.last() == files@[i as int]@);
        }
        if extension_matches(files[i].as_str(), exts.as_slice()) {
            n = n + 1;
        }
        i = i + 1;
    }
    proof {
        assert(string_views(files@).take(files@.len() as int) =~= string_views(files@));
    }
    n
}

/// Pick the language that claims the most files among `files`. Ties break
/// by the order in [`available`]. `None` if no file matches any supported
/// language.
pub fn detect_dominant(files: &[String]) -> (r: Option<Language>)
    ensures
        r == detect_spec(string_views(files@)),
{
    let configs = available();
    let ghost fv = string_views(files@);
    let mut best: Option<(usize, usize)> = None;
    let mut index: usize = 0;
    while index < configs.len()
        invariant
            configs@ == languages(),
            index <= 3,
            fv == string_views(files@),
            match best {
                None => dominant_among(fv, index as int) is None,
                Some((count, b)) => dominant_among(fv, index as int) == Some(b as int) && b
                    < index && count == claimed_count(fv, languages()[b as int]),
            },
        decreases 3 - index,
    {
        let count = count_claimed(files, configs[index]);
        if count != 0 {
            match best {
                None => {
                    best = Some((count, index));
                },
                Some((best_count, _)) => {
                    if count > best_count {
                        best = Some((count, index));
                    }
                },
            }
        }
        index = index + 1;
    }
    match best {
        Some((_, i)) => Some(configs[i]),
        None => None,
    }
}

// -- Laws ----------------------------------------------------------------------

proof fn lemma_dominant_among(files: Seq<Seq<char>>, n: int)
    requires
        0 <= n <= 3,
    ensures
        dominant_among(files, n) is None <==> forall|k: int|
            0 <= k < n ==> claimed_count(files, #[trigger] languages()[k]) == 0,
        dominant_among(files, n) matches Some(b) ==> {
            &&& 0 <= b < n
            &&& claimed_count(files, languages()[b]) > 0
            &&& forall|k: int|
                0 <= k < n ==> claimed_count(files, #[trigger] languages()[k]) <= claimed_count(
                    files,
                    languages()[b],
                )
            &&& forall|k: int|
                0 <= k < b ==> claimed_count(files, #[trigger] languages()[k]) < claimed_count(
                    files,
                    languages()[b],
                )
        },
    decreases n,
{
    if n > 0 {
        lemma_dominant_among(files, n - 1);
    }
}

/// The detected language claims at least as many files as every other
/// supported language, more than every language listed before it (ties go
/// to the earlier one), and at least one file; there is none exactly when
/// no file has a supported extension.
pub proof fn law_dominant_claims_the_most_files(files: Seq<Seq<char>>, j: int, k: int)
    requires
        0 <= j < 3,
        0 <= k < 3,
    ensures
        detect_spec(files) is None <==> forall|i: int|
            0 <= i < 3 ==> claimed_count(files, #[trigger] languages()[i]) == 0,
        detect_spec(files) == Some(languages()[j]) ==> {
            &&& claimed_count(files, languages()[j]) > 0
            &&& claimed_count(files, languages()[k]) <= claimed_count(files, languages()[j])
            &&& k < j ==> claimed_count(files, languages()[k]) < claimed_count(files, languages()[j])
        },
{
    lemma_dominant_among(files, 3);
    if let Some(b) = dominant_among(files, 3) {
        if detect_spec(files) == Some(languages()[j]) {
            assert(languages()[b] == languages()[j]);
            assert(b == j);
        }
    }
}

proof fn lemma_lower_char_ws(c: char)
    ensures
        is_ws(lower_char(c)) == is_ws(c),
        lower_char(lower_char(c)) == lower_char(c),
{
    if 'A' <= c <= 'Z' {
        assert((lower_char(c) as u32) == (c as u32) + 32);
    }
}

proof fn lemma_lower_trim_start(s: Seq<char>)
    ensures
        trim_start(ascii_lower(s)) == ascii_lower(trim_start(s)),
    decreases s.len(),
{
    if s.len() > 0 {
        lemma_lower_char_ws(s[0]);
        assert(ascii_lower(s)[0] == lower_char(s[0]));
        assert(ascii_lower(s).drop_first() =~= ascii_lower(s.drop_first()));
        lemma_lower_trim_start(s.drop_first());
    } else {
        assert(ascii_lower(s) =~= s);
    }
}

proof fn lemma_lower_trim_end(s: Seq<char>)
    ensures
        trim_end(ascii_lower(s)) == ascii_lower(trim_end(s)),
    decreases s.len(),
{
    if s.len() > 0 {
        lemma_lower_char_ws(s.last());
        assert(ascii_lower(s).last() == lower_char(s.last()));
        assert(ascii_lower(s).drop_last() =~= ascii_lower(s.drop_last()));
        lemma_lower_trim_end(s.drop_last());
    } else {
        assert(ascii_lower(s) =~= s);
    }
}

/// Looking a language up by name ignores the case of ASCII letters: two
/// names that differ only in it find the same language (or none).
pub proof fn law_by_name_ignores_ascii_case(s: Seq<char>, t: Seq<char>)
    requires
        ascii_lower(s) == ascii_lower(t),
    ensures
        by_name_spec(s) == by_name_spec(t),
{
    lemma_lower_trim_start(s);
    lemma_lower_trim_start(t);
    lemma_lower_trim_end(trim_start(s));
    lemma_lower_trim_end(trim_start(t));
    assert(ascii_lower(trim(s)) == trim(ascii_lower(s)));
    assert(ascii_lower(trim(t)) == trim(ascii_lower(t)));
}

/// In particular, a name finds what its all-lower-case form finds.
pub proof fn law_by_name_of_lower_case(s: Seq<char>)
    ensures
        by_name_spec(s) == by_name_spec(ascii_lower(s)),
{
    assert(ascii_lower(ascii_lower(s)) =~= ascii_lower(s)) by {
        assert forall|i: int| 0 <= i < s.len() implies ascii_lower(ascii_lower(s))[i] == ascii_lower(
            s,
        )[i] by {
            lemma_lower_char_ws(s[i]);
        }
    }
    law_by_name_ignores_ascii_case(s, ascii_lower(s));
}

} // verus!
