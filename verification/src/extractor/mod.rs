//! Turning source files into [`Exercise`]s.
//!
//! The extraction *algorithm* is identical for every language: walk the
//! syntax tree, keep declarations whose size falls in a sensible band,
//! recurse into the ones that are too big, strip comments, and dedent. The
//! only things that vary per language are the grammar and which node kinds
//! count as "a declaration" or "a comment". That varying part is the
//! [`LanguageConfig`] trait; the invariant algorithm is the [`Extractor`].

use crate::exercise::{Exercise, ExerciseView, IndentUnit};
use crate::text::{
    chars_of, join, join_chars, leading_ws_len, lines, split_lines, string_from_utf8, string_of,
    trim_end, trim_end_chars, trim_start, views,
};
use registry::Language;
use std::ops::Range;
use syntax::{check_tree, node_wf, parse_source, parsed_syntax, SyntaxNode};
use vstd::prelude::*;

pub mod laws;
pub mod registry;
pub mod rust;
pub mod swift;
pub mod syntax;
pub mod typescript;

verus! {

// -- Language vocabulary -------------------------------------------------------

/// The per-language vocabulary the [`Extractor`] needs: the grammar and which
/// node kinds are declarations or comments. Everything else is shared.
pub trait LanguageConfig {
    spec fn spec_language(&self) -> Seq<char>;

    spec fn spec_extensions(&self) -> Seq<Seq<char>>;

    spec fn spec_grammar(&self) -> Language;

    spec fn spec_is_declaration(&self, kind: Seq<char>) -> bool;

    spec fn spec_is_comment(&self, kind: Seq<char>) -> bool;

    /// Human-readable label shown in the UI (e.g. `"swift"`).
    fn language(&self) -> (r: &'static str)
        ensures
            r@ == self.spec_language(),
    ;

    /// File extensions this language claims, lowercase, without the dot.
    fn extensions(&self) -> (r: Vec<&'static str>)
        ensures
            crate::text::str_views(r@) == self.spec_extensions(),
    ;

    /// The grammar to parse this language with.
    fn grammar(&self) -> (r: Language)
        ensures
            r == self.spec_grammar(),
    ;

    /// Whether a node of this `kind` is a declaration that may become an
    /// Exercise.
    fn is_declaration(&self, kind: &str) -> (r: bool)
        ensures
            r == self.spec_is_declaration(kind@),
    ;

    /// Whether a node of this `kind` is a comment to strip from Exercises.
    fn is_comment(&self, kind: &str) -> (r: bool)
        ensures
            r == self.spec_is_comment(kind@),
    ;
}

// -- Size bounds ---------------------------------------------------------------

/// Size bounds for an extractable Exercise. Declarations are kept iff their
/// line count and byte length both fall within these bounds.
#[derive(Debug, Clone, Copy)]
pub struct LengthFilter {
    pub min_lines: usize,
    pub max_lines: usize,
    pub min_bytes: usize,
    pub max_bytes: usize,
}

impl Default for LengthFilter {
    /// 4–25 lines, 100–600 bytes.
    fn default() -> (r: Self)
        ensures
            r.min_lines == 4 && r.max_lines == 25 && r.min_bytes == 100 && r.max_bytes == 600,
    {
        Self { min_lines: 4, max_lines: 25, min_bytes: 100, max_bytes: 600 }
    }
}

/// Where a declaration's size falls relative to a [`LengthFilter`].
#[derive(Debug, Clone, Copy, PartialEq, Eq, Structural)]
pub enum SizeFit {
    TooSmall,
    Fits,
    TooBig,
}

/// The classification of a declaration of `lines` lines and `bytes` bytes.
/// "Too big" wins over "too small" when both bounds are violated.
pub open spec fn classify_spec(f: LengthFilter, lines: int, bytes: int) -> SizeFit {
    if lines > f.max_lines || bytes > f.max_bytes {
        SizeFit::TooBig
    } else if lines < f.min_lines || bytes < f.min_bytes {
        SizeFit::TooSmall
    } else {
        SizeFit::Fits
    }
}

impl LengthFilter {
    pub fn classify(&self, lines: usize, bytes: usize) -> (r: SizeFit)
        ensures
            r == classify_spec(*self, lines as int, bytes as int),
    {
        if lines > self.max_lines || bytes > self.max_bytes {
            SizeFit::TooBig
        } else if lines < self.min_lines || bytes < self.min_bytes {
            SizeFit::TooSmall
        } else {
            SizeFit::Fits
        }
    }
}

// -- Errors ------------------------------------------------------------------

/// Why extraction failed.
#[derive(Debug, Clone, Copy, PartialEq, Eq, Structural)]
pub enum ExtractError {
    /// The grammar could not be loaded into the parser.
    LanguageUnavailable,
    /// The parser produced no tree.
    ParseFailed,
    /// The parser produced a tree whose positions do not fit the source.
    MalformedTree,
    /// A declaration's text, with comments removed, is not valid UTF-8.
    InvalidUtf8,
}

// -- Comment stripping -------------------------------------------------------

/// Whether byte position `p` lies inside one of `ranges`.
pub open spec fn covered(ranges: Seq<Range<usize>>, p: int) -> bool {
    exists|k: int| 0 <= k < ranges.len() && #[trigger] ranges[k].start <= p < ranges[k].end
}

/// The bytes of `source[lo..hi]` that lie in none of `ranges`, in order.
pub open spec fn kept_bytes(source: Seq<u8>, lo: int, hi: int, ranges: Seq<Range<usize>>) -> Seq<
    u8,
>
    decreases hi - lo,
{
    if hi <= lo {
        seq![]
    } else {
        kept_bytes(source, lo, hi - 1, ranges) + if covered(ranges, hi - 1) {
            seq![]
        } else {
            seq![source[hi - 1]]
        }
    }
}

/// What [`strip_ranges`] returns: the kept bytes decoded as UTF-8.
pub open spec fn strip_spec(source: Seq<u8>, outer: Range<usize>, ranges: Seq<Range<usize>>) -> Result<
    Seq<char>,
    ExtractError,
> {
    let kept = kept_bytes(source, outer.start as int, outer.end as int, ranges);
    if vstd::utf8::valid_utf8(kept) {
        Ok(vstd::utf8::decode_utf8(kept))
    } else {
        Err(ExtractError::InvalidUtf8)
    }
}

proof fn lemma_kept_skip_covered(
    source: Seq<u8>,
    lo: int,
    i: int,
    j: int,
    ranges: Seq<Range<usize>>,
)
    requires
        lo <= i <= j,
        forall|p: int| i <= p < j ==> covered(ranges, p),
    ensures
        kept_bytes(source, lo, j, ranges) == kept_bytes(source, lo, i, ranges),
    decreases j - i,
{
    if j > i {
        lemma_kept_skip_covered(source, lo, i, j - 1, ranges);
        assert(covered(ranges, j - 1));
        assert(kept_bytes(source, lo, j, ranges) =~= kept_bytes(source, lo, j - 1, ranges));
    }
}

/// Index of a range in `ranges` that covers `p`, or `ranges.len()`.
fn covering_range(ranges: &[Range<usize>], p: usize) -> (k: usize)
    ensures
        k <= ranges@.len(),
        k < ranges@.len() ==> ranges@[k as int].start <= p < ranges@[k as int].end,
        k == ranges@.len() ==> !covered(ranges@, p as int),
{
    let mut k: usize = 0;
    while k < ranges.len()
        invariant
            k <= ranges@.len(),
            forall|j: int| 0 <= j < k ==> !(#[trigger] ranges@[j].start <= p < ranges@[j].end),
        decreases ranges@.len() - k,
    {
        if ranges[k].start <= p && p < ranges[k].end {
            return k;
        }
        k = k + 1;
    }
    k
}

/// Extract the bytes of `outer` from `source`, excluding any bytes that fall
/// inside one of `to_strip`, and decode them. The strip ranges may be in any
/// order, may overlap, and may extend beyond `outer`.
pub fn strip_ranges(source: &[u8], outer: Range<usize>, to_strip: &[Range<usize>]) -> (r: Result<
    String,
    ExtractError,
>)
    requires
        outer.start <= outer.end <= source@.len(),
    ensures
        match r {
            Ok(s) => strip_spec(source@, outer, to_strip@) == Ok::<Seq<char>, ExtractError>(s@),
            Err(e) => strip_spec(source@, outer, to_strip@) == Err::<Seq<char>, ExtractError>(e),
        },
{
    let mut out: Vec<u8> = Vec::new();
    let mut i = outer.start;
    while i < outer.end
        invariant
            outer.start <= i <= outer.end <= source@.len(),
            out@ == kept_bytes(source@, outer.start as int, i as int, to_strip@),
        decreases outer.end - i,
    {
        let k = covering_range(to_strip, i);
        if k < to_strip.len() {
            let stop = if to_strip[k].end < outer.end {
                to_strip[k].end
            } else {
                outer.end
            };
            proof {
                assert forall|p: int| i <= p < stop implies covered(to_strip@, p) by {
                    assert(to_strip@[k as int].start <= p < to_strip@[k as int].end);
                }
                lemma_kept_skip_covered(source@, outer.start as int, i as int, stop as int, to_strip@);
            }
            i = stop;
        } else {
            out.push(source[i]);
            i = i + 1;
        }
    }
    match string_from_utf8(out) {
        Some(s) => Ok(s),
        None => Err(ExtractError::InvalidUtf8),
    }
}

// -- Blank lines -------------------------------------------------------------

/// Whether a line has any character.
pub open spec fn non_empty(l: Seq<char>) -> bool {
    l.len() > 0
}

/// The lines of `s`, each without trailing whitespace.
pub open spec fn trimmed_lines(s: Seq<char>) -> Seq<Seq<char>> {
    lines(s).map_values(|l: Seq<char>| trim_end(l))
}

/// What [`collapse_blank_lines`] returns: the lines of `s` with trailing
/// whitespace trimmed and whitespace-only lines dropped, joined by `'\n'`.
pub open spec fn collapse_spec(s: Seq<char>) -> Seq<char> {
    join(trimmed_lines(s).filter(|l: Seq<char>| non_empty(l)), seq!['\n'])
}

/// Per-line cleanup: trim trailing whitespace, drop whitespace-only lines.
/// The result has no trailing newline.
pub fn collapse_blank_lines(s: &str) -> (r: String)
    ensures
        r@ == collapse_spec(s@),
{
    let chars = chars_of(s);
    let ls = split_lines(chars.as_slice());
    let ghost mapped = trimmed_lines(s@);
    let ghost pred = |l: Seq<char>| non_empty(l);
    let mut kept: Vec<Vec<char>> = Vec::new();
    let mut i: usize = 0;
    proof {
        assert(views(ls@).map_values(|l: Seq<char>| trim_end(l)) =~= mapped);
    }
    while i < ls.len()
        invariant
            i <= ls@.len(),
            views(ls@) == lines(s@),
            mapped == trimmed_lines(s@),
            mapped.len() == ls@.len(),
            forall|j: int| 0 <= j < ls@.len() ==> mapped[j] == trim_end(ls@[j]@),
            pred == (|l: Seq<char>| non_empty(l)),
            views(kept@) == mapped.take(i as int).filter(pred),
        decreases ls@.len() - i,
    {
        let t = trim_end_chars(ls[i].as_slice());
        let ghost before = kept@;
        proof {
            reveal_with_fuel(Seq::filter, 1);
            assert(mapped.take(i + 1).drop_last() =~= mapped.take(i as int));
            assert(mapped.take(i + 1).last() == t@);
        }
        if t.len() > 0 {
            kept.push(t);
            proof {
                assert(views(kept@) =~= views(before).push(t@));
            }
        }
        i = i + 1;
    }
    proof {
        assert(mapped.take(ls@.len() as int) =~= mapped);
    }
    let sep = vec!['\n'];
    proof {
        assert(sep@ =~= seq!['\n']);
    }
    let joined = join_chars(&kept, sep.as_slice());
    string_of(joined.as_slice())
}

// -- Dedent ------------------------------------------------------------------

/// The leading whitespace of `s`.
pub open spec fn leading_ws(s: Seq<char>) -> Seq<char> {
    s.take(s.len() - trim_start(s).len())
}

/// Length of the longest common prefix of `a` and `b`.
pub open spec fn common_prefix_len(a: Seq<char>, b: Seq<char>) -> nat
    decreases a.len(),
{
    if a.len() > 0 && b.len() > 0 && a[0] == b[0] {
        1 + common_prefix_len(a.drop_first(), b.drop_first())
    } else {
        0
    }
}

/// The longest common prefix of `a` and `b`.
pub open spec fn common_prefix(a: Seq<char>, b: Seq<char>) -> Seq<char> {
    a.take(common_prefix_len(a, b) as int)
}

/// The common leading whitespace of lines `[1, n)` of `ls`.
pub open spec fn common_indent(ls: Seq<Seq<char>>, n: int) -> Seq<char>
    decreases n,
{
    if n <= 2 {
        leading_ws(ls[1])
    } else {
        common_prefix(common_indent(ls, n - 1), leading_ws(ls[n - 1]))
    }
}

/// `l` without the prefix `p`, or `l` itself when `p` is not a prefix.
pub open spec fn strip_prefix_or_keep(l: Seq<char>, p: Seq<char>) -> Seq<char> {
    if p.is_prefix_of(l) {
        l.skip(p.len() as int)
    } else {
        l
    }
}

/// What [`dedent`] returns: with fewer than two lines, `s` itself;
/// otherwise every line without the whitespace prefix common to lines 1..,
/// joined by `'\n'`.
pub open spec fn dedent_spec(s: Seq<char>) -> Seq<char> {
    let ls = lines(s);
    if ls.len() < 2 {
        s
    } else {
        let common = common_indent(ls, ls.len() as int);
        join(ls.map_values(|l: Seq<char>| strip_prefix_or_keep(l, common)), seq!['\n'])
    }
}

/// Return the leading whitespace prefix of `s`.
pub fn leading_whitespace(s: &str) -> (r: String)
    ensures
        r@ == leading_ws(s@),
{
    let chars = chars_of(s);
    let n = leading_ws_len(chars.as_slice());
    let v = crate::text::slice_to_vec(chars.as_slice(), 0, n);
    proof {
        assert(v@ =~= leading_ws(s@));
    }
    string_of(v.as_slice())
}

proof fn lemma_common_prefix_len(a: Seq<char>, b: Seq<char>, i: int)
    requires
        0 <= i <= a.len(),
        i <= b.len(),
        forall|j: int| 0 <= j < i ==> a[j] == b[j],
    ensures
        common_prefix_len(a, b) == i + common_prefix_len(a.skip(i), b.skip(i)),
    decreases i,
{
    if i > 0 {
        lemma_common_prefix_len(a.drop_first(), b.drop_first(), i - 1);
        assert(a.drop_first().skip(i - 1) =~= a.skip(i));
        assert(b.drop_first().skip(i - 1) =~= b.skip(i));
    } else {
        assert(a.skip(0) =~= a);
        assert(b.skip(0) =~= b);
    }
}

fn common_prefix_chars(a: &[char], b: &[char]) -> (r: Vec<char>)
    ensures
        r@ == common_prefix(a@, b@),
{
    let mut i: usize = 0;
    while i < a.len() && i < b.len() && a[i] == b[i]
        invariant
            i <= a@.len(),
            i <= b@.len(),
            forall|j: int| 0 <= j < i ==> a@[j] == b@[j],
        decreases a@.len() - i,
    {
        i = i + 1;
    }
    proof {
        lemma_common_prefix_len(a@, b@, i as int);
        let x = a@.skip(i as int);
        let y = b@.skip(i as int);
        if x.len() > 0 && y.len() > 0 {
            assert(x[0] == a@[i as int]);
            assert(y[0] == b@[i as int]);
        }
    }
    crate::text::slice_to_vec(a, 0, i)
}

/// The longest common prefix of two strings. (Compared character by
/// character; whitespace is what it is applied to.)
pub fn common_byte_prefix(a: &str, b: &str) -> (r: String)
    ensures
        r@ == common_prefix(a@, b@),
{
    let x = chars_of(a);
    let y = chars_of(b);
    let p = common_prefix_chars(x.as_slice(), y.as_slice());
    string_of(p.as_slice())
}

fn leading_ws_chars(s: &[char]) -> (r: Vec<char>)
    ensures
        r@ == leading_ws(s@),
{
    let n = leading_ws_len(s);
    let v = crate::text::slice_to_vec(s, 0, n);
    proof {
        assert(v@ =~= leading_ws(s@));
    }
    v
}

fn strip_prefix_or_keep_chars(l: &[char], p: &[char]) -> (r: Vec<char>)
    ensures
        r@ == strip_prefix_or_keep(l@, p@),
{
    if crate::text::starts_with_chars(l, p) {
        crate::text::slice_to_vec(l, p.len(), l.len())
    } else {
        crate::text::slice_to_vec(l, 0, l.len())
    }
}

/// Strip the common leading whitespace from a multi-line text.
///
/// The common prefix is computed over lines `[1..]` (the body lines; a
/// declaration's first line starts at its first character), then stripped
/// from every line. Single-line input is returned as-is.
pub fn dedent(s: &str) -> (r: String)
    ensures
        r@ == dedent_spec(s@),
{
    let chars = chars_of(s);
    let ls = split_lines(chars.as_slice());
    if ls.len() < 2 {
        return string_of(chars.as_slice());
    }
    let ghost lv = views(ls@);
    let mut common = leading_ws_chars(ls[1].as_slice());
    let mut i: usize = 2;
    while i < ls.len()
        invariant
            2 <= i <= ls@.len(),
            lv == views(ls@),
            lv == lines(s@),
            common@ == common_indent(lv, i as int),
        decreases ls@.len() - i,
    {
        let ws = leading_ws_chars(ls[i].as_slice());
        common = common_prefix_chars(common.as_slice(), ws.as_slice());
        i = i + 1;
    }
    let mut out_lines: Vec<Vec<char>> = Vec::new();
    let ghost common_v = common@;
    let ghost f = |l: Seq<char>| strip_prefix_or_keep(l, common_v);
    let mut j: usize = 0;
    while j < ls.len()
        invariant
            j <= ls@.len(),
            lv == views(ls@),
            common@ == common_v,
            f == (|l: Seq<char>| strip_prefix_or_keep(l, common_v)),
            views(out_lines@) == lv.map_values(f).take(j as int),
        decreases ls@.len() - j,
    {
        let stripped = strip_prefix_or_keep_chars(ls[j].as_slice(), common.as_slice());
        let ghost before = out_lines@;
        out_lines.push(stripped);
        proof {
            assert(views(out_lines@) =~= views(before).push(stripped@));
            assert(lv.map_values(f).take(j + 1) =~= lv.map_values(f).take(j as int).push(
                f(lv[j as int]),
            ));
        }
        j = j + 1;
    }
    proof {
        assert(lv.map_values(f).take(ls@.len() as int) =~= lv.map_values(f));
        assert(lv.map_values(f) =~= lv.map_values(
            |l: Seq<char>| strip_prefix_or_keep(l, common_indent(lv, lv.len() as int)),
        ));
    }
    let sep = vec!['\n'];
    proof {
        assert(sep@ =~= seq!['\n']);
    }
    let joined = join_chars(&out_lines, sep.as_slice());
    string_of(joined.as_slice())
}

// -- Indent unit ---------------------------------------------------------------

/// Number of leading `' '` characters of `l`.
pub open spec fn leading_spaces(l: Seq<char>) -> nat
    decreases l.len(),
{
    if l.len() > 0 && l[0] == ' ' {
        1 + leading_spaces(l.drop_first())
    } else {
        0
    }
}

/// The indent unit of the first indented line among `ls`.
pub open spec fn indent_unit_of_lines(ls: Seq<Seq<char>>) -> IndentUnit
    decreases ls.len(),
{
    if ls.len() == 0 {
        IndentUnit::Spaces(4)
    } else if ls[0].len() > 0 && ls[0][0] == '\t' {
        IndentUnit::Tab
    } else if ls[0].len() > 0 && ls[0][0] == ' ' {
        IndentUnit::Spaces(
            if leading_spaces(ls[0]) > 255 {
                255u8
            } else {
                leading_spaces(ls[0]) as u8
            },
        )
    } else {
        indent_unit_of_lines(ls.drop_first())
    }
}

/// What [`detect_indent_unit`] returns: the unit of the first indented line
/// (`Tab` for a leading tab, `Spaces(n)` for `n` leading spaces, capped at
/// 255), or `Spaces(4)` when no line is indented or `source` is not UTF-8.
pub open spec fn indent_unit_spec(source: Seq<u8>) -> IndentUnit {
    if vstd::utf8::valid_utf8(source) {
        indent_unit_of_lines(lines(vstd::utf8::decode_utf8(source)))
    } else {
        IndentUnit::Spaces(4)
    }
}

proof fn lemma_leading_spaces(l: Seq<char>, i: int)
    requires
        0 <= i <= l.len(),
        forall|j: int| 0 <= j < i ==> l[j] == ' ',
    ensures
        leading_spaces(l) == i + leading_spaces(l.skip(i)),
    decreases i,
{
    if i > 0 {
        lemma_leading_spaces(l.drop_first(), i - 1);
        assert(l.drop_first().skip(i - 1) =~= l.skip(i));
    } else {
        assert(l.skip(0) =~= l);
    }
}

/// The characters `source` decodes to.
pub open spec fn decode_utf8_of(source: Seq<u8>) -> Seq<char> {
    vstd::utf8::decode_utf8(source)
}

/// Detect the file's dominant indent unit from the first indented line.
pub fn detect_indent_unit(source: &[u8]) -> (r: IndentUnit)
    ensures
        r == indent_unit_spec(source@),
{
    let mut bytes: Vec<u8> = Vec::new();
    let mut k: usize = 0;
    while k < source.len()
        invariant
            k <= source@.len(),
            bytes@ == source@.take(k as int),
        decreases source@.len() - k,
    {
        bytes.push(source[k]);
        k = k + 1;
        proof {
            assert(source@.take(k as int) =~= source@.take(k - 1).push(source@[k - 1]));
        }
    }
    proof {
        assert(source@.take(source@.len() as int) =~= source@);
    }
    let text = match string_from_utf8(bytes) {
        Some(t) => t,
        None => return IndentUnit::Spaces(4),
    };
    let chars = chars_of(text.as_str());
    let ls = split_lines(chars.as_slice());
    let ghost lv = views(ls@);
    let mut i: usize = 0;
    proof {
        assert(lv.skip(0) =~= lv);
    }
    while i < ls.len()
        invariant
            i <= ls@.len(),
            lv == views(ls@),
            lv == lines(decode_utf8_of(source@)),
            vstd::utf8::valid_utf8(source@),
            indent_unit_of_lines(lv) == indent_unit_of_lines(lv.skip(i as int)),
        decreases ls@.len() - i,
    {
        let line = &ls[i];
        proof {
            assert(lv.skip(i as int)[0] == line@);
            assert(lv.skip(i as int).drop_first() =~= lv.skip(i + 1));
        }
        if line.len() > 0 && line[0] == '\t' {
            return IndentUnit::Tab;
        }
        if line.len() > 0 && line[0] == ' ' {
            let mut n: usize = 0;
            while n < line.len() && line[n] == ' '
                invariant
                    n <= line@.len(),
                    forall|j: int| 0 <= j < n ==> line@[j] == ' ',
                decreases line@.len() - n,
            {
                n = n + 1;
            }
            proof {
                lemma_leading_spaces(line@, n as int);
                let rest = line@.skip(n as int);
                if rest.len() > 0 {
                    assert(rest[0] == line@[n as int]);
                }
            }
            let capped: u8 = if n > 255 {
                255
            } else {
                n as u8
            };
            return IndentUnit::Spaces(capped);
        }
        i = i + 1;
    }
    proof {
        assert(lv.skip(i as int) =~= seq![]);
    }
    IndentUnit::Spaces(4)
}

// -- The extraction walk -------------------------------------------------------

/// The byte range a node spans.
pub open spec fn node_range(n: SyntaxNode) -> Range<usize> {
    Range { start: n.start_byte, end: n.end_byte }
}

/// Number of source lines a node spans, first and last row included.
pub open spec fn node_lines(n: SyntaxNode) -> int {
    n.end_row - n.start_row + 1
}

/// Number of bytes a node spans.
pub open spec fn node_bytes(n: SyntaxNode) -> int {
    n.end_byte - n.start_byte
}

/// The byte ranges of the comment nodes in the subtree of `n`, in source
/// order; the walk does not descend into a comment.
pub open spec fn comment_ranges<C: LanguageConfig>(cfg: C, n: SyntaxNode) -> Seq<Range<usize>>
    decreases n, n.children@.len() + 1,
{
    if cfg.spec_is_comment(n.kind@) {
        seq![node_range(n)]
    } else {
        comment_ranges_upto(cfg, n, n.children@.len() as int)
    }
}

/// The comment ranges under the first `k` children of `n`.
pub open spec fn comment_ranges_upto<C: LanguageConfig>(cfg: C, n: SyntaxNode, k: int) -> Seq<
    Range<usize>,
>
    decreases n, k,
{
    if k <= 0 || k > n.children@.len() {
        seq![]
    } else {
        comment_ranges_upto(cfg, n, k - 1) + comment_ranges(cfg, n.children@[k - 1])
    }
}

/// The text of the Exercise built from declaration `n`: its bytes without
/// comments, blank lines collapsed, dedented.
pub open spec fn exercise_text_spec<C: LanguageConfig>(
    cfg: C,
    n: SyntaxNode,
    source: Seq<u8>,
) -> Result<Seq<char>, ExtractError> {
    match strip_spec(source, node_range(n), comment_ranges(cfg, n)) {
        Ok(t) => Ok(dedent_spec(collapse_spec(t))),
        Err(e) => Err(e),
    }
}

/// What becomes of declaration `n`: an Exercise when its size fits, the
/// declarations inside it when it is too big, nothing when too small.
pub open spec fn handle_spec<C: LanguageConfig>(
    cfg: C,
    f: LengthFilter,
    n: SyntaxNode,
    source: Seq<u8>,
    path: Seq<char>,
    unit: IndentUnit,
) -> Result<Seq<ExerciseView>, ExtractError>
    decreases n, n.children@.len() + 2,
{
    match classify_spec(f, node_lines(n), node_bytes(n)) {
        SizeFit::Fits => match exercise_text_spec(cfg, n, source) {
            Ok(text) => Ok(
                seq![
                    ExerciseView {
                        source_path: path,
                        start: n.start_byte,
                        end: n.end_byte,
                        text,
                        indent_unit: unit,
                    },
                ],
            ),
            Err(e) => Err(e),
        },
        SizeFit::TooBig => walk_spec(cfg, f, n, source, path, unit),
        SizeFit::TooSmall => Ok(seq![]),
    }
}

/// The Exercises found under `n`: each named child that is a declaration is
/// handled, any other named child is descended through. The first error
/// stops the walk.
pub open spec fn walk_spec<C: LanguageConfig>(
    cfg: C,
    f: LengthFilter,
    n: SyntaxNode,
    source: Seq<u8>,
    path: Seq<char>,
    unit: IndentUnit,
) -> Result<Seq<ExerciseView>, ExtractError>
    decreases n, n.children@.len() + 1,
{
    walk_upto(cfg, f, n, n.children@.len() as int, source, path, unit)
}

/// The Exercises found under the first `k` children of `n`.
pub open spec fn walk_upto<C: LanguageConfig>(
    cfg: C,
    f: LengthFilter,
    n: SyntaxNode,
    k: int,
    source: Seq<u8>,
    path: Seq<char>,
    unit: IndentUnit,
) -> Result<Seq<ExerciseView>, ExtractError>
    decreases n, k,
{
    if k <= 0 || k > n.children@.len() {
        Ok(seq![])
    } else {
        match walk_upto(cfg, f, n, k - 1, source, path, unit) {
            Err(e) => Err(e),
            Ok(acc) => {
                let c = n.children@[k - 1];
                let here = if !c.is_named {
                    Ok(seq![])
                } else if cfg.spec_is_declaration(c.kind@) {
                    handle_spec(cfg, f, c, source, path, unit)
                } else {
                    walk_spec(cfg, f, c, source, path, unit)
                };
                match here {
                    Err(e) => Err(e),
                    Ok(h) => Ok(acc + h),
                }
            },
        }
    }
}

/// Once the walk over the first `k` children fails, every longer prefix
/// fails with the same error.
proof fn lemma_walk_error_persists<C: LanguageConfig>(
    cfg: C,
    f: LengthFilter,
    n: SyntaxNode,
    k: int,
    m: int,
    source: Seq<u8>,
    path: Seq<char>,
    unit: IndentUnit,
    e: ExtractError,
)
    requires
        1 <= k <= m <= n.children@.len(),
        walk_upto(cfg, f, n, k, source, path, unit) == Err::<Seq<ExerciseView>, ExtractError>(e),
    ensures
        walk_upto(cfg, f, n, m, source, path, unit) == Err::<Seq<ExerciseView>, ExtractError>(e),
    decreases m - k,
{
    if m > k {
        lemma_walk_error_persists(cfg, f, n, k, m - 1, source, path, unit, e);
    }
}

/// What [`Extractor::extract`] returns for `source` read from `path`.
pub open spec fn extract_spec<C: LanguageConfig>(
    cfg: C,
    f: LengthFilter,
    path: Seq<char>,
    source: Seq<u8>,
) -> Result<Seq<ExerciseView>, ExtractError> {
    match parsed_syntax(cfg.spec_grammar(), source) {
        Err(e) => Err(e),
        Ok(root) => if node_wf(root, source.len() as int) {
            walk_spec(cfg, f, root, source, path, indent_unit_spec(source))
        } else {
            Err(ExtractError::MalformedTree)
        },
    }
}

/// The default size bounds: 4–25 lines, 100–600 bytes.
pub open spec fn default_filter() -> LengthFilter {
    LengthFilter { min_lines: 4, max_lines: 25, min_bytes: 100, max_bytes: 600 }
}

/// The shared extraction driver: the chosen language vocabulary and the
/// size filter; its methods are the language-agnostic algorithm.
pub struct Extractor<C: LanguageConfig> {
    config: C,
    filter: LengthFilter,
}

impl<C: LanguageConfig> Extractor<C> {
    pub closed spec fn spec_config(&self) -> C {
        self.config
    }

    pub closed spec fn spec_filter(&self) -> LengthFilter {
        self.filter
    }

    /// An extractor for a language with the default size filter.
    pub fn new(config: C) -> (r: Self)
        ensures
            r.spec_config() == config,
            r.spec_filter() == default_filter(),
    {
        Self { config, filter: LengthFilter::default() }
    }

    /// Builder-style override of the length filter.
    pub fn with_filter(self, filter: LengthFilter) -> (r: Self)
        ensures
            r.spec_config() == self.spec_config(),
            r.spec_filter() == filter,
    {
        Self { config: self.config, filter }
    }

    /// Human-readable language label, for the UI.
    pub fn language(&self) -> (r: &'static str)
        ensures
            r@ == self.spec_config().spec_language(),
    {
        self.config.language()
    }

    /// File extensions this extractor's language claims.
    pub fn extensions(&self) -> (r: Vec<&'static str>)
        ensures
            crate::text::str_views(r@) == self.spec_config().spec_extensions(),
    {
        self.config.extensions()
    }

    /// Extract Exercises from a source file's contents: parse it with the
    /// language's grammar, then walk the tree
    /// ([`Extractor::extract_from_tree`]). The Exercises come from disjoint
    /// byte ranges of the source, in source order.
    pub fn extract(&self, path: &str, source: &[u8]) -> (r: Result<Vec<Exercise>, ExtractError>)
        ensures
            match r {
                Ok(v) => extract_spec(self.spec_config(), self.spec_filter(), path@, source@)
                    == Ok::<Seq<ExerciseView>, ExtractError>(crate::exercise::exercise_views(v@)),
                Err(e) => extract_spec(self.spec_config(), self.spec_filter(), path@, source@)
                    == Err::<Seq<ExerciseView>, ExtractError>(e),
            },
            r matches Ok(v) ==> laws::ranges_in_order(
                crate::exercise::exercise_views(v@),
                0,
                source@.len() as int,
            ),
    {
        let tree = match parse_source(self.config.grammar(), source) {
            Ok(t) => t,
            Err(e) => return Err(e),
        };
        if !check_tree(&tree, source.len()) {
            return Err(ExtractError::MalformedTree);
        }
        let r = self.extract_from_tree(path, source, &tree);
        proof {
            laws::law_extracted_ranges_are_disjoint(
                self.config,
                self.filter,
                tree,
                source@,
                path@,
                indent_unit_spec(source@),
            );
        }
        r
    }

    /// Extract Exercises from `source`, read from `path`, given its syntax
    /// tree `root`.
    pub fn extract_from_tree(&self, path: &str, source: &[u8], root: &SyntaxNode) -> (r: Result<
        Vec<Exercise>,
        ExtractError,
    >)
        requires
            node_wf(*root, source@.len() as int),
        ensures
            match r {
                Ok(v) => walk_spec(
                    self.spec_config(),
                    self.spec_filter(),
                    *root,
                    source@,
                    path@,
                    indent_unit_spec(source@),
                ) == Ok::<Seq<ExerciseView>, ExtractError>(crate::exercise::exercise_views(v@)),
                Err(e) => walk_spec(
                    self.spec_config(),
                    self.spec_filter(),
                    *root,
                    source@,
                    path@,
                    indent_unit_spec(source@),
                ) == Err::<Seq<ExerciseView>, ExtractError>(e),
            },
    {
        let indent_unit = detect_indent_unit(source);
        let mut exercises: Vec<Exercise> = Vec::new();
        proof {
            assert(crate::exercise::exercise_views(exercises@) =~= seq![]);
        }
        match self.walk_for_declarations(root, source, path, indent_unit, &mut exercises) {
            Ok(()) => {
                proof {
                    let s = walk_spec(
                        self.config,
                        self.filter,
                        *root,
                        source@,
                        path@,
                        indent_unit,
                    );
                    assert(s matches Ok(x) && crate::exercise::exercise_views(exercises@) =~= x);
                }
                Ok(exercises)
            },
            Err(e) => Err(e),
        }
    }

    /// Walk the named children of `node`: declarations are handed to
    /// [`Self::handle_declaration`], anything else is descended through.
    fn walk_for_declarations(
        &self,
        node: &SyntaxNode,
        source: &[u8],
        path: &str,
        indent_unit: IndentUnit,
        out: &mut Vec<Exercise>,
    ) -> (r: Result<(), ExtractError>)
        requires
            node_wf(*node, source@.len() as int),
        ensures
            match walk_spec(self.config, self.filter, *node, source@, path@, indent_unit) {
                Ok(s) => r is Ok && crate::exercise::exercise_views(final(out)@)
                    == crate::exercise::exercise_views(old(out)@) + s,
                Err(e) => r == Err::<(), ExtractError>(e),
            },
        decreases *node, node.children@.len() + 1,
    {
        let ghost start = crate::exercise::exercise_views(out@);
        let mut i: usize = 0;
        proof {
            assert(start + seq![] =~= start);
        }
        while i < node.children.len()
            invariant
                node_wf(*node, source@.len() as int),
                i <= node.children@.len(),
                start == crate::exercise::exercise_views(old(out)@),
                walk_upto(self.config, self.filter, *node, i as int, source@, path@, indent_unit) matches Ok(acc)
                    && crate::exercise::exercise_views(out@) == start + acc,
            decreases node.children@.len() - i,
        {
            let child = &node.children[i];
            proof {
                assert(node_wf(node.children@[i as int], source@.len() as int));
            }
            let ghost before = crate::exercise::exercise_views(out@);
            let step = if !child.is_named {
                Ok(())
            } else if self.config.is_declaration(child.kind.as_str()) {
                self.handle_declaration(child, source, path, indent_unit, out)
            } else {
                self.walk_for_declarations(child, source, path, indent_unit, out)
            };
            match step {
                Ok(()) => {},
                Err(e) => {
                    proof {
                        lemma_walk_error_persists(
                            self.config,
                            self.filter,
                            *node,
                            i + 1,
                            node.children@.len() as int,
                            source@,
                            path@,
                            indent_unit,
                            e,
                        );
                    }
                    return Err(e);
                },
            }
            proof {
                let acc = walk_upto(
                    self.config,
                    self.filter,
                    *node,
                    i as int,
                    source@,
                    path@,
                    indent_unit,
                )->Ok_0;
                if !child.is_named {
                    assert(crate::exercise::exercise_views(out@) =~= start + (acc + seq![]));
                }
                assert(start + acc + (crate::exercise::exercise_views(out@).skip(before.len() as int)) =~= crate::exercise::exercise_views(out@));
            }
            i = i + 1;
        }
        Ok(())
    }

    /// Emit declaration `node` when it fits, descend into it when too big,
    /// skip it when too small.
    fn handle_declaration(
        &self,
        node: &SyntaxNode,
        source: &[u8],
        path: &str,
        indent_unit: IndentUnit,
        out: &mut Vec<Exercise>,
    ) -> (r: Result<(), ExtractError>)
        requires
            node_wf(*node, source@.len() as int),
        ensures
            match handle_spec(self.config, self.filter, *node, source@, path@, indent_unit) {
                Ok(s) => r is Ok && crate::exercise::exercise_views(final(out)@)
                    == crate::exercise::exercise_views(old(out)@) + s,
                Err(e) => r == Err::<(), ExtractError>(e),
            },
        decreases *node, node.children@.len() + 2,
    {
        let lines = node.end_row - node.start_row + 1;
        let bytes = node.end_byte - node.start_byte;
        match self.filter.classify(lines, bytes) {
            SizeFit::Fits => {
                let text = match self.build_exercise_text(node, source) {
                    Ok(t) => t,
                    Err(e) => return Err(e),
                };
                let ghost before = out@;
                let exercise = Exercise {
                    source_path: string_of(chars_of(path).as_slice()),
                    byte_range: Range { start: node.start_byte, end: node.end_byte },
                    text,
                    indent_unit,
                };
                out.push(exercise);
                proof {
                    assert(crate::exercise::exercise_views(out@) =~= crate::exercise::exercise_views(before).push(exercise@));
                    assert(crate::exercise::exercise_views(before).push(exercise@) =~= crate::exercise::exercise_views(before) + seq![exercise@]);
                }
                Ok(())
            },
            SizeFit::TooBig => self.walk_for_declarations(node, source, path, indent_unit, out),
            SizeFit::TooSmall => {
                proof {
                    assert(crate::exercise::exercise_views(out@) =~= crate::exercise::exercise_views(out@) + seq![]);
                }
                Ok(())
            },
        }
    }

    /// The Exercise text of declaration `node`: strip comment ranges,
    /// collapse the blank-line residue, then dedent.
    fn build_exercise_text(&self, node: &SyntaxNode, source: &[u8]) -> (r: Result<
        String,
        ExtractError,
    >)
        requires
            node_wf(*node, source@.len() as int),
        ensures
            match r {
                Ok(s) => exercise_text_spec(self.config, *node, source@) == Ok::<
                    Seq<char>,
                    ExtractError,
                >(s@),
                Err(e) => exercise_text_spec(self.config, *node, source@) == Err::<
                    Seq<char>,
                    ExtractError,
                >(e),
            },
    {
        let mut comments: Vec<Range<usize>> = Vec::new();
        self.visit_for_comments(node, &mut comments);
        proof {
            assert(comments@ =~= comment_ranges(self.config, *node));
        }
        let outer = Range { start: node.start_byte, end: node.end_byte };
        let stripped = match strip_ranges(source, outer, comments.as_slice()) {
            Ok(s) => s,
            Err(e) => return Err(e),
        };
        let collapsed = collapse_blank_lines(stripped.as_str());
        Ok(dedent(collapsed.as_str()))
    }

    /// Append the byte ranges of the comment nodes under `node`.
    fn visit_for_comments(&self, node: &SyntaxNode, ranges: &mut Vec<Range<usize>>)
        ensures
            final(ranges)@ == old(ranges)@ + comment_ranges(self.config, *node),
        decreases *node, node.children@.len() + 1,
    {
        if self.config.is_comment(node.kind.as_str()) {
            ranges.push(Range { start: node.start_byte, end: node.end_byte });
            return;
        }
        let ghost start = old(ranges)@;
        let mut i: usize = 0;
        proof {
            assert(start + seq![] =~= start);
        }
        while i < node.children.len()
            invariant
                i <= node.children@.len(),
                !self.config.spec_is_comment(node.kind@),
                start == old(ranges)@,
                ranges@ == start + comment_ranges_upto(self.config, *node, i as int),
            decreases node.children@.len() - i,
        {
            let ghost before = ranges@;
            self.visit_for_comments(&node.children[i], ranges);
            proof {
                assert(start + comment_ranges_upto(self.config, *node, i + 1) =~= before
                    + comment_ranges(self.config, node.children@[i as int]));
            }
            i = i + 1;
        }
    }
}

} // verus!
