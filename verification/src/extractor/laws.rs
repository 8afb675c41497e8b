//! What holds of every extraction: the cleanup of an Exercise's text, the
//! comment stripping, and the size bounds of what is emitted.

use std::ops::Range;
use vstd::prelude::*;

use super::syntax::{node_wf, SyntaxNode};
use super::{
    classify_spec, collapse_spec, common_indent, common_prefix, common_prefix_len, covered,
    dedent_spec, handle_spec, kept_bytes, ExtractError, leading_ws, non_empty, strip_prefix_or_keep, strip_spec,
    trimmed_lines, walk_spec, walk_upto, LanguageConfig, LengthFilter, SizeFit,
};
use crate::exercise::{ExerciseView, IndentUnit};
use crate::text::{
    find_char, has_char, is_ws, join, lemma_find_char, lemma_find_char_is, lemma_lines_append,
    lemma_lines_single, lemma_lines_step, lemma_lines_terminated, lemma_trim_start_skip, lines,
    strip_cr, trim_end, trim_start,
};

verus! {

/// Text whose lines are all non-empty and end in a non-whitespace character,
/// with no line ending after the last line.
pub open spec fn clean_lines(t: Seq<char>) -> bool {
    &&& t.len() > 0 ==> !is_ws(t.last())
    &&& forall|i: int|
        0 <= i < t.len() && #[trigger] t[i] == '\n' ==> 0 < i && i + 1 < t.len() && !is_ws(t[i - 1])
            && t[i + 1] != '\n'
}

/// A piece that can be one such line.
pub open spec fn clean_line(l: Seq<char>) -> bool {
    &&& l.len() > 0
    &&& !has_char(l, '\n')
    &&& !is_ws(l.last())
}

proof fn lemma_join_clean(parts: Seq<Seq<char>>)
    requires
        forall|i: int| 0 <= i < parts.len() ==> clean_line(#[trigger] parts[i]),
    ensures
        clean_lines(join(parts, seq!['\n'])),
    decreases parts.len(),
{
    if parts.len() == 1 {
        let l = parts[0];
        assert(clean_line(l));
        assert forall|i: int| 0 <= i < l.len() && #[trigger] l[i] == '\n' implies false by {
            assert(has_char(l, '\n'));
        }
    } else if parts.len() > 1 {
        let init = parts.drop_last();
        let last = parts.last();
        assert(clean_line(parts[parts.len() - 1]));
        assert forall|i: int| 0 <= i < init.len() implies clean_line(#[trigger] init[i]) by {
            assert(init[i] == parts[i]);
        }
        lemma_join_clean(init);
        let a = join(init, seq!['\n']);
        let t = join(parts, seq!['\n']);
        assert(t == a + seq!['\n'] + last);
        assert(a.len() > 0) by {
            lemma_join_len(init);
        }
        assert forall|i: int|
            0 <= i < t.len() && #[trigger] t[i] == '\n' implies 0 < i && i + 1 < t.len() && !is_ws(
            t[i - 1],
        ) && t[i + 1] != '\n' by {
            if i < a.len() {
                assert(t[i] == a[i]);
                if i + 1 < a.len() {
                    assert(t[i + 1] == a[i + 1]);
                } else {
                    assert(a[i] == '\n');
                    assert(a.last() == '\n');
                }
                assert(t[i - 1] == a[i - 1]);
            } else if i == a.len() {
                assert(t[i - 1] == a.last());
                assert(t[i + 1] == last[0]);
                if last[0] == '\n' {
                    assert(has_char(last, '\n'));
                }
            } else {
                assert(t[i] == last[i - a.len() - 1]);
                assert(has_char(last, '\n'));
            }
        }
        assert(t.last() == last.last());
    }
}

proof fn lemma_join_len(parts: Seq<Seq<char>>)
    requires
        parts.len() > 0,
        forall|i: int| 0 <= i < parts.len() ==> clean_line(#[trigger] parts[i]),
    ensures
        join(parts, seq!['\n']).len() > 0,
    decreases parts.len(),
{
    assert(clean_line(parts[parts.len() - 1]));
}

proof fn lemma_lines_have_no_newline(s: Seq<char>)
    ensures
        forall|i: int| 0 <= i < lines(s).len() ==> !has_char(#[trigger] lines(s)[i], '\n'),
    decreases s.len(),
{
    if s.len() > 0 {
        lemma_find_char(s, '\n');
        let i = find_char(s, '\n');
        if i >= s.len() {
            lemma_lines_single(s);
        } else {
            lemma_lines_have_no_newline(s.skip(i + 1));
            let first = strip_cr(s.take(i));
            assert(!has_char(first, '\n')) by {
                if has_char(first, '\n') {
                    let k = choose|k: int| 0 <= k < first.len() && first[k] == '\n';
                    assert(s[k] == '\n');
                }
            }
            let ls = lines(s);
            assert forall|j: int| 0 <= j < ls.len() implies !has_char(#[trigger] ls[j], '\n') by {
                if j > 0 {
                    assert(ls[j] == lines(s.skip(i + 1))[j - 1]);
                }
            }
        }
    }
}

proof fn lemma_trim_end_clean(l: Seq<char>)
    requires
        !has_char(l, '\n'),
        trim_end(l).len() > 0,
    ensures
        clean_line(trim_end(l)),
    decreases l.len(),
{
    if l.len() > 0 && is_ws(l.last()) {
        assert(!has_char(l.drop_last(), '\n')) by {
            if has_char(l.drop_last(), '\n') {
                let k = choose|k: int| 0 <= k < l.drop_last().len() && l.drop_last()[k] == '\n';
                assert(l[k] == '\n');
            }
        }
        lemma_trim_end_clean(l.drop_last());
    }
}

/// The non-empty lines among `t`.
pub open spec fn nonblank(t: Seq<Seq<char>>) -> Seq<Seq<char>> {
    t.filter(|l: Seq<char>| non_empty(l))
}

proof fn lemma_filter_clean(t: Seq<Seq<char>>)
    requires
        forall|i: int| 0 <= i < t.len() && (#[trigger] t[i]).len() > 0 ==> clean_line(t[i]),
    ensures
        forall|i: int| 0 <= i < nonblank(t).len() ==> clean_line(#[trigger] nonblank(t)[i]),
    decreases t.len(),
{
    reveal(Seq::filter);
    if t.len() > 0 {
        let init = t.drop_last();
        assert forall|i: int| 0 <= i < init.len() && (#[trigger] init[i]).len() > 0 implies clean_line(
            init[i],
        ) by {
            assert(init[i] == t[i]);
        }
        lemma_filter_clean(init);
        let f = nonblank(t);
        let g = nonblank(init);
        assert(t.last() == t[t.len() - 1]);
        assert forall|i: int| 0 <= i < f.len() implies clean_line(#[trigger] f[i]) by {
            if i < g.len() {
                assert(f[i] == g[i]);
            }
        }
    }
}

/// After blank-line collapsing, no line is empty, no line ends in
/// whitespace, and the text does not end with a line ending.
pub proof fn law_collapse_leaves_clean_lines(s: Seq<char>)
    ensures
        clean_lines(collapse_spec(s)),
{
    lemma_lines_have_no_newline(s);
    let t = trimmed_lines(s);
    assert forall|i: int| 0 <= i < t.len() && (#[trigger] t[i]).len() > 0 implies clean_line(t[i]) by {
        lemma_trim_end_clean(lines(s)[i]);
    }
    lemma_filter_clean(t);
    let parts = nonblank(t);
    if parts.len() > 0 {
        lemma_join_clean(parts);
    }
}

/// Text on a single line comes out of dedenting unchanged.
pub proof fn law_dedent_single_line_unchanged(s: Seq<char>)
    requires
        !has_char(s, '\n'),
    ensures
        dedent_spec(s) == s,
{
    if s.len() > 0 {
        lemma_lines_single(s);
    }
}

// -- Dedenting twice ----------------------------------------------------------

/// The last character of joined pieces is that of the last piece.
proof fn lemma_join_last(parts: Seq<Seq<char>>)
    requires
        parts.len() > 0,
        parts.last().len() > 0,
    ensures
        join(parts, seq!['\n']).len() > 0,
        join(parts, seq!['\n']).last() == parts.last().last(),
{
    if parts.len() > 1 {
        let a = join(parts.drop_last(), seq!['\n']);
        assert(join(parts, seq!['\n']) == a + seq!['\n'] + parts.last());
    }
}

/// Whether `l` can be a line that splitting text into lines gives back:
/// non-empty, no line ending in it, and not ending in `'\r'`.
pub open spec fn plain_line(l: Seq<char>) -> bool {
    &&& l.len() > 0
    &&& !has_char(l, '\n')
    &&& l.last() != '\r'
}

/// Plain lines joined by line endings split back into the same lines.
#[verifier::spinoff_prover]
proof fn lemma_lines_of_join(parts: Seq<Seq<char>>)
    requires
        parts.len() > 0,
        forall|i: int| 0 <= i < parts.len() ==> plain_line(#[trigger] parts[i]),
    ensures
        lines(join(parts, seq!['\n'])) == parts,
    decreases parts.len(),
{
    let last = parts.last();
    assert(plain_line(parts[parts.len() - 1]));
    lemma_lines_single(last);
    if parts.len() == 1 {
        assert(parts =~= seq![last]);
    } else {
        let init = parts.drop_last();
        assert forall|i: int| 0 <= i < init.len() implies plain_line(#[trigger] init[i]) by {
            assert(init[i] == parts[i]);
        }
        lemma_lines_of_join(init);
        let a = join(init, seq!['\n']);
        assert(plain_line(init[init.len() - 1]));
        lemma_join_last(init);
        assert(lines(a.push('\n')) == init) by {
            let l = init.last();
            if l.last() == '\n' {
                assert(has_char(l, '\n'));
            }
            lemma_lines_terminated(a);
        }
        assert(lines(a.push('\n') + last) == init + seq![last]) by {
            lemma_lines_append(a.push('\n'), last);
        }
        assert(join(parts, seq!['\n']) =~= a.push('\n') + last);
        assert(init + seq![last] =~= parts);
    }
}

/// The shape of `trim_start`: a suffix of `s`, after whitespace only.
proof fn lemma_trim_start_shape(s: Seq<char>)
    ensures
        trim_start(s).len() <= s.len(),
        trim_start(s) == s.skip(s.len() - trim_start(s).len()),
        forall|j: int| 0 <= j < s.len() - trim_start(s).len() ==> is_ws(#[trigger] s[j]),
        trim_start(s).len() > 0 ==> !is_ws(trim_start(s)[0]),
    decreases s.len(),
{
    if s.len() > 0 && is_ws(s[0]) {
        lemma_trim_start_shape(s.drop_first());
        assert(s.drop_first().skip(s.drop_first().len() - trim_start(s).len()) =~= s.skip(
            s.len() - trim_start(s).len(),
        ));
        assert forall|j: int| 0 <= j < s.len() - trim_start(s).len() implies is_ws(#[trigger] s[j]) by {
            if j > 0 {
                assert(s[j] == s.drop_first()[j - 1]);
            }
        }
    } else {
        assert(s.skip(0) =~= s);
    }
}

/// The leading whitespace of `l` is a prefix of it, all whitespace; with a
/// non-whitespace last character it is shorter than `l`; and dropping part
/// of it drops as much from the leading whitespace.
proof fn lemma_leading_ws(l: Seq<char>, k: int)
    requires
        0 <= k <= leading_ws(l).len(),
    ensures
        leading_ws(l).is_prefix_of(l),
        forall|j: int| 0 <= j < leading_ws(l).len() ==> is_ws(#[trigger] leading_ws(l)[j]),
        l.len() > 0 && !is_ws(l.last()) ==> leading_ws(l).len() < l.len(),
        leading_ws(l.skip(k)) == leading_ws(l).skip(k),
{
    lemma_trim_start_shape(l);
    let w = leading_ws(l);
    assert forall|j: int| 0 <= j < w.len() implies is_ws(#[trigger] w[j]) by {
        assert(w[j] == l[j]);
    }
    if l.len() > 0 && !is_ws(l.last()) && w.len() == l.len() {
        assert(is_ws(l[l.len() - 1]));
    }
    assert forall|j: int| 0 <= j < k implies is_ws(l[j]) by {
        assert(is_ws(l[j]));
    }
    lemma_trim_start_skip(l, k);
    assert(leading_ws(l.skip(k)) =~= w.skip(k));
}

/// The longest common prefix is a common prefix, and every common prefix
/// is a prefix of it.
proof fn lemma_common_prefix(a: Seq<char>, b: Seq<char>, p: Seq<char>)
    ensures
        common_prefix_len(a, b) <= a.len(),
        common_prefix_len(a, b) <= b.len(),
        common_prefix(a, b).is_prefix_of(a),
        common_prefix(a, b).is_prefix_of(b),
        p.is_prefix_of(a) && p.is_prefix_of(b) ==> p.is_prefix_of(common_prefix(a, b)),
    decreases a.len(),
{
    if a.len() > 0 && b.len() > 0 && a[0] == b[0] {
        let pp = if p.len() > 0 {
            p.drop_first()
        } else {
            p
        };
        lemma_common_prefix(a.drop_first(), b.drop_first(), pp);
        let c = common_prefix(a, b);
        let c1 = common_prefix(a.drop_first(), b.drop_first());
        assert(c =~= seq![a[0]] + c1);
        assert forall|j: int| 0 <= j < c.len() implies c[j] == b[j] by {
            if j > 0 {
                assert(c[j] == c1[j - 1]);
            }
        }
        if p.is_prefix_of(a) && p.is_prefix_of(b) && p.len() > 0 {
            assert(pp =~= a.drop_first().subrange(0, pp.len() as int)) by {
                assert forall|j: int| 0 <= j < pp.len() implies pp[j] == a.drop_first()[j] by {
                    assert(pp[j] == p[j + 1]);
                    assert(p[j + 1] == a[j + 1]);
                }
            }
            assert(pp =~= b.drop_first().subrange(0, pp.len() as int)) by {
                assert forall|j: int| 0 <= j < pp.len() implies pp[j] == b.drop_first()[j] by {
                    assert(pp[j] == p[j + 1]);
                    assert(p[j + 1] == b[j + 1]);
                }
            }
            assert(pp.is_prefix_of(c1));
            assert(p =~= c.subrange(0, p.len() as int)) by {
                assert forall|j: int| 0 <= j < p.len() implies p[j] == c[j] by {
                    if j > 0 {
                        assert(p[j] == pp[j - 1]);
                        assert(pp[j - 1] == c1[j - 1]);
                    } else {
                        assert(p[0] == a[0]);
                    }
                }
            }
        } else if p.len() == 0 {
            assert(p =~= c.subrange(0, 0));
        }
    } else {
        if p.is_prefix_of(a) && p.is_prefix_of(b) && p.len() > 0 {
            assert(p[0] == a[0]);
            assert(p[0] == b[0]);
        }
        assert(common_prefix(a, b) =~= seq![]);
        assert(seq![] =~= a.subrange(0, 0));
        assert(seq![] =~= b.subrange(0, 0));
        if p.len() == 0 {
            assert(p =~= common_prefix(a, b).subrange(0, 0));
        }
    }
}

/// The common indent of lines `[1, n)` is a prefix of the leading
/// whitespace of each, and every such common prefix is a prefix of it.
proof fn lemma_common_indent(ls: Seq<Seq<char>>, n: int, p: Seq<char>)
    requires
        2 <= n <= ls.len(),
    ensures
        forall|i: int| 1 <= i < n ==> common_indent(ls, n).is_prefix_of(#[trigger] leading_ws(ls[i])),
        (forall|i: int| 1 <= i < n ==> p.is_prefix_of(#[trigger] leading_ws(ls[i]))) ==> p.is_prefix_of(
            common_indent(ls, n),
        ),
    decreases n,
{
    if n > 2 {
        lemma_common_indent(ls, n - 1, p);
        let prev = common_indent(ls, n - 1);
        lemma_common_prefix(prev, leading_ws(ls[n - 1]), p);
        let c = common_indent(ls, n);
        assert forall|i: int| 1 <= i < n implies c.is_prefix_of(#[trigger] leading_ws(ls[i])) by {
            if i < n - 1 {
                assert(prev.is_prefix_of(leading_ws(ls[i])));
                assert forall|j: int| 0 <= j < c.len() implies c[j] == leading_ws(ls[i])[j] by {
                    assert(c[j] == prev[j]);
                }
            }
        }
    }
}

/// A line dedenting can work on: it has a non-whitespace character and
/// does not end in `'\r'` (trailing spaces are fine).
pub open spec fn text_line(l: Seq<char>) -> bool {
    trim_start(l).len() > 0 && l.last() != '\r'
}

/// On text whose lines each have a non-whitespace character (and do not end
/// in `'\r'`): one line or none comes back unchanged; otherwise the result
/// has the same lines, in order, each without the common indent of lines
/// 1.. where it starts with it, and no final line ending; and dedenting a
/// second time changes nothing.
pub proof fn law_dedent_is_idempotent(s: Seq<char>)
    requires
        forall|i: int| 0 <= i < lines(s).len() ==> text_line(#[trigger] lines(s)[i]),
    ensures
        lines(s).len() < 2 ==> dedent_spec(s) == s,
        lines(s).len() >= 2 ==> {
            let c = common_indent(lines(s), lines(s).len() as int);
            &&& lines(dedent_spec(s)) == lines(s).map_values(
                |l: Seq<char>| strip_prefix_or_keep(l, c),
            )
            &&& dedent_spec(s).last() != '\n'
        },
        dedent_spec(dedent_spec(s)) == dedent_spec(s),
{
    let ls = lines(s);
    if ls.len() >= 2 {
        let n = ls.len() as int;
        lemma_lines_have_no_newline(s);
        let c = common_indent(ls, n);
        lemma_common_indent(ls, n, c);
        let out = ls.map_values(|l: Seq<char>| strip_prefix_or_keep(l, c));
        assert(c.is_prefix_of(leading_ws(ls[1])));
        lemma_leading_ws(ls[1], 0);
        assert forall|j: int| 0 <= j < c.len() implies is_ws(#[trigger] c[j]) by {
            assert(c[j] == leading_ws(ls[1])[j]);
        }
        assert forall|i: int| 0 <= i < n implies plain_line(#[trigger] out[i]) by {
            let l = ls[i];
            assert(text_line(l));
            assert(!has_char(l, '\n'));
            lemma_trim_start_shape(l);
            let p = l.len() - trim_start(l).len();
            assert(!is_ws(l[p])) by {
                assert(trim_start(l)[0] == l[p]);
            }
            if c.is_prefix_of(l) {
                if c.len() == l.len() {
                    assert(c[p] == l[p]);
                }
                let o = l.skip(c.len() as int);
                assert(o.last() == l.last());
                if has_char(o, '\n') {
                    let k = choose|k: int| 0 <= k < o.len() && o[k] == '\n';
                    assert(l[k + c.len()] == '\n');
                }
            }
        }
        let d = join(out, seq!['\n']);
        assert(dedent_spec(s) == d);
        lemma_lines_of_join(out);
        assert(plain_line(out[n - 1]));
        lemma_join_last(out);
        if d.last() == '\n' {
            assert(has_char(out[n - 1], '\n'));
        }
        let c2 = common_indent(out, n);
        assert forall|i: int| 1 <= i < n implies (c + c2).is_prefix_of(#[trigger] leading_ws(ls[i])) by {
            let l = ls[i];
            let w = leading_ws(l);
            assert(c.is_prefix_of(w));
            lemma_leading_ws(l, 0);
            assert(c.is_prefix_of(l)) by {
                assert forall|j: int| 0 <= j < c.len() implies c[j] == l[j] by {
                    assert(c[j] == w[j]);
                    assert(w[j] == l[j]);
                }
            }
            lemma_leading_ws(l, c.len() as int);
            assert(out[i] == l.skip(c.len() as int));
            lemma_common_indent(out, n, c2);
            assert(c2.is_prefix_of(leading_ws(out[i])));
            assert(leading_ws(out[i]) == w.skip(c.len() as int));
            assert forall|j: int| 0 <= j < (c + c2).len() implies (c + c2)[j] == w[j] by {
                if j >= c.len() {
                    assert(c2[j - c.len()] == w.skip(c.len() as int)[j - c.len()]);
                }
            }
        }
        lemma_common_indent(ls, n, c + c2);
        assert(c2.len() == 0);
        assert(out.map_values(|l: Seq<char>| strip_prefix_or_keep(l, c2)) =~= out) by {
            assert forall|i: int| 0 <= i < n implies strip_prefix_or_keep(out[i], c2) == out[i] by {
                assert(c2.is_prefix_of(out[i]));
                assert(out[i].skip(0) =~= out[i]);
            }
        }
    }
}

/// A declaration too big by lines or bytes is too big, whatever its other
/// measure: descending wins over skipping.
pub proof fn law_too_big_wins(f: LengthFilter, lines: int, bytes: int)
    requires
        lines > f.max_lines || bytes > f.max_bytes,
    ensures
        classify_spec(f, lines, bytes) == SizeFit::TooBig,
{
}

proof fn lemma_kept_same_cover(
    source: Seq<u8>,
    lo: int,
    hi: int,
    r1: Seq<Range<usize>>,
    r2: Seq<Range<usize>>,
)
    requires
        forall|p: int| lo <= p < hi ==> covered(r1, p) == covered(r2, p),
    ensures
        kept_bytes(source, lo, hi, r1) == kept_bytes(source, lo, hi, r2),
    decreases hi - lo,
{
    if hi > lo {
        lemma_kept_same_cover(source, lo, hi - 1, r1, r2);
        assert(covered(r1, hi - 1) == covered(r2, hi - 1));
    }
}

/// The ranges to strip may come in any order: stripping a permutation of
/// them gives the same text.
pub proof fn law_strip_ignores_range_order(
    source: Seq<u8>,
    outer: Range<usize>,
    r1: Seq<Range<usize>>,
    r2: Seq<Range<usize>>,
)
    requires
        r1.to_multiset() == r2.to_multiset(),
    ensures
        strip_spec(source, outer, r1) == strip_spec(source, outer, r2),
{
    broadcast use vstd::seq_lib::group_to_multiset_ensures;

    assert forall|p: int| outer.start <= p < outer.end implies covered(r1, p) == covered(r2, p) by {
        if covered(r1, p) {
            let k = choose|k: int| 0 <= k < r1.len() && #[trigger] r1[k].start <= p < r1[k].end;
            assert(r1.contains(r1[k]));
            assert(r1.to_multiset().count(r1[k]) > 0);
            assert(r2.to_multiset().count(r1[k]) > 0);
            assert(r2.contains(r1[k]));
            let j = choose|j: int| 0 <= j < r2.len() && r2[j] == r1[k];
            assert(r2[j].start <= p < r2[j].end);
        }
        if covered(r2, p) {
            let k = choose|k: int| 0 <= k < r2.len() && #[trigger] r2[k].start <= p < r2[k].end;
            assert(r2.contains(r2[k]));
            assert(r2.to_multiset().count(r2[k]) > 0);
            assert(r1.to_multiset().count(r2[k]) > 0);
            assert(r1.contains(r2[k]));
            let j = choose|j: int| 0 <= j < r1.len() && r1[j] == r2[k];
            assert(r1[j].start <= p < r1[j].end);
        }
    }
    lemma_kept_same_cover(source, outer.start as int, outer.end as int, r1, r2);
}

proof fn lemma_kept_all(source: Seq<u8>, lo: int, hi: int)
    requires
        0 <= lo <= hi <= source.len(),
    ensures
        kept_bytes(source, lo, hi, seq![]) == source.subrange(lo, hi),
    decreases hi - lo,
{
    if hi > lo {
        lemma_kept_all(source, lo, hi - 1);
        assert(!covered(Seq::<Range<usize>>::empty(), hi - 1));
        assert(source.subrange(lo, hi - 1).push(source[hi - 1]) =~= source.subrange(lo, hi));
    } else {
        assert(source.subrange(lo, hi) =~= Seq::<u8>::empty());
    }
}

/// With nothing to strip, the whole range is kept.
pub proof fn law_strip_nothing_keeps_range(source: Seq<u8>, outer: Range<usize>)
    requires
        outer.start <= outer.end <= source.len(),
    ensures
        strip_spec(source, outer, seq![]) == if vstd::utf8::valid_utf8(
            source.subrange(outer.start as int, outer.end as int),
        ) {
            Ok(vstd::utf8::decode_utf8(source.subrange(outer.start as int, outer.end as int)))
        } else {
            Err(super::ExtractError::InvalidUtf8)
        },
{
    lemma_kept_all(source, outer.start as int, outer.end as int);
}

/// Every Exercise found by handling declaration `n` is within the filter's
/// byte bounds.
proof fn lemma_handle_within_bounds<C: LanguageConfig>(
    cfg: C,
    f: LengthFilter,
    n: SyntaxNode,
    source: Seq<u8>,
    path: Seq<char>,
    unit: IndentUnit,
)
    ensures
        handle_spec(cfg, f, n, source, path, unit) matches Ok(es) ==> forall|i: int|
            0 <= i < es.len() ==> f.min_bytes <= (#[trigger] es[i]).end - es[i].start <= f.max_bytes,
    decreases n, n.children@.len() + 2,
{
    if classify_spec(f, super::node_lines(n), super::node_bytes(n)) == SizeFit::TooBig {
        lemma_walk_within_bounds(cfg, f, n, n.children@.len() as int, source, path, unit);
    }
}

proof fn lemma_walk_within_bounds<C: LanguageConfig>(
    cfg: C,
    f: LengthFilter,
    n: SyntaxNode,
    k: int,
    source: Seq<u8>,
    path: Seq<char>,
    unit: IndentUnit,
)
    ensures
        walk_upto(cfg, f, n, k, source, path, unit) matches Ok(es) ==> forall|i: int|
            0 <= i < es.len() ==> f.min_bytes <= (#[trigger] es[i]).end - es[i].start <= f.max_bytes,
    decreases n, k,
{
    if 0 < k <= n.children@.len() {
        lemma_walk_within_bounds(cfg, f, n, k - 1, source, path, unit);
        let c = n.children@[k - 1];
        assert(decreases_to!(n => c));
        if c.is_named {
            if cfg.spec_is_declaration(c.kind@) {
                lemma_handle_within_bounds(cfg, f, c, source, path, unit);
            } else {
                lemma_walk_within_bounds(cfg, f, c, c.children@.len() as int, source, path, unit);
            }
        }
        match walk_upto(cfg, f, n, k, source, path, unit) {
            Ok(es) => {
                let acc = walk_upto(cfg, f, n, k - 1, source, path, unit)->Ok_0;
                assert forall|i: int| 0 <= i < es.len() implies f.min_bytes <= (
                #[trigger] es[i]).end - es[i].start <= f.max_bytes by {
                    if i >= acc.len() {
                        let h = if !c.is_named {
                            Seq::<ExerciseView>::empty()
                        } else if cfg.spec_is_declaration(c.kind@) {
                            handle_spec(cfg, f, c, source, path, unit)->Ok_0
                        } else {
                            walk_spec(cfg, f, c, source, path, unit)->Ok_0
                        };
                        assert(es[i] == h[i - acc.len()]);
                    } else {
                        assert(es[i] == acc[i]);
                    }
                }
            },
            Err(_) => {},
        }
    }
}

/// Byte ranges inside `[lo, hi]`, each with its start before its end, and
/// each ending before the next one starts: disjoint and ascending.
pub open spec fn ranges_in_order(es: Seq<ExerciseView>, lo: int, hi: int) -> bool {
    &&& forall|i: int| 0 <= i < es.len() ==> lo <= (#[trigger] es[i]).start <= es[i].end <= hi
    &&& forall|i: int, j: int|
        0 <= i < j < es.len() ==> (#[trigger] es[i]).end <= (#[trigger] es[j]).start
}

/// Where the first `k` children of `n` end (where `n` starts, for none).
spec fn children_end(n: SyntaxNode, k: int) -> int {
    if k <= 0 || k > n.children@.len() {
        n.start_byte as int
    } else {
        n.children@[k - 1].end_byte as int
    }
}

proof fn lemma_handle_in_order<C: LanguageConfig>(
    cfg: C,
    f: LengthFilter,
    n: SyntaxNode,
    source: Seq<u8>,
    path: Seq<char>,
    unit: IndentUnit,
)
    requires
        node_wf(n, source.len() as int),
    ensures
        handle_spec(cfg, f, n, source, path, unit) matches Ok(es) ==> ranges_in_order(
            es,
            n.start_byte as int,
            n.end_byte as int,
        ),
    decreases n, n.children@.len() + 2,
{
    if classify_spec(f, super::node_lines(n), super::node_bytes(n)) == SizeFit::TooBig {
        lemma_walk_in_order(cfg, f, n, n.children@.len() as int, source, path, unit);
        if n.children@.len() > 0 {
            assert(n.children@[n.children@.len() - 1].end_byte <= n.end_byte);
        }
    }
}

proof fn lemma_walk_in_order<C: LanguageConfig>(
    cfg: C,
    f: LengthFilter,
    n: SyntaxNode,
    k: int,
    source: Seq<u8>,
    path: Seq<char>,
    unit: IndentUnit,
)
    requires
        node_wf(n, source.len() as int),
    ensures
        walk_upto(cfg, f, n, k, source, path, unit) matches Ok(es) ==> ranges_in_order(
            es,
            n.start_byte as int,
            children_end(n, k),
        ),
    decreases n, k,
{
    if 0 < k <= n.children@.len() {
        lemma_walk_in_order(cfg, f, n, k - 1, source, path, unit);
        let c = n.children@[k - 1];
        assert(decreases_to!(n => c));
        assert(node_wf(c, source.len() as int));
        let lo = n.start_byte as int;
        let mid = children_end(n, k - 1);
        assert(mid <= c.start_byte) by {
            if k - 1 > 0 {
                assert(n.children@[k - 2].end_byte <= n.children@[k - 1].start_byte);
            }
        }
        assert(c.start_byte <= c.end_byte);
        if c.is_named {
            if cfg.spec_is_declaration(c.kind@) {
                lemma_handle_in_order(cfg, f, c, source, path, unit);
            } else {
                lemma_walk_in_order(cfg, f, c, c.children@.len() as int, source, path, unit);
                if c.children@.len() > 0 {
                    assert(c.children@[c.children@.len() - 1].end_byte <= c.end_byte);
                }
            }
        }
        match walk_upto(cfg, f, n, k, source, path, unit) {
            Ok(es) => {
                let acc = walk_upto(cfg, f, n, k - 1, source, path, unit)->Ok_0;
                let h = if !c.is_named {
                    Seq::<ExerciseView>::empty()
                } else if cfg.spec_is_declaration(c.kind@) {
                    handle_spec(cfg, f, c, source, path, unit)->Ok_0
                } else {
                    walk_spec(cfg, f, c, source, path, unit)->Ok_0
                };
                assert(es == acc + h);
                assert(ranges_in_order(h, c.start_byte as int, c.end_byte as int));
                assert(ranges_in_order(acc, lo, mid));
                assert forall|i: int| 0 <= i < es.len() implies lo <= (#[trigger] es[i]).start
                    <= es[i].end <= children_end(n, k) by {
                    if i >= acc.len() {
                        assert(es[i] == h[i - acc.len()]);
                    } else {
                        assert(es[i] == acc[i]);
                    }
                }
                assert forall|i: int, j: int| 0 <= i < j < es.len() implies (#[trigger] es[i]).end
                    <= (#[trigger] es[j]).start by {
                    if j < acc.len() {
                        assert(es[i] == acc[i] && es[j] == acc[j]);
                    } else if i >= acc.len() {
                        assert(es[i] == h[i - acc.len()] && es[j] == h[j - acc.len()]);
                    } else {
                        assert(es[i] == acc[i] && es[j] == h[j - acc.len()]);
                    }
                }
            },
            Err(_) => {},
        }
    } else if k <= 0 {
        assert(walk_upto(cfg, f, n, k, source, path, unit) == Ok::<Seq<ExerciseView>, ExtractError>(
            seq![],
        ));
    }
}

/// The Exercises extracted under a well-formed node come from disjoint byte
/// ranges inside it, in source order.
pub proof fn law_extracted_ranges_are_disjoint<C: LanguageConfig>(
    cfg: C,
    f: LengthFilter,
    n: SyntaxNode,
    source: Seq<u8>,
    path: Seq<char>,
    unit: IndentUnit,
)
    requires
        node_wf(n, source.len() as int),
    ensures
        walk_spec(cfg, f, n, source, path, unit) matches Ok(es) ==> ranges_in_order(
            es,
            n.start_byte as int,
            n.end_byte as int,
        ),
{
    lemma_walk_in_order(cfg, f, n, n.children@.len() as int, source, path, unit);
    if n.children@.len() > 0 {
        assert(n.children@[n.children@.len() - 1].end_byte <= n.end_byte);
    }
}

/// Every Exercise extracted under a node has a size in bytes within the
/// filter's bounds: what is too small is skipped and what is too big is
/// only descended into.
pub proof fn law_exercises_fit_the_filter<C: LanguageConfig>(
    cfg: C,
    f: LengthFilter,
    n: SyntaxNode,
    source: Seq<u8>,
    path: Seq<char>,
    unit: IndentUnit,
    i: int,
)
    requires
        walk_spec(cfg, f, n, source, path, unit) is Ok,
        0 <= i < walk_spec(cfg, f, n, source, path, unit)->Ok_0.len(),
    ensures
        f.min_bytes <= walk_spec(cfg, f, n, source, path, unit)->Ok_0[i].end - walk_spec(
            cfg,
            f,
            n,
            source,
            path,
            unit,
        )->Ok_0[i].start <= f.max_bytes,
{
    lemma_walk_within_bounds(cfg, f, n, n.children@.len() as int, source, path, unit);
}

} // verus!
