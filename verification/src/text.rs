//! Character-level text primitives shared by the parsers and the extractor.
//!
//! Text is handled as sequences of `char`s. Each exec helper here is proved
//! against a spec function that states the meaning of the corresponding
//! `str` operation (Unicode whitespace, `trim`, `lines`, joining with a
//! separator, ...).

use vstd::prelude::*;

verus! {

/// Unicode `White_Space` property (what `char::is_whitespace` tests).
pub open spec fn is_ws(c: char) -> bool {
    let u = c as u32;
    ||| (0x09 <= u && u <= 0x0d)
    ||| u == 0x20
    ||| u == 0x85
    ||| u == 0xa0
    ||| u == 0x1680
    ||| (0x2000 <= u && u <= 0x200a)
    ||| u == 0x2028
    ||| u == 0x2029
    ||| u == 0x202f
    ||| u == 0x205f
    ||| u == 0x3000
}

/// Unicode general category `Cc` (what `char::is_control` tests).
pub open spec fn is_ctrl(c: char) -> bool {
    let u = c as u32;
    u <= 0x1f || (0x7f <= u && u <= 0x9f)
}

/// Whitespace test, as `char::is_whitespace`.
pub fn is_whitespace(c: char) -> (r: bool)
    ensures
        r == is_ws(c),
{
    let u = c as u32;
    (0x09 <= u && u <= 0x0d) || u == 0x20 || u == 0x85 || u == 0xa0 || u == 0x1680 || (0x2000
        <= u && u <= 0x200a) || u == 0x2028 || u == 0x2029 || u == 0x202f || u == 0x205f || u
        == 0x3000
}

/// Control-character test, as `char::is_control`.
pub fn is_control(c: char) -> (r: bool)
    ensures
        r == is_ctrl(c),
{
    let u = c as u32;
    u <= 0x1f || (0x7f <= u && u <= 0x9f)
}

/// `s` without its leading whitespace.
pub open spec fn trim_start(s: Seq<char>) -> Seq<char>
    decreases s.len(),
{
    if s.len() > 0 && is_ws(s[0]) {
        trim_start(s.drop_first())
    } else {
        s
    }
}

/// `s` without its trailing whitespace.
pub open spec fn trim_end(s: Seq<char>) -> Seq<char>
    decreases s.len(),
{
    if s.len() > 0 && is_ws(s.last()) {
        trim_end(s.drop_last())
    } else {
        s
    }
}

/// `s` without leading and trailing whitespace (`str::trim`).
pub open spec fn trim(s: Seq<char>) -> Seq<char> {
    trim_end(trim_start(s))
}

/// `s` without any leading run of `c` (`str::trim_start_matches` with a char).
pub open spec fn trim_start_char(s: Seq<char>, c: char) -> Seq<char>
    decreases s.len(),
{
    if s.len() > 0 && s[0] == c {
        trim_start_char(s.drop_first(), c)
    } else {
        s
    }
}

/// Index of the first `c` in `s`, or `s.len()` when there is none.
pub open spec fn find_char(s: Seq<char>, c: char) -> int
    decreases s.len(),
{
    if s.len() == 0 {
        0
    } else if s[0] == c {
        0
    } else {
        1 + find_char(s.drop_first(), c)
    }
}

/// Whether `c` occurs in `s`.
pub open spec fn has_char(s: Seq<char>, c: char) -> bool {
    exists|i: int| 0 <= i < s.len() && s[i] == c
}

pub proof fn lemma_find_char(s: Seq<char>, c: char)
    ensures
        0 <= find_char(s, c) <= s.len(),
        forall|j: int| 0 <= j < find_char(s, c) ==> s[j] != c,
        find_char(s, c) < s.len() ==> s[find_char(s, c)] == c,
        (find_char(s, c) == s.len()) <==> !has_char(s, c),
    decreases s.len(),
{
    if s.len() > 0 && s[0] != c {
        lemma_find_char(s.drop_first(), c);
        assert forall|j: int| 0 <= j < find_char(s, c) implies s[j] != c by {
            if j > 0 {
                assert(s[j] == s.drop_first()[j - 1]);
            }
        }
        if has_char(s, c) {
            let k = choose|k: int| 0 <= k < s.len() && s[k] == c;
            assert(s.drop_first()[k - 1] == c);
        }
        if has_char(s.drop_first(), c) {
            let k = choose|k: int| 0 <= k < s.drop_first().len() && s.drop_first()[k] == c;
            assert(s[k + 1] == c);
        }
    }
}

/// A line without the `'\r'` of a `"\r\n"` line ending.
pub open spec fn strip_cr(line: Seq<char>) -> Seq<char> {
    if line.len() > 0 && line.last() == '\r' {
        line.drop_last()
    } else {
        line
    }
}

/// The lines of `s`, as `str::lines` yields them: split at `'\n'`, a `'\r'`
/// just before a `'\n'` dropped, and no empty last line for a final line
/// ending.
pub open spec fn lines(s: Seq<char>) -> Seq<Seq<char>>
    decreases s.len(),
{
    if s.len() == 0 {
        seq![]
    } else {
        let i = find_char(s, '\n');
        if i >= s.len() {
            seq![s]
        } else {
            proof {
                lemma_find_char(s, '\n');
            }
            seq![strip_cr(s.take(i))] + lines(s.skip(i + 1))
        }
    }
}

/// The pieces of `parts` joined by `sep` (`[T]::join`).
pub open spec fn join(parts: Seq<Seq<char>>, sep: Seq<char>) -> Seq<char>
    decreases parts.len(),
{
    if parts.len() == 0 {
        seq![]
    } else if parts.len() == 1 {
        parts[0]
    } else {
        join(parts.drop_last(), sep) + sep + parts.last()
    }
}

/// The views of a vector of character vectors.
pub open spec fn views(v: Seq<Vec<char>>) -> Seq<Seq<char>> {
    v.map_values(|l: Vec<char>| l@)
}

pub proof fn lemma_trim_start_skip(s: Seq<char>, k: int)
    requires
        0 <= k <= s.len(),
        forall|j: int| 0 <= j < k ==> is_ws(s[j]),
    ensures
        trim_start(s) == trim_start(s.skip(k)),
    decreases k,
{
    if k > 0 {
        assert(s.skip(1) =~= s.drop_first());
        lemma_trim_start_skip(s.drop_first(), k - 1);
        assert(s.drop_first().skip(k - 1) =~= s.skip(k));
    } else {
        assert(s.skip(0) =~= s);
    }
}

pub proof fn lemma_trim_end_take(s: Seq<char>, k: int)
    requires
        0 <= k <= s.len(),
        forall|j: int| k <= j < s.len() ==> is_ws(s[j]),
    ensures
        trim_end(s) == trim_end(s.take(k)),
    decreases s.len() - k,
{
    if k < s.len() {
        assert(s.take(s.len() - 1) =~= s.drop_last());
        lemma_trim_end_take(s.drop_last(), k);
        assert(s.drop_last().take(k) =~= s.take(k));
    } else {
        assert(s.take(s.len() as int) =~= s);
    }
}

pub proof fn lemma_trim_start_char_skip(s: Seq<char>, c: char, k: int)
    requires
        0 <= k <= s.len(),
        forall|j: int| 0 <= j < k ==> s[j] == c,
    ensures
        trim_start_char(s, c) == trim_start_char(s.skip(k), c),
    decreases k,
{
    if k > 0 {
        lemma_trim_start_char_skip(s.drop_first(), c, k - 1);
        assert(s.drop_first().skip(k - 1) =~= s.skip(k));
    } else {
        assert(s.skip(0) =~= s);
    }
}

/// Number of leading whitespace characters of `s`.
pub fn leading_ws_len(s: &[char]) -> (n: usize)
    ensures
        n <= s@.len(),
        s@.skip(n as int) == trim_start(s@),
        forall|j: int| 0 <= j < n ==> is_ws(s@[j]),
{
    let mut i: usize = 0;
    while i < s.len() && is_whitespace(s[i])
        invariant
            i <= s@.len(),
            forall|j: int| 0 <= j < i ==> is_ws(s@[j]),
        decreases s@.len() - i,
    {
        i = i + 1;
    }
    proof {
        lemma_trim_start_skip(s@, i as int);
        let t = s@.skip(i as int);
        if t.len() > 0 {
            assert(t[0] == s@[i as int]);
        }
    }
    i
}

/// Length of `s` once its trailing whitespace is removed.
pub fn trimmed_end_len(s: &[char]) -> (n: usize)
    ensures
        n <= s@.len(),
        s@.take(n as int) == trim_end(s@),
{
    let mut i: usize = s.len();
    while i > 0 && is_whitespace(s[i - 1])
        invariant
            i <= s@.len(),
            forall|j: int| i <= j < s@.len() ==> is_ws(s@[j]),
        decreases i,
    {
        i = i - 1;
    }
    proof {
        lemma_trim_end_take(s@, i as int);
        let t = s@.take(i as int);
        if t.len() > 0 {
            assert(t.last() == s@[i - 1]);
        }
    }
    i
}

/// The characters of `s[from..to]` as a new vector.
pub fn slice_to_vec(s: &[char], from: usize, to: usize) -> (r: Vec<char>)
    requires
        from <= to <= s@.len(),
    ensures
        r@ == s@.subrange(from as int, to as int),
{
    let mut r: Vec<char> = Vec::new();
    let mut i = from;
    while i < to
        invariant
            from <= i <= to <= s@.len(),
            r@ == s@.subrange(from as int, i as int),
        decreases to - i,
    {
        r.push(s[i]);
        i = i + 1;
    }
    r
}

/// `s` without leading whitespace.
pub fn trim_start_chars(s: &[char]) -> (r: Vec<char>)
    ensures
        r@ == trim_start(s@),
{
    let n = leading_ws_len(s);
    slice_to_vec(s, n, s.len())
}

/// `s` without trailing whitespace.
pub fn trim_end_chars(s: &[char]) -> (r: Vec<char>)
    ensures
        r@ == trim_end(s@),
{
    let n = trimmed_end_len(s);
    slice_to_vec(s, 0, n)
}

/// `s` without leading and trailing whitespace.
pub fn trim_chars(s: &[char]) -> (r: Vec<char>)
    ensures
        r@ == trim(s@),
{
    let a = trim_start_chars(s);
    trim_end_chars(a.as_slice())
}

/// `s` without any leading run of `c`.
pub fn trim_start_char_chars(s: &[char], c: char) -> (r: Vec<char>)
    ensures
        r@ == trim_start_char(s@, c),
{
    let mut i: usize = 0;
    while i < s.len() && s[i] == c
        invariant
            i <= s@.len(),
            forall|j: int| 0 <= j < i ==> s@[j] == c,
        decreases s@.len() - i,
    {
        i = i + 1;
    }
    proof {
        lemma_trim_start_char_skip(s@, c, i as int);
        let t = s@.skip(i as int);
        if t.len() > 0 {
            assert(t[0] == s@[i as int]);
        }
    }
    slice_to_vec(s, i, s.len())
}

/// Position of the first `c` in `s`, or `s.len()`.
pub fn find_char_in(s: &[char], c: char) -> (i: usize)
    ensures
        i == find_char(s@, c),
        i <= s@.len(),
{
    let mut i: usize = 0;
    while i < s.len() && s[i] != c
        invariant
            i <= s@.len(),
            forall|j: int| 0 <= j < i ==> s@[j] != c,
        decreases s@.len() - i,
    {
        i = i + 1;
    }
    proof {
        lemma_find_char(s@, c);
        let f = find_char(s@, c);
        if f < i {
            assert(s@[f] == c);
        }
        if i < f {
            assert(s@[i as int] == c);
        }
    }
    i
}

/// Whether `c` occurs in `s`.
pub fn contains_char(s: &[char], c: char) -> (r: bool)
    ensures
        r == has_char(s@, c),
{
    let i = find_char_in(s, c);
    proof {
        lemma_find_char(s@, c);
    }
    i < s.len()
}

pub proof fn lemma_lines_step(s: Seq<char>, i: int)
    requires
        s.len() > 0,
        i == find_char(s, '\n'),
        i < s.len(),
    ensures
        lines(s) == seq![strip_cr(s.take(i))] + lines(s.skip(i + 1)),
{
}

pub proof fn lemma_find_char_is(s: Seq<char>, c: char, i: int)
    requires
        0 <= i <= s.len(),
        i < s.len() ==> s[i] == c,
        forall|j: int| 0 <= j < i ==> s[j] != c,
    ensures
        find_char(s, c) == i,
    decreases i,
{
    if i > 0 {
        assert forall|j: int| 0 <= j < i - 1 implies s.drop_first()[j] != c by {
            assert(s.drop_first()[j] == s[j + 1]);
        }
        if i < s.len() {
            assert(s.drop_first()[i - 1] == s[i]);
        }
        lemma_find_char_is(s.drop_first(), c, i - 1);
    }
}

/// The lines of text that ends with a line ending (or is empty) and of what
/// follows it are the lines of both.
pub proof fn lemma_lines_append(x: Seq<char>, y: Seq<char>)
    requires
        x.len() == 0 || x.last() == '\n',
    ensures
        lines(x + y) == lines(x) + lines(y),
    decreases x.len(),
{
    if x.len() == 0 {
        assert(x + y =~= y);
        assert(lines(x) + lines(y) =~= lines(y));
    } else {
        lemma_find_char(x, '\n');
        let i = find_char(x, '\n');
        if i == x.len() {
            assert(x[x.len() - 1] == '\n');
        }
        assert(i < x.len());
        let s = x + y;
        assert forall|j: int| 0 <= j < i implies s[j] != '\n' by {
            assert(s[j] == x[j]);
        }
        lemma_find_char_is(s, '\n', i);
        lemma_lines_step(s, i);
        lemma_lines_step(x, i);
        assert(s.take(i) =~= x.take(i));
        assert(s.skip(i + 1) =~= x.skip(i + 1) + y);
        let rest = x.skip(i + 1);
        if rest.len() > 0 {
            assert(rest.last() == x.last());
        }
        lemma_lines_append(rest, y);
        assert(lines(s) =~= lines(x) + lines(y));
    }
}

/// A line ending after text that does not end a line adds no line.
pub proof fn lemma_lines_terminated(a: Seq<char>)
    requires
        a.len() > 0,
        a.last() != '\n',
        a.last() != '\r',
    ensures
        lines(a.push('\n')) == lines(a),
    decreases a.len(),
{
    lemma_find_char(a, '\n');
    let i = find_char(a, '\n');
    let s = a.push('\n');
    assert forall|j: int| 0 <= j < i implies s[j] != '\n' by {
        assert(s[j] == a[j]);
    }
    if i == a.len() {
        lemma_find_char_is(s, '\n', i);
        lemma_lines_step(s, i);
        assert(s.take(i) =~= a);
        assert(s.skip(i + 1) =~= Seq::<char>::empty());
        assert(lines(s) =~= seq![a]);
    } else {
        assert(i < a.len() - 1);
        lemma_find_char_is(s, '\n', i);
        lemma_lines_step(s, i);
        lemma_lines_step(a, i);
        assert(s.take(i) =~= a.take(i));
        let rest = a.skip(i + 1);
        assert(s.skip(i + 1) =~= rest.push('\n'));
        assert(rest.last() == a.last());
        lemma_lines_terminated(rest);
    }
}

/// Text without a line ending is one line.
pub proof fn lemma_lines_single(a: Seq<char>)
    requires
        a.len() > 0,
        !has_char(a, '\n'),
    ensures
        lines(a) == seq![a],
{
    lemma_find_char(a, '\n');
}

/// `[a] + rest` joined is `a`, the separator, then `rest` joined.
pub proof fn lemma_join_cons(a: Seq<char>, rest: Seq<Seq<char>>, sep: Seq<char>)
    requires
        rest.len() > 0,
    ensures
        join(seq![a] + rest, sep) == a + sep + join(rest, sep),
    decreases rest.len(),
{
    let parts = seq![a] + rest;
    assert(parts.last() == rest.last());
    if rest.len() == 1 {
        assert(parts.drop_last() =~= seq![a]);
        assert(join(seq![a], sep) == a);
        assert(join(rest, sep) == rest[0]);
        assert(join(parts, sep) == join(parts.drop_last(), sep) + sep + parts.last());
    } else {
        assert(parts.drop_last() =~= seq![a] + rest.drop_last());
        lemma_join_cons(a, rest.drop_last(), sep);
        assert(join(parts, sep) == join(parts.drop_last(), sep) + sep + parts.last());
        assert(join(rest, sep) == join(rest.drop_last(), sep) + sep + rest.last());
        assert(join(parts, sep) =~= a + sep + join(rest, sep));
    }
}

/// Joining the lines of text without CRLF endings and without a final line
/// ending gives the text back.
pub proof fn lemma_join_lines(p: Seq<char>)
    requires
        p.len() == 0 || p.last() != '\n',
        forall|i: int| 0 <= i < p.len() - 1 && #[trigger] p[i + 1] == '\n' ==> p[i] != '\r',
    ensures
        join(lines(p), seq!['\n']) == p,
    decreases p.len(),
{
    if p.len() > 0 {
        lemma_find_char(p, '\n');
        let i = find_char(p, '\n');
        if i == p.len() {
            lemma_lines_single(p);
        } else {
            assert(i < p.len() - 1);
            lemma_lines_step(p, i);
            let rest = p.skip(i + 1);
            assert(rest.last() == p.last());
            assert forall|k: int| 0 <= k < rest.len() - 1 && #[trigger] rest[k + 1] == '\n' implies rest[k] != '\r' by {
                let j = k + i + 1;
                assert(rest[k + 1] == p[j + 1]);
                assert(rest[k] == p[j]);
            }
            lemma_join_lines(rest);
            if i > 0 {
                let j = i - 1;
                assert(p[j + 1] == '\n');
                assert(p.take(i).last() == p[j]);
            }
            assert(strip_cr(p.take(i)) == p.take(i));
            lemma_lines_single_or_more(rest);
            lemma_join_cons(p.take(i), lines(rest), seq!['\n']);
            assert(p.take(i) + seq!['\n'] + rest =~= p);
        }
    }
}

pub proof fn lemma_lines_single_or_more(s: Seq<char>)
    requires
        s.len() > 0,
    ensures
        lines(s).len() > 0,
{
    lemma_find_char(s, '\n');
}

/// `l` without the `'\r'` of a `"\r\n"` ending.
pub fn strip_cr_vec(l: Vec<char>) -> (r: Vec<char>)
    ensures
        r@ == strip_cr(l@),
{
    let mut l = l;
    if l.len() > 0 && l[l.len() - 1] == '\r' {
        l.pop();
    }
    l
}

/// The lines of `s`, as `str::lines` yields them.
pub fn split_lines(s: &[char]) -> (r: Vec<Vec<char>>)
    ensures
        views(r@) == lines(s@),
{
    let mut r: Vec<Vec<char>> = Vec::new();
    let mut start: usize = 0;
    proof {
        assert(views(r@) =~= seq![]);
        assert(s@.skip(0) =~= s@);
    }
    while start < s.len()
        invariant
            start <= s@.len(),
            views(r@) + lines(s@.skip(start as int)) == lines(s@),
        decreases s@.len() - start,
    {
        let ghost rest = s@.skip(start as int);
        let mut j = start;
        while j < s.len() && s[j] != '\n'
            invariant
                start <= j <= s@.len(),
                forall|k: int| start <= k < j ==> s@[k] != '\n',
            decreases s@.len() - j,
        {
            j = j + 1;
        }
        proof {
            lemma_find_char(rest, '\n');
            let f = find_char(rest, '\n');
            if f < j - start {
                assert(rest[f] == s@[start + f]);
            }
            if j < s@.len() && j - start < f {
                assert(rest[j - start] == s@[j as int]);
            }
            assert(f == j - start);
        }
        let piece = slice_to_vec(s, start, j);
        let line = if j < s.len() {
            strip_cr_vec(piece)
        } else {
            piece
        };
        let ghost old_r = r@;
        r.push(line);
        proof {
            assert(views(r@) =~= views(old_r).push(line@));
            assert(rest.take(j - start) =~= s@.subrange(start as int, j as int));
        }
        if j < s.len() {
            proof {
                lemma_lines_step(rest, j - start);
                assert(rest.skip(j - start + 1) =~= s@.skip(j + 1));
                assert(views(old_r) + lines(rest) =~= views(old_r) + (seq![line@] + lines(
                    s@.skip(j + 1),
                )));
                assert(views(old_r) + (seq![line@] + lines(s@.skip(j + 1))) =~= views(r@)
                    + lines(s@.skip(j + 1)));
            }
            start = j + 1;
        } else {
            proof {
                assert(rest =~= s@.subrange(start as int, j as int));
                assert(lines(s@.skip(j as int)) =~= seq![]);
                assert(views(r@) + lines(s@.skip(j as int)) =~= views(r@));
                assert(views(old_r) + lines(rest) =~= views(r@));
            }
            start = j;
        }
    }
    proof {
        assert(lines(s@.skip(start as int)) =~= seq![]);
        assert(views(r@) + seq![] =~= views(r@));
    }
    r
}

/// The pieces of `parts` joined with `sep` between them.
pub fn join_chars(parts: &Vec<Vec<char>>, sep: &[char]) -> (r: Vec<char>)
    ensures
        r@ == join(views(parts@), sep@),
{
    let mut r: Vec<char> = Vec::new();
    let mut i: usize = 0;
    while i < parts.len()
        invariant
            i <= parts@.len(),
            r@ == join(views(parts@).take(i as int), sep@),
        decreases parts@.len() - i,
    {
        let ghost before = r@;
        if i > 0 {
            let mut k: usize = 0;
            while k < sep.len()
                invariant
                    k <= sep@.len(),
                    r@ == before + sep@.take(k as int),
                decreases sep@.len() - k,
            {
                r.push(sep[k]);
                k = k + 1;
                proof {
                    assert(sep@.take(k as int) =~= sep@.take(k - 1).push(sep@[k - 1]));
                }
            }
        }
        let ghost mid = r@;
        let part = &parts[i];
        let mut k: usize = 0;
        while k < part.len()
            invariant
                k <= part@.len(),
                r@ == mid + part@.take(k as int),
            decreases part@.len() - k,
        {
            r.push(part[k]);
            k = k + 1;
            proof {
                assert(part@.take(k as int) =~= part@.take(k - 1).push(part@[k - 1]));
            }
        }
        proof {
            let vs = views(parts@);
            let t = vs.take(i + 1);
            assert(t.drop_last() =~= vs.take(i as int));
            assert(t.last() == part@);
            assert(part@.take(part@.len() as int) =~= part@);
            assert(sep@.take(sep@.len() as int) =~= sep@);
            if i == 0 {
                assert(join(vs.take(0), sep@) =~= seq![]);
                assert(r@ =~= part@);
            }
        }
        i = i + 1;
    }
    proof {
        assert(views(parts@).take(parts@.len() as int) =~= views(parts@));
    }
    r
}

/// Append the characters of `s` to `out`.
pub fn append_chars(out: &mut Vec<char>, s: &[char])
    ensures
        final(out)@ == old(out)@ + s@,
{
    let mut i: usize = 0;
    while i < s.len()
        invariant
            i <= s@.len(),
            out@ == old(out)@ + s@.take(i as int),
        decreases s@.len() - i,
    {
        out.push(s[i]);
        i = i + 1;
        proof {
            assert(s@.take(i as int) =~= s@.take(i - 1).push(s@[i - 1]));
        }
    }
    proof {
        assert(s@.take(s@.len() as int) =~= s@);
    }
}

/// Whether `a` and `b` hold the same characters.
pub fn chars_eq(a: &[char], b: &[char]) -> (r: bool)
    ensures
        r == (a@ == b@),
{
    if a.len() != b.len() {
        return false;
    }
    let mut i: usize = 0;
    while i < a.len()
        invariant
            a@.len() == b@.len(),
            i <= a@.len(),
            forall|j: int| 0 <= j < i ==> a@[j] == b@[j],
        decreases a@.len() - i,
    {
        if a[i] != b[i] {
            return false;
        }
        i = i + 1;
    }
    proof {
        assert(a@ =~= b@);
    }
    true
}

/// Whether `p` is a prefix of `s`.
pub fn starts_with_chars(s: &[char], p: &[char]) -> (r: bool)
    ensures
        r == p@.is_prefix_of(s@),
{
    if p.len() > s.len() {
        return false;
    }
    let mut i: usize = 0;
    while i < p.len()
        invariant
            p@.len() <= s@.len(),
            i <= p@.len(),
            forall|j: int| 0 <= j < i ==> p@[j] == s@[j],
        decreases p@.len() - i,
    {
        if p[i] != s[i] {
            return false;
        }
        i = i + 1;
    }
    true
}

/// A `String` holding `s` followed by `t`.
pub fn concat_string(s: &str, t: &[char]) -> (r: String)
    ensures
        r@ == s@ + t@,
{
    let mut v = chars_of(s);
    let mut i: usize = 0;
    let ghost start = v@;
    while i < t.len()
        invariant
            i <= t@.len(),
            v@ == start + t@.take(i as int),
        decreases t@.len() - i,
    {
        v.push(t[i]);
        i = i + 1;
        proof {
            assert(t@.take(i as int) =~= t@.take(i - 1).push(t@[i - 1]));
        }
    }
    proof {
        assert(t@.take(t@.len() as int) =~= t@);
    }
    string_of(v.as_slice())
}

/// The views of a sequence of string slices.
pub open spec fn str_views(s: Seq<&str>) -> Seq<Seq<char>> {
    s.map_values(|x: &str| x@)
}

/// Whether `s` equals one of `options`.
pub fn str_among(s: &str, options: &Vec<&'static str>) -> (r: bool)
    ensures
        r == str_views(options@).contains(s@),
{
    let target = chars_of(s);
    let mut i: usize = 0;
    while i < options.len()
        invariant
            i <= options@.len(),
            target@ == s@,
            forall|j: int| 0 <= j < i ==> options@[j]@ != s@,
        decreases options@.len() - i,
    {
        let option: &str = options[i];
        assert(option@ == options@[i as int]@);
        let o = chars_of(option);
        if chars_eq(o.as_slice(), target.as_slice()) {
            proof {
                assert(str_views(options@)[i as int] == s@);
            }
            return true;
        }
        i = i + 1;
    }
    proof {
        if str_views(options@).contains(s@) {
            let k = choose|k: int| 0 <= k < str_views(options@).len() && str_views(options@)[k] == s@;
            assert(options@[k]@ == s@);
        }
    }
    false
}

/// The views of a sequence of strings.
pub open spec fn string_views(s: Seq<String>) -> Seq<Seq<char>> {
    s.map_values(|x: String| x@)
}

/// The characters of `s`.
pub fn chars_of(s: &str) -> (r: Vec<char>)
    ensures
        r@ == s@,
{
    broadcast use vstd::string::group_string_axioms;

    let mut r: Vec<char> = Vec::new();
    for c in it: s.chars()
        invariant
            r@ == it.seq().take(it.index() as int),
    {
        r.push(c);
    }
    r
}

/// A `String` made of the characters of `v` (`String::from_iter`).
#[verifier::external_body]
pub(crate) fn string_of(v: &[char]) -> (r: String)
    ensures
        r@ == v@,
{
    String::from_iter(v.iter())
}

/// `String::from_utf8`: `Some` exactly when `bytes` is valid UTF-8, and then
/// holding the decoded characters.
#[verifier::external_body]
pub(crate) fn string_from_utf8(bytes: Vec<u8>) -> (r: Option<String>)
    ensures
        r is Some <==> vstd::utf8::valid_utf8(bytes@),
        r matches Some(s) ==> s@ == vstd::utf8::decode_utf8(bytes@),
{
    String::from_utf8(bytes).ok()
}

} // verus!
