//! The text of the `CODETYPE.md` leaderboard and the player identity that
//! its rows are keyed by.
//!
//! The file is prose (the preamble) followed by a Markdown table whose first
//! cell in the header row is `Player`. This module splits a document into the
//! preamble and the table's data rows, and renders them back: the table is
//! the source of truth, a row the caller cannot understand is kept as it
//! stands, and rows come out in the order they are given. The numbers inside
//! the rows are read and written by the caller.

use std::time::{Duration, SystemTime, UNIX_EPOCH};
use vstd::prelude::*;

use crate::clock::{decimal, push_decimal, whole_seconds};
use crate::text::{
    append_chars, chars_eq, chars_of, find_char, has_char, is_control, is_ctrl, is_whitespace,
    is_ws, join, join_chars, lemma_find_char, lemma_find_char_is, lemma_join_lines,
    lemma_lines_append, lemma_lines_single, lemma_lines_single_or_more, lemma_lines_step,
    lemma_lines_terminated, lines, slice_to_vec, split_lines, string_from_utf8, string_of, strip_cr,
    string_views, trim, trim_chars, trim_end, trim_end_chars, trim_start, views,
};

verus! {

/// The player name of the rollup row that aggregates every language.
pub const OVERALL: &'static str = "overall";

/// The header row of the leaderboard table.
pub const HEADER: &'static str = "| Player | Lang | Best WPM | Avg WPM | Accuracy | Sessions | Last played |";

/// The alignment row under the header: numeric columns right-aligned.
pub const SEPARATOR: &'static str = "| --- | --- | ---: | ---: | ---: | ---: | --- |";

/// The text above the table on a fresh file.
pub const DEFAULT_PREAMBLE: &'static str = "# CodeType Leaderboard\n\n<!-- Managed by CodeType. Rows are sorted by player, then language, and the\n     tool rewrites only your own rows. Scores are honor-system: they're\n     plain text and editable. -->";

// -- Rows and cells --------------------------------------------------------------

/// The pieces of `s` between occurrences of `c` (`str::split` with a char):
/// always at least one piece.
pub open spec fn split_on(s: Seq<char>, c: char) -> Seq<Seq<char>>
    decreases s.len(),
{
    let i = find_char(s, c);
    if i >= s.len() {
        seq![s]
    } else {
        proof {
            lemma_find_char(s, c);
        }
        seq![s.take(i)] + split_on(s.skip(i + 1), c)
    }
}

pub proof fn lemma_split_on_nonempty(s: Seq<char>, c: char)
    ensures
        split_on(s, c).len() >= 1,
    decreases s.len(),
{
    lemma_find_char(s, c);
    let i = find_char(s, c);
    if i < s.len() {
        lemma_split_on_nonempty(s.skip(i + 1), c);
    }
}

/// `t` without one leading and one trailing `'|'`, each only where present.
pub open spec fn strip_edge_pipes(t: Seq<char>) -> Seq<char> {
    let a = if t.len() > 0 && t[0] == '|' {
        t.drop_first()
    } else {
        t
    };
    if a.len() > 0 && a.last() == '|' {
        a.drop_last()
    } else {
        a
    }
}

/// The trimmed cells of a table row: the text between its `'|'`s, the
/// leading and trailing pipes being optional.
pub open spec fn row_cells(line: Seq<char>) -> Seq<Seq<char>> {
    split_on(strip_edge_pipes(trim(line)), '|').map_values(|x: Seq<char>| trim(x))
}

/// Whether `line` is the table's header row: its first cell is `Player`.
pub open spec fn header_row(line: Seq<char>) -> bool {
    row_cells(line)[0] == "Player"@
}

/// Whether a cell belongs to an alignment row: non-empty, all `-` and `:`.
pub open spec fn separator_cell(c: Seq<char>) -> bool {
    c.len() > 0 && forall|i: int| 0 <= i < c.len() ==> (#[trigger] c[i] == '-' || c[i] == ':')
}

/// Whether `line` is a Markdown alignment row (`| --- | ---: |`).
pub open spec fn separator_row(line: Seq<char>) -> bool {
    let cells = row_cells(line);
    cells.len() > 0 && forall|i: int| 0 <= i < cells.len() ==> separator_cell(#[trigger] cells[i])
}

/// The pieces of `s` between occurrences of `c`.
fn split_pieces(s: &[char], c: char) -> (r: Vec<Vec<char>>)
    ensures
        views(r@) == split_on(s@, c),
{
    let mut r: Vec<Vec<char>> = Vec::new();
    let mut start: usize = 0;
    proof {
        assert(views(r@) =~= seq![]);
        assert(s@.skip(0) =~= s@);
    }
    loop
        invariant
            start <= s@.len(),
            views(r@) + split_on(s@.skip(start as int), c) == split_on(s@, c),
        decreases s@.len() - start,
    {
        let ghost rest = s@.skip(start as int);
        let mut j = start;
        while j < s.len() && s[j] != c
            invariant
                start <= j <= s@.len(),
                forall|k: int| start <= k < j ==> s@[k] != c,
            decreases s@.len() - j,
        {
            j = j + 1;
        }
        proof {
            lemma_find_char(rest, c);
            let f = find_char(rest, c);
            if f < j - start {
                assert(rest[f] == s@[start + f]);
            }
            if j < s@.len() && j - start < f {
                assert(rest[j - start] == s@[j as int]);
            }
            assert(f == j - start);
        }
        let piece = slice_to_vec(s, start, j);
        let ghost old_r = r@;
        r.push(piece);
        proof {
            assert(views(r@) =~= views(old_r).push(piece@));
            assert(rest.take(j - start) =~= s@.subrange(start as int, j as int));
        }
        if j < s.len() {
            proof {
                assert(rest.skip(j - start + 1) =~= s@.skip(j + 1));
                assert(views(old_r) + split_on(rest, c) =~= views(r@) + split_on(s@.skip(j + 1), c));
            }
            start = j + 1;
        } else {
            proof {
                assert(rest =~= s@.subrange(start as int, j as int));
                assert(views(old_r) + split_on(rest, c) =~= views(r@));
            }
            return r;
        }
    }
}

fn strip_edge_pipes_chars(t: &[char]) -> (r: Vec<char>)
    ensures
        r@ == strip_edge_pipes(t@),
{
    let from: usize = if t.len() > 0 && t[0] == '|' {
        1
    } else {
        0
    };
    let to: usize = if t.len() > from && t[t.len() - 1] == '|' {
        t.len() - 1
    } else {
        t.len()
    };
    let r = slice_to_vec(t, from, to);
    proof {
        let a = if t@.len() > 0 && t@[0] == '|' {
            t@.drop_first()
        } else {
            t@
        };
        assert(a =~= t@.subrange(from as int, t@.len() as int));
        if a.len() > 0 && a.last() == '|' {
            assert(a.drop_last() =~= r@);
        } else {
            assert(a =~= r@);
        }
    }
    r
}

fn row_cell_chars(line: &[char]) -> (r: Vec<Vec<char>>)
    ensures
        views(r@) == row_cells(line@),
{
    let trimmed = trim_chars(line);
    let inner = strip_edge_pipes_chars(trimmed.as_slice());
    let pieces = split_pieces(inner.as_slice(), '|');
    let mut cells: Vec<Vec<char>> = Vec::new();
    let mut i: usize = 0;
    while i < pieces.len()
        invariant
            i <= pieces@.len(),
            views(pieces@) == split_on(strip_edge_pipes(trim(line@)), '|'),
            cells@.len() == i,
            forall|k: int| 0 <= k < i ==> #[trigger] cells@[k]@ == trim(pieces@[k]@),
        decreases pieces@.len() - i,
    {
        let cell = trim_chars(pieces[i].as_slice());
        cells.push(cell);
        i = i + 1;
    }
    proof {
        assert forall|k: int| 0 <= k < cells@.len() implies #[trigger] views(cells@)[k] == views(pieces@).map_values(
            |x: Seq<char>| trim(x),
        )[k] by {
            assert(views(pieces@)[k] == pieces@[k]@);
        }
        assert(views(cells@) =~= views(pieces@).map_values(|x: Seq<char>| trim(x)));
    }
    cells
}

/// Split a `| a | b | c |` row into its trimmed cells.
pub fn split_row(line: &str) -> (r: Vec<String>)
    ensures
        string_views(r@) == row_cells(line@),
{
    let chars = chars_of(line);
    let cells = row_cell_chars(chars.as_slice());
    let mut out: Vec<String> = Vec::new();
    let mut i: usize = 0;
    while i < cells.len()
        invariant
            i <= cells@.len(),
            out@.len() == i,
            forall|k: int| 0 <= k < i ==> #[trigger] out@[k]@ == cells@[k]@,
        decreases cells@.len() - i,
    {
        out.push(string_of(cells[i].as_slice()));
        i = i + 1;
    }
    proof {
        assert(string_views(out@) =~= views(cells@));
    }
    out
}

/// Whether `line` is the table's header row (first cell `Player`).
pub fn is_header_row(line: &str) -> (r: bool)
    ensures
        r == header_row(line@),
{
    let chars = chars_of(line);
    header_row_chars(chars.as_slice())
}

fn header_row_chars(line: &[char]) -> (r: bool)
    ensures
        r == header_row(line@),
{
    let cells = row_cell_chars(line);
    proof {
        lemma_split_on_nonempty(strip_edge_pipes(trim(line@)), '|');
    }
    let player = chars_of("Player");
    proof {
        assert(views(cells@).len() == cells@.len());
        assert(views(cells@)[0] == cells@[0]@);
    }
    chars_eq(cells[0].as_slice(), player.as_slice())
}

/// Whether `line` is a Markdown alignment row (`| --- | ---: | ... |`).
pub fn is_separator_row(line: &str) -> (r: bool)
    ensures
        r == separator_row(line@),
{
    let chars = chars_of(line);
    separator_row_chars(chars.as_slice())
}

fn separator_row_chars(line: &[char]) -> (r: bool)
    ensures
        r == separator_row(line@),
{
    let cells = row_cell_chars(line);
    if cells.len() == 0 {
        return false;
    }
    let mut i: usize = 0;
    while i < cells.len()
        invariant
            i <= cells@.len(),
            views(cells@) == row_cells(line@),
            forall|k: int| 0 <= k < i ==> separator_cell(#[trigger] views(cells@)[k]),
        decreases cells@.len() - i,
    {
        let cell = &cells[i];
        if cell.len() == 0 {
            proof {
                assert(!separator_cell(views(cells@)[i as int]));
            }
            return false;
        }
        let mut j: usize = 0;
        while j < cell.len()
            invariant
                j <= cell@.len(),
                i < cells@.len(),
                *cell == cells@[i as int],
                views(cells@) == row_cells(line@),
                forall|k: int| 0 <= k < j ==> (#[trigger] cell@[k] == '-' || cell@[k] == ':'),
            decreases cell@.len() - j,
        {
            if cell[j] != '-' && cell[j] != ':' {
                proof {
                    assert(views(cells@)[i as int] == cell@);
                    assert(!separator_cell(views(cells@)[i as int]));
                }
                return false;
            }
            j = j + 1;
        }
        proof {
            assert(views(cells@)[i as int] == cell@);
        }
        i = i + 1;
    }
    true
}

// -- The document -----------------------------------------------------------------

/// The preamble kept for prose `t`: `t` without trailing whitespace, or the
/// default preamble when nothing is left.
pub open spec fn preamble_or_default(t: Seq<char>) -> Seq<char> {
    if trim_end(t).len() == 0 {
        DEFAULT_PREAMBLE@
    } else {
        trim_end(t)
    }
}

/// Whether a trimmed line still belongs to the table: it starts with `'|'`.
pub open spec fn table_line(t: Seq<char>) -> bool {
    t.len() > 0 && t[0] == '|'
}

/// The data rows among the lines after the header: each trimmed, alignment
/// rows skipped, up to the first line that is not a table line.
pub open spec fn data_rows(ls: Seq<Seq<char>>) -> Seq<Seq<char>>
    decreases ls.len(),
{
    if ls.len() == 0 {
        seq![]
    } else {
        let t = trim(ls[0]);
        if !table_line(t) {
            seq![]
        } else if separator_row(t) {
            data_rows(ls.drop_first())
        } else {
            seq![t] + data_rows(ls.drop_first())
        }
    }
}

/// Index of the first header row among `ls`, or `ls.len()` when none is.
pub open spec fn header_index(ls: Seq<Seq<char>>) -> int
    decreases ls.len(),
{
    if ls.len() == 0 {
        0
    } else if header_row(ls[0]) {
        0
    } else {
        1 + header_index(ls.drop_first())
    }
}

pub proof fn lemma_header_index(ls: Seq<Seq<char>>)
    ensures
        0 <= header_index(ls) <= ls.len(),
        forall|j: int| 0 <= j < header_index(ls) ==> !header_row(#[trigger] ls[j]),
        header_index(ls) < ls.len() ==> header_row(ls[header_index(ls)]),
    decreases ls.len(),
{
    if ls.len() > 0 && !header_row(ls[0]) {
        lemma_header_index(ls.drop_first());
        assert forall|j: int| 0 <= j < header_index(ls) implies !header_row(#[trigger] ls[j]) by {
            if j > 0 {
                assert(ls[j] == ls.drop_first()[j - 1]);
            }
        }
    }
}

/// A leaderboard document split into the prose above its table and the
/// table's data rows (trimmed, in document order).
pub struct BoardText {
    pub preamble: String,
    pub rows: Vec<String>,
}

/// The preamble and data rows of the document `content`. Everything before
/// the header row is the preamble; with no header row the whole document is.
pub open spec fn board_of(content: Seq<char>) -> (Seq<char>, Seq<Seq<char>>) {
    let ls = lines(content);
    let h = header_index(ls);
    if h >= ls.len() {
        (preamble_or_default(content), seq![])
    } else {
        (preamble_or_default(join(ls.take(h), seq!['\n'])), data_rows(ls.skip(h + 1)))
    }
}

fn preamble_from(t: &[char]) -> (r: String)
    ensures
        r@ == preamble_or_default(t@),
{
    let p = trim_end_chars(t);
    if p.len() == 0 {
        let d = chars_of(DEFAULT_PREAMBLE);
        string_of(d.as_slice())
    } else {
        string_of(p.as_slice())
    }
}

/// Split a leaderboard document into its preamble and the data rows of its
/// table. A row is kept as it stands, whatever its cells hold.
pub fn parse_board(content: &str) -> (r: BoardText)
    ensures
        (r.preamble@, string_views(r.rows@)) == board_of(content@),
{
    let chars = chars_of(content);
    let ls = split_lines(chars.as_slice());
    let n = ls.len();
    let mut h: usize = 0;
    proof {
        lemma_header_index(views(ls@));
    }
    while h < n && !header_row_chars(ls[h].as_slice())
        invariant
            n == ls@.len(),
            h <= n,
            h <= header_index(views(ls@)),
            forall|j: int| 0 <= j < header_index(views(ls@)) ==> !header_row(#[trigger] views(ls@)[j]),
            header_index(views(ls@)) <= n,
            header_index(views(ls@)) < n ==> header_row(views(ls@)[header_index(views(ls@))]),
        decreases n - h,
    {
        proof {
            assert(views(ls@)[h as int] == ls@[h as int]@);
        }
        h = h + 1;
    }
    proof {
        if h < n {
            assert(views(ls@)[h as int] == ls@[h as int]@);
        }
        assert(h == header_index(views(ls@)));
    }
    if h >= n {
        let preamble = preamble_from(chars.as_slice());
        return BoardText { preamble, rows: Vec::new() };
    }
    let mut head: Vec<Vec<char>> = Vec::new();
    let mut k: usize = 0;
    while k < h
        invariant
            k <= h < n == ls@.len(),
            head@.len() == k,
            forall|j: int| 0 <= j < k ==> #[trigger] head@[j]@ == ls@[j]@,
        decreases h - k,
    {
        head.push(slice_to_vec(ls[k].as_slice(), 0, ls[k].len()));
        proof {
            assert(ls@[k as int]@.subrange(0, ls@[k as int]@.len() as int) =~= ls@[k as int]@);
        }
        k = k + 1;
    }
    proof {
        assert(views(head@) =~= views(ls@).take(h as int));
    }
    let newline = vec!['\n'];
    let joined = join_chars(&head, newline.as_slice());
    proof {
        assert(newline@ =~= seq!['\n']);
    }
    let preamble = preamble_from(joined.as_slice());
    let mut rows: Vec<String> = Vec::new();
    let mut i: usize = h + 1;
    let mut done = false;
    let ghost all = views(ls@).skip(h + 1);
    proof {
        assert(string_views(rows@) =~= seq![]);
        assert(views(ls@).skip(i as int) =~= all);
    }
    while !done && i < n
        invariant
            h < i <= n == ls@.len(),
            all == views(ls@).skip(h + 1),
            done ==> data_rows(all) == string_views(rows@),
            !done ==> data_rows(all) == string_views(rows@) + data_rows(views(ls@).skip(i as int)),
        decreases n - i, if done { 0int } else { 1int },
    {
        let ghost rest = views(ls@).skip(i as int);
        proof {
            assert(rest[0] == ls@[i as int]@);
            assert(rest.drop_first() =~= views(ls@).skip(i + 1));
        }
        let t = trim_chars(ls[i].as_slice());
        if !(t.len() > 0 && t[0] == '|') {
            proof {
                assert(string_views(rows@) + seq![] =~= string_views(rows@));
            }
            done = true;
        } else {
            if !separator_row_chars(t.as_slice()) {
                let ghost before = rows@;
                rows.push(string_of(t.as_slice()));
                proof {
                    assert(string_views(rows@) =~= string_views(before).push(t@));
                    assert(string_views(before) + (seq![t@] + data_rows(rest.drop_first())) =~= string_views(
                        rows@,
                    ) + data_rows(rest.drop_first()));
                }
            }
            i = i + 1;
        }
    }
    proof {
        if !done {
            assert(views(ls@).skip(i as int) =~= seq![]);
            assert(string_views(rows@) + seq![] =~= string_views(rows@));
        }
    }
    BoardText { preamble, rows }
}

/// The text of the table's rows: each followed by a line ending.
pub open spec fn rows_text(rows: Seq<Seq<char>>) -> Seq<char>
    decreases rows.len(),
{
    if rows.len() == 0 {
        seq![]
    } else {
        rows_text(rows.drop_last()) + rows.last() + seq!['\n']
    }
}

/// The document rendered from a preamble and table rows: the preamble
/// without trailing whitespace, a blank line, the header and alignment rows,
/// then each row on its own line.
pub open spec fn board_text(preamble: Seq<char>, rows: Seq<Seq<char>>) -> Seq<char> {
    trim_end(preamble) + seq!['\n', '\n'] + HEADER@ + seq!['\n'] + SEPARATOR@ + seq!['\n'] + rows_text(rows)
}

/// Render a leaderboard document from its preamble and the table's rows, in
/// the order given.
pub fn render_board(preamble: &str, rows: &[String]) -> (r: String)
    ensures
        r@ == board_text(preamble@, string_views(rows@)),
{
    let p = chars_of(preamble);
    let mut out = trim_end_chars(p.as_slice());
    out.push('\n');
    out.push('\n');
    let header = chars_of(HEADER);
    append_chars(&mut out, header.as_slice());
    out.push('\n');
    let separator = chars_of(SEPARATOR);
    append_chars(&mut out, separator.as_slice());
    out.push('\n');
    let ghost head = out@;
    proof {
        assert(head =~= trim_end(preamble@) + seq!['\n', '\n'] + HEADER@ + seq!['\n'] + SEPARATOR@ + seq!['\n']);
    }
    let mut i: usize = 0;
    while i < rows.len()
        invariant
            i <= rows@.len(),
            out@ == head + rows_text(string_views(rows@).take(i as int)),
        decreases rows@.len() - i,
    {
        let row = chars_of(rows[i].as_str());
        append_chars(&mut out, row.as_slice());
        out.push('\n');
        proof {
            assert(string_views(rows@).take(i + 1).drop_last() =~= string_views(rows@).take(i as int));
            assert(string_views(rows@).take(i + 1).last() == rows@[i as int]@);
        }
        i = i + 1;
    }
    proof {
        assert(string_views(rows@).take(rows@.len() as int) =~= string_views(rows@));
    }
    string_of(out.as_slice())
}

// -- Player identity ----------------------------------------------------------------

/// Who a run is attributed to: the player name that keys the table rows.
#[derive(Debug, Clone, PartialEq, Eq)]
pub struct Identity {
    pub name: String,
}

/// `c` as it may stand in a table cell: `'|'` and control characters become
/// spaces.
pub open spec fn cell_safe(c: char) -> char {
    if c == '|' || is_ctrl(c) {
        ' '
    } else {
        c
    }
}

/// The whitespace-separated words of `s` (`str::split_whitespace`): its
/// maximal runs of non-whitespace characters, in order. A non-whitespace
/// character extends the word of the character before it, or starts a new
/// one.
pub open spec fn words(s: Seq<char>) -> Seq<Seq<char>>
    decreases s.len(),
{
    if s.len() == 0 {
        seq![]
    } else {
        let w = words(s.drop_last());
        let c = s.last();
        if is_ws(c) {
            w
        } else if s.len() >= 2 && !is_ws(s[s.len() - 2]) {
            w.update(w.len() - 1, w.last().push(c))
        } else {
            w.push(seq![c])
        }
    }
}

/// A name made safe for the table: table breakers replaced by spaces, then
/// its words joined by single spaces (inner runs collapsed, ends trimmed).
pub open spec fn sanitized(raw: Seq<char>) -> Seq<char> {
    join(words(raw.map_values(|c: char| cell_safe(c))), seq![' '])
}

proof fn lemma_words_nonempty_after_word_char(s: Seq<char>)
    requires
        s.len() > 0,
        !is_ws(s.last()),
    ensures
        words(s).len() > 0,
    decreases s.len(),
{
    if s.len() >= 2 && !is_ws(s[s.len() - 2]) {
        assert(s.drop_last().last() == s[s.len() - 2]);
        lemma_words_nonempty_after_word_char(s.drop_last());
    }
}

proof fn lemma_join_extend_last(w: Seq<Seq<char>>, sep: Seq<char>, c: char)
    requires
        w.len() > 0,
    ensures
        join(w.update(w.len() - 1, w.last().push(c)), sep) == join(w, sep).push(c),
{
    let u = w.update(w.len() - 1, w.last().push(c));
    if w.len() == 1 {
        assert(u[0] == w[0].push(c));
    } else {
        assert(u.drop_last() =~= w.drop_last());
        assert(join(u, sep) == join(w.drop_last(), sep) + sep + w.last().push(c));
        assert(join(w.drop_last(), sep) + sep + w.last().push(c) =~= (join(w.drop_last(), sep) + sep
            + w.last()).push(c));
    }
}

proof fn lemma_join_push(w: Seq<Seq<char>>, sep: Seq<char>, x: Seq<char>)
    ensures
        join(w.push(x), sep) == if w.len() == 0 {
            x
        } else {
            join(w, sep) + sep + x
        },
{
    assert(w.push(x).drop_last() =~= w);
}

fn cell_safe_char(c: char) -> (r: char)
    ensures
        r == cell_safe(c),
{
    if c == '|' || is_control(c) {
        ' '
    } else {
        c
    }
}

/// Strip what would corrupt the Markdown table from a player name: `'|'`
/// and control characters become spaces, whitespace runs collapse to one
/// space, and the ends are trimmed, so the same person always maps to the
/// same row key.
pub fn sanitize_name(raw: &str) -> (r: String)
    ensures
        r@ == sanitized(raw@),
{
    let out = sanitized_chars(raw);
    string_of(out.as_slice())
}

fn sanitized_chars(raw: &str) -> (r: Vec<char>)
    ensures
        r@ == sanitized(raw@),
{
    let cs = chars_of(raw);
    let ghost clean = raw@.map_values(|c: char| cell_safe(c));
    let mut out: Vec<char> = Vec::new();
    let mut in_word = false;
    let mut i: usize = 0;
    proof {
        assert(clean.take(0) =~= seq![]);
    }
    while i < cs.len()
        invariant
            i <= cs@.len(),
            cs@ == raw@,
            clean == raw@.map_values(|c: char| cell_safe(c)),
            out@ == join(words(clean.take(i as int)), seq![' ']),
            in_word == (i > 0 && !is_ws(clean[i - 1])),
            (out@.len() == 0) == (words(clean.take(i as int)).len() == 0),
        decreases cs@.len() - i,
    {
        let c = cell_safe_char(cs[i]);
        let ghost pre = clean.take(i as int);
        let ghost next = clean.take(i + 1);
        proof {
            assert(next.drop_last() =~= pre);
            assert(next.last() == c);
            if i > 0 {
                assert(next[next.len() - 2] == clean[i - 1]);
            }
        }
        if is_whitespace(c) {
            in_word = false;
        } else if in_word {
            proof {
                lemma_words_nonempty_after_word_char(pre);
                lemma_join_extend_last(words(pre), seq![' '], c);
            }
            out.push(c);
        } else {
            proof {
                lemma_join_push(words(pre), seq![' '], seq![c]);
            }
            if out.len() > 0 {
                out.push(' ');
            }
            out.push(c);
            proof {
                if words(pre).len() == 0 {
                    assert(out@ =~= seq![c]);
                } else {
                    assert(out@ =~= join(words(pre), seq![' ']) + seq![' '] + seq![c]);
                }
            }
            in_word = true;
        }
        i = i + 1;
    }
    proof {
        assert(clean.take(cs@.len() as int) =~= clean);
    }
    out
}

/// The name a run is attributed to before sanitizing: a non-blank override
/// wins, then git's `user.name`, then `user.email`.
pub open spec fn raw_identity(
    override_name: Option<Seq<char>>,
    user_name: Option<Seq<char>>,
    user_email: Option<Seq<char>>,
) -> Option<Seq<char>> {
    if override_name is Some && trim(override_name->0).len() > 0 {
        override_name
    } else if user_name is Some {
        user_name
    } else {
        user_email
    }
}

/// The player identity: the sanitized raw name, when anything is left of it.
pub open spec fn identity_name(
    override_name: Option<Seq<char>>,
    user_name: Option<Seq<char>>,
    user_email: Option<Seq<char>>,
) -> Option<Seq<char>> {
    match raw_identity(override_name, user_name, user_email) {
        Some(raw) => if sanitized(raw).len() > 0 {
            Some(sanitized(raw))
        } else {
            None
        },
        None => None,
    }
}

/// The views of an optional text.
pub open spec fn opt_view(s: Option<String>) -> Option<Seq<char>> {
    match s {
        Some(t) => Some(t@),
        None => None,
    }
}

/// Resolve the player identity: an explicit `override_name` wins unless it
/// is blank, else git's `user.name`, else `user.email` (each as
/// [`config_value`] read it). `None` means nobody can be named, and the
/// caller does not guess.
pub fn resolve_identity(
    override_name: Option<&str>,
    user_name: Option<String>,
    user_email: Option<String>,
) -> (r: Option<Identity>)
    ensures
        match r {
            Some(id) => identity_name(
                match override_name {
                    Some(n) => Some(n@),
                    None => None,
                },
                opt_view(user_name),
                opt_view(user_email),
            ) == Some(id.name@),
            None => identity_name(
                match override_name {
                    Some(n) => Some(n@),
                    None => None,
                },
                opt_view(user_name),
                opt_view(user_email),
            ) is None,
        },
{
    let raw: String = match override_name {
        Some(n) if trim_chars(chars_of(n).as_slice()).len() > 0 => {
            let c = chars_of(n);
            string_of(c.as_slice())
        },
        _ => match user_name {
            Some(u) => u,
            None => match user_email {
                Some(e) => e,
                None => return None,
            },
        },
    };
    let name = sanitized_chars(raw.as_str());
    if name.len() == 0 {
        None
    } else {
        Some(Identity { name: string_of(name.as_slice()) })
    }
}

/// What a `git config --get` answer means: its standard output as UTF-8,
/// trimmed; `None` when it is not UTF-8 or nothing is left.
pub open spec fn config_value_spec(stdout: Seq<u8>) -> Option<Seq<char>> {
    if vstd::utf8::valid_utf8(stdout) && trim(vstd::utf8::decode_utf8(stdout)).len() > 0 {
        Some(trim(vstd::utf8::decode_utf8(stdout)))
    } else {
        None
    }
}

/// The value printed by a successful `git config --get`, from its standard
/// output.
pub fn config_value(stdout: Vec<u8>) -> (r: Option<String>)
    ensures
        opt_view(r) == config_value_spec(stdout@),
{
    let ghost bytes = stdout@;
    let text = match string_from_utf8(stdout) {
        Some(t) => t,
        None => return None,
    };
    let t = trim_chars(chars_of(text.as_str()).as_slice());
    if t.len() == 0 {
        None
    } else {
        Some(string_of(t.as_slice()))
    }
}

// -- Today's date -------------------------------------------------------------------

/// The proleptic Gregorian date `(year, month, day)` that is `z` days after
/// 1970-01-01: the day count is shifted to start on 0000-03-01, split into
/// 400-year eras of 146 097 days, then into the year of the era (years
/// starting in March, so the leap day ends a year), the day of that year,
/// and the month from March on.
pub open spec fn civil_of_days(z: int) -> (int, int, int) {
    let shifted = z + 719_468;
    let era = shifted / 146_097;
    let doe = shifted - era * 146_097;
    let yoe = (doe - doe / 1460 + doe / 36_524 - doe / 146_096) / 365;
    let doy = doe - (365 * yoe + yoe / 4 - yoe / 100);
    let mp = (5 * doy + 2) / 153;
    let day = doy - (153 * mp + 2) / 5 + 1;
    let month = if mp < 10 {
        mp + 3
    } else {
        mp - 9
    };
    let year = yoe + era * 400;
    (if month <= 2 {
        year + 1
    } else {
        year
    }, month, day)
}

/// Convert a count of days since the Unix epoch into `(year, month, day)`,
/// exactly, for the whole proleptic Gregorian calendar.
#[verifier::spinoff_prover]
#[verifier::rlimit(60)]
pub fn civil_from_days(z: i64) -> (r: (i64, u32, u32))
    requires
        z <= i64::MAX - 719_468,
        z + 719_468 >= i64::MIN + 146_096,
    ensures
        r.0 == civil_of_days(z as int).0,
        r.1 == civil_of_days(z as int).1,
        r.2 == civil_of_days(z as int).2,
        1 <= r.1 <= 12,
        1 <= r.2 <= 31,
{
    let z = z + 719_468;
    let era = (if z >= 0 {
        z
    } else {
        z - 146_096
    }) / 146_097;
    proof {
        let e = z as int / 146_097;
        if z < 0 {
            assert(era == e) by (nonlinear_arith)
                requires
                    z < 0,
                    era == -((146_096 - z) / 146_097),
                    e == z as int / 146_097,
            ;
        }
    }
    let doe = z - era * 146_097;
    let yoe = (doe - doe / 1460 + doe / 36_524 - doe / 146_096) / 365;
    let year = yoe + era * 400;
    let doy = doe - (365 * yoe + yoe / 4 - yoe / 100);
    let mp = (5 * doy + 2) / 153;
    let day = (doy - (153 * mp + 2) / 5 + 1) as u32;
    let month = (if mp < 10 {
        mp + 3
    } else {
        mp - 9
    }) as u32;
    (if month <= 2 {
        year + 1
    } else {
        year
    }, month, day)
}

/// `n` in decimal, left-padded with zeros to at least `width` digits.
pub open spec fn zero_padded(n: nat, width: nat) -> Seq<char> {
    let d = decimal(n);
    if d.len() >= width {
        d
    } else {
        Seq::new((width - d.len()) as nat, |i: int| '0') + d
    }
}

/// The ISO text `YYYY-MM-DD` of a date.
pub open spec fn iso_date(y: nat, m: nat, d: nat) -> Seq<char> {
    zero_padded(y, 4) + seq!['-'] + zero_padded(m, 2) + seq!['-'] + zero_padded(d, 2)
}

/// The UTC date, as ISO text, of the instant `secs` seconds after the Unix
/// epoch.
pub open spec fn unix_date(secs: nat) -> Seq<char> {
    let (y, m, d) = civil_of_days(secs as int / 86_400);
    iso_date(y as nat, m as nat, d as nat)
}

fn push_padded(n: u64, width: usize, out: &mut Vec<char>)
    ensures
        final(out)@ == old(out)@ + zero_padded(n as nat, width as nat),
{
    let mut digits: Vec<char> = Vec::new();
    push_decimal(n, &mut digits);
    proof {
        assert(digits@ =~= decimal(n as nat));
    }
    let ghost start = out@;
    if digits.len() < width {
        let pad = width - digits.len();
        let mut k: usize = 0;
        while k < pad
            invariant
                k <= pad,
                out@ == start + Seq::new(k as nat, |i: int| '0'),
            decreases pad - k,
        {
            out.push('0');
            k = k + 1;
            proof {
                assert(out@ =~= start + Seq::new(k as nat, |i: int| '0'));
            }
        }
    }
    append_chars(out, digits.as_slice());
    proof {
        if digits@.len() >= width {
            assert(out@ =~= start + digits@);
        } else {
            assert(out@ =~= start + (Seq::new((width - digits@.len()) as nat, |i: int| '0') + digits@));
        }
    }
}

/// The UTC date of the instant `secs` seconds after the Unix epoch, as
/// `YYYY-MM-DD`.
pub fn date_of_unix_seconds(secs: u64) -> (r: String)
    ensures
        r@ == unix_date(secs as nat),
{
    let days = secs / 86_400;
    let z = days as i64;
    let (y, m, d) = civil_from_days(z);
    proof {
        let shifted = z + 719_468;
        let era = shifted / 146_097;
        let doe = shifted - era * 146_097;
        assert(era >= 0);
        assert(0 <= doe);
        assert(y >= 0);
    }
    let mut out: Vec<char> = Vec::new();
    push_padded(y as u64, 4, &mut out);
    out.push('-');
    push_padded(m as u64, 2, &mut out);
    out.push('-');
    push_padded(d as u64, 2, &mut out);
    proof {
        assert(out@ =~= unix_date(secs as nat));
    }
    string_of(out.as_slice())
}

#[verifier::external_type_specification]
#[verifier::external_body]
pub struct ExSystemTime(SystemTime);

/// `SystemTime::now`: the system clock's reading. It depends on the clock,
/// so nothing is stated of it.
#[verifier::external_body]
fn system_now() -> (r: SystemTime) {
    SystemTime::now()
}

/// `SystemTime::duration_since(UNIX_EPOCH)`: the time from the Unix epoch to
/// `t`, `None` when `t` is earlier. Nothing is stated of the value.
#[verifier::external_body]
fn since_unix_epoch(t: SystemTime) -> (r: Option<Duration>) {
    t.duration_since(UNIX_EPOCH).ok()
}

/// Today's UTC date as `YYYY-MM-DD`, by the system clock (the epoch's date
/// when the clock reads earlier).
pub fn today() -> (r: String)
    ensures
        exists|secs: u64| #[trigger] unix_date(secs as nat) == r@,
{
    let secs: u64 = match since_unix_epoch(system_now()) {
        Some(d) => whole_seconds(&d),
        None => 0,
    };
    let r = date_of_unix_seconds(secs);
    proof {
        assert(unix_date(secs as nat) == r@);
    }
    r
}

// -- Rendering and reading back ------------------------------------------------------

proof fn lemma_split_on_cons(a: Seq<char>, b: Seq<char>, c: char)
    requires
        !has_char(a, c),
    ensures
        split_on(a + seq![c] + b, c) == seq![a] + split_on(b, c),
{
    let s = a + seq![c] + b;
    assert forall|j: int| 0 <= j < a.len() implies s[j] != c by {
        assert(s[j] == a[j]);
        if a[j] == c {
            assert(has_char(a, c));
        }
    }
    lemma_find_char_is(s, c, a.len() as int);
    assert(s.take(a.len() as int) =~= a);
    assert(s.skip(a.len() as int + 1) =~= b);
}

proof fn lemma_split_on_last(a: Seq<char>, c: char)
    requires
        !has_char(a, c),
    ensures
        split_on(a, c) == seq![a],
{
    lemma_find_char(a, c);
}

proof fn lemma_trim_fixed(t: Seq<char>)
    requires
        t.len() > 0,
        !is_ws(t[0]),
        !is_ws(t.last()),
    ensures
        trim(t) == t,
{
}

proof fn lemma_trim_one_space(t: Seq<char>)
    requires
        t.len() >= 3,
        t[0] == ' ',
        t.last() == ' ',
        !is_ws(t[1]),
        !is_ws(t[t.len() - 2]),
    ensures
        trim(t) == t.subrange(1, t.len() - 1),
{
    let u = t.drop_first();
    assert(trim_start(t) == trim_start(u));
    assert(u[0] == t[1]);
    assert(trim_start(u) == u);
    assert(u.last() == t.last());
    assert(trim_end(u) == trim_end(u.drop_last()));
    assert(u.drop_last().last() == t[t.len() - 2]);
    assert(trim_end(u.drop_last()) == u.drop_last());
    assert(u.drop_last() =~= t.subrange(1, t.len() - 1));
}

/// The header row is recognized as one.
pub proof fn lemma_header_is_header_row()
    ensures
        header_row(HEADER@),
{
    reveal_strlit("| Player | Lang | Best WPM | Avg WPM | Accuracy | Sessions | Last played |");
    reveal_strlit("Player");
    let h = HEADER@;
    lemma_trim_fixed(h);
    let inner = strip_edge_pipes(trim(h));
    assert(inner =~= h.subrange(1, h.len() - 1));
    let first = seq![' ', 'P', 'l', 'a', 'y', 'e', 'r', ' '];
    let rest = inner.skip(9);
    assert(inner =~= first + seq!['|'] + rest);
    assert(!has_char(first, '|'));
    lemma_split_on_cons(first, rest, '|');
    lemma_trim_one_space(first);
    assert(first.subrange(1, 7) =~= "Player"@);
}

/// The alignment row under the header is recognized as one.
pub proof fn lemma_separator_is_separator_row()
    ensures
        separator_row(SEPARATOR@),
{
    reveal_strlit("| --- | --- | ---: | ---: | ---: | ---: | --- |");
    let s = SEPARATOR@;
    lemma_trim_fixed(s);
    let inner = strip_edge_pipes(trim(s));
    let a = seq![' ', '-', '-', '-', ' '];
    let b = seq![' ', '-', '-', '-', ':', ' '];
    let r5 = a;
    let r4 = b + seq!['|'] + r5;
    let r3 = b + seq!['|'] + r4;
    let r2 = b + seq!['|'] + r3;
    let r1 = b + seq!['|'] + r2;
    let r0 = a + seq!['|'] + r1;
    assert(inner =~= a + seq!['|'] + r0);
    assert(!has_char(a, '|'));
    assert(!has_char(b, '|'));
    lemma_split_on_cons(a, r0, '|');
    lemma_split_on_cons(a, r1, '|');
    lemma_split_on_cons(b, r2, '|');
    lemma_split_on_cons(b, r3, '|');
    lemma_split_on_cons(b, r4, '|');
    lemma_split_on_cons(b, r5, '|');
    lemma_split_on_last(a, '|');
    let pieces = seq![a, a, b, b, b, b, a];
    assert(split_on(inner, '|') =~= pieces);
    lemma_trim_one_space(a);
    lemma_trim_one_space(b);
    let ta = trim(a);
    let tb = trim(b);
    assert(ta =~= seq!['-', '-', '-']);
    assert(tb =~= seq!['-', '-', '-', ':']);
    let cells = row_cells(s);
    assert(cells =~= seq![ta, ta, tb, tb, tb, tb, ta]);
    assert forall|i: int| 0 <= i < cells.len() implies separator_cell(#[trigger] cells[i]) by {
        assert(cells[i] == ta || cells[i] == tb);
    }
}

proof fn lemma_header_index_is(ls: Seq<Seq<char>>, k: int)
    requires
        0 <= k < ls.len(),
        header_row(ls[k]),
        forall|j: int| 0 <= j < k ==> !header_row(#[trigger] ls[j]),
    ensures
        header_index(ls) == k,
    decreases k,
{
    if k > 0 {
        assert forall|j: int| 0 <= j < k - 1 implies !header_row(#[trigger] ls.drop_first()[j]) by {
            assert(ls.drop_first()[j] == ls[j + 1]);
        }
        assert(ls.drop_first()[k - 1] == ls[k]);
        lemma_header_index_is(ls.drop_first(), k - 1);
    }
}

/// Whether a row can be written and read back as it stands: trimmed, a
/// table line, not an alignment row, on one line.
pub open spec fn row_round_trips(r: Seq<char>) -> bool {
    &&& trim(r) == r
    &&& table_line(r)
    &&& !separator_row(r)
    &&& !has_char(r, '\n')
}

/// Whether prose can stand above the table and be read back: no CRLF line
/// endings and no line that looks like the table's header row.
pub open spec fn preamble_round_trips(p: Seq<char>) -> bool {
    let t = trim_end(p);
    &&& forall|i: int| 0 <= i < t.len() - 1 && #[trigger] t[i + 1] == '\n' ==> t[i] != '\r'
    &&& forall|i: int| 0 <= i < lines(t).len() ==> !header_row(#[trigger] lines(t)[i])
}

proof fn lemma_rows_lines(rows: Seq<Seq<char>>)
    requires
        forall|i: int| 0 <= i < rows.len() ==> row_round_trips(#[trigger] rows[i]),
    ensures
        lines(rows_text(rows)) == rows,
        rows_text(rows).len() == 0 || rows_text(rows).last() == '\n',
    decreases rows.len(),
{
    if rows.len() > 0 {
        let init = rows.drop_last();
        let r = rows.last();
        assert(row_round_trips(rows[rows.len() - 1]));
        lemma_rows_lines(init);
        assert(rows_text(rows) =~= rows_text(init) + r.push('\n'));
        lemma_lines_append(rows_text(init), r.push('\n'));
        assert(r.len() > 0);
        assert(trim(r) == r);
        assert(!is_ws(r.last())) by {
            if is_ws(r.last()) {
                assert(trim_end(trim_start(r)) == trim(r));
                lemma_trim_keeps_last(r);
            }
        }
        lemma_lines_terminated(r);
        lemma_lines_single(r);
        assert(lines(rows_text(rows)) =~= rows);
    }
}

proof fn lemma_trim_keeps_last(r: Seq<char>)
    requires
        r.len() > 0,
        is_ws(r.last()),
    ensures
        trim(r) != r,
{
    lemma_trim_end_shorter(trim_start(r));
    lemma_trim_start_suffix(r);
}

proof fn lemma_trim_start_suffix(r: Seq<char>)
    ensures
        trim_start(r).len() <= r.len(),
        trim_start(r).len() > 0 ==> trim_start(r).last() == r.last(),
    decreases r.len(),
{
    if r.len() > 0 && is_ws(r[0]) {
        lemma_trim_start_suffix(r.drop_first());
    }
}

proof fn lemma_trim_end_shorter(t: Seq<char>)
    ensures
        trim_end(t).len() <= t.len(),
        t.len() > 0 && is_ws(t.last()) ==> trim_end(t).len() < t.len(),
    decreases t.len(),
{
    if t.len() > 0 && is_ws(t.last()) {
        lemma_trim_end_shorter(t.drop_last());
    }
}

proof fn lemma_trim_end_last(t: Seq<char>)
    ensures
        trim_end(t).len() > 0 ==> !is_ws(trim_end(t).last()),
        trim_end(t).len() <= t.len(),
        trim_end(t) == t.take(trim_end(t).len() as int),
    decreases t.len(),
{
    if t.len() > 0 && is_ws(t.last()) {
        lemma_trim_end_last(t.drop_last());
        assert(t.drop_last().take(trim_end(t).len() as int) =~= t.take(trim_end(t).len() as int));
    } else {
        assert(t.take(t.len() as int) =~= t);
    }
}

proof fn lemma_empty_line_not_header()
    ensures
        !header_row(Seq::<char>::empty()),
{
    reveal_strlit("Player");
    let e = Seq::<char>::empty();
    assert(trim(e) =~= e);
    assert(strip_edge_pipes(trim(e)) =~= e);
    lemma_split_on_last(e, '|');
    assert(row_cells(e)[0] =~= e);
    assert("Player"@.len() == 6);
}

/// The lines of the table part of a rendered document.
proof fn lemma_table_lines(rows: Seq<Seq<char>>)
    requires
        forall|i: int| 0 <= i < rows.len() ==> row_round_trips(#[trigger] rows[i]),
    ensures
        lines(seq!['\n'] + (HEADER@.push('\n') + (SEPARATOR@.push('\n') + rows_text(rows))))
            == seq![Seq::<char>::empty(), HEADER@, SEPARATOR@] + rows,
{
    reveal_strlit("| Player | Lang | Best WPM | Avg WPM | Accuracy | Sessions | Last played |");
    reveal_strlit("| --- | --- | ---: | ---: | ---: | ---: | --- |");
    let h = HEADER@;
    let sep = SEPARATOR@;
    let rt = rows_text(rows);
    lemma_rows_lines(rows);
    assert(!has_char(h, '\n'));
    assert(!has_char(sep, '\n'));
    lemma_lines_terminated(sep);
    lemma_lines_single(sep);
    lemma_lines_append(sep.push('\n'), rt);
    let t_sep = sep.push('\n') + rt;
    assert(lines(t_sep) =~= seq![sep] + rows);
    lemma_lines_terminated(h);
    lemma_lines_single(h);
    lemma_lines_append(h.push('\n'), t_sep);
    let table = h.push('\n') + t_sep;
    assert(lines(table) =~= seq![h, sep] + rows);
    let blank_then = seq!['\n'] + table;
    lemma_find_char_is(blank_then, '\n', 0);
    lemma_lines_step(blank_then, 0);
    assert(blank_then.take(0) =~= Seq::<char>::empty());
    assert(blank_then.skip(1) =~= table);
    assert(strip_cr(Seq::<char>::empty()) =~= Seq::<char>::empty());
    assert(lines(blank_then) =~= seq![Seq::<char>::empty(), h, sep] + rows);
}

/// The rows after the header of a rendered document.
proof fn lemma_table_rows(rows: Seq<Seq<char>>)
    requires
        forall|i: int| 0 <= i < rows.len() ==> row_round_trips(#[trigger] rows[i]),
    ensures
        data_rows(seq![SEPARATOR@] + rows) == rows,
{
    reveal_strlit("| --- | --- | ---: | ---: | ---: | ---: | --- |");
    let sep = SEPARATOR@;
    lemma_separator_is_separator_row();
    lemma_trim_fixed(sep);
    let all = seq![sep] + rows;
    assert(all[0] == sep);
    assert(all.drop_first() =~= rows);
    lemma_data_rows_keep(rows);
}

/// Rendering a preamble and rows, then reading the document back, gives the
/// preamble (without trailing whitespace, or the default when there is
/// none) and the same rows in the same order: the file is a fixed point of
/// reading and writing.
#[verifier::rlimit(50)]
pub proof fn law_render_then_parse_round_trips(preamble: Seq<char>, rows: Seq<Seq<char>>)
    requires
        preamble_round_trips(preamble),
        forall|i: int| 0 <= i < rows.len() ==> row_round_trips(#[trigger] rows[i]),
    ensures
        board_of(board_text(preamble, rows)) == (preamble_or_default(preamble), rows),
{
    let p = trim_end(preamble);
    let h = HEADER@;
    let sep = SEPARATOR@;
    let rest = seq!['\n'] + (h.push('\n') + (sep.push('\n') + rows_text(rows)));
    lemma_table_lines(rows);
    lemma_table_rows(rows);
    lemma_header_is_header_row();
    lemma_empty_line_not_header();
    lemma_trim_end_last(preamble);
    let text = board_text(preamble, rows);
    assert(text =~= p + seq!['\n'] + rest);
    let ls = lines(text);
    let e = Seq::<char>::empty();
    if p.len() == 0 {
        assert(text =~= seq!['\n'] + rest);
        lemma_find_char_is(text, '\n', 0);
        lemma_lines_step(text, 0);
        assert(text.skip(1) =~= rest);
        assert(text.take(0) =~= e);
        assert(strip_cr(e) =~= e);
        assert(ls =~= seq![e, e, h, sep] + rows);
        assert(ls[0] == e && ls[1] == e && ls[2] == h);
        lemma_header_index_is(ls, 2);
        assert(ls.take(2) =~= seq![e, e]);
        assert(seq![e, e].drop_last() =~= seq![e]);
        assert(join(seq![e], seq!['\n']) == e);
        assert(join(ls.take(2), seq!['\n']) =~= seq!['\n']);
        assert(trim_end(seq!['\n']) == trim_end(seq!['\n'].drop_last()));
        assert(seq!['\n'].drop_last() =~= e);
        assert(ls.skip(3) =~= seq![sep] + rows);
    } else {
        assert(!is_ws(p.last()));
        lemma_lines_terminated(p);
        lemma_lines_append(p.push('\n'), rest);
        assert(text =~= p.push('\n') + rest);
        let lp = lines(p);
        assert(ls =~= lp + (seq![e, h, sep] + rows));
        let k = lp.len() as int;
        assert forall|j: int| 0 <= j < k + 1 implies !header_row(#[trigger] ls[j]) by {
            if j < k {
                assert(ls[j] == lp[j]);
            } else {
                assert(ls[j] == e);
            }
        }
        assert(ls[k + 1] == h);
        lemma_header_index_is(ls, k + 1);
        assert(ls.take(k + 1) =~= lp.push(e));
        lemma_lines_single_or_more(p);
        assert(trim_end(p) == p);
        lemma_join_lines(p);
        assert(lp.push(e).drop_last() =~= lp);
        assert(join(lp.push(e), seq!['\n']) =~= p + seq!['\n']);
        crate::text::lemma_trim_end_take(p + seq!['\n'], p.len() as int);
        assert((p + seq!['\n']).take(p.len() as int) =~= p);
        assert(ls.skip(k + 2) =~= seq![sep] + rows);
    }
}

proof fn lemma_data_rows_keep(rows: Seq<Seq<char>>)
    requires
        forall|i: int| 0 <= i < rows.len() ==> row_round_trips(#[trigger] rows[i]),
    ensures
        data_rows(rows) == rows,
    decreases rows.len(),
{
    if rows.len() > 0 {
        assert(row_round_trips(rows[0]));
        assert forall|i: int| 0 <= i < rows.drop_first().len() implies row_round_trips(
            #[trigger] rows.drop_first()[i],
        ) by {
            assert(rows.drop_first()[i] == rows[i + 1]);
        }
        lemma_data_rows_keep(rows.drop_first());
        assert(seq![rows[0]] + rows.drop_first() =~= rows);
    }
}

// -- Sanitized names ------------------------------------------------------------------

/// A character that may stand inside a word of a sanitized name.
pub open spec fn word_char(c: char) -> bool {
    !is_ws(c) && c != '|' && !is_ctrl(c)
}

/// A non-empty run of word characters.
pub open spec fn good_word(x: Seq<char>) -> bool {
    x.len() > 0 && forall|i: int| 0 <= i < x.len() ==> word_char(#[trigger] x[i])
}

/// Text that cannot break a table row: no `'|'`, no control character, and
/// its only whitespace single spaces between words.
pub open spec fn table_safe(t: Seq<char>) -> bool {
    forall|i: int|
        0 <= i < t.len() ==> #[trigger] t[i] != '|' && !is_ctrl(t[i]) && (is_ws(t[i]) ==> t[i]
            == ' ' && 0 < i < t.len() - 1 && !is_ws(t[i - 1]) && !is_ws(t[i + 1]))
}

proof fn lemma_words_good(s: Seq<char>)
    requires
        forall|i: int| 0 <= i < s.len() ==> #[trigger] s[i] != '|' && !is_ctrl(s[i]),
    ensures
        forall|k: int| 0 <= k < words(s).len() ==> good_word(#[trigger] words(s)[k]),
    decreases s.len(),
{
    if s.len() > 0 {
        let init = s.drop_last();
        assert forall|i: int| 0 <= i < init.len() implies #[trigger] init[i] != '|' && !is_ctrl(
            init[i],
        ) by {
            assert(init[i] == s[i]);
        }
        lemma_words_good(init);
        let w = words(init);
        let c = s.last();
        assert(s[s.len() - 1] == c);
        if !is_ws(c) {
            if s.len() >= 2 && !is_ws(s[s.len() - 2]) {
                assert(init.last() == s[s.len() - 2]);
                lemma_words_nonempty_after_word_char(init);
                let grown = w.last().push(c);
                assert(good_word(w[w.len() - 1]));
                assert forall|i: int| 0 <= i < grown.len() implies word_char(#[trigger] grown[i]) by {
                    if i < w.last().len() {
                        assert(grown[i] == w.last()[i]);
                    }
                }
                assert forall|k: int| 0 <= k < words(s).len() implies good_word(#[trigger] words(s)[k]) by {
                    if k < w.len() - 1 {
                        assert(words(s)[k] == w[k]);
                    }
                }
            } else {
                assert forall|k: int| 0 <= k < words(s).len() implies good_word(#[trigger] words(s)[k]) by {
                    if k < w.len() {
                        assert(words(s)[k] == w[k]);
                    } else {
                        assert(words(s)[k] == seq![c]);
                    }
                }
            }
        }
    }
}

proof fn lemma_join_table_safe(w: Seq<Seq<char>>)
    requires
        forall|k: int| 0 <= k < w.len() ==> good_word(#[trigger] w[k]),
    ensures
        table_safe(join(w, seq![' '])),
        w.len() > 0 ==> join(w, seq![' ']).len() > 0 && !is_ws(join(w, seq![' ']).last()),
    decreases w.len(),
{
    if w.len() == 1 {
        assert(good_word(w[0]));
    } else if w.len() > 1 {
        let init = w.drop_last();
        let last = w.last();
        assert(good_word(w[w.len() - 1]));
        assert forall|k: int| 0 <= k < init.len() implies good_word(#[trigger] init[k]) by {
            assert(init[k] == w[k]);
        }
        lemma_join_table_safe(init);
        let a = join(init, seq![' ']);
        let t = join(w, seq![' ']);
        assert(t == a + seq![' '] + last);
        assert(!is_ws(a.last()));
        assert(word_char(last[0]));
        assert(t.last() == last.last());
        assert(word_char(last[last.len() - 1]));
        assert forall|i: int| 0 <= i < t.len() implies #[trigger] t[i] != '|' && !is_ctrl(t[i]) && (
        is_ws(t[i]) ==> t[i] == ' ' && 0 < i < t.len() - 1 && !is_ws(t[i - 1]) && !is_ws(
            t[i + 1],
        )) by {
            if i < a.len() {
                assert(t[i] == a[i]);
                if is_ws(t[i]) {
                    assert(t[i - 1] == a[i - 1]);
                    if i + 1 < a.len() {
                        assert(t[i + 1] == a[i + 1]);
                    } else {
                        assert(i == a.len() - 1);
                        assert(a[i] == a.last());
                    }
                }
            } else if i == a.len() {
                assert(t[i - 1] == a.last());
                assert(t[i + 1] == last[0]);
            } else {
                assert(t[i] == last[i - a.len() - 1]);
                assert(word_char(last[i - a.len() - 1]));
            }
        }
    }
}

proof fn lemma_words_append_word(a: Seq<char>, b: Seq<char>)
    requires
        a.len() == 0 || is_ws(a.last()),
        b.len() > 0,
        forall|i: int| 0 <= i < b.len() ==> !is_ws(#[trigger] b[i]),
    ensures
        words(a + b) == words(a).push(b),
    decreases b.len(),
{
    let s = a + b;
    assert(s.last() == b.last());
    assert(b[b.len() - 1] == b.last());
    if b.len() == 1 {
        assert(s.drop_last() =~= a);
        if s.len() >= 2 {
            assert(s[s.len() - 2] == a.last());
        }
        assert(seq![b.last()] =~= b);
    } else {
        let b0 = b.drop_last();
        assert forall|i: int| 0 <= i < b0.len() implies !is_ws(#[trigger] b0[i]) by {
            assert(b0[i] == b[i]);
        }
        lemma_words_append_word(a, b0);
        assert(s.drop_last() =~= a + b0);
        assert(s[s.len() - 2] == b[b.len() - 2]);
        let w = words(a + b0);
        assert(w.last() == b0);
        assert(w.update(w.len() - 1, w.last().push(b.last())) =~= words(a).push(b)) by {
            assert(b0.push(b.last()) =~= b);
        }
    }
}

proof fn lemma_words_of_joined(w: Seq<Seq<char>>)
    requires
        forall|k: int| 0 <= k < w.len() ==> good_word(#[trigger] w[k]),
    ensures
        words(join(w, seq![' '])) == w,
    decreases w.len(),
{
    if w.len() == 0 {
        assert(words(Seq::<char>::empty()) =~= w);
    } else {
        let init = w.drop_last();
        let last = w.last();
        assert(good_word(w[w.len() - 1]));
        assert forall|i: int| 0 <= i < last.len() implies !is_ws(#[trigger] last[i]) by {
            assert(word_char(last[i]));
        }
        assert forall|k: int| 0 <= k < init.len() implies good_word(#[trigger] init[k]) by {
            assert(init[k] == w[k]);
        }
        lemma_words_of_joined(init);
        if w.len() == 1 {
            lemma_words_append_word(Seq::<char>::empty(), last);
            assert(Seq::<char>::empty() + last =~= last);
            assert(seq![last] =~= w);
            assert(Seq::<Seq<char>>::empty().push(last) =~= w);
        } else {
            let a = join(init, seq![' ']);
            let a1 = a + seq![' '];
            assert(words(a1) == words(a)) by {
                assert(a1.drop_last() =~= a);
                assert(a1.last() == ' ');
            }
            lemma_words_append_word(a1, last);
            assert(join(w, seq![' ']) =~= a1 + last);
            assert(init.push(last) =~= w);
        }
    }
}

/// A sanitized name cannot break the table: no `'|'`, no control
/// characters, single spaces between words and none at the ends. And the
/// mapping is stable: sanitizing it again changes nothing.
pub proof fn law_sanitized_names_are_table_safe(raw: Seq<char>)
    ensures
        table_safe(sanitized(raw)),
        sanitized(sanitized(raw)) == sanitized(raw),
{
    let clean = raw.map_values(|c: char| cell_safe(c));
    assert forall|i: int| 0 <= i < clean.len() implies #[trigger] clean[i] != '|' && !is_ctrl(
        clean[i],
    ) by {
        assert(clean[i] == cell_safe(raw[i]));
        assert(!is_ctrl(' '));
    }
    lemma_words_good(clean);
    let w = words(clean);
    lemma_join_table_safe(w);
    let n = sanitized(raw);
    assert(n == join(w, seq![' ']));
    assert(n.map_values(|c: char| cell_safe(c)) =~= n);
    lemma_words_of_joined(w);
}

} // verus!
