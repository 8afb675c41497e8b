//! Small renderings of library values for the screens: a visible glyph for
//! whitespace characters and a short label for an Exercise's source file.

use vstd::prelude::*;

use crate::clock::{decimal, push_decimal};
use crate::command::{complete_info, complete_info_spec, CommandInfoView};
use crate::engine::{view_status, CharStatus, EngineView, TypingEngine};
use crate::exercise::Exercise;
use crate::paths::{after_last_slash, after_last_slash_in, lemma_after_last_slash};
use crate::text::{append_chars, chars_of, is_whitespace, is_ws, join, string_of};

verus! {

/// What the screens show for `c`: a newline as `↵`, a tab as `⭾`, a space as
/// `␣`, any other character as itself.
pub open spec fn shown_char(c: char) -> Seq<char> {
    if c == '\n' {
        seq!['\u{21B5}']
    } else if c == '\t' {
        seq!['\u{2B7E}']
    } else if c == ' ' {
        seq!['\u{2423}']
    } else {
        seq![c]
    }
}

/// The visible rendering of `c`.
pub fn display_char(c: char) -> (r: String)
    ensures
        r@ == shown_char(c),
{
    let mut out: Vec<char> = Vec::new();
    if c == '\n' {
        out.push('\u{21B5}');
    } else if c == '\t' {
        out.push('\u{2B7E}');
    } else if c == ' ' {
        out.push('\u{2423}');
    } else {
        out.push(c);
    }
    proof {
        assert(out@ =~= shown_char(c));
    }
    string_of(out.as_slice())
}

/// The last two `/`-separated components of `p` (all of `p` when it has
/// fewer).
pub open spec fn short_label(p: Seq<char>) -> Seq<char> {
    let k = after_last_slash(p);
    if k == 0 {
        p
    } else {
        p.skip(after_last_slash(p.take(k - 1)))
    }
}

/// The label of an Exercise's source: the last two path components.
pub fn exercise_label(ex: &Exercise) -> (r: String)
    ensures
        r@ == short_label(ex.source_path@),
{
    let p = chars_of(ex.source_path.as_str());
    let n = p.len();
    let k = after_last_slash_in(p.as_slice(), n);
    proof {
        assert(p@.take(n as int) =~= p@);
    }
    if k == 0 {
        return ex.source_path.clone();
    }
    proof {
        lemma_after_last_slash(p@);
        assert(p@.take(k - 1) =~= p@.take(n as int).take(k - 1));
    }
    let j = after_last_slash_in(p.as_slice(), k - 1);
    let short = crate::text::slice_to_vec(p.as_slice(), j, n);
    proof {
        assert(short@ =~= p@.skip(j as int));
    }
    string_of(short.as_slice())
}

/// Columns a tab takes on the typing screen.
pub const TAB_VISUAL_WIDTH: usize = 4;

/// One piece of the typing screen: the text drawn for one character, the
/// character's status, and whether the cursor is on it.
pub struct Glyph {
    pub text: String,
    pub status: CharStatus,
    pub cursor: bool,
}

/// The mathematical content of a [`Glyph`].
pub struct GlyphView {
    pub text: Seq<char>,
    pub status: CharStatus,
    pub cursor: bool,
}

impl View for Glyph {
    type V = GlyphView;

    open spec fn view(&self) -> GlyphView {
        GlyphView { text: self.text@, status: self.status, cursor: self.cursor }
    }
}

/// What is drawn for `c` on the typing screen: a newline as a space (so the
/// cursor shows at the end of the line), a tab as four spaces, any other
/// character as itself.
pub open spec fn drawn_text(c: char) -> Seq<char> {
    if c == '\n' {
        seq![' ']
    } else if c == '\t' {
        seq![' ', ' ', ' ', ' ']
    } else {
        seq![c]
    }
}

/// The lines of the typing screen for the first `n` characters of the
/// engine: each character's glyph on the current line, a newline's glyph
/// ending it.
pub open spec fn screen_lines(v: EngineView, n: int) -> Seq<Seq<GlyphView>>
    decreases n,
{
    if n <= 0 {
        seq![seq![]]
    } else {
        let before = screen_lines(v, n - 1);
        let c = v.chars[n - 1];
        let g = GlyphView { text: drawn_text(c), status: view_status(v, n - 1), cursor: n - 1 == v.cursor };
        let grown = before.update(before.len() - 1, before.last().push(g));
        if c == '\n' {
            grown.push(seq![])
        } else {
            grown
        }
    }
}

proof fn lemma_screen_lines_nonempty(v: EngineView, n: int)
    ensures
        screen_lines(v, n).len() >= 1,
    decreases n,
{
    if n > 0 {
        lemma_screen_lines_nonempty(v, n - 1);
    }
}

/// The views of the glyph lines.
pub open spec fn glyph_views(lines: Seq<Vec<Glyph>>) -> Seq<Seq<GlyphView>> {
    lines.map_values(|l: Vec<Glyph>| l@.map_values(|g: Glyph| g@))
}

fn drawn(c: char) -> (r: String)
    ensures
        r@ == drawn_text(c),
{
    let mut v: Vec<char> = Vec::new();
    if c == '\n' {
        v.push(' ');
    } else if c == '\t' {
        let mut k: usize = 0;
        while k < TAB_VISUAL_WIDTH
            invariant
                k <= TAB_VISUAL_WIDTH,
                v@ == Seq::new(k as nat, |_i: int| ' '),
            decreases TAB_VISUAL_WIDTH - k,
        {
            v.push(' ');
            k = k + 1;
            proof {
                assert(v@ =~= Seq::new(k as nat, |_i: int| ' '));
            }
        }
    } else {
        v.push(c);
    }
    proof {
        assert(v@ =~= drawn_text(c));
    }
    string_of(v.as_slice())
}

/// The typing screen's lines: every character of the Exercise with its
/// status, the cursor marked, split into lines at newlines.
pub fn typing_lines(engine: &TypingEngine) -> (r: Vec<Vec<Glyph>>)
    requires
        engine.wf(),
    ensures
        glyph_views(r@) == screen_lines(engine@, engine@.chars.len() as int),
{
    let chars = engine.chars();
    let cursor = engine.cursor();
    let mut lines: Vec<Vec<Glyph>> = Vec::new();
    let mut current: Vec<Glyph> = Vec::new();
    let mut i: usize = 0;
    proof {
        assert(current@.map_values(|g: Glyph| g@) =~= Seq::<GlyphView>::empty());
        assert(glyph_views(lines@).push(current@.map_values(|g: Glyph| g@)) =~= screen_lines(engine@, 0));
    }
    while i < chars.len()
        invariant
            engine.wf(),
            chars@ == engine@.chars,
            cursor == engine@.cursor,
            i <= chars@.len(),
            glyph_views(lines@).push(current@.map_values(|g: Glyph| g@)) == screen_lines(engine@, i as int),
        decreases chars@.len() - i,
    {
        let c = chars[i];
        let g = Glyph { text: drawn(c), status: engine.status_at(i), cursor: i == cursor };
        let ghost before_lines = lines@;
        let ghost before_cur = current@;
        proof {
            lemma_screen_lines_nonempty(engine@, i as int);
        }
        current.push(g);
        proof {
            let prev = screen_lines(engine@, i as int);
            assert(prev.last() == before_cur.map_values(|g: Glyph| g@));
            assert(current@.map_values(|g: Glyph| g@) =~= before_cur.map_values(|g: Glyph| g@).push(g@));
        }
        if c == '\n' {
            let done = current;
            current = Vec::new();
            lines.push(done);
            proof {
                let prev = screen_lines(engine@, i as int);
                let grown = prev.update(prev.len() - 1, prev.last().push(g@));
                assert(glyph_views(lines@) =~= glyph_views(before_lines).push(done@.map_values(|g: Glyph| g@)));
                assert(glyph_views(lines@) =~= grown);
                assert(current@.map_values(|g: Glyph| g@) =~= Seq::<GlyphView>::empty());
                assert(glyph_views(lines@).push(current@.map_values(|g: Glyph| g@)) =~= grown.push(seq![]));
            }
        } else {
            proof {
                let prev = screen_lines(engine@, i as int);
                let grown = prev.update(prev.len() - 1, prev.last().push(g@));
                assert(glyph_views(lines@).push(current@.map_values(|g: Glyph| g@)) =~= grown);
            }
        }
        i = i + 1;
    }
    let ghost before_lines = lines@;
    lines.push(current);
    proof {
        assert(glyph_views(lines@) =~= glyph_views(before_lines).push(lines@.last()@.map_values(|g: Glyph| g@)));
    }
    lines
}

/// One row of the palette's suggestion list.
pub struct PaletteRow {
    /// `  :name` or `  :name <arg>`.
    pub usage: String,
    /// `  — description`.
    pub description: String,
    /// Whether the command is wired up (otherwise shown as not yet).
    pub available: bool,
}

/// The usage text of a command in the palette.
pub open spec fn usage_text(i: CommandInfoView) -> Seq<char> {
    if i.arg.len() == 0 {
        "  :"@ + i.name
    } else {
        "  :"@ + i.name + seq![' '] + i.arg
    }
}

/// Whether `row` shows command `i`.
pub open spec fn shows_command(row: PaletteRow, i: CommandInfoView) -> bool {
    &&& row.usage@ == usage_text(i)
    &&& row.description@ == "  \u{2014} "@ + i.description
    &&& row.available == i.available
}

/// The palette's suggestions for the line `input`: one row per command
/// that completes it, in display order.
pub fn palette_rows(input: &str) -> (r: Vec<PaletteRow>)
    ensures
        r@.len() == complete_info_spec(input@).len(),
        forall|k: int| 0 <= k < r@.len() ==> shows_command(#[trigger] r@[k], complete_info_spec(input@)[k]),
{
    let infos = complete_info(input);
    let mut rows: Vec<PaletteRow> = Vec::new();
    let mut k: usize = 0;
    while k < infos.len()
        invariant
            k <= infos@.len(),
            crate::command::info_views(infos@) == complete_info_spec(input@),
            rows@.len() == k,
            forall|j: int| 0 <= j < k ==> shows_command(#[trigger] rows@[j], complete_info_spec(input@)[j]),
        decreases infos@.len() - k,
    {
        let info = infos[k];
        let mut usage = chars_of("  :");
        append_chars(&mut usage, chars_of(info.name).as_slice());
        if chars_of(info.arg).len() > 0 {
            usage.push(' ');
            append_chars(&mut usage, chars_of(info.arg).as_slice());
        }
        let mut description = chars_of("  \u{2014} ");
        append_chars(&mut description, chars_of(info.description).as_slice());
        let row = PaletteRow {
            usage: string_of(usage.as_slice()),
            description: string_of(description.as_slice()),
            available: info.available,
        };
        proof {
            assert(crate::command::info_views(infos@)[k as int] == info@);
            if info@.arg.len() == 0 {
                assert(row.usage@ =~= usage_text(info@));
            } else {
                assert(row.usage@ =~= usage_text(info@));
            }
        }
        rows.push(row);
        k = k + 1;
    }
    rows
}

/// How one mistake is listed on the stats screen: the character's glyph and
/// its count, as `c(n)`.
pub open spec fn mistake_text(m: (char, usize)) -> Seq<char> {
    shown_char(m.0) + seq!['('] + decimal(m.1 as nat) + seq![')']
}

/// The "Stumbled on" text of the stats screen: the mistakes separated by two
/// spaces, or a dash when there were none.
pub open spec fn stumbles(top: Seq<(char, usize)>) -> Seq<char> {
    if top.len() == 0 {
        seq!['\u{2014}']
    } else {
        join(top.map_values(|m: (char, usize)| mistake_text(m)), seq![' ', ' '])
    }
}

/// The mistakes of an Exercise as shown on its stats screen.
pub fn stumbles_text(top: &[(char, usize)]) -> (r: String)
    ensures
        r@ == stumbles(top@),
{
    let mut out: Vec<char> = Vec::new();
    if top.len() == 0 {
        out.push('\u{2014}');
        proof {
            assert(out@ =~= stumbles(top@));
        }
        return string_of(out.as_slice());
    }
    let ghost parts = top@.map_values(|m: (char, usize)| mistake_text(m));
    let mut i: usize = 0;
    while i < top.len()
        invariant
            i <= top@.len(),
            parts == top@.map_values(|m: (char, usize)| mistake_text(m)),
            out@ == join(parts.take(i as int), seq![' ', ' ']),
        decreases top@.len() - i,
    {
        let ghost before = out@;
        if i > 0 {
            out.push(' ');
            out.push(' ');
        }
        let (c, n) = top[i];
        let shown = display_char(c);
        append_chars(&mut out, chars_of(shown.as_str()).as_slice());
        out.push('(');
        push_decimal(n as u64, &mut out);
        out.push(')');
        proof {
            assert(parts.take(i + 1).drop_last() =~= parts.take(i as int));
            assert(parts[i as int] == mistake_text(top@[i as int]));
            if i == 0 {
                assert(out@ =~= parts[0]);
            } else {
                assert(out@ =~= before + seq![' ', ' '] + parts[i as int]);
            }
        }
        i = i + 1;
    }
    proof {
        assert(parts.take(top@.len() as int) =~= parts);
    }
    string_of(out.as_slice())
}

/// How a leading whitespace character is marked when Exercises are
/// printed: a space as `·`, a tab as `→`, anything else as `?`.
pub open spec fn indent_mark(c: char) -> char {
    if c == ' ' {
        '\u{00B7}'
    } else if c == '\t' {
        '\u{2192}'
    } else {
        '?'
    }
}

/// Number of leading whitespace characters of `line`.
pub open spec fn leading_ws_count(line: Seq<char>) -> int
    decreases line.len(),
{
    if line.len() > 0 && is_ws(line[0]) {
        1 + leading_ws_count(line.drop_first())
    } else {
        0
    }
}

/// A line as it is printed for inspection: its leading whitespace made
/// visible, the rest unchanged.
pub open spec fn marked_line(line: Seq<char>) -> Seq<char> {
    let k = leading_ws_count(line);
    line.take(k).map_values(|c: char| indent_mark(c)) + line.skip(k)
}

proof fn lemma_leading_ws_count(line: Seq<char>, k: int)
    requires
        0 <= k <= line.len(),
        forall|j: int| 0 <= j < k ==> is_ws(#[trigger] line[j]),
        k == line.len() || !is_ws(line[k]),
    ensures
        leading_ws_count(line) == k,
    decreases k,
{
    if k > 0 {
        assert forall|j: int| 0 <= j < k - 1 implies is_ws(#[trigger] line.drop_first()[j]) by {
            assert(line.drop_first()[j] == line[j + 1]);
        }
        if k < line.len() {
            assert(line.drop_first()[k - 1] == line[k]);
        }
        lemma_leading_ws_count(line.drop_first(), k - 1);
    }
}

/// Mark the leading whitespace of `line` for printing.
pub fn mark_indent(line: &str) -> (r: String)
    ensures
        r@ == marked_line(line@),
{
    let cs = chars_of(line);
    let mut k: usize = 0;
    while k < cs.len() && is_whitespace(cs[k])
        invariant
            k <= cs@.len(),
            cs@ == line@,
            forall|j: int| 0 <= j < k ==> is_ws(#[trigger] cs@[j]),
        decreases cs@.len() - k,
    {
        k = k + 1;
    }
    proof {
        lemma_leading_ws_count(cs@, k as int);
    }
    let mut out: Vec<char> = Vec::new();
    let mut i: usize = 0;
    while i < cs.len()
        invariant
            i <= cs@.len(),
            k <= cs@.len(),
            cs@ == line@,
            leading_ws_count(line@) == k,
            out@.len() == i,
            forall|j: int| 0 <= j < i ==> #[trigger] out@[j] == (if j < k {
                indent_mark(cs@[j])
            } else {
                cs@[j]
            }),
        decreases cs@.len() - i,
    {
        let c = cs[i];
        let m = if i < k {
            if c == ' ' {
                '\u{00B7}'
            } else if c == '\t' {
                '\u{2192}'
            } else {
                '?'
            }
        } else {
            c
        };
        out.push(m);
        i = i + 1;
    }
    proof {
        assert(out@ =~= marked_line(line@));
    }
    string_of(out.as_slice())
}

} // verus!
