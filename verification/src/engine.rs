//! The typing state machine.
//!
//! Pure logic: feed it keystrokes via [`TypingEngine::on_char`] /
//! [`TypingEngine::on_backspace`] / [`TypingEngine::on_enter`] and read its
//! state. No I/O, no rendering.
//!
//! Supports two modes:
//! - [`Mode::Strict`] — wrong keys do not advance the cursor (the default)
//! - [`Mode::Lenient`] — wrong keys advance the cursor and mark the
//!   position as errored; the user can backspace to fix (Monkeytype-style)
//!
//! The state is modelled by [`EngineView`]; each keystroke is a spec-level
//! transition ([`after_char`], [`after_backspace`], [`after_enter`]) and the
//! exec methods are proved to perform exactly that transition.

use crate::exercise::{Exercise, ExerciseView};
use vstd::prelude::*;

verus! {

/// Per-position recording of what the user last typed at that position.
/// Used in both modes — in [`Mode::Lenient`] it drives `status_at` directly;
/// in [`Mode::Strict`] it's kept consistent but unused for display.
#[derive(Debug, Clone, Copy, PartialEq, Eq, Structural)]
pub enum PositionStatus {
    Untyped,
    Correct,
    Wrong,
}

/// How the engine treats wrong keystrokes.
#[derive(Debug, Clone, Copy, PartialEq, Eq, Structural)]
pub enum Mode {
    /// Wrong keys do not advance the cursor. The user must type the
    /// expected character to make progress. The default.
    Strict,
    /// Wrong keys advance the cursor anyway and mark the position as
    /// errored. The user can backspace and retype to fix.
    Lenient,
}

impl Default for Mode {
    fn default() -> (r: Mode)
        ensures
            r == Mode::Strict,
    {
        Mode::Strict
    }
}

/// Per-character display status of each position in the Exercise text.
#[derive(Debug, Clone, Copy, PartialEq, Eq, Structural)]
pub enum CharStatus {
    /// The cursor has not yet reached this position.
    Pending,
    /// The cursor has passed this position.
    Correct,
    /// The most recent keystroke at this position was wrong.
    Errored,
}

/// A single wrong-key event recorded at the position the user was expected
/// to type `expected` but typed `typed`. Error events are sticky: once
/// logged they remain for the life of the Exercise.
#[derive(Debug, Clone, Copy, PartialEq, Eq, Structural)]
pub struct ErrorEvent {
    pub position: usize,
    pub typed: char,
    pub expected: char,
}

/// The abstract state of a [`TypingEngine`].
pub struct EngineView {
    pub exercise: ExerciseView,
    /// The characters to type.
    pub chars: Seq<char>,
    /// Which positions are skipped as auto-indent.
    pub auto_indent: Seq<bool>,
    pub cursor: int,
    pub mode: Mode,
    /// Strict mode: the last keystroke at the cursor was wrong.
    pub stuck: bool,
    /// Last-attempt status of each position.
    pub marks: Seq<PositionStatus>,
    /// Every wrong keystroke so far, in order.
    pub errors: Seq<ErrorEvent>,
}

// -- The auto-indent mask ----------------------------------------------------

/// Position `i` of `chars` is auto-indent iff it is `' '` or `'\t'` and its
/// predecessor is `'\n'` or itself auto-indent. Position 0 never is.
pub open spec fn is_auto_indent(chars: Seq<char>, i: int) -> bool
    decreases i,
{
    if i <= 0 || i >= chars.len() {
        false
    } else {
        (chars[i] == ' ' || chars[i] == '\t') && (chars[i - 1] == '\n' || is_auto_indent(
            chars,
            i - 1,
        ))
    }
}

/// The auto-indent mask of `chars`.
pub open spec fn auto_indent_mask(chars: Seq<char>) -> Seq<bool> {
    Seq::new(chars.len(), |i: int| is_auto_indent(chars, i))
}

/// First position at or after `c` that is not auto-indent (or the end).
pub open spec fn indent_run_end(mask: Seq<bool>, c: int) -> int
    decreases mask.len() - c,
{
    if 0 <= c < mask.len() && mask[c] {
        indent_run_end(mask, c + 1)
    } else {
        c
    }
}

/// `marks` with every position in `[from, to)` set to `m`.
pub open spec fn mark_range(
    marks: Seq<PositionStatus>,
    from: int,
    to: int,
    m: PositionStatus,
) -> Seq<PositionStatus> {
    Seq::new(marks.len(), |i: int| if from <= i < to { m } else { marks[i] })
}

// -- Keystroke transitions ---------------------------------------------------

/// Whether the whole text has been typed.
pub open spec fn view_complete(v: EngineView) -> bool {
    v.cursor == v.chars.len()
}

/// Move past the auto-indent run starting at `v.cursor`, marking it Correct.
pub open spec fn skip_indent(v: EngineView) -> EngineView {
    let end = indent_run_end(v.auto_indent, v.cursor);
    EngineView {
        cursor: end,
        marks: mark_range(v.marks, v.cursor, end, PositionStatus::Correct),
        ..v
    }
}

/// A wrong keystroke `typed` at the cursor.
pub open spec fn wrong_key(v: EngineView, typed: char, skip_after_newline: bool) -> EngineView {
    let expected = v.chars[v.cursor];
    let logged = EngineView {
        errors: v.errors.push(ErrorEvent { position: v.cursor as usize, typed, expected }),
        marks: v.marks.update(v.cursor, PositionStatus::Wrong),
        ..v
    };
    match v.mode {
        Mode::Strict => EngineView { stuck: true, ..logged },
        Mode::Lenient => {
            let moved = EngineView { cursor: v.cursor + 1, stuck: false, ..logged };
            if skip_after_newline && expected == '\n' {
                skip_indent(moved)
            } else {
                moved
            }
        },
    }
}

/// The state after the user types `ch`.
pub open spec fn after_char(v: EngineView, ch: char) -> EngineView {
    if view_complete(v) {
        v
    } else if ch == v.chars[v.cursor] {
        EngineView {
            marks: v.marks.update(v.cursor, PositionStatus::Correct),
            stuck: false,
            cursor: v.cursor + 1,
            ..v
        }
    } else {
        wrong_key(v, ch, true)
    }
}

/// The state after the user presses Backspace.
pub open spec fn after_backspace(v: EngineView) -> EngineView {
    if view_complete(v) {
        v
    } else if v.mode == Mode::Strict && v.stuck {
        EngineView { stuck: false, marks: v.marks.update(v.cursor, PositionStatus::Untyped), ..v }
    } else if v.cursor > 0 {
        EngineView {
            stuck: false,
            cursor: v.cursor - 1,
            marks: v.marks.update(v.cursor - 1, PositionStatus::Untyped),
            ..v
        }
    } else {
        EngineView { stuck: false, ..v }
    }
}

/// The state after the user presses Enter.
pub open spec fn after_enter(v: EngineView) -> EngineView {
    if view_complete(v) {
        v
    } else if v.chars[v.cursor] == '\n' {
        skip_indent(
            EngineView {
                marks: v.marks.update(v.cursor, PositionStatus::Correct),
                stuck: false,
                cursor: v.cursor + 1,
                ..v
            },
        )
    } else {
        wrong_key(v, '\n', false)
    }
}

/// Display status of position `i`.
pub open spec fn view_status(v: EngineView, i: int) -> CharStatus {
    match v.mode {
        Mode::Strict => if i < v.cursor {
            CharStatus::Correct
        } else if i == v.cursor && v.stuck {
            CharStatus::Errored
        } else {
            CharStatus::Pending
        },
        Mode::Lenient => if 0 <= i < v.marks.len() && v.marks[i] == PositionStatus::Correct {
            CharStatus::Correct
        } else if 0 <= i < v.marks.len() && v.marks[i] == PositionStatus::Wrong {
            CharStatus::Errored
        } else {
            CharStatus::Pending
        },
    }
}

/// Whether position `i` counts as correctly typed.
pub open spec fn counts_as_correct(v: EngineView, i: int) -> bool {
    !v.auto_indent[i] && (v.mode == Mode::Strict || v.marks[i] == PositionStatus::Correct)
}

/// How many of the positions `[0, n)` count as correctly typed.
pub open spec fn correct_count(v: EngineView, n: int) -> nat
    decreases n,
{
    if n <= 0 {
        0
    } else {
        correct_count(v, n - 1) + if counts_as_correct(v, n - 1) {
            1nat
        } else {
            0nat
        }
    }
}

/// The internal consistency of a state.
pub open spec fn view_wf(v: EngineView) -> bool {
    &&& v.chars == v.exercise.text
    &&& v.auto_indent == auto_indent_mask(v.chars)
    &&& v.marks.len() == v.chars.len()
    &&& 0 <= v.cursor <= v.chars.len()
    &&& v.stuck ==> v.cursor < v.chars.len() && v.mode == Mode::Strict
    &&& forall|i: int| 0 <= i < v.cursor ==> v.marks[i] != PositionStatus::Untyped
    &&& forall|i: int|
        0 <= i < v.cursor && v.mode == Mode::Strict ==> v.marks[i] == PositionStatus::Correct
    &&& forall|i: int| v.cursor < i < v.chars.len() ==> v.marks[i] == PositionStatus::Untyped
    &&& v.cursor < v.chars.len() ==> (v.marks[v.cursor] == PositionStatus::Wrong <==> v.stuck)
    &&& v.cursor < v.chars.len() ==> v.marks[v.cursor] != PositionStatus::Correct
}

#[derive(Debug)]
pub struct TypingEngine {
    exercise: Exercise,
    chars: Vec<char>,
    is_auto_indent: Vec<bool>,
    cursor: usize,
    mode: Mode,
    position_status: Vec<PositionStatus>,
    last_keystroke_wrong: bool,
    errors: Vec<ErrorEvent>,
}

impl View for TypingEngine {
    type V = EngineView;

    closed spec fn view(&self) -> EngineView {
        EngineView {
            exercise: self.exercise@,
            chars: self.chars@,
            auto_indent: self.is_auto_indent@,
            cursor: self.cursor as int,
            mode: self.mode,
            stuck: self.last_keystroke_wrong,
            marks: self.position_status@,
            errors: self.errors@,
        }
    }
}

impl TypingEngine {
    /// The engine's internal consistency.
    pub closed spec fn wf(&self) -> bool {
        &&& view_wf(self@)
        &&& self.chars@.len() == self.is_auto_indent@.len()
    }

    /// A consistent engine has a consistent view: the cursor within the
    /// text, one mark per character, and the marks before, at and after the
    /// cursor as [`view_wf`] describes them.
    pub proof fn lemma_wf_view(&self)
        requires
            self.wf(),
        ensures
            view_wf(self@),
    {
    }

    /// A Strict-mode engine for `exercise`.
    pub fn new(exercise: Exercise) -> (r: Self)
        ensures
            r.wf(),
            r@ == initial_view(exercise@, Mode::Strict),
    {
        Self::new_with_mode(exercise, Mode::Strict)
    }

    /// An engine for `exercise` in `mode`, with the cursor at the start.
    pub fn new_with_mode(exercise: Exercise, mode: Mode) -> (r: Self)
        ensures
            r.wf(),
            r@ == initial_view(exercise@, mode),
    {
        let chars = crate::text::chars_of(exercise.text.as_str());
        let is_auto_indent = compute_auto_indent_mask(chars.as_slice());
        let mut position_status: Vec<PositionStatus> = Vec::new();
        let mut i: usize = 0;
        while i < chars.len()
            invariant
                i <= chars@.len(),
                position_status@ == Seq::new(i as nat, |_j: int| PositionStatus::Untyped),
            decreases chars@.len() - i,
        {
            position_status.push(PositionStatus::Untyped);
            i = i + 1;
            proof {
                assert(position_status@ =~= Seq::new(i as nat, |_j: int| PositionStatus::Untyped));
            }
        }
        let r = Self {
            exercise,
            chars,
            is_auto_indent,
            cursor: 0,
            mode,
            position_status,
            last_keystroke_wrong: false,
            errors: Vec::new(),
        };
        proof {
            assert(r@.errors =~= Seq::<ErrorEvent>::empty());
            assert(r@ == initial_view(exercise@, mode));
        }
        r
    }

    pub fn mode(&self) -> (r: Mode)
        ensures
            r == self@.mode,
    {
        self.mode
    }

    pub fn exercise(&self) -> (r: &Exercise)
        ensures
            r@ == self@.exercise,
    {
        &self.exercise
    }

    /// The text of the Exercise as a slice of chars, in position order.
    pub fn chars(&self) -> (r: &[char])
        ensures
            r@ == self@.chars,
    {
        self.chars.as_slice()
    }

    pub fn cursor(&self) -> (r: usize)
        ensures
            r == self@.cursor,
    {
        self.cursor
    }

    /// All error events recorded so far, in the order they happened.
    pub fn errors(&self) -> (r: &[ErrorEvent])
        ensures
            r@ == self@.errors,
    {
        self.errors.as_slice()
    }

    pub fn is_complete(&self) -> (r: bool)
        ensures
            r == view_complete(self@),
    {
        self.cursor == self.chars.len()
    }

    /// Display status of the position at `i`.
    pub fn status_at(&self, i: usize) -> (r: CharStatus)
        requires
            self.wf(),
        ensures
            r == view_status(self@, i as int),
    {
        match self.mode {
            Mode::Strict => {
                if i < self.cursor {
                    CharStatus::Correct
                } else if i == self.cursor && self.last_keystroke_wrong {
                    CharStatus::Errored
                } else {
                    CharStatus::Pending
                }
            },
            Mode::Lenient => {
                if i < self.position_status.len() {
                    match self.position_status[i] {
                        PositionStatus::Correct => CharStatus::Correct,
                        PositionStatus::Wrong => CharStatus::Errored,
                        PositionStatus::Untyped => CharStatus::Pending,
                    }
                } else {
                    CharStatus::Pending
                }
            },
        }
    }

    /// Number of characters typed correctly that *count*: auto-indent
    /// positions are excluded, and in Lenient mode so are positions left
    /// in a Wrong state.
    pub fn correct_chars_typed(&self) -> (r: usize)
        requires
            self.wf(),
        ensures
            r == correct_count(self@, self@.cursor),
    {
        let mut n: usize = 0;
        let mut i: usize = 0;
        while i < self.cursor
            invariant
                self.wf(),
                i <= self.cursor,
                n == correct_count(self@, i as int),
                n <= i,
            decreases self.cursor - i,
        {
            let counts = !self.is_auto_indent[i] && match self.mode {
                Mode::Strict => true,
                Mode::Lenient => self.position_status[i] == PositionStatus::Correct,
            };
            if counts {
                n = n + 1;
            }
            i = i + 1;
        }
        n
    }

    /// Type `ch` at the cursor.
    pub fn on_char(&mut self, ch: char)
        requires
            old(self).wf(),
        ensures
            final(self).wf(),
            final(self)@ == after_char(old(self)@, ch),
    {
        if self.is_complete() {
            return;
        }
        assert(self.cursor < self.chars.len());
        let expected = self.chars[self.cursor];
        if ch == expected {
            self.position_status.set(self.cursor, PositionStatus::Correct);
            self.last_keystroke_wrong = false;
            self.cursor = self.cursor + 1;
        } else {
            self.errors.push(ErrorEvent { position: self.cursor, typed: ch, expected });
            self.position_status.set(self.cursor, PositionStatus::Wrong);
            match self.mode {
                Mode::Strict => {
                    self.last_keystroke_wrong = true;
                },
                Mode::Lenient => {
                    let was_newline = expected == '\n';
                    self.cursor = self.cursor + 1;
                    self.last_keystroke_wrong = false;
                    if was_newline {
                        self.skip_auto_indent();
                    }
                },
            }
        }
    }

    /// Backspace: in Strict mode while stuck, clear the stuck flag without
    /// moving; otherwise step the cursor back one position.
    pub fn on_backspace(&mut self)
        requires
            old(self).wf(),
        ensures
            final(self).wf(),
            final(self)@ == after_backspace(old(self)@),
    {
        if self.is_complete() {
            return;
        }
        if self.mode == Mode::Strict && self.last_keystroke_wrong {
            self.last_keystroke_wrong = false;
            self.position_status.set(self.cursor, PositionStatus::Untyped);
            return;
        }
        self.last_keystroke_wrong = false;
        if self.cursor > 0 {
            self.cursor = self.cursor - 1;
            self.position_status.set(self.cursor, PositionStatus::Untyped);
        }
    }

    /// Enter: correct at a newline (then the auto-indent run is skipped),
    /// a wrong key anywhere else.
    pub fn on_enter(&mut self)
        requires
            old(self).wf(),
        ensures
            final(self).wf(),
            final(self)@ == after_enter(old(self)@),
    {
        if self.is_complete() {
            return;
        }
        assert(self.cursor < self.chars.len());
        let expected = self.chars[self.cursor];
        if expected == '\n' {
            self.position_status.set(self.cursor, PositionStatus::Correct);
            self.last_keystroke_wrong = false;
            self.cursor = self.cursor + 1;
            self.skip_auto_indent();
        } else {
            self.errors.push(ErrorEvent { position: self.cursor, typed: '\n', expected });
            self.position_status.set(self.cursor, PositionStatus::Wrong);
            match self.mode {
                Mode::Strict => {
                    self.last_keystroke_wrong = true;
                },
                Mode::Lenient => {
                    self.cursor = self.cursor + 1;
                    self.last_keystroke_wrong = false;
                },
            }
        }
    }

    /// Advance the cursor through any contiguous run of auto-indent
    /// positions, marking each as `Correct`.
    fn skip_auto_indent(&mut self)
        requires
            old(self).wf(),
            !old(self).last_keystroke_wrong,
        ensures
            final(self).wf(),
            final(self)@ == skip_indent(old(self)@),
    {
        let ghost start = self.cursor as int;
        let ghost marks0 = self.position_status@;
        while self.cursor < self.chars.len() && self.is_auto_indent[self.cursor]
            invariant
                self.wf(),
                !self.last_keystroke_wrong,
                start <= self.cursor,
                self@.chars == old(self)@.chars,
                self@.auto_indent == old(self)@.auto_indent,
                self@.exercise == old(self)@.exercise,
                self@.mode == old(self)@.mode,
                self@.errors == old(self)@.errors,
                marks0 == old(self)@.marks,
                start == old(self)@.cursor,
                indent_run_end(self@.auto_indent, start) == indent_run_end(
                    self@.auto_indent,
                    self.cursor as int,
                ),
                self@.marks == mark_range(
                    marks0,
                    start,
                    self.cursor as int,
                    PositionStatus::Correct,
                ),
            decreases self.chars@.len() - self.cursor,
        {
            self.position_status.set(self.cursor, PositionStatus::Correct);
            self.cursor = self.cursor + 1;
            proof {
                assert(self@.marks =~= mark_range(
                    marks0,
                    start,
                    self.cursor as int,
                    PositionStatus::Correct,
                ));
            }
        }
    }
}

/// The state of a fresh engine for `exercise` in `mode`.
pub open spec fn initial_view(exercise: ExerciseView, mode: Mode) -> EngineView {
    EngineView {
        exercise,
        chars: exercise.text,
        auto_indent: auto_indent_mask(exercise.text),
        cursor: 0,
        mode,
        stuck: false,
        marks: Seq::new(exercise.text.len(), |_i: int| PositionStatus::Untyped),
        errors: Seq::empty(),
    }
}


// -- Laws ---------------------------------------------------------------------

/// Every keystroke keeps the engine's state consistent.
pub proof fn law_keystrokes_preserve_wf(v: EngineView, ch: char)
    requires
        view_wf(v),
    ensures
        view_wf(after_char(v, ch)),
        view_wf(after_backspace(v)),
        view_wf(after_enter(v)),
{
    lemma_skip_indent_wf(v, ch);
}

proof fn lemma_skip_indent_wf(v: EngineView, ch: char)
    requires
        view_wf(v),
    ensures
        view_wf(after_char(v, ch)),
        view_wf(after_backspace(v)),
        view_wf(after_enter(v)),
{
    if !view_complete(v) {
        let c = v.cursor;
        let moved = EngineView {
            marks: v.marks.update(c, PositionStatus::Correct),
            stuck: false,
            cursor: c + 1,
            ..v
        };
        lemma_indent_run_end_bounds(moved.auto_indent, moved.cursor);
        let w = EngineView {
            errors: v.errors.push(ErrorEvent { position: c as usize, typed: ch, expected: v.chars[c] }),
            marks: v.marks.update(c, PositionStatus::Wrong),
            cursor: c + 1,
            stuck: false,
            ..v
        };
        lemma_indent_run_end_bounds(w.auto_indent, w.cursor);
    }
}

proof fn lemma_indent_run_end_bounds(mask: Seq<bool>, c: int)
    requires
        0 <= c <= mask.len(),
    ensures
        c <= indent_run_end(mask, c) <= mask.len(),
        forall|i: int| c <= i < indent_run_end(mask, c) ==> mask[i],
        indent_run_end(mask, c) < mask.len() ==> !mask[indent_run_end(mask, c)],
    decreases mask.len() - c,
{
    if c < mask.len() && mask[c] {
        lemma_indent_run_end_bounds(mask, c + 1);
    }
}

/// Error events are sticky: no keystroke removes or rewrites a logged
/// error, and each keystroke logs at most one new one.
pub proof fn law_errors_are_sticky(v: EngineView, ch: char, expected: char)
    requires
        view_wf(v),
        !view_complete(v) ==> v.chars[v.cursor] == expected,
    ensures
        after_char(v, ch).errors.take(v.errors.len() as int) == v.errors,
        after_char(v, ch).errors.len() <= v.errors.len() + 1,
        after_enter(v).errors.take(v.errors.len() as int) == v.errors,
        after_enter(v).errors.len() <= v.errors.len() + 1,
        after_backspace(v).errors == v.errors,
{
    assert(v.errors.take(v.errors.len() as int) =~= v.errors);
    if !view_complete(v) {
        let e1 = ErrorEvent { position: v.cursor as usize, typed: ch, expected };
        assert(v.errors.push(e1).take(v.errors.len() as int) =~= v.errors);
        let e2 = ErrorEvent { position: v.cursor as usize, typed: '\n', expected };
        assert(v.errors.push(e2).take(v.errors.len() as int) =~= v.errors);
    }
}

/// A typed character keeps the text and the mode, keeps the cursor within
/// the text, and only appends to the error log (at most one event); in
/// Lenient mode it always moves the cursor forward until the Exercise is
/// complete.
pub proof fn law_char_step(v: EngineView, ch: char)
    requires
        view_wf(v),
    ensures
        ({
            let w = after_char(v, ch);
            &&& w.chars == v.chars
            &&& w.mode == v.mode
            &&& 0 <= w.cursor <= w.chars.len()
            &&& w.errors.take(v.errors.len() as int) == v.errors
            &&& w.errors.len() <= v.errors.len() + 1
            &&& view_complete(v) ==> w == v
            &&& v.mode == Mode::Lenient && !view_complete(v) ==> w.cursor > v.cursor
        }),
{
    law_keystrokes_preserve_wf(v, ch);
    law_errors_are_sticky(v, ch, v.chars[v.cursor]);
    if v.mode == Mode::Lenient && !view_complete(v) && ch != v.chars[v.cursor] {
        law_lenient_wrong_key_advances(v, ch);
    }
}

/// Once every character is typed, further keystrokes change nothing.
pub proof fn law_complete_engine_ignores_input(v: EngineView, ch: char)
    requires
        view_complete(v),
    ensures
        after_char(v, ch) == v,
        after_backspace(v) == v,
        after_enter(v) == v,
{
}

/// Typing the expected character advances the cursor by exactly one and
/// logs no error.
pub proof fn law_expected_char_advances(v: EngineView)
    requires
        view_wf(v),
        !view_complete(v),
    ensures
        after_char(v, v.chars[v.cursor]).cursor == v.cursor + 1,
        after_char(v, v.chars[v.cursor]).errors == v.errors,
        view_status(after_char(v, v.chars[v.cursor]), v.cursor) == CharStatus::Correct,
{
}

/// Strict mode: a wrong key never moves the cursor; it logs the error and
/// shows the position as errored until fixed.
pub proof fn law_strict_wrong_key_holds_cursor(v: EngineView, ch: char, expected: char)
    requires
        view_wf(v),
        v.mode == Mode::Strict,
        !view_complete(v),
        v.chars[v.cursor] == expected,
        ch != expected,
    ensures
        after_char(v, ch).cursor == v.cursor,
        after_char(v, ch).errors == v.errors.push(
            ErrorEvent { position: v.cursor as usize, typed: ch, expected },
        ),
        view_status(after_char(v, ch), v.cursor) == CharStatus::Errored,
{
}

/// Lenient mode: a wrong key still advances the cursor, and the position
/// stays errored.
pub proof fn law_lenient_wrong_key_advances(v: EngineView, ch: char)
    requires
        view_wf(v),
        v.mode == Mode::Lenient,
        !view_complete(v),
        ch != v.chars[v.cursor],
    ensures
        after_char(v, ch).cursor > v.cursor,
        view_status(after_char(v, ch), v.cursor) == CharStatus::Errored,
{
    lemma_indent_run_end_bounds(v.auto_indent, v.cursor + 1);
}

/// Backspace undoes a correctly typed character (unless that character
/// completed the exercise): the cursor returns, the position is pending
/// again, and the error log is unchanged.
pub proof fn law_backspace_undoes_correct_char(v: EngineView)
    requires
        view_wf(v),
        v.cursor + 1 < v.chars.len(),
    ensures
        ({
            let w = after_backspace(after_char(v, v.chars[v.cursor]));
            &&& w.cursor == v.cursor
            &&& w.errors == v.errors
            &&& !w.stuck
            &&& view_status(w, v.cursor) == CharStatus::Pending
        }),
{
}

/// Backspace, when not stuck on a wrong key, keeps the text and the error
/// log, and steps the cursor back onto a Pending position (it stays put at
/// the start or once the Exercise is complete).
pub proof fn law_backspace_steps_back(v: EngineView)
    requires
        view_wf(v),
        !(v.mode == Mode::Strict && v.stuck),
    ensures
        after_backspace(v).errors == v.errors,
        after_backspace(v).chars == v.chars,
        view_complete(v) || v.cursor == 0 ==> after_backspace(v).cursor == v.cursor,
        !view_complete(v) && v.cursor > 0 ==> {
            let w = after_backspace(v);
            &&& w.cursor == v.cursor - 1
            &&& view_status(w, w.cursor) == CharStatus::Pending
        },
{
}

/// Strict mode: the position at the cursor shows as errored exactly when
/// the last keystroke was a wrong one. A character or `Enter` leaves it
/// errored if and only if it was not the expected key; `Backspace` never
/// does.
pub proof fn law_strict_errored_means_wrong_key(v: EngineView, ch: char)
    requires
        view_wf(v),
        v.mode == Mode::Strict,
    ensures
        view_status(after_char(v, ch), after_char(v, ch).cursor) == CharStatus::Errored <==> (
        !view_complete(v) && ch != v.chars[v.cursor]),
        view_status(after_enter(v), after_enter(v).cursor) == CharStatus::Errored <==> (
        !view_complete(v) && v.chars[v.cursor] != '\n'),
        view_status(after_backspace(v), after_backspace(v).cursor) != CharStatus::Errored,
{
}

/// Strict mode: backspace while stuck on a wrong key clears the error mark
/// without giving up earlier progress.
pub proof fn law_strict_backspace_keeps_progress(v: EngineView)
    requires
        view_wf(v),
        v.mode == Mode::Strict,
        v.stuck,
    ensures
        after_backspace(v).cursor == v.cursor,
        !after_backspace(v).stuck,
        forall|i: int| 0 <= i < v.cursor ==> view_status(after_backspace(v), i) == CharStatus::Correct,
        view_status(after_backspace(v), v.cursor) == CharStatus::Pending,
{
}

/// Enter at a newline lands past the whole auto-indent run: the user never
/// has to type leading whitespace.
pub proof fn law_enter_skips_auto_indent(v: EngineView)
    requires
        view_wf(v),
        !view_complete(v),
        v.chars[v.cursor] == '\n',
    ensures
        after_enter(v).cursor > v.cursor,
        after_enter(v).cursor < v.chars.len() ==> !v.auto_indent[after_enter(v).cursor],
        forall|i: int| v.cursor < i < after_enter(v).cursor ==> v.auto_indent[i],
{
    lemma_indent_run_end_bounds(v.auto_indent, v.cursor + 1);
}

/// Positions at and after the cursor have not been typed: in Lenient mode
/// they display as Pending, and in both modes nothing past the cursor
/// counts as correct.
pub proof fn law_untyped_after_cursor(v: EngineView, i: int)
    requires
        view_wf(v),
        v.cursor < i,
    ensures
        view_status(v, i) == CharStatus::Pending,
{
}

/// The count of correctly typed characters never exceeds the positions
/// passed.
pub proof fn law_correct_count_bounded(v: EngineView, n: int)
    requires
        n >= 0,
    ensures
        correct_count(v, n) <= n,
    decreases n,
{
    if n > 0 {
        law_correct_count_bounded(v, n - 1);
    }
}

/// How many of the first `n` positions of `mask` are not auto-indent: the
/// characters the user has to type there.
pub open spec fn typed_positions(mask: Seq<bool>, n: int) -> nat
    decreases n,
{
    if n <= 0 {
        0
    } else {
        typed_positions(mask, n - 1) + if mask[n - 1] {
            0nat
        } else {
            1nat
        }
    }
}

/// How many of the first `n` positions are marked Correct.
pub open spec fn marked_correct(marks: Seq<PositionStatus>, n: int) -> nat
    decreases n,
{
    if n <= 0 {
        0
    } else {
        marked_correct(marks, n - 1) + if marks[n - 1] == PositionStatus::Correct {
            1nat
        } else {
            0nat
        }
    }
}

/// In every mode, auto-indent positions never count as correctly typed:
/// the count over the first `n` positions is at most the number of those
/// that are not auto-indent. In Strict mode it is exactly that number; in
/// Lenient mode it is also at most the number marked Correct.
pub proof fn law_auto_indent_never_counts(v: EngineView, n: int)
    requires
        0 <= n <= v.auto_indent.len(),
        n <= v.marks.len(),
    ensures
        correct_count(v, n) <= typed_positions(v.auto_indent, n),
        v.mode == Mode::Strict ==> correct_count(v, n) == typed_positions(v.auto_indent, n),
        v.mode == Mode::Lenient ==> correct_count(v, n) <= marked_correct(v.marks, n),
    decreases n,
{
    if n > 0 {
        law_auto_indent_never_counts(v, n - 1);
    }
}

/// The mask matches its description: a position is auto-indent iff it is
/// a space or tab following a newline or another auto-indent position.
pub proof fn law_auto_indent_mask_shape(chars: Seq<char>, i: int)
    requires
        0 <= i < chars.len(),
    ensures
        auto_indent_mask(chars)[i] ==> (chars[i] == ' ' || chars[i] == '\t'),
        auto_indent_mask(chars)[0] == false,
        i > 0 ==> (auto_indent_mask(chars)[i] <==> ((chars[i] == ' ' || chars[i] == '\t') && (
        chars[i - 1] == '\n' || auto_indent_mask(chars)[i - 1]))),
{
}

/// Compute the auto-indent mask for an Exercise's chars.
pub fn compute_auto_indent_mask(chars: &[char]) -> (mask: Vec<bool>)
    ensures
        mask@ == auto_indent_mask(chars@),
{
    let mut mask: Vec<bool> = Vec::new();
    let mut in_indent_run = false;
    let mut i: usize = 0;
    while i < chars.len()
        invariant
            i <= chars@.len(),
            mask@.len() == i,
            forall|j: int| 0 <= j < i ==> mask@[j] == is_auto_indent(chars@, j),
            i > 0 ==> in_indent_run == (chars@[i - 1] == '\n' || is_auto_indent(
                chars@,
                i - 1,
            )),
            i == 0 ==> !in_indent_run,
        decreases chars@.len() - i,
    {
        let ch = chars[i];
        if ch == '\n' {
            in_indent_run = true;
            mask.push(false);
        } else if in_indent_run && (ch == ' ' || ch == '\t') {
            mask.push(true);
        } else {
            in_indent_run = false;
            mask.push(false);
        }
        i = i + 1;
    }
    proof {
        assert(mask@ =~= auto_indent_mask(chars@));
    }
    mask
}

} // verus!
