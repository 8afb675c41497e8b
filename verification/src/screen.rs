//! The screens of a typing session and what each key press does on them:
//! typing an Exercise, its stats, the `:` command palette, the help screen
//! and the session-stats overlay. The caller reads keys and draws; this
//! module decides the next screen.

use std::time::Instant;
use vstd::prelude::*;

use crate::clock::{
    duration_nanos, elapsed_or_zero, elapsed_text, format_elapsed, instant_now, nanos_per_second,
    zero_duration,
};
use crate::display::{exercise_label, short_label};
use crate::command::{
    command_name, error_message, info, info_spec, parse, parse_spec, Command, CommandView,
    ParseError,
};
use crate::engine::{
    after_backspace, after_char, after_enter, correct_count, initial_view, view_complete,
    EngineView, Mode, TypingEngine,
};
use crate::exercise::{Exercise, ExerciseView};
use crate::stats::{ExerciseStats, StatsCollector};
use crate::text::{append_chars, chars_of, concat_string, string_of};
use crate::tour::{advanced, least_visited, FileView, RepoTour};

verus! {

/// A key press, as the screens tell keys apart.
#[derive(Debug, Clone, Copy, PartialEq, Eq, Structural)]
pub enum Key {
    Esc,
    Char(char),
    Backspace,
    Enter,
    Other,
}

/// The screen being shown.
pub enum AppState {
    /// Typing an Exercise; `started` is `None` until the first typing
    /// attempt (a character or `Enter`), so reading time does not count.
    Typing { engine: TypingEngine, started: Option<Instant> },
    /// The stats of a finished Exercise.
    Stats { stats: ExerciseStats, exercise: Exercise },
    /// The `:` command palette over the `prior` screen.
    Palette { input: String, prior: Box<AppState> },
    /// The keyboard help over the `prior` screen.
    Help { prior: Box<AppState> },
    /// The session totals over the `prior` screen.
    SessionStats { prior: Box<AppState> },
}

/// Every typing engine on the screen stack is well formed.
pub open spec fn state_wf(s: AppState) -> bool
    decreases s,
{
    match s {
        AppState::Typing { engine, .. } => engine.wf(),
        AppState::Stats { .. } => true,
        AppState::Palette { prior, .. } => state_wf(*prior),
        AppState::Help { prior } => state_wf(*prior),
        AppState::SessionStats { prior } => state_wf(*prior),
    }
}

/// The stats kept for a Stats screen put under an overlay: all zero.
pub open spec fn is_blank_stats(s: ExerciseStats) -> bool {
    &&& duration_nanos(s.elapsed) == 0
    &&& s.correct_chars == 0
    &&& s.error_count == 0
    &&& s.top_mistakes@.len() == 0
}

/// Zeroed Exercise stats.
pub fn blank_stats() -> (r: ExerciseStats)
    ensures
        is_blank_stats(r),
{
    ExerciseStats {
        elapsed: zero_duration(),
        correct_chars: 0,
        error_count: 0,
        top_mistakes: Vec::new(),
    }
}

/// The engine after `key` on the typing screen (`Char`, `Backspace` or
/// `Enter`).
pub open spec fn typed(e: EngineView, key: Key) -> EngineView {
    match key {
        Key::Char(c) => after_char(e, c),
        Key::Backspace => after_backspace(e),
        _ => after_enter(e),
    }
}

/// Whether `key` is a typing attempt on the typing screen (a character or
/// `Enter`): only those start the clock.
pub open spec fn starts_clock(key: Key) -> bool {
    key is Char || key is Enter
}

/// What a key does on the typing screen: `Esc` quits, an unknown key does
/// nothing, any other key goes to the engine. A typing attempt (a
/// character or `Enter`) starts the clock if it is not running; `Backspace`
/// leaves it as it was. When the key completes the Exercise, the session
/// takes its stats and the Stats screen shows them (the session ends
/// instead if its totals cannot take them).
pub open spec fn typing_outcome(
    engine: EngineView,
    started: Option<Instant>,
    key: Key,
    r: Option<AppState>,
    old_stats: StatsCollector,
    new_stats: StatsCollector,
) -> bool {
    match key {
        Key::Esc => r is None && new_stats == old_stats,
        Key::Other => new_stats == old_stats && (r matches Some(AppState::Typing { engine: e2, started: s2 })
            && e2@ == engine && s2 == started),
        _ => {
            let after = typed(engine, key);
            if view_complete(after) {
                match r {
                    Some(AppState::Stats { stats, exercise }) => exercise@ == after.exercise
                        && StatsCollector::folded(
                        old_stats,
                        new_stats,
                        after.errors,
                        correct_count(after, after.cursor as int) as usize,
                        stats.elapsed,
                        stats,
                    ),
                    None => new_stats == old_stats,
                    _ => false,
                }
            } else {
                new_stats == old_stats && (r matches Some(AppState::Typing { engine: e2, started: s2 })
                    && e2@ == after && (if starts_clock(key) {
                    s2 is Some && (started is Some ==> s2 == started)
                } else {
                    s2 == started
                }))
            }
        },
    }
}

/// A Stats screen for `exercise` with blank stats.
pub open spec fn is_blank_stats_screen(s: AppState, exercise: ExerciseView) -> bool {
    s matches AppState::Stats { stats, exercise: e } && is_blank_stats(stats) && e@ == exercise
}

/// What a key does on the Stats screen: `n` types the tour's next Exercise,
/// `r` retypes this one, `Esc` or `q` quits, `?` opens help and `:` the
/// palette (over a blank Stats screen for the same Exercise); any other key
/// does nothing.
pub open spec fn stats_outcome(
    stats: ExerciseStats,
    exercise: ExerciseView,
    key: Key,
    mode: Mode,
    r: Option<AppState>,
    old_tour: Seq<FileView>,
    new_tour: Seq<FileView>,
) -> bool {
    match key {
        Key::Char('n') => if old_tour.len() > 0 && old_tour[least_visited(old_tour)].visited
            < usize::MAX {
            let k = least_visited(old_tour);
            let f = old_tour[k];
            &&& new_tour == old_tour.update(k, advanced(f))
            &&& r matches Some(AppState::Typing { engine, started }) && engine@ == initial_view(
                f.exercises[f.next_index as int],
                mode,
            ) && started is None
        } else {
            r is None && new_tour == old_tour
        },
        Key::Char('r') => new_tour == old_tour && (r matches Some(AppState::Typing { engine, started })
            && engine@ == initial_view(exercise, mode) && started is None),
        Key::Esc | Key::Char('q') => r is None && new_tour == old_tour,
        Key::Char('?') => new_tour == old_tour && (r matches Some(AppState::Help { prior })
            && is_blank_stats_screen(*prior, exercise)),
        Key::Char(':') => new_tour == old_tour && (r matches Some(AppState::Palette { input, prior })
            && input@.len() == 0 && is_blank_stats_screen(*prior, exercise)),
        _ => new_tour == old_tour && (r matches Some(AppState::Stats { stats: s2, exercise: e2 }) && s2
            == stats && e2@ == exercise),
    }
}

/// The message shown for a command that parses but is not wired up.
pub open spec fn not_yet_message() -> Seq<char> {
    "command not yet implemented"@
}

/// What running the palette line `input` does over `prior`, with `notice`
/// the message shown after: a line that does not parse shows its error; a
/// command not marked available shows that it is not implemented; both
/// return to `prior`. `quit` quits, `help` opens help and `stats` the
/// session stats, over `prior`, and these leave the message as it was
/// (`before`).
pub open spec fn command_outcome(
    input: Seq<char>,
    prior: AppState,
    r: Option<AppState>,
    before: Option<Seq<char>>,
    notice: Option<Seq<char>>,
) -> bool {
    match parse_spec(input) {
        Err(e) => r == Some(prior) && notice == Some("error: "@ + error_message(e)),
        Ok(c) => if !(info_spec(command_name(c)) matches Some(i) && i.available) {
            r == Some(prior) && notice == Some(not_yet_message())
        } else {
            match c {
                CommandView::Quit => r is None && notice == before,
                CommandView::Help => r == Some(AppState::Help { prior: Box::new(prior) })
                    && notice == before,
                CommandView::Stats => r == Some(AppState::SessionStats { prior: Box::new(prior) })
                    && notice == before,
                _ => r == Some(prior) && notice == Some(not_yet_message()),
            }
        },
    }
}

/// What a key does in the palette, with `before` and `notice` the message
/// shown before and after: `Esc` quits and clears the message;
/// `Backspace` deletes the last character and a character is appended,
/// both leaving the message as it is; `Enter` clears the message and runs
/// the line.
pub open spec fn palette_outcome(
    input: Seq<char>,
    prior: AppState,
    key: Key,
    r: Option<AppState>,
    before: Option<Seq<char>>,
    notice: Option<Seq<char>>,
) -> bool {
    match key {
        Key::Esc => r is None && notice is None,
        Key::Backspace => notice == before && (r matches Some(AppState::Palette { input: i2, prior: p2 })
            && i2@ == (if input.len() > 0 {
            input.drop_last()
        } else {
            input
        }) && *p2 == prior),
        Key::Char(c) => notice == before && (r matches Some(AppState::Palette { input: i2, prior: p2 })
            && i2@ == input.push(c) && *p2 == prior),
        Key::Enter => command_outcome(input, prior, r, None, notice),
        Key::Other => notice == before && (r matches Some(AppState::Palette { input: i2, prior: p2 })
            && i2@ == input && *p2 == prior),
    }
}

/// The view of an optional message.
pub open spec fn notice_view(n: Option<String>) -> Option<Seq<char>> {
    match n {
        Some(s) => Some(s@),
        None => None,
    }
}

fn typing_key(
    mut engine: TypingEngine,
    started: Option<Instant>,
    key: Key,
    stats: &mut StatsCollector,
) -> (r: Option<AppState>)
    requires
        engine.wf(),
        old(stats).wf(),
    ensures
        final(stats).wf(),
        typing_outcome(engine@, started, key, r, *old(stats), *final(stats)),
        r matches Some(s) ==> state_wf(s),
{
    match key {
        Key::Esc => return None,
        Key::Char(c) => engine.on_char(c),
        Key::Backspace => engine.on_backspace(),
        Key::Enter => engine.on_enter(),
        Key::Other => return Some(AppState::Typing { engine, started }),
    }
    let started = match started {
        Some(t) => Some(t),
        None => if key == Key::Backspace {
            None
        } else {
            Some(instant_now())
        },
    };
    if engine.is_complete() {
        let elapsed = elapsed_or_zero(started);
        let correct = engine.correct_chars_typed();
        match stats.try_finish_exercise(engine.errors(), correct, elapsed) {
            Some(exercise_stats) => Some(
                AppState::Stats { stats: exercise_stats, exercise: engine.exercise().clone() },
            ),
            None => None,
        }
    } else {
        Some(AppState::Typing { engine, started })
    }
}

fn stats_key(
    stats: ExerciseStats,
    exercise: Exercise,
    key: Key,
    tour: &mut RepoTour,
    mode: Mode,
) -> (r: Option<AppState>)
    requires
        old(tour).wf(),
    ensures
        final(tour).wf(),
        stats_outcome(stats, exercise@, key, mode, r, old(tour)@, final(tour)@),
        r matches Some(s) ==> state_wf(s),
{
    proof {
        reveal_with_fuel(state_wf, 2);
    }
    match key {
        Key::Char('n') => {
            if !tour.can_visit() {
                return None;
            }
            match tour.next() {
                Some(ex) => Some(
                    AppState::Typing { engine: TypingEngine::new_with_mode(ex, mode), started: None },
                ),
                None => None,
            }
        },
        Key::Char('r') => Some(
            AppState::Typing { engine: TypingEngine::new_with_mode(exercise, mode), started: None },
        ),
        Key::Esc | Key::Char('q') => None,
        Key::Char('?') => Some(
            AppState::Help { prior: Box::new(AppState::Stats { stats: blank_stats(), exercise }) },
        ),
        Key::Char(':') => {
            let input = string_of(Vec::<char>::new().as_slice());
            proof {
                assert(input@ =~= Seq::<char>::empty());
            }
            Some(
                AppState::Palette {
                    input,
                    prior: Box::new(AppState::Stats { stats: blank_stats(), exercise }),
                },
            )
        },
        _ => Some(AppState::Stats { stats, exercise }),
    }
}

/// Run the palette line `input` over `prior`.
fn execute_command(
    parsed: Result<Command, ParseError>,
    prior: AppState,
    notice: &mut Option<String>,
) -> (r: Option<AppState>)
    requires
        state_wf(prior),
    ensures
        parsed matches Err(e) ==> r == Some(prior) && notice_view(*final(notice)) == Some(
            "error: "@ + error_message(e@),
        ),
        parsed matches Ok(c) ==> {
            if !(info_spec(command_name(c@)) matches Some(i) && i.available) {
                r == Some(prior) && notice_view(*final(notice)) == Some(not_yet_message())
            } else {
                match c@ {
                    CommandView::Quit => r is None && *final(notice) == *old(notice),
                    CommandView::Help => r == Some(AppState::Help { prior: Box::new(prior) })
                        && *final(notice) == *old(notice),
                    CommandView::Stats => r == Some(
                        AppState::SessionStats { prior: Box::new(prior) },
                    ) && *final(notice) == *old(notice),
                    _ => r == Some(prior) && notice_view(*final(notice)) == Some(
                        not_yet_message(),
                    ),
                }
            }
        },
        r matches Some(s) ==> state_wf(s),
{
    let command = match parsed {
        Ok(c) => c,
        Err(e) => {
            let m = e.message();
            *notice = Some(concat_string("error: ", chars_of(m.as_str()).as_slice()));
            return Some(prior);
        },
    };
    let available = match info(command.name()) {
        Some(i) => i.available,
        None => false,
    };
    if !available {
        *notice = Some(string_of(chars_of("command not yet implemented").as_slice()));
        return Some(prior);
    }
    match command {
        Command::Quit => None,
        Command::Help => Some(AppState::Help { prior: Box::new(prior) }),
        Command::Stats => Some(AppState::SessionStats { prior: Box::new(prior) }),
        Command::File(_) | Command::Open(_) => {
            *notice = Some(string_of(chars_of("command not yet implemented").as_slice()));
            Some(prior)
        },
    }
}

fn palette_key(
    input: String,
    prior: Box<AppState>,
    key: Key,
    notice: &mut Option<String>,
) -> (r: Option<AppState>)
    requires
        state_wf(*prior),
    ensures
        palette_outcome(input@, *prior, key, r, notice_view(*old(notice)), notice_view(*final(notice))),
        r matches Some(s) ==> state_wf(s),
{
    match key {
        Key::Esc => {
            *notice = None;
            None
        },
        Key::Backspace => {
            let mut cs = chars_of(input.as_str());
            cs.pop();
            let ghost before = input@;
            let shorter = string_of(cs.as_slice());
            proof {
                if before.len() > 0 {
                    assert(shorter@ =~= before.drop_last());
                } else {
                    assert(shorter@ =~= before);
                }
            }
            Some(AppState::Palette { input: shorter, prior })
        },
        Key::Char(c) => {
            let mut cs = chars_of(input.as_str());
            cs.push(c);
            Some(AppState::Palette { input: string_of(cs.as_slice()), prior })
        },
        Key::Enter => {
            *notice = None;
            let parsed = parse(input.as_str());
            execute_command(parsed, *prior, notice)
        },
        Key::Other => Some(AppState::Palette { input, prior }),
    }
}

/// Whether `r` keeps the screen it came from, `s`, as it is shown (typing
/// on, or staying on the Stats screen): a key that leads there produces no
/// action, so any message stays up.
pub open spec fn same_screen(s: AppState, r: Option<AppState>) -> bool {
    match s {
        AppState::Typing { .. } => r matches Some(AppState::Typing { .. }),
        AppState::Stats { .. } => r matches Some(AppState::Stats { .. }),
        _ => false,
    }
}

/// Apply one key press to the current screen: the next screen, or `None`
/// when the session ends. `Esc` ends the session on every screen. The
/// message in `notice` stays up until a key that produces an action (moves
/// to another screen, quits, or runs a palette line); such a key clears it,
/// and running a palette line may then set a new one (an error, or a
/// command not yet implemented).
pub fn handle_key(
    state: AppState,
    key: Key,
    tour: &mut RepoTour,
    stats: &mut StatsCollector,
    notice: &mut Option<String>,
    mode: Mode,
) -> (r: Option<AppState>)
    requires
        state_wf(state),
        old(tour).wf(),
        old(stats).wf(),
    ensures
        final(tour).wf(),
        final(stats).wf(),
        r matches Some(s) ==> state_wf(s),
        key == Key::Esc ==> r is None,
        match state {
            AppState::Typing { engine, started } => {
                &&& typing_outcome(engine@, started, key, r, *old(stats), *final(stats))
                &&& final(tour)@ == old(tour)@
                &&& *final(notice) == if same_screen(state, r) {
                    *old(notice)
                } else {
                    None
                }
            },
            AppState::Stats { stats: st, exercise } => {
                &&& stats_outcome(st, exercise@, key, mode, r, old(tour)@, final(tour)@)
                &&& *final(stats) == *old(stats)
                &&& *final(notice) == if same_screen(state, r) {
                    *old(notice)
                } else {
                    None
                }
            },
            AppState::Palette { input, prior } => {
                &&& palette_outcome(
                    input@,
                    *prior,
                    key,
                    r,
                    notice_view(*old(notice)),
                    notice_view(*final(notice)),
                )
                &&& final(tour)@ == old(tour)@
                &&& *final(stats) == *old(stats)
            },
            AppState::Help { prior } => {
                &&& (if key == Key::Char('q') || key == Key::Esc {
                    r is None
                } else {
                    r == Some(*prior)
                })
                &&& final(tour)@ == old(tour)@
                &&& *final(stats) == *old(stats)
                &&& *final(notice) is None
            },
            AppState::SessionStats { prior } => {
                &&& (if key == Key::Esc {
                    r is None
                } else {
                    r == Some(*prior)
                })
                &&& final(tour)@ == old(tour)@
                &&& *final(stats) == *old(stats)
                &&& *final(notice) is None
            },
        },
{
    match state {
        AppState::Typing { engine, started } => {
            let r = typing_key(engine, started, key, stats);
            let keep = match &r {
                Some(AppState::Typing { .. }) => true,
                _ => false,
            };
            if !keep {
                *notice = None;
            }
            r
        },
        AppState::Stats { stats: st, exercise } => {
            let r = stats_key(st, exercise, key, tour, mode);
            let keep = match &r {
                Some(AppState::Stats { .. }) => true,
                _ => false,
            };
            if !keep {
                *notice = None;
            }
            r
        },
        AppState::Palette { input, prior } => {
            palette_key(input, prior, key, notice)
        },
        AppState::Help { prior } => {
            *notice = None;
            if key == Key::Char('q') || key == Key::Esc {
                None
            } else {
                Some(*prior)
            }
        },
        AppState::SessionStats { prior } => {
            *notice = None;
            if key == Key::Esc {
                None
            } else {
                Some(*prior)
            }
        },
    }
}

/// The first screen of a session: typing `exercise`.
pub fn start_typing(exercise: Exercise, mode: Mode) -> (r: AppState)
    ensures
        state_wf(r),
        r matches AppState::Typing { engine, started } && engine@ == initial_view(exercise@, mode)
            && started is None,
{
    AppState::Typing { engine: TypingEngine::new_with_mode(exercise, mode), started: None }
}

/// `"  "` followed by `t`.
pub open spec fn indented(t: Seq<char>) -> Seq<char> {
    seq![' ', ' '] + t
}

/// The header's file and elapsed labels for an Exercise being typed.
pub open spec fn typing_labels(
    e: ExerciseView,
    started: Option<Instant>,
    labels: (Seq<char>, Seq<char>),
) -> bool {
    &&& labels.0 == short_label(e.source_path)
    &&& started is None ==> labels.1 == indented(elapsed_text(0))
    &&& exists|secs: nat| labels.1 == indented(#[trigger] elapsed_text(secs))
}

/// The header's file and elapsed labels for a finished Exercise.
pub open spec fn stats_labels(st: ExerciseStats, e: ExerciseView) -> (Seq<char>, Seq<char>) {
    (short_label(e.source_path), indented(elapsed_text(duration_nanos(st.elapsed) / nanos_per_second())))
}

fn elapsed_label(d: std::time::Duration) -> (r: String)
    ensures
        r@ == indented(elapsed_text(duration_nanos(d) / nanos_per_second())),
{
    let t = format_elapsed(d);
    let mut v: Vec<char> = Vec::new();
    v.push(' ');
    v.push(' ');
    append_chars(&mut v, chars_of(t.as_str()).as_slice());
    proof {
        assert(v@ =~= indented(t@));
    }
    string_of(v.as_slice())
}

fn labels_of(state: &AppState) -> (r: Option<(String, String)>)
    ensures
        match *state {
            AppState::Typing { engine, started } => r matches Some(l) && typing_labels(
                engine@.exercise,
                started,
                (l.0@, l.1@),
            ),
            AppState::Stats { stats, exercise } => r matches Some(l) && (l.0@, l.1@) == stats_labels(
                stats,
                exercise@,
            ),
            _ => r is None,
        },
{
    match state {
        AppState::Typing { engine, started } => {
            let d = elapsed_or_zero(*started);
            let label = elapsed_label(d);
            Some((exercise_label(engine.exercise()), label))
        },
        AppState::Stats { stats, exercise } => {
            let label = elapsed_label(stats.elapsed);
            Some((exercise_label(exercise), label))
        },
        _ => None,
    }
}

/// The header's labels for a screen: the Exercise's file and its elapsed
/// time while typing or on its stats (also under the palette), `help` or
/// `session` on those overlays, nothing otherwise.
pub fn header_labels(state: &AppState) -> (r: (String, String))
    ensures
        match *state {
            AppState::Typing { engine, started } => typing_labels(
                engine@.exercise,
                started,
                (r.0@, r.1@),
            ),
            AppState::Stats { stats, exercise } => (r.0@, r.1@) == stats_labels(stats, exercise@),
            AppState::Palette { prior, .. } => match *prior {
                AppState::Typing { engine, started } => typing_labels(
                    engine@.exercise,
                    started,
                    (r.0@, r.1@),
                ),
                AppState::Stats { stats, exercise } => (r.0@, r.1@) == stats_labels(
                    stats,
                    exercise@,
                ),
                _ => r.0@.len() == 0 && r.1@.len() == 0,
            },
            AppState::Help { .. } => r.0@ == "help"@ && r.1@.len() == 0,
            AppState::SessionStats { .. } => r.0@ == "session"@ && r.1@.len() == 0,
        },
{
    let empty = Vec::<char>::new();
    match state {
        AppState::Palette { prior, .. } => match labels_of(prior) {
            Some(l) => l,
            None => (string_of(empty.as_slice()), string_of(empty.as_slice())),
        },
        AppState::Help { .. } => (string_of(chars_of("help").as_slice()), string_of(empty.as_slice())),
        AppState::SessionStats { .. } => (
            string_of(chars_of("session").as_slice()),
            string_of(empty.as_slice()),
        ),
        _ => match labels_of(state) {
            Some(l) => l,
            None => (string_of(empty.as_slice()), string_of(empty.as_slice())),
        },
    }
}

/// The key hints at the foot of a screen (the Stats screen shows its own).
pub fn footer_hint(state: &AppState) -> (r: &'static str)
    ensures
        match *state {
            AppState::Typing { .. } => r@ == "Esc: quit"@,
            AppState::Stats { .. } => r@ == ""@,
            AppState::Palette { .. } => r@ == "Enter: run  \u{00B7}  Esc: quit"@,
            AppState::Help { .. } => r@ == "Esc/q: quit  \u{00B7}  any other key: return"@,
            AppState::SessionStats { .. } => r@ == "Esc: quit  \u{00B7}  any other key: return"@,
        },
{
    match state {
        AppState::Typing { .. } => "Esc: quit",
        AppState::Stats { .. } => "",
        AppState::Palette { .. } => "Enter: run  \u{00B7}  Esc: quit",
        AppState::Help { .. } => "Esc/q: quit  \u{00B7}  any other key: return",
        AppState::SessionStats { .. } => "Esc: quit  \u{00B7}  any other key: return",
    }
}

} // verus!
