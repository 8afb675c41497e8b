//! Vim-style `:` command palette parser.
//!
//! Parses lines like `:open ~/foo` into a typed [`Command`]. The leading `:`
//! is optional, so callers can pass either the raw user input or the post-`:`
//! tail. Arguments are "rest of line" — internal whitespace is preserved —
//! so `:open path with spaces` is one path, not three arguments.
//!
//! The command table ([`command_infos`]) is the single source of truth for
//! the vocabulary: [`parse`] derives names and argument shapes from it, and
//! [`complete`]/[`complete_info`] filter it.

use crate::text::{
    chars_eq, chars_of, concat_string, find_char, find_char_in, slice_to_vec, starts_with_chars,
    string_of, trim, trim_chars, trim_end, trim_start, trim_start_char, trim_start_char_chars,
    trim_start_chars, has_char, contains_char,
};
use vstd::prelude::*;

verus! {

#[derive(Debug, Clone, PartialEq, Eq)]
pub enum Command {
    Open(String),
    File(String),
    Stats,
    Quit,
    Help,
}

/// The mathematical content of a [`Command`].
pub enum CommandView {
    Open(Seq<char>),
    File(Seq<char>),
    Stats,
    Quit,
    Help,
}

impl View for Command {
    type V = CommandView;

    open spec fn view(&self) -> CommandView {
        match self {
            Command::Open(s) => CommandView::Open(s@),
            Command::File(s) => CommandView::File(s@),
            Command::Stats => CommandView::Stats,
            Command::Quit => CommandView::Quit,
            Command::Help => CommandView::Help,
        }
    }
}

/// The bare name of a command (its entry's `name` in the table).
pub open spec fn command_name(c: CommandView) -> Seq<char> {
    match c {
        CommandView::Open(_) => command_infos()[0].name,
        CommandView::File(_) => command_infos()[1].name,
        CommandView::Stats => command_infos()[2].name,
        CommandView::Quit => command_infos()[3].name,
        CommandView::Help => command_infos()[4].name,
    }
}

impl Command {
    /// The bare command name (matches the `name` in the command table).
    pub fn name(&self) -> (r: &'static str)
        ensures
            r@ == command_name(self@),
    {
        match self {
            Command::Open(_) => "open",
            Command::File(_) => "file",
            Command::Stats => "stats",
            Command::Quit => "quit",
            Command::Help => "help",
        }
    }
}

#[derive(Debug, Clone, PartialEq, Eq)]
pub enum ParseError {
    Empty,
    Unknown(String),
    MissingArg(&'static str),
    UnexpectedArg(&'static str),
}

/// The mathematical content of a [`ParseError`].
pub enum ParseErrorView {
    Empty,
    Unknown(Seq<char>),
    MissingArg(Seq<char>),
    UnexpectedArg(Seq<char>),
}

impl View for ParseError {
    type V = ParseErrorView;

    open spec fn view(&self) -> ParseErrorView {
        match self {
            ParseError::Empty => ParseErrorView::Empty,
            ParseError::Unknown(s) => ParseErrorView::Unknown(s@),
            ParseError::MissingArg(s) => ParseErrorView::MissingArg(s@),
            ParseError::UnexpectedArg(s) => ParseErrorView::UnexpectedArg(s@),
        }
    }
}

/// The user-facing message of an error.
pub open spec fn error_message(e: ParseErrorView) -> Seq<char> {
    match e {
        ParseErrorView::Empty => "empty command"@,
        ParseErrorView::Unknown(s) => "unknown command: "@ + s,
        ParseErrorView::MissingArg(s) => "missing argument for :"@ + s,
        ParseErrorView::UnexpectedArg(s) => "unexpected argument for :"@ + s,
    }
}

impl ParseError {
    /// The message shown to the user for this error.
    pub fn message(&self) -> (r: String)
        ensures
            r@ == error_message(self@),
    {
        match self {
            ParseError::Empty => string_of(chars_of("empty command").as_slice()),
            ParseError::Unknown(s) => concat_string(
                "unknown command: ",
                chars_of(s.as_str()).as_slice(),
            ),
            ParseError::MissingArg(s) => concat_string(
                "missing argument for :",
                chars_of(s).as_slice(),
            ),
            ParseError::UnexpectedArg(s) => concat_string(
                "unexpected argument for :",
                chars_of(s).as_slice(),
            ),
        }
    }
}

/// Display metadata for a command, surfaced in the palette suggestion list.
#[derive(Debug, Clone, Copy, PartialEq, Eq)]
pub struct CommandInfo {
    /// Bare command name, e.g. "stats".
    pub name: &'static str,
    /// One-line description for the palette.
    pub description: &'static str,
    /// Argument shape shown after the name, e.g. "<path>". Empty for no-arg.
    pub arg: &'static str,
    /// True for commands that parse but aren't wired up yet (:file, :open).
    pub available: bool,
}

/// The mathematical content of a [`CommandInfo`].
pub struct CommandInfoView {
    pub name: Seq<char>,
    pub description: Seq<char>,
    pub arg: Seq<char>,
    pub available: bool,
}

impl View for CommandInfo {
    type V = CommandInfoView;

    open spec fn view(&self) -> CommandInfoView {
        CommandInfoView {
            name: self.name@,
            description: self.description@,
            arg: self.arg@,
            available: self.available,
        }
    }
}

/// The views of a sequence of command infos.
pub open spec fn info_views(s: Seq<CommandInfo>) -> Seq<CommandInfoView> {
    s.map_values(|i: CommandInfo| i@)
}

/// Metadata for every command, in display order: the single source of
/// truth for the command vocabulary.
pub open spec fn command_infos() -> Seq<CommandInfoView> {
    seq![
        CommandInfoView {
            name: "open"@,
            description: "open a different repo"@,
            arg: "<path>"@,
            available: false,
        },
        CommandInfoView {
            name: "file"@,
            description: "jump to a specific file"@,
            arg: "<name>"@,
            available: false,
        },
        CommandInfoView {
            name: "stats"@,
            description: "open the session stats view"@,
            arg: ""@,
            available: true,
        },
        CommandInfoView {
            name: "quit"@,
            description: "quit codetype"@,
            arg: ""@,
            available: true,
        },
        CommandInfoView {
            name: "help"@,
            description: "show keyboard help"@,
            arg: ""@,
            available: true,
        },
    ]
}

/// The command table, in display order.
pub fn command_info_table() -> (r: Vec<CommandInfo>)
    ensures
        info_views(r@) == command_infos(),
{
    let r = vec![
        CommandInfo {
            name: "open",
            description: "open a different repo",
            arg: "<path>",
            available: false,
        },
        CommandInfo {
            name: "file",
            description: "jump to a specific file",
            arg: "<name>",
            available: false,
        },
        CommandInfo {
            name: "stats",
            description: "open the session stats view",
            arg: "",
            available: true,
        },
        CommandInfo { name: "quit", description: "quit codetype", arg: "", available: true },
        CommandInfo { name: "help", description: "show keyboard help", arg: "", available: true },
    ];
    proof {
        assert(info_views(r@) =~= command_infos());
    }
    r
}

/// The command built from the table entry at `index`, with argument `arg`.
pub open spec fn command_at(index: int, arg: Seq<char>) -> CommandView {
    if index == 0 {
        CommandView::Open(arg)
    } else if index == 1 {
        CommandView::File(arg)
    } else if index == 2 {
        CommandView::Stats
    } else if index == 3 {
        CommandView::Quit
    } else {
        CommandView::Help
    }
}

/// Index of the first table entry named `name`, or the table's length.
pub open spec fn lookup(name: Seq<char>) -> int
    decreases command_infos().len(),
{
    lookup_from(name, 0)
}

pub open spec fn lookup_from(name: Seq<char>, i: int) -> int
    decreases command_infos().len() - i,
{
    if i < 0 || i >= command_infos().len() {
        command_infos().len() as int
    } else if command_infos()[i].name == name {
        i
    } else {
        lookup_from(name, i + 1)
    }
}

/// The text a palette line holds once whitespace and leading `:`s are gone.
pub open spec fn parse_body(input: Seq<char>) -> Seq<char> {
    trim_start(trim_start_char(trim(input), ':'))
}

/// What [`parse`] returns for `input`.
pub open spec fn parse_spec(input: Seq<char>) -> Result<CommandView, ParseErrorView> {
    let body = parse_body(input);
    if body.len() == 0 {
        Err(ParseErrorView::Empty)
    } else {
        let k = find_char(body, ' ');
        let cmd = body.take(k);
        let rest = if k < body.len() {
            trim(body.skip(k + 1))
        } else {
            seq![]
        };
        let idx = lookup(cmd);
        if idx >= command_infos().len() {
            Err(ParseErrorView::Unknown(cmd))
        } else {
            let info = command_infos()[idx];
            if info.arg.len() == 0 {
                if rest.len() > 0 {
                    Err(ParseErrorView::UnexpectedArg(info.name))
                } else {
                    Ok(command_at(idx, seq![]))
                }
            } else if rest.len() == 0 {
                Err(ParseErrorView::MissingArg(info.name))
            } else {
                Ok(command_at(idx, rest))
            }
        }
    }
}

proof fn lemma_lookup_from(name: Seq<char>, i: int)
    requires
        0 <= i <= command_infos().len(),
    ensures
        i <= lookup_from(name, i) <= command_infos().len(),
        lookup_from(name, i) < command_infos().len() ==> command_infos()[lookup_from(
            name,
            i,
        )].name == name,
        forall|j: int| i <= j < lookup_from(name, i) ==> command_infos()[j].name != name,
    decreases command_infos().len() - i,
{
    if i < command_infos().len() && command_infos()[i].name != name {
        lemma_lookup_from(name, i + 1);
    }
}

/// Position of the table entry named `name` (the table's length if none).
fn find_command(table: &Vec<CommandInfo>, name: &[char]) -> (r: usize)
    requires
        info_views(table@) == command_infos(),
    ensures
        r == lookup(name@),
{
    let mut i: usize = 0;
    proof {
        lemma_lookup_from(name@, 0);
    }
    while i < table.len()
        invariant
            info_views(table@) == command_infos(),
            i <= table@.len(),
            forall|j: int| 0 <= j < i ==> command_infos()[j].name != name@,
        decreases table@.len() - i,
    {
        let entry_name = chars_of(table[i].name);
        proof {
            assert(info_views(table@)[i as int] == table@[i as int]@);
        }
        if chars_eq(entry_name.as_slice(), name) {
            proof {
                lemma_lookup_first(name@, i as int);
            }
            return i;
        }
        i = i + 1;
    }
    proof {
        lemma_lookup_first(name@, table@.len() as int);
    }
    i
}

proof fn lemma_lookup_first(name: Seq<char>, i: int)
    requires
        0 <= i <= command_infos().len(),
        forall|j: int| 0 <= j < i ==> command_infos()[j].name != name,
        i < command_infos().len() ==> command_infos()[i].name == name,
    ensures
        lookup(name) == i,
{
    lemma_lookup_from(name, 0);
    let l = lookup_from(name, 0);
    if l < i {
        assert(command_infos()[l].name == name);
    }
    if i < l {
        assert(command_infos()[i].name != name);
    }
}

/// Parse a command-palette line into a [`Command`].
///
/// Accepts input with or without a leading `:`. Surrounding whitespace is
/// trimmed; internal whitespace in arguments is preserved. Whether a command
/// takes an argument is derived from its table entry.
pub fn parse(input: &str) -> (r: Result<Command, ParseError>)
    ensures
        match r {
            Ok(c) => parse_spec(input@) == Ok::<CommandView, ParseErrorView>(c@),
            Err(e) => parse_spec(input@) == Err::<CommandView, ParseErrorView>(e@),
        },
{
    let chars = chars_of(input);
    let trimmed = trim_chars(chars.as_slice());
    let no_colon = trim_start_char_chars(trimmed.as_slice(), ':');
    let body = trim_start_chars(no_colon.as_slice());
    if body.len() == 0 {
        return Err(ParseError::Empty);
    }
    let k = find_char_in(body.as_slice(), ' ');
    let cmd = slice_to_vec(body.as_slice(), 0, k);
    let rest = if k < body.len() {
        let after = slice_to_vec(body.as_slice(), k + 1, body.len());
        trim_chars(after.as_slice())
    } else {
        Vec::new()
    };
    proof {
        assert(cmd@ =~= body@.take(k as int));
        if k < body@.len() {
            assert(body@.subrange(k + 1, body@.len() as int) =~= body@.skip(k + 1));
        } else {
            assert(rest@ =~= seq![]);
        }
    }
    let table = command_info_table();
    let idx = find_command(&table, cmd.as_slice());
    if idx >= table.len() {
        return Err(ParseError::Unknown(string_of(cmd.as_slice())));
    }
    let info = table[idx];
    proof {
        assert(info_views(table@)[idx as int] == info@);
    }
    if info.arg.is_empty() {
        if rest.len() > 0 {
            return Err(ParseError::UnexpectedArg(info.name));
        }
        Ok(command_from_index(idx, Vec::new()))
    } else if rest.len() == 0 {
        Err(ParseError::MissingArg(info.name))
    } else {
        Ok(command_from_index(idx, rest))
    }
}

/// Build the command for table entry `index` with argument `arg`.
fn command_from_index(index: usize, arg: Vec<char>) -> (r: Command)
    ensures
        r@ == command_at(index as int, arg@),
{
    if index == 0 {
        Command::Open(string_of(arg.as_slice()))
    } else if index == 1 {
        Command::File(string_of(arg.as_slice()))
    } else if index == 2 {
        Command::Stats
    } else if index == 3 {
        Command::Quit
    } else {
        Command::Help
    }
}

/// The text completion looks at: the input without leading whitespace and
/// leading `:`s.
pub open spec fn completion_body(input: Seq<char>) -> Seq<char> {
    trim_start_char(trim_start(input), ':')
}

/// What [`complete_info`] returns for `input`.
pub open spec fn complete_info_spec(input: Seq<char>) -> Seq<CommandInfoView> {
    let body = completion_body(input);
    if has_char(body, ' ') {
        seq![]
    } else {
        command_infos().filter(|i: CommandInfoView| body.is_prefix_of(i.name))
    }
}

/// Metadata for the commands whose name starts with `input`'s body, in
/// display order. Empty once the input contains a space.
pub fn complete_info(input: &str) -> (r: Vec<CommandInfo>)
    ensures
        info_views(r@) == complete_info_spec(input@),
{
    let chars = chars_of(input);
    let a = trim_start_chars(chars.as_slice());
    let body = trim_start_char_chars(a.as_slice(), ':');
    let mut r: Vec<CommandInfo> = Vec::new();
    if contains_char(body.as_slice(), ' ') {
        proof {
            assert(info_views(r@) =~= seq![]);
        }
        return r;
    }
    let table = command_info_table();
    let ghost pred = |i: CommandInfoView| body@.is_prefix_of(i.name);
    let mut i: usize = 0;
    while i < table.len()
        invariant
            info_views(table@) == command_infos(),
            i <= table@.len(),
            info_views(r@) == command_infos().take(i as int).filter(pred),
            pred == (|i: CommandInfoView| body@.is_prefix_of(i.name)),
        decreases table@.len() - i,
    {
        let entry = table[i];
        let name = chars_of(entry.name);
        proof {
            assert(info_views(table@)[i as int] == entry@);
            reveal_with_fuel(Seq::filter, 1);
            assert(command_infos().take(i + 1).drop_last() =~= command_infos().take(i as int));
        }
        let ghost before = r@;
        if starts_with_chars(name.as_slice(), body.as_slice()) {
            r.push(entry);
            proof {
                assert(info_views(r@) =~= info_views(before).push(entry@));
            }
        }
        i = i + 1;
    }
    proof {
        assert(command_infos().take(table@.len() as int) =~= command_infos());
    }
    r
}

/// The names of `infos`.
pub open spec fn info_names(infos: Seq<CommandInfoView>) -> Seq<Seq<char>> {
    infos.map_values(|i: CommandInfoView| i.name)
}

/// Return the command names that match a partial input, in display order.
pub fn complete(input: &str) -> (r: Vec<&'static str>)
    ensures
        r@.map_values(|s: &'static str| s@) == info_names(complete_info_spec(input@)),
{
    let infos = complete_info(input);
    let mut r: Vec<&'static str> = Vec::new();
    let mut i: usize = 0;
    while i < infos.len()
        invariant
            i <= infos@.len(),
            r@.map_values(|s: &'static str| s@) == info_names(info_views(infos@)).take(i as int),
        decreases infos@.len() - i,
    {
        let ghost before = r@;
        r.push(infos[i].name);
        proof {
            let names = info_names(info_views(infos@));
            assert(names[i as int] == infos@[i as int].name@);
            assert(r@ =~= before.push(infos@[i as int].name));
            assert(r@.map_values(|s: &'static str| s@) =~= before.map_values(
                |s: &'static str| s@,
            ).push(infos@[i as int].name@));
            assert(names.take(i + 1) =~= names.take(i as int).push(names[i as int]));
        }
        i = i + 1;
    }
    proof {
        assert(info_names(info_views(infos@)).take(infos@.len() as int) =~= info_names(
            info_views(infos@),
        ));
    }
    r
}

/// What [`info`] returns for `name`.
pub open spec fn info_spec(name: Seq<char>) -> Option<CommandInfoView> {
    let idx = lookup(name);
    if idx < command_infos().len() {
        Some(command_infos()[idx])
    } else {
        None
    }
}

/// Look up a single command's metadata by name (`None` if unknown).
pub fn info(name: &str) -> (r: Option<CommandInfo>)
    ensures
        match r {
            Some(i) => info_spec(name@) == Some(i@),
            None => info_spec(name@) is None,
        },
{
    let table = command_info_table();
    let n = chars_of(name);
    let idx = find_command(&table, n.as_slice());
    if idx < table.len() {
        proof {
            assert(info_views(table@)[idx as int] == table@[idx as int]@);
        }
        Some(table[idx])
    } else {
        None
    }
}

// -- Laws ---------------------------------------------------------------------

proof fn reveal_table_names()
    ensures
        command_infos()[0].name == seq!['o', 'p', 'e', 'n'],
        command_infos()[1].name == seq!['f', 'i', 'l', 'e'],
        command_infos()[2].name == seq!['s', 't', 'a', 't', 's'],
        command_infos()[3].name == seq!['q', 'u', 'i', 't'],
        command_infos()[4].name == seq!['h', 'e', 'l', 'p'],
        command_infos()[0].arg.len() > 0,
        command_infos()[1].arg.len() > 0,
        command_infos()[2].arg.len() == 0,
        command_infos()[3].arg.len() == 0,
        command_infos()[4].arg.len() == 0,
{
    reveal_strlit("open");
    reveal_strlit("file");
    reveal_strlit("stats");
    reveal_strlit("quit");
    reveal_strlit("help");
    reveal_strlit("<path>");
    reveal_strlit("<name>");
    reveal_strlit("");
    assert(command_infos()[0].name =~= seq!['o', 'p', 'e', 'n']);
    assert(command_infos()[1].name =~= seq!['f', 'i', 'l', 'e']);
    assert(command_infos()[2].name =~= seq!['s', 't', 'a', 't', 's']);
    assert(command_infos()[3].name =~= seq!['q', 'u', 'i', 't']);
    assert(command_infos()[4].name =~= seq!['h', 'e', 'l', 'p']);
}

/// Every entry of the table carries a usable description.
pub proof fn law_descriptions_nonempty(i: int)
    requires
        0 <= i < command_infos().len(),
    ensures
        command_infos()[i].description.len() > 0,
{
    reveal_strlit("open a different repo");
    reveal_strlit("jump to a specific file");
    reveal_strlit("open the session stats view");
    reveal_strlit("quit codetype");
    reveal_strlit("show keyboard help");
}

/// Looking up an entry's own name finds that entry: the names are
/// distinct, so `info` round-trips every command.
pub proof fn law_info_round_trips(i: int)
    requires
        0 <= i < command_infos().len(),
    ensures
        lookup(command_infos()[i].name) == i,
        info_spec(command_infos()[i].name) == Some(command_infos()[i]),
        command_name(command_at(i, seq![])) == command_infos()[i].name,
{
    reveal_table_names();
    let n = command_infos()[i].name;
    assert forall|j: int| 0 <= j < i implies command_infos()[j].name != n by {
        if command_infos()[j].name =~= n {
        }
        assert(command_infos()[j].name[0] != n[0] || command_infos()[j].name.len() != n.len()
            || command_infos()[j].name[1] != n[1]);
    }
    lemma_lookup_first(n, i);
}

proof fn lemma_trim_start_nonws(s: Seq<char>)
    requires
        s.len() > 0,
        !crate::text::is_ws(s[0]),
    ensures
        trim_start(s) == s,
{
}

proof fn lemma_trim_end_nonws(s: Seq<char>)
    requires
        s.len() > 0,
        !crate::text::is_ws(s.last()),
    ensures
        crate::text::trim_end(s) == s,
{
}

proof fn lemma_find_char_prefix(p: Seq<char>, q: Seq<char>, c: char)
    requires
        !has_char(p, c),
    ensures
        find_char(p + q, c) == p.len() + find_char(q, c),
    decreases p.len(),
{
    if p.len() > 0 {
        assert(p[0] != c);
        assert((p + q).drop_first() =~= p.drop_first() + q);
        if has_char(p.drop_first(), c) {
            let k = choose|k: int| 0 <= k < p.drop_first().len() && p.drop_first()[k] == c;
            assert(p[k + 1] == c);
        }
        lemma_find_char_prefix(p.drop_first(), q, c);
    } else {
        assert(p + q =~= q);
    }
}

/// A no-argument command parses from `:` and its bare name, and an
/// argument-taking command parsed bare reports its missing argument.
pub proof fn law_bare_names_parse_by_arg_shape(i: int)
    requires
        0 <= i < command_infos().len(),
    ensures
        command_infos()[i].arg.len() == 0 ==> parse_spec(seq![':'] + command_infos()[i].name)
            == Ok::<CommandView, ParseErrorView>(command_at(i, seq![])),
        command_infos()[i].arg.len() > 0 ==> parse_spec(seq![':'] + command_infos()[i].name)
            == Err::<CommandView, ParseErrorView>(
            ParseErrorView::MissingArg(command_infos()[i].name),
        ),
{
    reveal_table_names();
    law_info_round_trips(i);
    let n = command_infos()[i].name;
    let s = seq![':'] + n;
    assert(s[0] == ':');
    assert(s.last() == n.last());
    lemma_trim_start_nonws(s);
    lemma_trim_end_nonws(s);
    assert(trim(s) == s);
    assert(s.drop_first() =~= n);
    assert(trim_start_char(s, ':') == trim_start_char(n, ':'));
    assert(trim_start_char(n, ':') == n);
    lemma_trim_start_nonws(n);
    assert(parse_body(s) == n);
    assert(!has_char(n, ' '));
    crate::text::lemma_find_char(n, ' ');
    assert(n.take(n.len() as int) =~= n);
}

/// A command that takes an argument parses `:name arg` to the command
/// carrying exactly `arg`, whatever spaces `arg` holds inside, as long as
/// it has no surrounding whitespace.
pub proof fn law_argument_round_trips(i: int, arg: Seq<char>)
    requires
        0 <= i < command_infos().len(),
        command_infos()[i].arg.len() > 0,
        arg.len() > 0,
        trim(arg) == arg,
    ensures
        parse_spec(seq![':'] + command_infos()[i].name + seq![' '] + arg) == Ok::<
            CommandView,
            ParseErrorView,
        >(command_at(i, arg)),
{
    reveal_table_names();
    law_info_round_trips(i);
    let n = command_infos()[i].name;
    let s = seq![':'] + n + seq![' '] + arg;
    assert(arg.len() > 0);
    lemma_trim_end_last(arg);
    assert(s.last() == arg.last());
    lemma_trim_start_nonws(s);
    lemma_trim_end_nonws(s);
    assert(trim(s) == s);
    let t = n + seq![' '] + arg;
    assert(s.drop_first() =~= t);
    assert(trim_start_char(s, ':') == trim_start_char(t, ':'));
    assert(t[0] == n[0]);
    assert(trim_start_char(t, ':') == t);
    lemma_trim_start_nonws(t);
    assert(parse_body(s) == t);
    assert(!has_char(n, ' '));
    lemma_find_char_prefix(n, seq![' '] + arg, ' ');
    assert(t =~= n + (seq![' '] + arg));
    assert(find_char(seq![' '] + arg, ' ') == 0);
    assert(t.take(n.len() as int) =~= n);
    assert(t.skip(n.len() as int + 1) =~= arg);
}

proof fn lemma_trim_end_last(s: Seq<char>)
    requires
        s.len() > 0,
        trim(s) == s,
    ensures
        !crate::text::is_ws(s.last()),
        !crate::text::is_ws(s[0]),
{
    lemma_trim_shrinks(s);
}

proof fn lemma_trim_shrinks(s: Seq<char>)
    requires
        s.len() > 0,
    ensures
        crate::text::is_ws(s[0]) ==> trim(s).len() < s.len(),
        crate::text::is_ws(s.last()) ==> trim(s).len() < s.len(),
{
    lemma_trim_start_len(s);
    lemma_trim_end_len(trim_start(s));
    if !crate::text::is_ws(s[0]) {
        assert(trim_start(s) == s);
    }
}

proof fn lemma_trim_start_len(s: Seq<char>)
    ensures
        trim_start(s).len() <= s.len(),
        s.len() > 0 && crate::text::is_ws(s[0]) ==> trim_start(s).len() < s.len(),
    decreases s.len(),
{
    if s.len() > 0 && crate::text::is_ws(s[0]) {
        lemma_trim_start_len(s.drop_first());
    }
}

proof fn lemma_trim_end_len(s: Seq<char>)
    ensures
        crate::text::trim_end(s).len() <= s.len(),
        s.len() > 0 && crate::text::is_ws(s.last()) ==> crate::text::trim_end(s).len() < s.len(),
    decreases s.len(),
{
    if s.len() > 0 && crate::text::is_ws(s.last()) {
        lemma_trim_end_len(s.drop_last());
    }
}

proof fn lemma_trim_start_head(s: Seq<char>)
    ensures
        trim_start(s).len() == 0 || !crate::text::is_ws(trim_start(s)[0]),
    decreases s.len(),
{
    if s.len() > 0 && crate::text::is_ws(s[0]) {
        lemma_trim_start_head(s.drop_first());
    }
}

proof fn lemma_trim_end_is_prefix(s: Seq<char>)
    ensures
        trim_end(s).len() <= s.len(),
        trim_end(s) == s.take(trim_end(s).len() as int),
        trim_end(s).len() == 0 || !crate::text::is_ws(trim_end(s).last()),
    decreases s.len(),
{
    if s.len() > 0 && crate::text::is_ws(s.last()) {
        lemma_trim_end_is_prefix(s.drop_last());
        assert(s.drop_last().take(trim_end(s).len() as int) =~= s.take(trim_end(s).len() as int));
    } else {
        assert(s.take(s.len() as int) =~= s);
    }
}

proof fn lemma_trim_start_of_headless(s: Seq<char>)
    requires
        s.len() == 0 || !crate::text::is_ws(s[0]),
    ensures
        trim_start(s) == s,
{
}

proof fn lemma_trim_end_of_tailless(s: Seq<char>)
    requires
        s.len() == 0 || !crate::text::is_ws(s.last()),
    ensures
        trim_end(s) == s,
{
}

/// `trim` is idempotent.
proof fn lemma_trim_idempotent(s: Seq<char>)
    ensures
        trim(trim(s)) == trim(s),
{
    let a = trim_start(s);
    let t = trim_end(a);
    lemma_trim_start_head(s);
    lemma_trim_end_is_prefix(a);
    if t.len() > 0 {
        assert(t[0] == a[0]);
    }
    lemma_trim_start_of_headless(t);
    lemma_trim_end_of_tailless(t);
}

/// Trailing whitespace of `seq![c] + t`, for a non-whitespace `c`, is that
/// of `t`.
proof fn lemma_trim_end_after_head(c: char, t: Seq<char>)
    requires
        !crate::text::is_ws(c),
    ensures
        trim_end(seq![c] + t) == seq![c] + trim_end(t),
    decreases t.len(),
{
    if t.len() > 0 && crate::text::is_ws(t.last()) {
        assert((seq![c] + t).drop_last() =~= seq![c] + t.drop_last());
        lemma_trim_end_after_head(c, t.drop_last());
    } else if t.len() == 0 {
        assert(seq![c] + t =~= seq![c]);
    }
}

/// Surrounding whitespace does not change what a palette line parses to,
/// and the leading `:` is optional: `":" + t` parses as `t` does when `t`
/// does not start with whitespace.
pub proof fn law_parse_ignores_outer_space_and_colon(s: Seq<char>, t: Seq<char>)
    requires
        trim_start(t) == t,
    ensures
        parse_spec(s) == parse_spec(trim(s)),
        parse_spec(seq![':'] + t) == parse_spec(t),
{
    lemma_trim_idempotent(s);
    assert(parse_body(s) == parse_body(trim(s)));
    let ct = seq![':'] + t;
    assert(!crate::text::is_ws(':'));
    assert(trim_start(ct) == ct);
    lemma_trim_end_after_head(':', t);
    assert(trim(ct) == seq![':'] + trim_end(t));
    assert((seq![':'] + trim_end(t)).drop_first() =~= trim_end(t));
    assert(trim_start_char(trim(ct), ':') == trim_start_char(trim_end(t), ':'));
    assert(trim(t) == trim_end(t));
    assert(parse_body(ct) == parse_body(t));
}

} // verus!
