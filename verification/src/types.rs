//! The values that the modules hand to one another.
use vstd::prelude::*;
use vstd::string::*;

use crate::path;
use crate::text;
use crate::text::CharSet;

verus! {

broadcast use vstd::string::group_string_axioms;

/// Snapshot of terminal state gathered for the chat prompt.
#[derive(Debug, Clone, PartialEq, Eq)]
pub struct TerminalContext {
    pub visible_text: String,
    pub selected_text: Option<String>,
    pub last_command: String,
    /// Output produced by the last command, extracted from the visible grid.
    /// Empty when the output has scrolled off screen or no command was detected.
    pub last_command_output: String,
    /// Recent commands from this terminal session, oldest first. The final entry is
    /// the same command as `last_command`. Empty when nothing was recovered.
    pub command_history: Vec<CommandEntry>,
    /// Where `command_history` came from, which determines how much of it
    /// can be trusted (grid-only history has no exit codes).
    pub history_source: HistorySource,
    pub cwd: String,
    pub exit_code: Option<i32>,
    pub rows: u16,
    pub cols: u16,
}

impl Default for TerminalContext {
    fn default() -> (r: Self)
        ensures
            r.visible_text@ == Seq::<char>::empty(),
            r.selected_text is None,
            r.last_command@ == Seq::<char>::empty(),
            r.last_command_output@ == Seq::<char>::empty(),
            r.command_history@ == Seq::<CommandEntry>::empty(),
            r.history_source == HistorySource::Absent,
            r.cwd@ == Seq::<char>::empty(),
            r.exit_code is None,
            r.rows == 0,
            r.cols == 0,
    {
        TerminalContext {
            visible_text: String::new(),
            selected_text: None,
            last_command: String::new(),
            last_command_output: String::new(),
            command_history: Vec::new(),
            history_source: HistorySource::Absent,
            cwd: String::new(),
            exit_code: None,
            rows: 0,
            cols: 0,
        }
    }
}

/// One command from the session history, as shown to the model.
#[derive(Debug, Clone, PartialEq, Eq)]
pub struct CommandEntry {
    pub command: String,
    /// `None` when the exit code could not be recovered (grid-only history).
    pub exit_code: Option<i32>,
    /// Output recovered from the terminal grid. Empty when the command's output was
    /// cleared, scrolled away, or never matched to a grid block.
    pub output: String,
    /// Working directory the command ran in. Empty on the grid-only path.
    pub cwd: String,
}

/// What a [`CommandEntry`] says.
pub ghost struct CommandEntryView {
    pub command: Seq<char>,
    pub exit_code: Option<i32>,
    pub output: Seq<char>,
    pub cwd: Seq<char>,
}

impl View for CommandEntry {
    type V = CommandEntryView;

    open spec fn view(&self) -> CommandEntryView {
        CommandEntryView {
            command: self.command@,
            exit_code: self.exit_code,
            output: self.output@,
            cwd: self.cwd@,
        }
    }
}

/// What each of the entries says.
pub open spec fn entry_views(entries: Seq<CommandEntry>) -> Seq<CommandEntryView> {
    Seq::new(entries.len(), |i: int| entries[i]@)
}

impl Default for CommandEntry {
    fn default() -> (r: Self)
        ensures
            r@ == (CommandEntryView { command: seq![], exit_code: None, output: seq![], cwd: seq![] }),
    {
        CommandEntry {
            command: String::new(),
            exit_code: None,
            output: String::new(),
            cwd: String::new(),
        }
    }
}

/// Provenance of [`TerminalContext::command_history`].
#[derive(Debug, Clone, Copy, PartialEq, Eq, Structural)]
pub enum HistorySource {
    /// No history could be recovered.
    Absent,
    /// Reconstructed from the terminal grid alone; exit codes are unavailable.
    GridOnly,
    /// Joined with records written by the shell integration hook; exit codes exact.
    ShellHook,
}

impl Default for HistorySource {
    fn default() -> (r: Self)
        ensures
            r == HistorySource::Absent,
    {
        HistorySource::Absent
    }
}

/// System environment snapshot for the overlay `/info` command.
#[derive(Debug, Clone, PartialEq, Eq)]
pub struct SystemInfo {
    pub os: String,
    pub arch: String,
    pub shell: String,
    pub package_managers: Vec<String>,
    /// Packages by manager, each manager once.
    pub installed_packages: Vec<(String, Vec<String>)>,
    pub installed_packages_total: Option<u64>,
    pub installed_tools: Vec<String>,
    pub collected_at: Option<i64>,
    pub collected_at_display: Option<String>,
}

/// The names of the package managers.
pub open spec fn manager_names(packages: Seq<(String, Vec<String>)>) -> Seq<Seq<char>> {
    Seq::new(packages.len(), |i: int| packages[i].0@)
}

impl SystemInfo {
    /// What every snapshot keeps: no package manager occurs twice.
    pub open spec fn well_formed(self) -> bool {
        manager_names(self.installed_packages@).no_duplicates()
    }

    /// Whether no package manager occurs twice.
    pub fn managers_are_distinct(&self) -> (r: bool)
        ensures
            r == self.well_formed(),
    {
        let ghost names = manager_names(self.installed_packages@);
        let n = self.installed_packages.len();
        let mut i: usize = 0;
        while i < n
            invariant
                n == self.installed_packages@.len(),
                names == manager_names(self.installed_packages@),
                i <= n,
                forall|a: int, b: int| 0 <= a < b < n && a < i ==> #[trigger] names[a]
                    != #[trigger] names[b],
            decreases n - i,
        {
            let mut j: usize = i + 1;
            while j < n
                invariant
                    n == self.installed_packages@.len(),
                    names == manager_names(self.installed_packages@),
                    i < j <= n,
                    forall|b: int| i < b < j ==> names[i as int] != #[trigger] names[b],
                decreases n - j,
            {
                assert(names[i as int] == self.installed_packages@[i as int].0@);
                assert(names[j as int] == self.installed_packages@[j as int].0@);
                if text::same(
                    self.installed_packages[i].0.as_str(),
                    self.installed_packages[j].0.as_str(),
                ) {
                    return false;
                }
                j += 1;
            }
            i += 1;
        }
        assert(names.no_duplicates());
        true
    }

    /// Whether enough data was collected for `/info`.
    pub fn is_complete(&self) -> (r: bool)
        ensures
            r == (self.os@.len() > 0 && self.collected_at is Some),
    {
        !self.os.as_str().is_empty() && self.collected_at.is_some()
    }
}

/// Provenance of the reference text injected into the chat prompt.
#[derive(Debug, Clone, Copy, PartialEq, Eq, Structural)]
pub enum ReferenceSource {
    Man,
    Help,
    Package,
    Docs,
    /// No reference was found.
    Absent,
}

impl ReferenceSource {
    /// The name of the source.
    pub open spec fn name(self) -> Seq<char> {
        match self {
            ReferenceSource::Man => "man"@,
            ReferenceSource::Help => "help"@,
            ReferenceSource::Package => "package"@,
            ReferenceSource::Docs => "docs"@,
            ReferenceSource::Absent => "none"@,
        }
    }

    /// The name of the source as a reader sees it.
    pub open spec fn shown(self) -> Seq<char> {
        match self {
            ReferenceSource::Man => "man"@,
            ReferenceSource::Help => "--help"@,
            ReferenceSource::Package => "package info"@,
            ReferenceSource::Docs => "official docs"@,
            ReferenceSource::Absent => "none"@,
        }
    }

    pub fn as_str(self) -> (r: &'static str)
        ensures
            r@ == self.name(),
    {
        match self {
            ReferenceSource::Man => "man",
            ReferenceSource::Help => "help",
            ReferenceSource::Package => "package",
            ReferenceSource::Docs => "docs",
            ReferenceSource::Absent => "none",
        }
    }

    pub fn label(self) -> (r: &'static str)
        ensures
            r@ == self.shown(),
    {
        match self {
            ReferenceSource::Man => "man",
            ReferenceSource::Help => "--help",
            ReferenceSource::Package => "package info",
            ReferenceSource::Docs => "official docs",
            ReferenceSource::Absent => "none",
        }
    }
}

/// Budgeted reference text for a program (man/help/package/docs).
#[derive(Debug, Clone, PartialEq, Eq)]
pub struct ReferenceContext {
    pub program: String,
    pub source: ReferenceSource,
    pub body: String,
}

/// What a [`ReferenceContext`] says.
pub ghost struct ReferenceView {
    pub program: Seq<char>,
    pub source: ReferenceSource,
    pub body: Seq<char>,
}

impl View for ReferenceContext {
    type V = ReferenceView;

    open spec fn view(&self) -> ReferenceView {
        ReferenceView { program: self.program@, source: self.source, body: self.body@ }
    }
}

impl ReferenceContext {
    pub fn empty(program: String) -> (r: Self)
        ensures
            r@ == (ReferenceView {
                program: program@,
                source: ReferenceSource::Absent,
                body: seq![],
            }),
    {
        ReferenceContext { program, source: ReferenceSource::Absent, body: String::new() }
    }

    pub fn has_body(&self) -> (r: bool)
        ensures
            r == (text::trimmed(self.body@).len() > 0),
    {
        !text::trim(self.body.as_str()).is_empty()
    }
}

/// `text` cut to `max` characters and trimmed at its end, with `marker` behind the cut, or
/// `text` itself where it is no longer than that.
pub open spec fn cut_with_marker(text: Seq<char>, max: nat, marker: Seq<char>) -> Seq<char> {
    if text.len() <= max {
        text
    } else {
        text::rtrimmed(text.take(max as int)) + marker
    }
}

/// Truncate `text` to at most `max_chars` *characters*, appending `marker` if anything
/// was cut. Pass an empty marker for a silent cap.
///
/// Counts characters, not bytes, so a cut never falls inside a multi-byte character.
pub fn truncate_with_marker(text: &str, max_chars: usize, marker: &str) -> (r: String)
    ensures
        r@ == cut_with_marker(text@, max_chars as nat, marker@),
        r@.len() <= max_chars + marker@.len(),
{
    let n = text.unicode_len();
    if n <= max_chars {
        return text.to_owned();
    }
    let kept = text.substring_char(0, max_chars);
    assert(kept@ =~= text@.take(max_chars as int));
    proof {
        text::lemma_trail(kept@, CharSet::White);
    }
    text::concat(text::trim_end(kept), marker)
}

/// The program that a command line runs: its first word, without the directories before it.
pub open spec fn program_name(command: Seq<char>) -> Seq<char> {
    let words = text::word_list(text::trimmed(command));
    if words.len() == 0 {
        seq![]
    } else {
        match path::last_name(words[0]) {
            Some(name) => name,
            None => words[0],
        }
    }
}

/// First token of a shell command line (program name).
pub fn extract_program_name(last_command: &str) -> (r: String)
    ensures
        r@ == program_name(last_command@),
{
    let trimmed = text::trim(last_command);
    let words = text::words(trimmed);
    if words.len() == 0 {
        return String::new();
    }
    assert(text::views(words@)[0] == words@[0]@);
    match path::file_name(words[0].as_str()) {
        Some(name) => name,
        None => words[0].clone(),
    }
}

/// Common English words that are not programs.
pub open spec fn is_stop_word(w: Seq<char>) -> bool {
    ||| w == "how"@ || w == "do"@ || w == "i"@ || w == "the"@ || w == "a"@ || w == "an"@
    ||| w == "to"@ || w == "for"@ || w == "with"@ || w == "what"@ || w == "why"@ || w == "is"@
    ||| w == "my"@ || w == "this"@ || w == "that"@ || w == "and"@ || w == "or"@ || w == "of"@
    ||| w == "in"@ || w == "on"@ || w == "it"@ || w == "me"@ || w == "can"@ || w == "you"@
    ||| w == "please"@ || w == "help"@ || w == "explain"@ || w == "about"@ || w == "command"@
    ||| w == "error"@ || w == "failed"@ || w == "using"@ || w == "fix"@ || w == "something"@
    ||| w == "specific"@ || w == "again"@ || w == "does"@ || w == "did"@ || w == "not"@
    ||| w == "work"@ || w == "working"@ || w == "want"@ || w == "need"@ || w == "should"@
    ||| w == "could"@ || w == "would"@ || w == "when"@ || w == "where"@ || w == "which"@
    ||| w == "who"@ || w == "from"@ || w == "into"@ || w == "just"@ || w == "like"@
    ||| w == "make"@ || w == "get"@ || w == "set"@ || w == "run"@ || w == "use"@
    ||| w == "used"@ || w == "try"@ || w == "tell"@ || w == "show"@ || w == "give"@
}

/// Whether `w` is a common English word that is not a program.
fn stop_word(w: &str) -> (r: bool)
    ensures
        r == is_stop_word(w@),
{
    text::same(w, "how") || text::same(w, "do") || text::same(w, "i") || text::same(w, "the")
        || text::same(w, "a") || text::same(w, "an") || text::same(w, "to") || text::same(w, "for")
        || text::same(w, "with") || text::same(w, "what") || text::same(w, "why") || text::same(
        w,
        "is",
    ) || text::same(w, "my") || text::same(w, "this") || text::same(w, "that") || text::same(
        w,
        "and",
    ) || text::same(w, "or") || text::same(w, "of") || text::same(w, "in") || text::same(w, "on")
        || text::same(w, "it") || text::same(w, "me") || text::same(w, "can") || text::same(
        w,
        "you",
    ) || text::same(w, "please") || text::same(w, "help") || text::same(w, "explain")
        || text::same(w, "about") || text::same(w, "command") || text::same(w, "error")
        || text::same(w, "failed") || text::same(w, "using") || text::same(w, "fix") || text::same(
        w,
        "something",
    ) || text::same(w, "specific") || text::same(w, "again") || text::same(w, "does")
        || text::same(w, "did") || text::same(w, "not") || text::same(w, "work") || text::same(
        w,
        "working",
    ) || text::same(w, "want") || text::same(w, "need") || text::same(w, "should") || text::same(
        w,
        "could",
    ) || text::same(w, "would") || text::same(w, "when") || text::same(w, "where") || text::same(
        w,
        "which",
    ) || text::same(w, "who") || text::same(w, "from") || text::same(w, "into") || text::same(
        w,
        "just",
    ) || text::same(w, "like") || text::same(w, "make") || text::same(w, "get") || text::same(
        w,
        "set",
    ) || text::same(w, "run") || text::same(w, "use") || text::same(w, "used") || text::same(
        w,
        "try",
    ) || text::same(w, "tell") || text::same(w, "show") || text::same(w, "give")
}

/// Whether `c` may stand in the name of a program.
pub open spec fn is_program_char(c: char) -> bool {
    text::is_alnum(c) || c == '-' || c == '_' || c == '.'
}

/// Whether a word of a message may be the name of a program.
pub open spec fn program_like(name: Seq<char>) -> bool {
    &&& name.len() > 0
    &&& text::byte_len(name) <= 40
    &&& !is_stop_word(text::lowered(name))
    &&& forall|i: int| 0 <= i < name.len() ==> is_program_char(#[trigger] name[i])
}

/// Whether a word of a message may be the name of a program.
pub fn looks_like_program(name: &str) -> (r: bool)
    ensures
        r == program_like(name@),
{
    if name.is_empty() || text::len_bytes(name) > 40 {
        return false;
    }
    let lower = text::to_ascii_lowercase(name);
    if stop_word(lower.as_str()) {
        return false;
    }
    let chars = text::chars_of(name);
    let mut i: usize = 0;
    while i < chars.len()
        invariant
            i <= chars@.len(),
            chars@ == name@,
            forall|k: int| 0 <= k < i ==> is_program_char(#[trigger] name@[k]),
        decreases chars@.len() - i,
    {
        let c = chars[i];
        if !(text::is_ascii_alphanumeric(c) || c == '-' || c == '_' || c == '.') {
            assert(!is_program_char(name@[i as int]));
            return false;
        }
        i += 1;
    }
    true
}

/// The first of `names` that looks like a program.
pub open spec fn first_program(names: Seq<Seq<char>>) -> Option<Seq<char>>
    decreases names.len(),
{
    if names.len() == 0 {
        None
    } else if program_like(names[0]) {
        Some(names[0])
    } else {
        first_program(names.drop_first())
    }
}

/// What the parts of a message behind an opening backtick would run as commands.
pub open spec fn snippet_programs(message: Seq<char>) -> Seq<Seq<char>> {
    let pieces = text::piece_list(message, '`');
    Seq::new(
        pieces.len() / 2,
        |i: int| program_name(text::trimmed_start(pieces[2 * i + 1], CharSet::Just('$'))),
    )
}

/// What the parts of a message outside backtick snippets would run as commands.
pub open spec fn prose_programs(message: Seq<char>) -> Seq<Seq<char>> {
    let pieces = text::piece_list(message, '`');
    Seq::new(
        (pieces.len() + 1) as nat / 2,
        |i: int| program_name(text::trimmed_start(pieces[2 * i], CharSet::Just('$'))),
    )
}

/// What the words of a message, without the punctuation around them, would run as commands.
pub open spec fn word_programs(message: Seq<char>) -> Seq<Seq<char>> {
    text::word_list(message).map_values(
        |w: Seq<char>| program_name(text::trimmed_of(w, CharSet::Punctuation)),
    )
}

/// The program that a message speaks of: backtick snippets come before what stands around them,
/// read as commands, and that before bare words.
pub open spec fn program_in_message(message: Seq<char>) -> Seq<char> {
    match first_program(snippet_programs(message)) {
        Some(name) => name,
        None => match first_program(prose_programs(message)) {
            Some(name) => name,
            None => match first_program(word_programs(message)) {
                Some(name) => name,
                None => seq![],
            },
        },
    }
}

/// The program that a message speaks of.
fn extract_program_from_message(message: &str) -> (r: String)
    ensures
        r@ == program_in_message(message@),
{
    let ghost snippets = snippet_programs(message@);
    let segments = text::split(message, '`');
    let total = segments.len();
    let count: usize = total / 2;
    let mut i: usize = 0;
    assert(snippets.skip(0) =~= snippets);
    while i < count
        invariant
            i <= count,
            total == segments@.len(),
            count == total / 2,
            text::views(segments@) == text::piece_list(message@, '`'),
            snippets == snippet_programs(message@),
            first_program(snippets) == first_program(snippets.skip(i as int)),
        decreases count - i,
    {
        assert(text::views(segments@)[2 * i + 1] == segments@[2 * i + 1]@);
        let candidate = extract_program_name(
            text::trim_start_of(segments[2 * i + 1].as_str(), CharSet::Just('$')),
        );
        assert(snippets.skip(i as int)[0] == candidate@);
        if looks_like_program(candidate.as_str()) {
            return candidate;
        }
        assert(snippets.skip(i as int).drop_first() =~= snippets.skip(i as int + 1));
        i += 1;
    }
    assert(first_program(snippets) is None);
    let ghost prose = prose_programs(message@);
    let around: usize = total - count;
    let mut k: usize = 0;
    assert(prose.skip(0) =~= prose);
    while k < around
        invariant
            k <= around,
            total == segments@.len(),
            around == (total + 1) / 2,
            text::views(segments@) == text::piece_list(message@, '`'),
            prose == prose_programs(message@),
            first_program(snippet_programs(message@)) is None,
            first_program(prose) == first_program(prose.skip(k as int)),
        decreases around - k,
    {
        assert(text::views(segments@)[2 * k] == segments@[2 * k]@);
        let candidate = extract_program_name(
            text::trim_start_of(segments[2 * k].as_str(), CharSet::Just('$')),
        );
        assert(prose.skip(k as int)[0] == candidate@);
        if looks_like_program(candidate.as_str()) {
            return candidate;
        }
        assert(prose.skip(k as int).drop_first() =~= prose.skip(k as int + 1));
        k += 1;
    }
    assert(first_program(prose) is None);
    let ghost tokens = word_programs(message@);
    let words = text::words(message);
    let mut j: usize = 0;
    assert(tokens.skip(0) =~= tokens);
    while j < words.len()
        invariant
            j <= words@.len(),
            text::views(words@) == text::word_list(message@),
            tokens == word_programs(message@),
            first_program(snippet_programs(message@)) is None,
            first_program(prose_programs(message@)) is None,
            first_program(tokens) == first_program(tokens.skip(j as int)),
        decreases words@.len() - j,
    {
        assert(text::views(words@)[j as int] == words@[j as int]@);
        let candidate = extract_program_name(
            text::trim_of(words[j].as_str(), CharSet::Punctuation),
        );
        assert(tokens.skip(j as int)[0] == candidate@);
        if looks_like_program(candidate.as_str()) {
            return candidate;
        }
        assert(tokens.skip(j as int).drop_first() =~= tokens.skip(j as int + 1));
        j += 1;
    }
    String::new()
}

/// The program a question is about: that of the last command, else one that the message names.
pub open spec fn resolved_program(last_command: Seq<char>, message: Seq<char>) -> Seq<char> {
    if program_name(last_command).len() > 0 {
        program_name(last_command)
    } else {
        program_in_message(message)
    }
}

/// Resolve the program from the last command, else a shell-looking token in the user message.
pub fn resolve_program(last_command: &str, user_message: &str) -> (r: String)
    ensures
        r@ == resolved_program(last_command@, user_message@),
{
    let from_cmd = extract_program_name(last_command);
    if !from_cmd.as_str().is_empty() {
        return from_cmd;
    }
    extract_program_from_message(user_message)
}

/// Whether a value of a switch turns it off.
pub open spec fn is_falsey(value: Seq<char>) -> bool {
    let v = text::lowered(text::trimmed(value));
    v == "0"@ || v == "false"@ || v == "off"@ || v == "no"@
}

/// Whether a feature is on, by the value of its environment variable: it is, unless that is
/// `0`, `false`, `off` or `no`.
pub open spec fn switched_on(value: Option<Seq<char>>) -> bool {
    match value {
        Some(v) => !is_falsey(v),
        None => true,
    }
}

/// Whether a feature is on, by the value of its environment variable.
pub fn switch_is_on(value: Option<&str>) -> (r: bool)
    ensures
        r == switched_on(text::opt_text(value)),
{
    match value {
        Some(value) => {
            let v = text::to_ascii_lowercase(text::trim(value));
            !(text::same(v.as_str(), "0") || text::same(v.as_str(), "false") || text::same(
                v.as_str(),
                "off",
            ) || text::same(v.as_str(), "no"))
        },
        None => true,
    }
}

/// The kinds of system that are treated apart.
#[derive(Debug, Clone, Copy, PartialEq, Eq, Structural)]
pub enum Platform {
    Linux,
    MacOs,
    Other,
}

/// A text that is cut is its start, up to the limit but for white space there, with the marker
/// behind it; one that is short enough is left as it is.
pub proof fn law_cut_is_a_start(s: Seq<char>, max: nat, marker: Seq<char>)
    ensures
        s.len() <= max ==> cut_with_marker(s, max, marker) == s,
        s.len() > max ==> exists|n: int|
            #![trigger s.take(n)]
            0 <= n <= max && cut_with_marker(s, max, marker) == s.take(n) + marker && forall|k: int|
                n <= k < max ==> text::is_white(#[trigger] s[k]),
{
    if s.len() > max {
        let head = s.take(max as int);
        text::lemma_rtrimmed(head);
        let n = text::rtrimmed(head).len() as int;
        assert(s.take(n) =~= text::rtrimmed(head));
        assert forall|k: int| n <= k < max implies text::is_white(#[trigger] s[k]) by {
            assert(head[k] == s[k]);
        }
    }
}

/// Whether a word is free of white space.
spec fn is_word(w: Seq<char>) -> bool {
    w.len() > 0 && forall|i: int| 0 <= i < w.len() ==> !text::is_white(#[trigger] w[i])
}

/// The program of a command is its first word, and of a path the last part of it.
pub proof fn law_program_name(dirs: Seq<Seq<char>>, name: Seq<char>, args: Seq<Seq<char>>)
    requires
        name.len() > 0,
        !name.contains('/'),
        path::is_normal(name),
        forall|i: int| 0 <= i < name.len() ==> !text::is_white(#[trigger] name[i]),
        forall|k: int|
            0 <= k < dirs.len() ==> (#[trigger] dirs[k]).len() > 0 && !dirs[k].contains('/')
                && dirs[k] != "."@,
        forall|k: int|
            0 <= k < args.len() ==> (#[trigger] args[k]).len() > 0 && (forall|i: int|
                0 <= i < args[k].len() ==> !text::is_white(#[trigger] args[k][i])),
        forall|i: int|
            0 <= i < (seq!['/'] + text::joined(dirs.push(name), seq!['/'])).len()
                ==> !text::is_white(
                #[trigger] (seq!['/'] + text::joined(dirs.push(name), seq!['/']))[i],
            ),
    ensures
        program_name(text::joined(seq![name] + args, seq![' '])) == name,
        program_name(
            text::joined(
                seq![seq!['/'] + text::joined(dirs.push(name), seq!['/'])] + args,
                seq![' '],
            ),
        ) == name,
        program_name(seq![]) == Seq::<char>::empty(),
{
    let full = seq!['/'] + text::joined(dirs.push(name), seq!['/']);
    lemma_first_word(name, args);
    lemma_first_word(full, args);
    lemma_plain_name(name);
    let names = dirs.push(name);
    assert forall|k: int| 0 <= k < names.len() implies (#[trigger] names[k]).len() > 0
        && !names[k].contains('/') && names[k] != "."@ by {
        if k < dirs.len() {
            assert(names[k] == dirs[k]);
        }
    }
    path::law_components(names);
    text::lemma_blank(Seq::<char>::empty());
    let none = text::trimmed(Seq::<char>::empty());
    assert(text::trimmed_start(none, CharSet::White).len() == 0);
    assert(text::word_list(none) =~= seq![]);
}

proof fn lemma_plain_name(name: Seq<char>)
    requires
        name.len() > 0,
        !name.contains('/'),
        path::is_normal(name),
    ensures
        path::last_name(name) == Some(name),
{
    text::law_join_and_split(seq![name], '/');
    assert(text::joined(seq![name], seq!['/']) == name);
    path::lemma_named(seq![name]);
    let list = path::component_list(name);
    if name[0] == '/' {
        assert(name.contains(name[0]));
    }
    assert(text::piece_list(name, '/') =~= seq![name]);
    assert(list =~= seq![name]);
}

proof fn lemma_first_word(first: Seq<char>, args: Seq<Seq<char>>)
    requires
        first.len() > 0,
        forall|i: int| 0 <= i < first.len() ==> !text::is_white(#[trigger] first[i]),
        forall|k: int|
            0 <= k < args.len() ==> (#[trigger] args[k]).len() > 0 && (forall|i: int|
                0 <= i < args[k].len() ==> !text::is_white(#[trigger] args[k][i])),
    ensures
        ({
            let line = text::joined(seq![first] + args, seq![' ']);
            &&& line.len() > 0
            &&& text::is_tight(line)
            &&& text::trimmed(line) == line
            &&& line[0] == first[0]
            &&& text::word_list(line) == seq![first] + args
        }),
{
    let words = seq![first] + args;
    assert forall|k: int| 0 <= k < words.len() implies (#[trigger] words[k]).len() > 0 && (forall|
        i: int,
    |
        0 <= i < words[k].len() ==> !text::is_white(#[trigger] words[k][i])) by {
        if k > 0 {
            assert(words[k] == args[k - 1]);
        }
    }
    text::law_join_and_read_words(words);
    lemma_words_ends(words);
    text::lemma_trimmed_same(text::joined(words, seq![' ']));
}

proof fn lemma_words_ends(words: Seq<Seq<char>>)
    requires
        words.len() > 0,
        forall|k: int| 0 <= k < words.len() ==> is_word(#[trigger] words[k]),
    ensures
        text::joined(words, seq![' ']).len() > 0,
        text::joined(words, seq![' '])[0] == words[0][0],
        text::is_tight(text::joined(words, seq![' '])),
    decreases words.len(),
{
    if words.len() > 1 {
        let init = words.drop_last();
        assert forall|k: int| 0 <= k < init.len() implies is_word(#[trigger] init[k]) by {
            assert(init[k] == words[k]);
        }
        lemma_words_ends(init);
    }
    let first = words[0];
    let last = words[words.len() - 1];
    assert(is_word(first) && is_word(last));
    assert(!text::is_white(first[0]));
    assert(!text::is_white(last[last.len() - 1]));
}

/// Whether a word may name a program: letters, digits and a few signs, not too long, and no word
/// of a question.
pub open spec fn is_plain_program(name: Seq<char>) -> bool {
    &&& 0 < name.len()
    &&& text::byte_len(name) <= 40
    &&& forall|i: int|
        0 <= i < name.len() ==> 'a' <= #[trigger] name[i] <= 'z' || 'A' <= name[i] <= 'Z' || '0'
            <= name[i] <= '9' || name[i] == '-' || name[i] == '_' || name[i] == '.'
    &&& path::is_normal(name)
    &&& !is_stop_word(text::lowered(name))
}

proof fn lemma_program_word(name: Seq<char>)
    requires
        is_plain_program(name),
    ensures
        program_like(name),
        !name.contains('/'),
        !name.contains('`'),
        name[0] != '$',
        forall|i: int| 0 <= i < name.len() ==> !text::is_white(#[trigger] name[i]),
{
    assert forall|i: int| 0 <= i < name.len() implies is_program_char(#[trigger] name[i])
        && !text::is_white(name[i]) && name[i] != '/' && name[i] != '`' by {}
}

/// The last command tells the program. Without one it is the program of the command that a
/// question quotes.
pub proof fn law_resolved_program(
    name: Seq<char>,
    args: Seq<Seq<char>>,
    before: Seq<char>,
    quoted: Seq<char>,
    after: Seq<char>,
    message: Seq<char>,
)
    requires
        is_plain_program(name),
        is_plain_program(quoted),
        !before.contains('`'),
        forall|k: int|
            0 <= k < args.len() ==> (#[trigger] args[k]).len() > 0 && !args[k].contains('`') && (
            forall|i: int| 0 <= i < args[k].len() ==> !text::is_white(#[trigger] args[k][i])),
    ensures
        resolved_program(text::joined(seq![name] + args, seq![' ']), message) == name,
        resolved_program(
            seq![],
            before + seq!['`'] + (text::joined(seq![quoted] + args, seq![' ']) + seq!['`'] + after),
        ) == quoted,
{
    lemma_program_word(name);
    lemma_first_word(name, args);
    lemma_plain_name(name);
    lemma_program_word(quoted);
    lemma_first_word(quoted, args);
    lemma_plain_name(quoted);
    let line = text::joined(seq![quoted] + args, seq![' ']);
    lemma_no_quote(seq![quoted] + args);
    let tail = line + seq!['`'] + after;
    let whole = before + seq!['`'] + tail;
    let pieces = text::piece_list(whole, '`');
    text::law_before(before, '`', tail);
    text::law_before(line, '`', after);
    assert(whole.skip(before.len() as int + 1) =~= tail);
    assert(pieces == seq![before] + text::piece_list(tail, '`'));
    assert(text::piece_list(tail, '`')[0] =~= line);
    assert(pieces[1] == line);
    text::law_split_and_join(tail.skip(line.len() as int + 1), '`');
    assert(pieces.len() >= 3);
    text::lemma_lead_is(line, CharSet::Just('$'), 0);
    assert(line.skip(0) =~= line);
    assert(snippet_programs(whole)[0] == quoted);
    assert(program_name(seq![]).len() == 0) by {
        text::lemma_blank(Seq::<char>::empty());
        let none = text::trimmed(Seq::<char>::empty());
        assert(text::trimmed_start(none, CharSet::White).len() == 0);
    }
}

proof fn lemma_no_quote(words: Seq<Seq<char>>)
    requires
        words.len() > 0,
        forall|k: int| 0 <= k < words.len() ==> !(#[trigger] words[k]).contains('`'),
    ensures
        !text::joined(words, seq![' ']).contains('`'),
    decreases words.len(),
{
    let all = text::joined(words, seq![' ']);
    if words.len() == 1 {
        assert(!words[0].contains('`'));
    } else {
        let init = words.drop_last();
        assert forall|k: int| 0 <= k < init.len() implies !(#[trigger] init[k]).contains('`') by {
            assert(init[k] == words[k]);
        }
        lemma_no_quote(init);
        let before = text::joined(init, seq![' ']);
        let last = words[words.len() - 1];
        if all.contains('`') {
            let k = all.index_of('`');
            if k < before.len() {
                assert(before[k] == '`');
            } else if k > before.len() {
                assert(last[k - before.len() - 1] == '`');
            }
        }
    }
}

/// A switch is off where it is set to a word for no, in whatever case and with white space around
/// it or not; it is on where it is not set, or set to any other word.
pub proof fn law_switch(before: Seq<char>, value: Seq<char>, after: Seq<char>)
    requires
        value.len() > 0,
        text::is_tight(value),
        forall|k: int| 0 <= k < before.len() ==> text::is_white(#[trigger] before[k]),
        forall|k: int| 0 <= k < after.len() ==> text::is_white(#[trigger] after[k]),
    ensures
        switched_on(Some(before + value + after)) <==> !(text::lowered(value) == "0"@
            || text::lowered(value) == "false"@ || text::lowered(value) == "off"@ || text::lowered(
            value,
        ) == "no"@),
        switched_on(None),
{
    text::law_trimmed_core(before, value, after);
}

/// No two sources of a reference go by the same name.
pub proof fn law_source_names(a: ReferenceSource, b: ReferenceSource)
    ensures
        a.name() == b.name() ==> a == b,
        a.shown() == b.shown() ==> a == b,
{
    reveal_strlit("man");
    reveal_strlit("help");
    reveal_strlit("package");
    reveal_strlit("docs");
    reveal_strlit("none");
    reveal_strlit("--help");
    reveal_strlit("package info");
    reveal_strlit("official docs");
    assert("man"@.len() == 3 && "package"@.len() == 7 && "--help"@.len() == 6
        && "package info"@.len() == 12 && "official docs"@.len() == 13 && "none"@.len() == 4);
    assert("help"@[0] == 'h' && "docs"@[0] == 'd' && "none"@[0] == 'n');
    assert("help"@.len() == 4 && "docs"@.len() == 4);
}

/// Without a command and without quotes, the first word of a question that may name a program is
/// the program.
pub proof fn law_program_in_question(words: Seq<Seq<char>>, i: int)
    requires
        0 < i < words.len(),
        forall|k: int| 0 <= k < i ==> is_question_word(#[trigger] words[k]),
        forall|k: int|
            i < k < words.len() ==> (#[trigger] words[k]).len() > 0 && !words[k].contains('`') && (
            forall|j: int| 0 <= j < words[k].len() ==> !text::is_white(#[trigger] words[k][j])),
        is_plain_program(words[i]),
        words[i][0] != '.' && words[i].last() != '.',
    ensures
        resolved_program(seq![], text::joined(words, seq![' '])) == words[i],
{
    let line = text::joined(words, seq![' ']);
    lemma_program_word(words[i]);
    assert forall|k: int| 0 <= k < words.len() implies (#[trigger] words[k]).len() > 0
        && !words[k].contains('`') && (forall|j: int|
        0 <= j < words[k].len() ==> !text::is_white(#[trigger] words[k][j])) by {
        if k < i {
            assert(is_question_word(words[k]));
            assert forall|j: int| 0 <= j < words[k].len() implies words[k][j] != '`' by {}
        }
    }
    text::law_join_and_read_words(words);
    assert forall|k: int| 0 <= k < words.len() implies is_word(#[trigger] words[k]) by {}
    lemma_words_ends(words);
    lemma_no_quote(words);
    text::lemma_trimmed_same(line);
    text::law_before(line, '`', seq![]);
    assert(text::piece_list(line, '`') =~= seq![line]);
    let first = words[0];
    assert(is_question_word(first));
    assert(snippet_programs(line).len() == 0);
    text::lemma_lead_is(line, CharSet::Just('$'), 0);
    assert(line.skip(0) =~= line);
    lemma_question_word(first);
    lemma_plain_name(first);
    assert(prose_programs(line) =~= seq![first]);
    assert(seq![first].drop_first() =~= Seq::<Seq<char>>::empty());
    reveal_with_fuel(first_program, 2);
    assert(first_program(prose_programs(line)) is None);
    lemma_first_program_word(words, 0, i);
    assert(words.skip(0) =~= words);
    assert(word_programs(line) =~= words.map_values(
        |w: Seq<char>| program_name(text::trimmed_of(w, CharSet::Punctuation)),
    ));
    assert(program_name(seq![]).len() == 0) by {
        text::lemma_blank(Seq::<char>::empty());
        let none = text::trimmed(Seq::<char>::empty());
        assert(text::trimmed_start(none, CharSet::White).len() == 0);
    }
}

/// Whether a word is one of a question, in small letters.
pub open spec fn is_question_word(w: Seq<char>) -> bool {
    &&& w.len() > 0
    &&& is_stop_word(w)
    &&& forall|j: int| 0 <= j < w.len() ==> 'a' <= #[trigger] w[j] <= 'z'
}

proof fn lemma_question_word(w: Seq<char>)
    requires
        is_question_word(w),
    ensures
        text::lowered(w) == w,
        !program_like(w),
        !w.contains('/'),
        path::is_normal(w),
        program_name(text::trimmed_of(w, CharSet::Punctuation)) == w,
{
    assert(text::lowered(w) =~= w);
    reveal_strlit("/");
    reveal_strlit(".");
    reveal_strlit("..");
    assert('a' <= w[0] <= 'z');
    assert("/"@[0] == '/' && "."@[0] == '.' && ".."@[0] == '.');
    if w.contains('/') {
        let k = w.index_of('/');
        assert('a' <= w[k] <= 'z');
    }
    lemma_bare_word_program(w);
}

proof fn lemma_bare_word_program(w: Seq<char>)
    requires
        w.len() > 0,
        text::is_alnum(w[0]) || w[0] == '-' || w[0] == '_',
        text::is_alnum(w.last()) || w.last() == '-' || w.last() == '_',
        !w.contains('/'),
        path::is_normal(w),
        forall|j: int| 0 <= j < w.len() ==> !text::is_white(#[trigger] w[j]),
    ensures
        program_name(text::trimmed_of(w, CharSet::Punctuation)) == w,
{
    let set = CharSet::Punctuation;
    text::lemma_lead_is(w, set, 0);
    assert(w.skip(0) =~= w);
    text::lemma_trail(w, set);
    assert(text::trail(w, set) == 0);
    assert(w.take(w.len() - 0) =~= w);
    lemma_first_word(w, seq![]);
    assert(seq![w] + Seq::<Seq<char>>::empty() =~= seq![w]);
    assert(text::joined(seq![w], seq![' ']) == w);
    lemma_plain_name(w);
}

proof fn lemma_first_program_word(words: Seq<Seq<char>>, from: int, i: int)
    requires
        0 <= from <= i < words.len(),
        forall|k: int| 0 <= k < i ==> is_question_word(#[trigger] words[k]),
        is_plain_program(words[i]),
        words[i][0] != '.' && words[i].last() != '.',
    ensures
        first_program(
            words.skip(from).map_values(
                |w: Seq<char>| program_name(text::trimmed_of(w, CharSet::Punctuation)),
            ),
        ) == Some(words[i]),
    decreases i - from,
{
    let f = |w: Seq<char>| program_name(text::trimmed_of(w, CharSet::Punctuation));
    let list = words.skip(from).map_values(f);
    assert(list[0] == f(words[from]));
    if from < i {
        assert(is_question_word(words[from]));
        lemma_question_word(words[from]);
        assert(list.drop_first() =~= words.skip(from + 1).map_values(f));
        lemma_first_program_word(words, from + 1, i);
    } else {
        let w = words[i];
        lemma_program_word(w);
        let last = w[w.len() - 1];
        assert(is_program_char(last) && is_program_char(w[0])) by {
            assert(program_like(w));
        }
        lemma_bare_word_program(w);
    }
}

} // verus!
