//! Per-terminal-session command history recorded by the shell integration hooks.
//!
//! Each PTY gets a session id and a JSONL file under `~/.ai-cli-learning/sessions/`.
//! The shell hook appends one record per command with its exact exit code; the terminal
//! supplies the output text, which only exists on screen. When the hook is not installed
//! the history degrades to grid-only parsing.
use vstd::prelude::*;
use vstd::string::*;

use crate::grid_extractor;
use crate::grid_extractor::{BlockView, GridBlock};
use crate::path;
use crate::text;
use crate::types;
use crate::types::{CommandEntry, CommandEntryView, HistorySource};

verus! {

broadcast use vstd::string::group_string_axioms;

/// Directory of the session files in the state directory.
pub const SESSIONS_DIR_NAME: &'static str = "sessions";

/// Directory the shell integration scripts are published to, and the name of each
/// script in it. The overlay's install hint is built from these.
pub const SHELL_DIR_NAME: &'static str = "shell";

pub const ZSH_SCRIPT_NAME: &'static str = "learnminal.zsh";

pub const BASH_SCRIPT_NAME: &'static str = "learnminal.bash";

/// Record schema version. The shell hooks refuse to run against a different one.
pub const SCHEMA_VERSION: u32 = 1;

/// Bytes read from the end of a session file; roughly 100 records.
pub const TAIL_BYTES: u64 = 16384;

/// Session files untouched for this long, in nanoseconds, are removed by the background sweep.
pub const STALE_AFTER_NANOS: i128 = 86_400_000_000_000;

/// Hard cap on retained session files, regardless of age.
pub const MAX_SESSION_FILES: usize = 64;

/// How far back in the block list a single record may reach for its output.
pub const MATCH_WINDOW: usize = 3;

/// Shortest grid command text allowed to prefix-match a longer record command.
pub const MIN_PREFIX_MATCH_CHARS: usize = 8;

/// One command as recorded by the shell integration hook.
#[derive(Debug, Clone, PartialEq, Eq)]
pub struct CommandRecord {
    pub v: u32,
    pub seq: u64,
    pub pid: u32,
    pub cmd: String,
    pub exit: Option<i32>,
    pub cwd: String,
    pub start: Option<i64>,
    pub end: Option<i64>,
}

/// What a [`CommandRecord`] says.
pub ghost struct RecordView {
    pub v: u32,
    pub seq: u64,
    pub pid: u32,
    pub cmd: Seq<char>,
    pub exit: Option<i32>,
    pub cwd: Seq<char>,
    pub start: Option<i64>,
    pub end: Option<i64>,
}

impl View for CommandRecord {
    type V = RecordView;

    open spec fn view(&self) -> RecordView {
        RecordView {
            v: self.v,
            seq: self.seq,
            pid: self.pid,
            cmd: self.cmd@,
            exit: self.exit,
            cwd: self.cwd@,
            start: self.start,
            end: self.end,
        }
    }
}

impl Default for CommandRecord {
    fn default() -> (r: Self)
        ensures
            r@ == (RecordView {
                v: 0,
                seq: 0,
                pid: 0,
                cmd: seq![],
                exit: None,
                cwd: seq![],
                start: None,
                end: None,
            }),
    {
        CommandRecord {
            v: 0,
            seq: 0,
            pid: 0,
            cmd: String::new(),
            exit: None,
            cwd: String::new(),
            start: None,
            end: None,
        }
    }
}

/// What each of the records says.
pub open spec fn record_views(records: Seq<CommandRecord>) -> Seq<RecordView> {
    Seq::new(records.len(), |i: int| records[i]@)
}

// ── Sessions ─────────────────────────────────────────────────────────────────

/// Whether `c` is a hexadecimal digit without capitals.
pub open spec fn is_hex(c: char) -> bool {
    text::is_digit(c) || 'a' <= c <= 'f'
}

/// `uuid::Uuid::new_v4` in its simple form: 32 hexadecimal digits, chosen at random.
#[verifier::external_body]
fn fresh_id() -> (r: String)
    ensures
        r@.len() == 32,
        forall|i: int| 0 <= i < r@.len() ==> is_hex(#[trigger] r@[i]),
{
    uuid::Uuid::new_v4().simple().to_string()
}

/// Identity of one terminal session, shared with its shell through the environment.
#[derive(Debug, PartialEq, Eq)]
pub struct Session {
    pub id: String,
    pub path: Option<String>,
}

impl Default for Session {
    fn default() -> (r: Self)
        ensures
            r.id@.len() == 0,
            r.path is None,
    {
        Session { id: String::new(), path: None }
    }
}

/// The file of the session `id` under the state directory.
pub open spec fn session_file(state_dir: Seq<char>, id: Seq<char>) -> Seq<char> {
    path::joined_path(path::joined_path(state_dir, SESSIONS_DIR_NAME@), id + ".jsonl"@)
}

/// An environment variable.
pub open spec fn var_views(vars: Seq<(String, String)>) -> Seq<(Seq<char>, Seq<char>)> {
    Seq::new(vars.len(), |i: int| (vars[i].0@, vars[i].1@))
}

impl Session {
    /// Create a session with a fresh id, where the state directory is known with a file under
    /// it. Does not touch the filesystem; the shell hook creates the file on the first command.
    pub fn new(state_dir: Option<&str>) -> (r: Self)
        ensures
            r.id@.len() == 32,
            forall|i: int| 0 <= i < r.id@.len() ==> is_hex(#[trigger] r.id@[i]),
            text::opt_string(r.path) == match state_dir {
                Some(dir) => Some(session_file(dir@, r.id@)),
                None => None,
            },
    {
        Session::with_id(fresh_id(), state_dir)
    }

    /// The session with this id.
    pub fn with_id(id: String, state_dir: Option<&str>) -> (r: Self)
        ensures
            r.id@ == id@,
            text::opt_string(r.path) == match state_dir {
                Some(dir) => Some(session_file(dir@, id@)),
                None => None,
            },
    {
        let path = match state_dir {
            Some(dir) => {
                let sessions = sessions_dir(dir);
                let name = text::concat(id.as_str(), ".jsonl");
                Some(path::join(sessions.as_str(), name.as_str()))
            },
            None => None,
        };
        Session { id, path }
    }

    /// Session file path, or `None` when the home directory could not be resolved.
    pub fn path(&self) -> (r: Option<&str>)
        ensures
            text::opt_text(r) == text::opt_string(self.path),
    {
        match &self.path {
            Some(p) => Some(p.as_str()),
            None => None,
        }
    }

    /// Environment passed to the shell. `LEARNMINAL_SESSION_FILE` doubles as the hook's
    /// enable switch, so it is absent when there is nowhere to write.
    pub fn env_vars(&self) -> (r: Vec<(String, String)>)
        ensures
            var_views(r@) == match self.path {
                Some(p) => seq![
                    ("LEARNMINAL_SESSION_ID"@, self.id@),
                    ("LEARNMINAL_SESSION_FILE"@, p@),
                    ("LEARNMINAL_SESSION_VERSION"@, text::decimal(SCHEMA_VERSION as nat)),
                ],
                None => seq![("LEARNMINAL_SESSION_ID"@, self.id@)],
            },
    {
        let mut vars: Vec<(String, String)> = Vec::new();
        vars.push(("LEARNMINAL_SESSION_ID".to_owned(), self.id.clone()));
        if let Some(p) = &self.path {
            vars.push(("LEARNMINAL_SESSION_FILE".to_owned(), p.clone()));
            vars.push(
                ("LEARNMINAL_SESSION_VERSION".to_owned(), text::u64_text(SCHEMA_VERSION as u64)),
            );
            assert(var_views(vars@) =~= seq![
                ("LEARNMINAL_SESSION_ID"@, self.id@),
                ("LEARNMINAL_SESSION_FILE"@, p@),
                ("LEARNMINAL_SESSION_VERSION"@, text::decimal(SCHEMA_VERSION as nat)),
            ]);
        } else {
            assert(var_views(vars@) =~= seq![("LEARNMINAL_SESSION_ID"@, self.id@)]);
        }
        vars
    }
}

/// Directory of the session files.
pub fn sessions_dir(state_dir: &str) -> (r: String)
    ensures
        r@ == path::joined_path(state_dir@, SESSIONS_DIR_NAME@),
{
    path::join(state_dir, SESSIONS_DIR_NAME)
}

/// Directory of the shell integration scripts.
pub fn shell_dir(state_dir: &str) -> (r: String)
    ensures
        r@ == path::joined_path(state_dir@, SHELL_DIR_NAME@),
{
    path::join(state_dir, SHELL_DIR_NAME)
}

/// Whether a script has to be written: the whole file counts, and no version header, since a
/// fix to the hook's body that does not bump a version would otherwise never reach anyone who
/// already has it.
pub fn script_is_outdated(existing: Option<&str>, contents: &str) -> (r: bool)
    ensures
        r == (text::opt_text(existing) != Some(contents@)),
{
    match existing {
        Some(e) => !text::same(e, contents),
        None => true,
    }
}

// ── Records ──────────────────────────────────────────────────────────────────

/// Where to start reading a session file of this length.
pub fn tail_start(len: u64) -> (r: u64)
    ensures
        r == if len > TAIL_BYTES {
            len - TAIL_BYTES
        } else {
            0
        },
{
    if len > TAIL_BYTES {
        len - TAIL_BYTES
    } else {
        0
    }
}

/// The whole lines of the end of a session file. Where it starts in the middle of the file, the
/// first line is a fragment and is dropped.
pub open spec fn whole_lines(text: Seq<char>, partial_head: bool) -> Seq<Seq<char>> {
    if !partial_head {
        text::line_list(text)
    } else {
        match text::first_char(text, '\n') {
            Some(i) => text::line_list(text.skip(i + 1)),
            None => seq![],
        }
    }
}

/// The whole lines of the end of a session file.
pub fn split_tail(text: &str, partial_head: bool) -> (r: Vec<String>)
    ensures
        text::views(r@) == whole_lines(text@, partial_head),
{
    if !partial_head {
        return text::lines(text);
    }
    match text::find_char(text, '\n') {
        Some(i) => {
            let n = text.unicode_len();
            let rest = text.substring_char(i + 1, n);
            assert(rest@ =~= text@.skip(i + 1));
            text::lines(rest)
        },
        None => {
            let none: Vec<String> = Vec::new();
            assert(text::views(none@) =~= seq![]);
            none
        },
    }
}

/// The whole lines of the bytes at the end of a session file, which may begin or end inside a
/// multi-byte character.
pub fn tail_lines(bytes: &[u8], partial_head: bool) -> (r: Vec<String>)
    ensures
        text::views(r@) == whole_lines(text::lossy_text(bytes@), partial_head),
{
    let text = text::from_utf8_lossy(bytes);
    split_tail(text.as_str(), partial_head)
}

/// What each line reads as.
pub open spec fn parsed_views(parsed: Seq<Option<CommandRecord>>) -> Seq<Option<RecordView>> {
    Seq::new(
        parsed.len(),
        |i: int|
            match parsed[i] {
                Some(r) => Some(r@),
                None => None,
            },
    )
}

/// Whether a line is a record that counts: it reads as one, of this schema, with a command.
pub open spec fn is_record(line: Option<RecordView>) -> bool {
    line is Some && line->0.v == SCHEMA_VERSION && text::trimmed(line->0.cmd).len() > 0
}

/// The newest `max` records of the shell that wrote last, oldest first, where `pid` is that
/// shell once it is known.
pub open spec fn newest_records(
    lines: Seq<Option<RecordView>>,
    pid: Option<u32>,
    max: int,
) -> Seq<RecordView>
    decreases lines.len(),
{
    if lines.len() == 0 || max <= 0 {
        seq![]
    } else if !is_record(lines.last()) {
        newest_records(lines.drop_last(), pid, max)
    } else {
        let r = lines.last()->0;
        let shell = match pid {
            Some(p) => p,
            None => r.pid,
        };
        if r.pid == shell || r.pid == 0 {
            newest_records(lines.drop_last(), Some(shell), max - 1).push(r)
        } else {
            newest_records(lines.drop_last(), Some(shell), max)
        }
    }
}

/// The shell that wrote last.
pub open spec fn last_shell(lines: Seq<Option<RecordView>>) -> Option<u32>
    decreases lines.len(),
{
    if lines.len() == 0 {
        None
    } else if is_record(lines.last()) {
        Some(lines.last()->0.pid)
    } else {
        last_shell(lines.drop_last())
    }
}

/// The records of a shell, and those of an unknown one, in their order.
pub open spec fn shell_records(lines: Seq<Option<RecordView>>, shell: u32) -> Seq<RecordView>
    decreases lines.len(),
{
    if lines.len() == 0 {
        seq![]
    } else {
        let before = shell_records(lines.drop_last(), shell);
        if is_record(lines.last()) && (lines.last()->0.pid == shell || lines.last()->0.pid == 0) {
            before.push(lines.last()->0)
        } else {
            before
        }
    }
}

/// The last `max` of `records`, or all where there are fewer.
pub open spec fn last_records(records: Seq<RecordView>, max: int) -> Seq<RecordView> {
    if records.len() > max {
        records.skip(records.len() - max)
    } else {
        records
    }
}

/// What is taken are the newest records of the shell that wrote last, as many as were asked for
/// or as there are. Each counts, and all but those of an unknown shell are from one shell.
pub proof fn law_newest_records(lines: Seq<Option<RecordView>>, max: int)
    requires
        max >= 0,
    ensures
        newest_records(lines, None, max) == (match last_shell(lines) {
            Some(shell) => last_records(shell_records(lines, shell), max),
            None => seq![],
        }),
        newest_records(lines, None, max).len() <= max,
        forall|i: int|
            0 <= i < newest_records(lines, None, max).len() ==> is_record(
                Some(#[trigger] newest_records(lines, None, max)[i]),
            ),
        forall|i: int, j: int|
            0 <= i < newest_records(lines, None, max).len() && 0 <= j < newest_records(
                lines,
                None,
                max,
            ).len() ==> {
                let a = #[trigger] newest_records(lines, None, max)[i];
                let b = #[trigger] newest_records(lines, None, max)[j];
                a.pid == b.pid || a.pid == 0 || b.pid == 0
            },
    decreases lines.len(),
{
    if lines.len() > 0 && max > 0 {
        let init = lines.drop_last();
        if !is_record(lines.last()) {
            law_newest_records(init, max);
        } else {
            let r = lines.last()->0;
            lemma_newest_records(init, r.pid, max - 1);
            let before = newest_records(init, Some(r.pid), max - 1);
            let all = newest_records(lines, None, max);
            assert(all == before.push(r));
            assert(all =~= last_records(shell_records(lines, r.pid), max));
            assert forall|i: int| 0 <= i < all.len() implies is_record(Some(#[trigger] all[i])) by {
                if i < before.len() {
                    assert(all[i] == before[i]);
                }
            }
            assert forall|i: int| 0 <= i < all.len() implies (#[trigger] all[i]).pid == r.pid
                || all[i].pid == 0 by {
                if i < before.len() {
                    assert(all[i] == before[i]);
                }
            }
        }
    }
}

proof fn lemma_newest_records(lines: Seq<Option<RecordView>>, pid: u32, max: int)
    requires
        max >= 0,
    ensures
        newest_records(lines, Some(pid), max) == last_records(shell_records(lines, pid), max),
        newest_records(lines, Some(pid), max).len() <= max,
        forall|i: int|
            0 <= i < newest_records(lines, Some(pid), max).len() ==> is_record(
                Some(#[trigger] newest_records(lines, Some(pid), max)[i]),
            ) && (newest_records(lines, Some(pid), max)[i].pid == pid || newest_records(
                lines,
                Some(pid),
                max,
            )[i].pid == 0),
    decreases lines.len(),
{
    if lines.len() > 0 && max > 0 {
        let init = lines.drop_last();
        lemma_newest_records(init, pid, max - 1);
        lemma_newest_records(init, pid, max);
        if is_record(lines.last()) && (lines.last()->0.pid == pid || lines.last()->0.pid == 0) {
            let before = newest_records(init, Some(pid), max - 1);
            let all = newest_records(lines, Some(pid), max);
            assert forall|i: int| 0 <= i < all.len() implies is_record(Some(#[trigger] all[i])) && (
            all[i].pid == pid || all[i].pid == 0) by {
                if i < before.len() {
                    assert(all[i] == before[i]);
                }
            }
        }
    }
}

fn copy_record(r: &CommandRecord) -> (c: CommandRecord)
    ensures
        c@ == r@,
{
    CommandRecord {
        v: r.v,
        seq: r.seq,
        pid: r.pid,
        cmd: r.cmd.clone(),
        exit: r.exit,
        cwd: r.cwd.clone(),
        start: r.start,
        end: r.end,
    }
}

/// The newest `max` records among the lines of a session file, oldest first. `None` stands for
/// a line that does not read as a record, such as a torn final line.
///
/// Several shells (tmux panes, subshells) can share one file. Only the shell that wrote last is
/// kept, so the history reads as one coherent sequence.
pub fn select_records(parsed: &[Option<CommandRecord>], max: usize) -> (r: Vec<CommandRecord>)
    ensures
        record_views(r@) == newest_records(parsed_views(parsed@), None, max as int),
{
    let ghost all = parsed_views(parsed@);
    let ghost want = newest_records(all, None, max as int);
    let mut out: Vec<CommandRecord> = Vec::new();
    let mut pid: Option<u32> = None;
    let mut n: usize = parsed.len();
    assert(all.take(n as int) =~= all);
    assert(record_views(out@) =~= seq![]);
    assert(want + seq![] =~= want);
    while n > 0 && out.len() < max
        invariant
            n <= parsed@.len(),
            out@.len() <= max,
            all == parsed_views(parsed@),
            newest_records(all.take(n as int), pid, max - out@.len()) + record_views(out@) == want,
        decreases n,
    {
        let ghost tail = record_views(out@);
        let ghost left = max - out@.len();
        proof {
            let t = all.take(n as int);
            assert(t.drop_last() =~= all.take(n - 1));
            assert(t.last() == all[n - 1]);
        }
        if let Some(record) = &parsed[n - 1] {
            if record.v == SCHEMA_VERSION && !text::trim(record.cmd.as_str()).is_empty() {
                let shell: u32 = match pid {
                    Some(p) => p,
                    None => record.pid,
                };
                pid = Some(shell);
                if record.pid == shell || record.pid == 0 {
                    let ghost rv = record@;
                    out.insert(0, copy_record(record));
                    proof {
                        let before = newest_records(all.take(n - 1), pid, left - 1);
                        assert(record_views(out@) =~= seq![rv] + tail);
                        assert(before.push(rv) + tail =~= before + (seq![rv] + tail));
                    }
                }
            }
        }
        n -= 1;
    }
    assert(newest_records(all.take(n as int), pid, max - out@.len()) =~= seq![]);
    assert(seq![] + record_views(out@) =~= record_views(out@));
    out
}

// ── History ──────────────────────────────────────────────────────────────────

/// A command with its white space closed up.
pub open spec fn normal_form(command: Seq<char>) -> Seq<char> {
    text::joined(text::word_list(command), " "@)
}

/// Whether a command read off the grid refers to the same command as a shell record: they are
/// equal but for white space, or one is cut off or carries leftover prompt text, and what they
/// share is long enough not to be a coincidence.
pub open spec fn same_command(grid: Seq<char>, record: Seq<char>) -> bool {
    let g = normal_form(grid);
    let r = normal_form(record);
    &&& g.len() > 0
    &&& r.len() > 0
    &&& g == r || (g.is_prefix_of(r) && g.len() >= MIN_PREFIX_MATCH_CHARS) || (r.is_suffix_of(g)
        && r.len() >= MIN_PREFIX_MATCH_CHARS)
}

fn normalize_command(command: &str) -> (r: String)
    ensures
        r@ == normal_form(command@),
{
    let words = text::words(command);
    text::join(words.as_slice(), " ")
}

/// Whether a command read off the grid refers to the same command as a shell record.
///
/// The grid copy can be mangled in two ways: cut short, because a long command wrapped
/// onto the next row and only the first row was read; or given a prefix, because prompt
/// decoration was misparsed as part of the command. Anything looser than that risks
/// pairing neighbouring commands — `git status` and `git stash` share a program and a
/// length, but their outputs must never be swapped. The record is the truth.
pub fn commands_equal(grid_cmd: &str, record_cmd: &str) -> (r: bool)
    ensures
        r == same_command(grid_cmd@, record_cmd@),
{
    let grid = normalize_command(grid_cmd);
    let record = normalize_command(record_cmd);
    if grid.as_str().is_empty() || record.as_str().is_empty() {
        return false;
    }
    if grid == record {
        return true;
    }
    // Grid line cut off at the terminal width, or carrying leftover prompt text.
    (text::starts_with(record.as_str(), grid.as_str()) && grid.as_str().unicode_len()
        >= MIN_PREFIX_MATCH_CHARS) || (text::ends_with(grid.as_str(), record.as_str())
        && record.as_str().unicode_len() >= MIN_PREFIX_MATCH_CHARS)
}

/// The last block from `lo` up to `hi` that is of the same command as a record.
pub open spec fn matching_block(
    blocks: Seq<BlockView>,
    cmd: Seq<char>,
    lo: int,
    hi: int,
) -> Option<int>
    decreases hi - lo,
{
    if hi <= lo {
        None
    } else if same_command(blocks[hi - 1].command, cmd) {
        Some(hi - 1)
    } else {
        matching_block(blocks, cmd, lo, hi - 1)
    }
}

/// A match lies in the window.
pub proof fn lemma_matching_block(blocks: Seq<BlockView>, cmd: Seq<char>, lo: int, hi: int)
    ensures
        matching_block(blocks, cmd, lo, hi) matches Some(i) ==> lo <= i < hi && same_command(
            blocks[i].command,
            cmd,
        ),
    decreases hi - lo,
{
    if hi > lo && !same_command(blocks[hi - 1].command, cmd) {
        lemma_matching_block(blocks, cmd, lo, hi - 1);
    }
}

/// Where the window of blocks for a record starts.
pub open spec fn window_start(cursor: int) -> int {
    if cursor > MATCH_WINDOW {
        cursor - MATCH_WINDOW
    } else {
        0
    }
}

/// The entry for a record, with the output of a block where one was matched.
pub open spec fn entry_for(record: RecordView, output: Seq<char>) -> CommandEntryView {
    CommandEntryView {
        command: text::trimmed(record.cmd),
        exit_code: record.exit,
        output,
        cwd: record.cwd,
    }
}

/// The newest `max` records as entries, oldest first, each with the output of the block that it
/// matches. Blocks before `cursor` are free; a record takes one of the last few of them, and
/// older records take older blocks.
pub open spec fn joined_entries(
    records: Seq<RecordView>,
    blocks: Seq<BlockView>,
    cursor: int,
    max: int,
) -> Seq<CommandEntryView>
    decreases records.len(),
{
    if records.len() == 0 || max <= 0 {
        seq![]
    } else {
        let r = records.last();
        match matching_block(blocks, r.cmd, window_start(cursor), cursor) {
            Some(i) => joined_entries(records.drop_last(), blocks, i, max - 1).push(
                entry_for(r, blocks[i].output),
            ),
            None => joined_entries(records.drop_last(), blocks, cursor, max - 1).push(
                entry_for(r, seq![]),
            ),
        }
    }
}

/// The newest `max` blocks as entries, oldest first.
pub open spec fn block_entries(blocks: Seq<BlockView>, max: int) -> Seq<CommandEntryView> {
    let start = if blocks.len() > max {
        blocks.len() - max
    } else {
        0
    };
    Seq::new(
        (blocks.len() - start) as nat,
        |i: int|
            CommandEntryView {
                command: blocks[start + i].command,
                exit_code: None,
                output: blocks[start + i].output,
                cwd: seq![],
            },
    )
}

/// The history, and where it is from.
pub open spec fn merged(records: Seq<RecordView>, blocks: Seq<BlockView>, max: int) -> (
    Seq<CommandEntryView>,
    HistorySource,
) {
    if max <= 0 {
        (seq![], HistorySource::Absent)
    } else if records.len() > 0 {
        (joined_entries(records, blocks, blocks.len() as int, max), HistorySource::ShellHook)
    } else if blocks.len() > 0 {
        (block_entries(blocks, max), HistorySource::GridOnly)
    } else {
        (seq![], HistorySource::Absent)
    }
}

/// The history has at most `max` entries. Where there are records, its entries are the newest
/// of them, in their order, with their own command, exit code and directory.
pub proof fn law_merged(records: Seq<RecordView>, blocks: Seq<BlockView>, max: int)
    requires
        max >= 0,
    ensures
        merged(records, blocks, max).0.len() <= max,
        merged(records, blocks, max).1 == HistorySource::ShellHook ==> {
            let entries = merged(records, blocks, max).0;
            &&& entries.len() == if records.len() < max {
                records.len() as int
            } else {
                max
            }
            &&& forall|i: int|
                0 <= i < entries.len() ==> {
                    let r = records[records.len() - entries.len() + i];
                    &&& (#[trigger] entries[i]).command == text::trimmed(r.cmd)
                    &&& entries[i].exit_code == r.exit
                    &&& entries[i].cwd == r.cwd
                }
        },
{
    if max > 0 && records.len() > 0 {
        lemma_joined_entries(records, blocks, blocks.len() as int, max);
    }
}

proof fn lemma_joined_entries(
    records: Seq<RecordView>,
    blocks: Seq<BlockView>,
    cursor: int,
    max: int,
)
    requires
        max >= 0,
    ensures
        ({
            let entries = joined_entries(records, blocks, cursor, max);
            &&& entries.len() == if records.len() < max {
                records.len() as int
            } else {
                max
            }
            &&& forall|i: int|
                0 <= i < entries.len() ==> {
                    let r = records[records.len() - entries.len() + i];
                    &&& (#[trigger] entries[i]).command == text::trimmed(r.cmd)
                    &&& entries[i].exit_code == r.exit
                    &&& entries[i].cwd == r.cwd
                }
        }),
    decreases records.len(),
{
    if records.len() > 0 && max > 0 {
        let init = records.drop_last();
        let r = records.last();
        let next = match matching_block(blocks, r.cmd, window_start(cursor), cursor) {
            Some(i) => i,
            None => cursor,
        };
        lemma_joined_entries(init, blocks, next, max - 1);
        let before = joined_entries(init, blocks, next, max - 1);
        let entries = joined_entries(records, blocks, cursor, max);
        assert forall|i: int| 0 <= i < entries.len() implies {
            let r = records[records.len() - entries.len() + i];
            &&& (#[trigger] entries[i]).command == text::trimmed(r.cmd)
            &&& entries[i].exit_code == r.exit
            &&& entries[i].cwd == r.cwd
        } by {
            if i < before.len() {
                assert(entries[i] == before[i]);
                assert(init[init.len() - before.len() + i] == records[records.len()
                    - entries.len() + i]);
            }
        }
    }
}

/// Where the grid shows exactly the recorded commands, also repeated ones, each entry has the
/// output of its own block.
pub proof fn law_each_command_keeps_its_output(
    records: Seq<RecordView>,
    blocks: Seq<BlockView>,
    max: int,
)
    requires
        max >= records.len(),
        records.len() == blocks.len(),
        forall|i: int|
            0 <= i < records.len() ==> #[trigger] blocks[i].command == records[i].cmd
                && normal_form(records[i].cmd).len() > 0,
    ensures
        merged(records, blocks, max).0.len() == records.len(),
        forall|i: int|
            0 <= i < records.len() ==> #[trigger] merged(records, blocks, max).0[i] == entry_for(
                records[i],
                blocks[i].output,
            ),
{
    if records.len() > 0 {
        lemma_paired(records, blocks, max);
    }
}

proof fn lemma_paired(records: Seq<RecordView>, blocks: Seq<BlockView>, max: int)
    requires
        max >= records.len(),
        records.len() <= blocks.len(),
        forall|i: int|
            0 <= i < records.len() ==> #[trigger] blocks[i].command == records[i].cmd
                && normal_form(records[i].cmd).len() > 0,
    ensures
        ({
            let entries = joined_entries(records, blocks, records.len() as int, max);
            &&& entries.len() == records.len()
            &&& forall|i: int|
                0 <= i < records.len() ==> #[trigger] entries[i] == entry_for(
                    records[i],
                    blocks[i].output,
                )
        }),
    decreases records.len(),
{
    let n = records.len() as int;
    if n > 0 {
        let init = records.drop_last();
        assert(blocks[n - 1].command == records[n - 1].cmd);
        assert(records.last() == records[n - 1]);
        assert(matching_block(blocks, records.last().cmd, window_start(n), n) == Some(n - 1));
        assert forall|i: int| 0 <= i < init.len() implies #[trigger] blocks[i].command
            == init[i].cmd && normal_form(init[i].cmd).len() > 0 by {
            assert(init[i] == records[i]);
        }
        lemma_paired(init, blocks, max - 1);
        let before = joined_entries(init, blocks, n - 1, max - 1);
        let entries = joined_entries(records, blocks, n, max);
        assert(entries == before.push(entry_for(records.last(), blocks[n - 1].output)));
        assert forall|i: int| 0 <= i < n implies #[trigger] entries[i] == entry_for(
            records[i],
            blocks[i].output,
        ) by {
            if i < n - 1 {
                assert(entries[i] == before[i]);
                assert(init[i] == records[i]);
            }
        }
    }
}

/// The blocks that the newest `max` records take, oldest record first.
pub open spec fn taken_blocks(
    records: Seq<RecordView>,
    blocks: Seq<BlockView>,
    cursor: int,
    max: int,
) -> Seq<Option<int>>
    decreases records.len(),
{
    if records.len() == 0 || max <= 0 {
        seq![]
    } else {
        let found = matching_block(blocks, records.last().cmd, window_start(cursor), cursor);
        taken_blocks(
            records.drop_last(),
            blocks,
            match found {
                Some(i) => i,
                None => cursor,
            },
            max - 1,
        ).push(found)
    }
}

/// Outputs are never swapped or shared: an entry has the output of a block of its own command,
/// or none, and the blocks come in the order of the entries, no block twice.
pub proof fn law_outputs_are_not_swapped(
    records: Seq<RecordView>,
    blocks: Seq<BlockView>,
    max: int,
)
    requires
        max > 0,
        records.len() > 0,
    ensures
        ({
            let entries = merged(records, blocks, max).0;
            let taken = taken_blocks(records, blocks, blocks.len() as int, max);
            &&& taken.len() == entries.len()
            &&& forall|i: int|
                0 <= i < entries.len() ==> match taken[i] {
                    Some(k) => 0 <= k < blocks.len() && (#[trigger] entries[i]).output
                        == blocks[k].output && same_command(
                        blocks[k].command,
                        records[records.len() - entries.len() + i].cmd,
                    ),
                    None => entries[i].output == Seq::<char>::empty(),
                }
            &&& forall|i: int, j: int|
                0 <= i < j < taken.len() && (#[trigger] taken[i]) is Some && (
                #[trigger] taken[j]) is Some ==> taken[i]->0 < taken[j]->0
        }),
{
    lemma_taken_blocks(records, blocks, blocks.len() as int, max);
}

proof fn lemma_taken_blocks(
    records: Seq<RecordView>,
    blocks: Seq<BlockView>,
    cursor: int,
    max: int,
)
    requires
        0 <= cursor <= blocks.len(),
    ensures
        ({
            let entries = joined_entries(records, blocks, cursor, max);
            let taken = taken_blocks(records, blocks, cursor, max);
            &&& taken.len() == entries.len()
            &&& entries.len() <= records.len()
            &&& forall|i: int|
                0 <= i < entries.len() ==> match taken[i] {
                    Some(k) => 0 <= k < cursor && (#[trigger] entries[i]).output
                        == blocks[k].output && same_command(
                        blocks[k].command,
                        records[records.len() - entries.len() + i].cmd,
                    ),
                    None => entries[i].output == Seq::<char>::empty(),
                }
            &&& forall|i: int, j: int|
                0 <= i < j < taken.len() && (#[trigger] taken[i]) is Some && (
                #[trigger] taken[j]) is Some ==> taken[i]->0 < taken[j]->0
        }),
    decreases records.len(),
{
    if records.len() > 0 && max > 0 {
        let init = records.drop_last();
        let r = records.last();
        lemma_matching_block(blocks, r.cmd, window_start(cursor), cursor);
        let next = match matching_block(blocks, r.cmd, window_start(cursor), cursor) {
            Some(i) => i,
            None => cursor,
        };
        lemma_taken_blocks(init, blocks, next, max - 1);
        let before = joined_entries(init, blocks, next, max - 1);
        let entries = joined_entries(records, blocks, cursor, max);
        let earlier = taken_blocks(init, blocks, next, max - 1);
        let taken = taken_blocks(records, blocks, cursor, max);
        assert forall|i: int| 0 <= i < entries.len() implies match taken[i] {
            Some(k) => 0 <= k < cursor && (#[trigger] entries[i]).output == blocks[k].output
                && same_command(
                blocks[k].command,
                records[records.len() - entries.len() + i].cmd,
            ),
            None => entries[i].output == Seq::<char>::empty(),
        } by {
            if i < before.len() {
                assert(entries[i] == before[i]);
                assert(taken[i] == earlier[i]);
                assert(init[init.len() - before.len() + i] == records[records.len()
                    - entries.len() + i]);
            }
        }
        assert forall|i: int, j: int|
            0 <= i < j < taken.len() && (#[trigger] taken[i]) is Some && (
            #[trigger] taken[j]) is Some implies taken[i]->0 < taken[j]->0 by {
            assert(taken[i] == earlier[i]);
            assert(before[i].output == before[i].output);
            if j < earlier.len() {
                assert(taken[j] == earlier[j]);
            }
        }
    }
}

fn find_block(blocks: &[GridBlock], cmd: &str, cursor: usize) -> (r: Option<usize>)
    requires
        cursor <= blocks@.len(),
    ensures
        match r {
            Some(i) => i < cursor && matching_block(
                grid_extractor::block_views(blocks@),
                cmd@,
                window_start(cursor as int),
                cursor as int,
            ) == Some(i as int),
            None => matching_block(
                grid_extractor::block_views(blocks@),
                cmd@,
                window_start(cursor as int),
                cursor as int,
            ) is None,
        },
{
    let ghost all = grid_extractor::block_views(blocks@);
    let lo: usize = if cursor > MATCH_WINDOW {
        cursor - MATCH_WINDOW
    } else {
        0
    };
    let mut hi: usize = cursor;
    while hi > lo
        invariant
            lo <= hi <= cursor <= blocks@.len(),
            all == grid_extractor::block_views(blocks@),
            lo == window_start(cursor as int),
            matching_block(all, cmd@, lo as int, cursor as int) == matching_block(
                all,
                cmd@,
                lo as int,
                hi as int,
            ),
        decreases hi,
    {
        assert(all[hi - 1] == blocks@[hi - 1]@);
        if commands_equal(blocks[hi - 1].command.as_str(), cmd) {
            return Some(hi - 1);
        }
        hi -= 1;
    }
    None
}

fn entry_from(record: &CommandRecord, output: String) -> (r: CommandEntry)
    ensures
        r@ == entry_for(record@, output@),
{
    CommandEntry {
        command: text::trim(record.cmd.as_str()).to_owned(),
        exit_code: record.exit,
        output,
        cwd: record.cwd.clone(),
    }
}

fn grid_only_entries(blocks: &[GridBlock], max: usize) -> (r: Vec<CommandEntry>)
    ensures
        types::entry_views(r@) == block_entries(grid_extractor::block_views(blocks@), max as int),
{
    let ghost want = block_entries(grid_extractor::block_views(blocks@), max as int);
    let start: usize = if blocks.len() > max {
        blocks.len() - max
    } else {
        0
    };
    let mut out: Vec<CommandEntry> = Vec::new();
    let mut i: usize = start;
    while i < blocks.len()
        invariant
            start <= i <= blocks@.len(),
            start == if blocks@.len() > max {
                blocks@.len() - max
            } else {
                0
            },
            want == block_entries(grid_extractor::block_views(blocks@), max as int),
            out@.len() == i - start,
            forall|k: int| 0 <= k < out@.len() ==> #[trigger] out@[k]@ == want[k],
        decreases blocks@.len() - i,
    {
        let entry = CommandEntry {
            command: blocks[i].command.clone(),
            exit_code: None,
            output: blocks[i].output.clone(),
            cwd: String::new(),
        };
        assert(entry@ == want[i - start]) by {
            assert(grid_extractor::block_views(blocks@)[i as int] == blocks@[i as int]@);
            assert(entry@.cwd =~= seq![]);
        }
        out.push(entry);
        i += 1;
    }
    assert(types::entry_views(out@) =~= want);
    out
}

/// Join shell records with grid-recovered output.
///
/// Records are authoritative for command text, exit code, and cwd; blocks contribute
/// output only. Returns at most `max` entries, oldest first.
pub fn merge_history(records: &[CommandRecord], blocks: &[GridBlock], max: usize) -> (r: (
    Vec<CommandEntry>,
    HistorySource,
))
    ensures
        (types::entry_views(r.0@), r.1) == merged(
            record_views(records@),
            grid_extractor::block_views(blocks@),
            max as int,
        ),
{
    let ghost rv = record_views(records@);
    let ghost bv = grid_extractor::block_views(blocks@);
    let mut entries: Vec<CommandEntry> = Vec::new();
    assert(types::entry_views(entries@) =~= seq![]);
    if max == 0 {
        return (entries, HistorySource::Absent);
    }
    if records.len() == 0 {
        if blocks.len() == 0 {
            return (entries, HistorySource::Absent);
        }
        return (grid_only_entries(blocks, max), HistorySource::GridOnly);
    }
    // Walk newest to oldest with a cursor that only ever moves backwards through the
    // blocks. That ordering constraint is what keeps repeated identical commands
    // matched to their own output instead of all sharing the newest block.
    let ghost want = joined_entries(rv, bv, bv.len() as int, max as int);
    let mut cursor: usize = blocks.len();
    let mut n: usize = records.len();
    assert(rv.take(n as int) =~= rv);
    assert(want + seq![] =~= want);
    while n > 0 && entries.len() < max
        invariant
            n <= records@.len(),
            cursor <= blocks@.len(),
            entries@.len() <= max,
            rv == record_views(records@),
            bv == grid_extractor::block_views(blocks@),
            joined_entries(rv.take(n as int), bv, cursor as int, max - entries@.len())
                + types::entry_views(entries@) == want,
        decreases n,
    {
        let ghost tail = types::entry_views(entries@);
        let ghost left = max - entries@.len();
        let record = &records[n - 1];
        proof {
            let t = rv.take(n as int);
            assert(t.drop_last() =~= rv.take(n - 1));
            assert(t.last() == record@);
        }
        let entry = match find_block(blocks, record.cmd.as_str(), cursor) {
            Some(i) => {
                assert(bv[i as int] == blocks@[i as int]@);
                cursor = i;
                entry_from(record, blocks[i].output.clone())
            },
            None => entry_from(record, String::new()),
        };
        let ghost ev = entry@;
        entries.insert(0, entry);
        proof {
            let before = joined_entries(rv.take(n - 1), bv, cursor as int, left - 1);
            assert(types::entry_views(entries@) =~= seq![ev] + tail);
            assert(before.push(ev) + tail =~= before + (seq![ev] + tail));
        }
        n -= 1;
    }
    assert(joined_entries(rv.take(n as int), bv, cursor as int, max - entries@.len()) =~= seq![]);
    assert(seq![] + types::entry_views(entries@) =~= types::entry_views(entries@));
    (entries, HistorySource::ShellHook)
}

// ── Cleaning up ──────────────────────────────────────────────────────────────

/// A file in the sessions directory.
#[derive(Debug, Clone, PartialEq, Eq)]
pub struct SessionFile {
    pub path: String,
    /// When it was last written, in nanoseconds since the Unix epoch, where that is known.
    pub modified: Option<i128>,
}

/// What a [`SessionFile`] says.
pub ghost struct FileView {
    pub path: Seq<char>,
    pub modified: Option<i128>,
}

impl View for SessionFile {
    type V = FileView;

    open spec fn view(&self) -> FileView {
        FileView { path: self.path@, modified: self.modified }
    }
}

/// What each of the files says.
pub open spec fn file_views(files: Seq<SessionFile>) -> Seq<FileView> {
    Seq::new(files.len(), |i: int| files[i]@)
}

/// Whether a file is one of another session.
pub open spec fn is_other_session(file: FileView, current: Option<Seq<char>>) -> bool {
    &&& path::name_extension(file.path) == Some("jsonl"@)
    &&& current is None || path::component_list(file.path) != path::component_list(current->0)
}

/// Whether a file has not been written for too long.
pub open spec fn is_stale(file: FileView, now: i128) -> bool {
    file.modified is Some && now - file.modified->0 > STALE_AFTER_NANOS
}

/// The files of other sessions that are stale, or those that are not.
pub open spec fn sessions_by_age(
    files: Seq<FileView>,
    current: Option<Seq<char>>,
    now: i128,
    stale: bool,
) -> Seq<FileView>
    decreases files.len(),
{
    if files.len() == 0 {
        seq![]
    } else {
        let before = sessions_by_age(files.drop_last(), current, now, stale);
        let f = files.last();
        if is_other_session(f, current) && is_stale(f, now) == stale {
            before.push(f)
        } else {
            before
        }
    }
}

/// When a file was last written; the epoch where that is not known.
pub open spec fn written(file: FileView) -> int {
    match file.modified {
        Some(t) => t as int,
        None => 0,
    }
}

/// `list` with `f` put behind the files that were not written after it.
pub open spec fn with_file(list: Seq<FileView>, f: FileView) -> Seq<FileView>
    decreases list.len(),
{
    if list.len() == 0 || written(list.last()) <= written(f) {
        list.push(f)
    } else {
        with_file(list.drop_last(), f).push(list.last())
    }
}

/// Whether no file was written after one that stands behind it.
pub open spec fn in_time(list: Seq<FileView>) -> bool {
    forall|i: int, j: int|
        0 <= i < j < list.len() ==> written(#[trigger] list[i]) <= written(#[trigger] list[j])
}

/// The files by the time they were written, oldest first.
pub open spec fn by_time(files: Seq<FileView>) -> Seq<FileView>
    decreases files.len(),
{
    if files.len() == 0 {
        seq![]
    } else {
        with_file(by_time(files.drop_last()), files.last())
    }
}

/// The paths of files.
pub open spec fn paths_of(files: Seq<FileView>) -> Seq<Seq<char>> {
    Seq::new(files.len(), |i: int| files[i].path)
}

/// The oldest of the files that are more than may be kept.
pub open spec fn surplus(files: Seq<FileView>) -> Seq<FileView> {
    if files.len() > MAX_SESSION_FILES {
        by_time(files).take(files.len() - MAX_SESSION_FILES)
    } else {
        seq![]
    }
}

/// The files to delete: those that are stale, and the oldest of the others where there are too
/// many.
pub open spec fn removable(files: Seq<FileView>, current: Option<Seq<char>>, now: i128) -> Seq<
    Seq<char>,
> {
    paths_of(sessions_by_age(files, current, now, true)) + paths_of(
        surplus(sessions_by_age(files, current, now, false)),
    )
}

/// Only files of other sessions are deleted, never that of the current one.
pub proof fn law_removable(files: Seq<FileView>, current: Option<Seq<char>>, now: i128)
    ensures
        forall|i: int|
            0 <= i < removable(files, current, now).len() ==> exists|f: FileView|
                #[trigger] files.contains(f) && f.path == #[trigger] removable(
                    files,
                    current,
                    now,
                )[i] && is_other_session(f, current),
{
    let stale = sessions_by_age(files, current, now, true);
    let fresh = sessions_by_age(files, current, now, false);
    lemma_sessions_by_age(files, current, now, true);
    lemma_sessions_by_age(files, current, now, false);
    lemma_by_time(fresh);
    let all = removable(files, current, now);
    assert forall|i: int| 0 <= i < all.len() implies exists|f: FileView| #[trigger]
        files.contains(f) && f.path == #[trigger] all[i] && is_other_session(f, current) by {
        if i < stale.len() {
            assert(files.contains(stale[i]));
        } else {
            let f = surplus(fresh)[i - stale.len()];
            assert(by_time(fresh)[i - stale.len()] == f);
            assert(fresh.contains(f));
            let k = fresh.index_of(f);
            assert(files.contains(fresh[k]));
        }
    }
}

/// The files of other sessions that stay.
pub open spec fn kept_sessions(files: Seq<FileView>, current: Option<Seq<char>>, now: i128) -> Seq<
    FileView,
> {
    let fresh = sessions_by_age(files, current, now, false);
    by_time(fresh).skip(surplus(fresh).len() as int)
}

/// Each file of another session is deleted or stays. Those that are stale are deleted, no more
/// than [`MAX_SESSION_FILES`] stay, and none of these was written before one that is not stale
/// and is deleted.
pub proof fn law_session_files_are_bounded(
    files: Seq<FileView>,
    current: Option<Seq<char>>,
    now: i128,
)
    ensures
        kept_sessions(files, current, now).len() <= MAX_SESSION_FILES,
        forall|f: FileView|
            #[trigger] files.contains(f) && is_other_session(f, current) ==> removable(
                files,
                current,
                now,
            ).contains(f.path) || !is_stale(f, now) && kept_sessions(files, current, now).contains(
                f,
            ),
        forall|i: int, j: int|
            0 <= i < surplus(sessions_by_age(files, current, now, false)).len() && 0 <= j
                < kept_sessions(files, current, now).len() ==> written(
                #[trigger] surplus(sessions_by_age(files, current, now, false))[i],
            ) <= written(#[trigger] kept_sessions(files, current, now)[j]),
{
    let stale = sessions_by_age(files, current, now, true);
    let fresh = sessions_by_age(files, current, now, false);
    let all = removable(files, current, now);
    let gone = surplus(fresh);
    let kept = kept_sessions(files, current, now);
    lemma_by_time(fresh);
    assert forall|f: FileView|
        #[trigger] files.contains(f) && is_other_session(f, current) implies all.contains(f.path)
        || !is_stale(f, now) && kept.contains(f) by {
        lemma_in_sessions(files, current, now, f);
        if is_stale(f, now) {
            let k = stale.index_of(f);
            assert(all[k] == f.path);
        } else {
            let k = by_time(fresh).index_of(f);
            if k < gone.len() {
                assert(all[stale.len() + k] == f.path);
            } else {
                assert(kept[k - gone.len()] == f);
            }
        }
    }
    assert forall|i: int, j: int| 0 <= i < gone.len() && 0 <= j < kept.len() implies written(
        #[trigger] gone[i],
    ) <= written(#[trigger] kept[j]) by {
        assert(gone[i] == by_time(fresh)[i]);
        assert(kept[j] == by_time(fresh)[gone.len() + j]);
    }
}

proof fn lemma_in_sessions(
    files: Seq<FileView>,
    current: Option<Seq<char>>,
    now: i128,
    f: FileView,
)
    requires
        files.contains(f),
        is_other_session(f, current),
    ensures
        sessions_by_age(files, current, now, is_stale(f, now)).contains(f),
    decreases files.len(),
{
    let stale = is_stale(f, now);
    let all = sessions_by_age(files, current, now, stale);
    if files.last() == f {
        assert(all.last() == f);
    } else {
        let init = files.drop_last();
        let k = files.index_of(f);
        assert(init[k] == f);
        lemma_in_sessions(init, current, now, f);
        let before = sessions_by_age(init, current, now, stale);
        let m = before.index_of(f);
        assert(all[m] == f);
    }
}

proof fn lemma_sessions_by_age(
    files: Seq<FileView>,
    current: Option<Seq<char>>,
    now: i128,
    stale: bool,
)
    ensures
        forall|i: int|
            0 <= i < sessions_by_age(files, current, now, stale).len() ==> files.contains(
                #[trigger] sessions_by_age(files, current, now, stale)[i],
            ) && is_other_session(sessions_by_age(files, current, now, stale)[i], current),
    decreases files.len(),
{
    if files.len() > 0 {
        let init = files.drop_last();
        lemma_sessions_by_age(init, current, now, stale);
        let before = sessions_by_age(init, current, now, stale);
        let all = sessions_by_age(files, current, now, stale);
        assert forall|i: int| 0 <= i < all.len() implies files.contains(#[trigger] all[i])
            && is_other_session(all[i], current) by {
            if i < before.len() {
                assert(all[i] == before[i]);
                let k = init.index_of(before[i]);
                assert(files[k] == before[i]);
            } else {
                assert(files[files.len() - 1] == all[i]);
            }
        }
    }
}

proof fn lemma_with_file(list: Seq<FileView>, f: FileView)
    ensures
        with_file(list, f).len() == list.len() + 1,
        forall|i: int|
            0 <= i < with_file(list, f).len() ==> #[trigger] with_file(list, f)[i] == f
                || list.contains(with_file(list, f)[i]),
        with_file(list, f).contains(f),
        forall|g: FileView| #[trigger] list.contains(g) ==> with_file(list, f).contains(g),
        in_time(list) ==> in_time(with_file(list, f)),
    decreases list.len(),
{
    if list.len() == 0 || written(list.last()) <= written(f) {
        let r = list.push(f);
        assert forall|i: int| 0 <= i < r.len() implies #[trigger] r[i] == f || list.contains(
            r[i],
        ) by {
            if i < list.len() {
                assert(list[i] == r[i]);
            }
        }
        assert(r[list.len() as int] == f);
        assert forall|g: FileView| #[trigger] list.contains(g) implies r.contains(g) by {
            assert(r[list.index_of(g)] == g);
        }
        if in_time(list) && list.len() > 0 {
            assert forall|i: int, j: int| 0 <= i < j < r.len() implies written(#[trigger] r[i])
                <= written(#[trigger] r[j]) by {
                assert(r[i] == list[i]);
                assert(i == list.len() - 1 || written(list[i]) <= written(list[list.len() - 1]));
                if j < list.len() {
                    assert(r[j] == list[j]);
                }
            }
        }
    } else {
        let init = list.drop_last();
        lemma_with_file(init, f);
        let before = with_file(init, f);
        let r = with_file(list, f);
        assert forall|i: int| 0 <= i < r.len() implies #[trigger] r[i] == f || list.contains(
            r[i],
        ) by {
            if i < before.len() {
                assert(r[i] == before[i]);
                if r[i] != f {
                    let k = init.index_of(r[i]);
                    assert(list[k] == r[i]);
                }
            } else {
                assert(list[list.len() - 1] == r[i]);
            }
        }
        assert(r[before.index_of(f)] == f);
        assert forall|g: FileView| #[trigger] list.contains(g) implies r.contains(g) by {
            let k = list.index_of(g);
            if k < init.len() {
                assert(init[k] == g);
                assert(init.contains(g));
                assert(r[before.index_of(g)] == g);
            } else {
                assert(r[before.len() as int] == g);
            }
        }
        if in_time(list) {
            assert(in_time(init));
            assert forall|i: int, j: int| 0 <= i < j < r.len() implies written(#[trigger] r[i])
                <= written(#[trigger] r[j]) by {
                assert(r[i] == before[i]);
                if j < before.len() {
                    assert(r[j] == before[j]);
                } else if before[i] != f {
                    let k = init.index_of(before[i]);
                    assert(list[k] == before[i]);
                    assert(written(list[k]) <= written(list[list.len() - 1]));
                }
            }
        }
    }
}

proof fn lemma_by_time(files: Seq<FileView>)
    ensures
        by_time(files).len() == files.len(),
        forall|i: int|
            0 <= i < by_time(files).len() ==> files.contains(#[trigger] by_time(files)[i]),
        forall|g: FileView| #[trigger] files.contains(g) ==> by_time(files).contains(g),
        in_time(by_time(files)),
    decreases files.len(),
{
    if files.len() > 0 {
        let init = files.drop_last();
        lemma_by_time(init);
        let before = by_time(init);
        lemma_with_file(before, files.last());
        let r = by_time(files);
        assert forall|i: int| 0 <= i < r.len() implies files.contains(#[trigger] r[i]) by {
            assert(r[i] == with_file(before, files.last())[i]);
            if r[i] == files.last() {
                assert(files[files.len() - 1] == r[i]);
            } else {
                let k = before.index_of(r[i]);
                assert(init.contains(before[k]));
                let m = init.index_of(before[k]);
                assert(files[m] == r[i]);
            }
        }
        assert forall|g: FileView| #[trigger] files.contains(g) implies r.contains(g) by {
            let k = files.index_of(g);
            if k < init.len() {
                assert(init[k] == g);
                assert(init.contains(g));
                assert(before.contains(g));
            }
        }
    }
}

fn has_jsonl_extension(path: &str) -> (r: bool)
    ensures
        r == (path::name_extension(path@) == Some("jsonl"@)),
{
    match path::extension(path) {
        Some(ext) => text::same(ext.as_str(), "jsonl"),
        None => false,
    }
}

fn file_is_stale(file: &SessionFile, now: i128) -> (r: bool)
    ensures
        r == is_stale(file@, now),
{
    match file.modified {
        Some(t) => match now.checked_sub(t) {
            Some(age) => age > STALE_AFTER_NANOS,
            None => now > t,
        },
        None => false,
    }
}

fn time_of(file: &SessionFile) -> (r: i128)
    ensures
        r == written(file@),
{
    match file.modified {
        Some(t) => t,
        None => 0,
    }
}

fn insert_by_time(list: &mut Vec<SessionFile>, f: SessionFile)
    ensures
        file_views(final(list)@) == with_file(file_views(old(list)@), f@),
{
    let ghost all = file_views(list@);
    let t = time_of(&f);
    let mut pos: usize = list.len();
    assert(all.take(pos as int) =~= all);
    assert(with_file(all.take(pos as int), f@) + all.skip(pos as int) =~= with_file(all, f@));
    while pos > 0 && time_of(&list[pos - 1]) > t
        invariant
            pos <= list@.len(),
            all == file_views(list@),
            t == written(f@),
            with_file(all.take(pos as int), f@) + all.skip(pos as int) == with_file(all, f@),
        decreases pos,
    {
        proof {
            let head = all.take(pos as int);
            assert(head.drop_last() =~= all.take(pos - 1));
            assert(head.last() == list@[pos - 1]@);
            assert(with_file(all.take(pos - 1), f@).push(all[pos - 1]) + all.skip(pos as int)
                =~= with_file(all.take(pos - 1), f@) + all.skip(pos - 1));
        }
        pos -= 1;
    }
    proof {
        let head = all.take(pos as int);
        if pos > 0 {
            assert(head.last() == list@[pos - 1]@);
        }
        assert(head.push(f@) + all.skip(pos as int) =~= all.insert(pos as int, f@));
    }
    let ghost fv = f@;
    list.insert(pos, f);
    assert(file_views(list@) =~= all.insert(pos as int, fv));
}

/// The session files that no live terminal is using: those untouched for a day, and the oldest
/// of the others where there are too many. `current` is the file of this terminal.
pub fn cleanup_stale_sessions(files: &[SessionFile], current: Option<&str>, now: i128) -> (r: Vec<
    String,
>)
    ensures
        text::views(r@) == removable(file_views(files@), text::opt_text(current), now),
{
    let ghost all = file_views(files@);
    let ghost cv = text::opt_text(current);
    let mut out: Vec<String> = Vec::new();
    let mut fresh: Vec<SessionFile> = Vec::new();
    let mut i: usize = 0;
    assert(text::views(out@) =~= paths_of(sessions_by_age(all.take(0), cv, now, true)));
    assert(file_views(fresh@) =~= by_time(sessions_by_age(all.take(0), cv, now, false)));
    while i < files.len()
        invariant
            i <= files@.len(),
            all == file_views(files@),
            cv == text::opt_text(current),
            text::views(out@) == paths_of(sessions_by_age(all.take(i as int), cv, now, true)),
            file_views(fresh@) == by_time(sessions_by_age(all.take(i as int), cv, now, false)),
        decreases files@.len() - i,
    {
        let file = &files[i];
        let ghost stale_before = sessions_by_age(all.take(i as int), cv, now, true);
        let ghost fresh_before = sessions_by_age(all.take(i as int), cv, now, false);
        assert(all.take(i + 1).drop_last() =~= all.take(i as int));
        assert(all.take(i + 1).last() == file@);
        let is_current = match current {
            Some(c) => path::is_same(file.path.as_str(), c),
            None => false,
        };
        if has_jsonl_extension(file.path.as_str()) && !is_current {
            if file_is_stale(file, now) {
                text::push_text(&mut out, file.path.clone());
                assert(paths_of(stale_before.push(file@)) =~= paths_of(stale_before).push(
                    file@.path,
                ));
            } else {
                let copy = SessionFile { path: file.path.clone(), modified: file.modified };
                insert_by_time(&mut fresh, copy);
                assert(fresh_before.push(file@).drop_last() =~= fresh_before);
            }
        }
        i += 1;
    }
    assert(all.take(i as int) =~= all);
    let ghost kept = sessions_by_age(all, cv, now, false);
    let ghost start = text::views(out@);
    proof {
        lemma_by_time(kept);
        assert(fresh@.len() == file_views(fresh@).len());
    }
    if fresh.len() > MAX_SESSION_FILES {
        let extra: usize = fresh.len() - MAX_SESSION_FILES;
        let ghost want = paths_of(surplus(kept));
        let mut j: usize = 0;
        assert(start + want.take(0) =~= start);
        while j < extra
            invariant
                j <= extra <= fresh@.len(),
                file_views(fresh@) == by_time(kept),
                want == paths_of(by_time(kept).take(extra as int)),
                text::views(out@) == start + want.take(j as int),
            decreases extra - j,
        {
            assert(by_time(kept)[j as int] == fresh@[j as int]@);
            text::push_text(&mut out, fresh[j].path.clone());
            j += 1;
            assert(text::views(out@) =~= start + want.take(j as int));
        }
        assert(want.take(j as int) =~= want);
    } else {
        assert(start + paths_of(surplus(kept)) =~= start);
    }
    out
}

/// An entry of the history says what the shell recorded, and has the output that was found.
pub proof fn law_entry_says_what_was_recorded(record: RecordView, output: Seq<char>)
    ensures
        entry_for(record, output).command == text::trimmed(record.cmd),
        entry_for(record, output).exit_code == record.exit,
        entry_for(record, output).cwd == record.cwd,
        entry_for(record, output).output == output,
{
}

/// A line that records a command of the shell `pid`.
pub open spec fn is_command_of(line: Option<RecordView>, pid: u32) -> bool {
    &&& line matches Some(r)
    &&& r.v == 1
    &&& r.pid == pid
    &&& text::trimmed(r.cmd).len() > 0
}

/// What one shell recorded is read in full and in its order, as far as it was asked for; lines
/// of another version or without a command are passed over.
pub proof fn law_records_of_one_shell(lines: Seq<Option<RecordView>>, pid: u32, max: int)
    requires
        max >= lines.len(),
        forall|i: int|
            0 <= i < lines.len() ==> is_command_of(#[trigger] lines[i], pid),
    ensures
        newest_records(lines, None, max) == Seq::new(lines.len(), |i: int| lines[i]->0),
        newest_records(lines.push(None), None, max) == newest_records(lines, None, max),
{
    lemma_all_records(lines, None, pid, max);
    assert(lines.push(None).drop_last() =~= lines);
}

proof fn lemma_all_records(
    lines: Seq<Option<RecordView>>,
    shell: Option<u32>,
    pid: u32,
    max: int,
)
    requires
        max >= lines.len(),
        shell is None || shell == Some(pid),
        forall|i: int|
            0 <= i < lines.len() ==> is_command_of(#[trigger] lines[i], pid),
    ensures
        newest_records(lines, shell, max) == Seq::new(lines.len(), |i: int| lines[i]->0),
    decreases lines.len(),
{
    if lines.len() > 0 {
        let init = lines.drop_last();
        assert(lines.last() == lines[lines.len() - 1]);
        assert forall|i: int| 0 <= i < init.len() implies is_command_of(
            #[trigger] init[i],
            pid,
        ) by {
            assert(init[i] == lines[i]);
        }
        lemma_all_records(init, Some(pid), pid, max - 1);
    }
    assert(newest_records(lines, shell, max) =~= Seq::new(lines.len(), |i: int| lines[i]->0));
}

/// The lines of a file are read in full; where its start is missing, only the line that it cuts
/// is left out.
pub proof fn law_lines_of_tail(head: Seq<char>, lines: Seq<Seq<char>>)
    requires
        lines.len() > 0,
        lines.last().len() > 0,
        !head.contains('\n'),
        forall|k: int|
            0 <= k < lines.len() ==> !(#[trigger] lines[k]).contains('\n') && !lines[k].contains(
                '\r',
            ),
    ensures
        whole_lines(text::joined(lines, seq!['\n']), false) == lines,
        whole_lines(head + seq!['\n'] + text::joined(lines, seq!['\n']), true) == lines,
{
    text::law_join_and_read_lines(lines);
    let s = head + seq!['\n'] + text::joined(lines, seq!['\n']);
    let n = head.len() as int;
    assert forall|k: int| 0 <= k < n implies text::CharSet::Not('\n').has(#[trigger] s[k]) by {
        assert(s[k] == head[k]);
        assert(head.contains(head[k]));
    }
    text::lemma_lead_is(s, text::CharSet::Not('\n'), n);
    assert(s.skip(n + 1) =~= text::joined(lines, seq!['\n']));
}

/// A command is the same as itself, and as one with the same words in the same order, however
/// they are spaced.
pub proof fn law_same_words_are_the_same_command(a: Seq<char>, b: Seq<char>)
    requires
        text::word_list(a) == text::word_list(b),
        text::trimmed(a).len() > 0,
    ensures
        same_command(a, b),
{
    text::law_words(a);
    let words = text::word_list(a);
    text::lemma_blank(a);
    assert(words.len() > 0) by {
        if words.len() == 0 {
            assert(text::trimmed_start(a, text::CharSet::White).len() == 0);
            text::lemma_lead(a, text::CharSet::White);
        }
    }
    text::law_joined_holds_all(words, " "@);
    text::lemma_in_order_each(normal_form(a), words, 0);
    assert(words[0].len() > 0);
}

/// Without records the history is the newest blocks of the grid: the command and the output of
/// each, in their order.
pub proof fn law_grid_history(blocks: Seq<BlockView>, max: int, i: int)
    requires
        max > 0,
        blocks.len() > 0,
        0 <= i < merged(seq![], blocks, max).0.len(),
    ensures
        ({
            let entries = merged(seq![], blocks, max).0;
            let block = blocks[blocks.len() - entries.len() + i];
            &&& merged(seq![], blocks, max).1 == HistorySource::GridOnly
            &&& entries.len() == if blocks.len() > max {
                max
            } else {
                blocks.len() as int
            }
            &&& entries[i].command == block.command
            &&& entries[i].output == block.output
            &&& entries[i].exit_code is None
        }),
{
}

/// Where there are records, the newest of them are the history, in their order, each with the
/// command, the exit code and the directory that were recorded, and with no output but that of a
/// block of the same command.
pub proof fn law_recorded_history(
    records: Seq<RecordView>,
    blocks: Seq<BlockView>,
    max: int,
    i: int,
)
    requires
        max > 0,
        records.len() > 0,
        0 <= i < merged(records, blocks, max).0.len(),
    ensures
        ({
            let entries = merged(records, blocks, max).0;
            let record = records[records.len() - entries.len() + i];
            &&& merged(records, blocks, max).1 == HistorySource::ShellHook
            &&& entries.len() == if records.len() > max {
                max
            } else {
                records.len() as int
            }
            &&& entries[i].command == text::trimmed(record.cmd)
            &&& entries[i].exit_code == record.exit
            &&& entries[i].cwd == record.cwd
            &&& entries[i].output.len() > 0 ==> exists|b: int|
                0 <= b < blocks.len() && same_command(
                    (#[trigger] blocks[b]).command,
                    record.cmd,
                ) && entries[i].output == blocks[b].output
        }),
{
    lemma_recorded(records, blocks, blocks.len() as int, max, i);
}

proof fn lemma_recorded(
    records: Seq<RecordView>,
    blocks: Seq<BlockView>,
    cursor: int,
    max: int,
    i: int,
)
    requires
        0 <= cursor <= blocks.len(),
    ensures
        ({
            let entries = joined_entries(records, blocks, cursor, max);
            &&& max > 0 ==> entries.len() == if records.len() > max {
                max
            } else {
                records.len() as int
            }
            &&& max <= 0 ==> entries.len() == 0
            &&& 0 <= i < entries.len() ==> ({
                let record = records[records.len() - entries.len() + i];
                &&& entries[i].command == text::trimmed(record.cmd)
                &&& entries[i].exit_code == record.exit
                &&& entries[i].cwd == record.cwd
                &&& entries[i].output.len() > 0 ==> exists|b: int|
                    0 <= b < blocks.len() && same_command(
                        (#[trigger] blocks[b]).command,
                        record.cmd,
                    ) && entries[i].output == blocks[b].output
            })
        }),
    decreases records.len(),
{
    if records.len() > 0 && max > 0 {
        let r = records.last();
        let found = matching_block(blocks, r.cmd, window_start(cursor), cursor);
        lemma_matching_block(blocks, r.cmd, window_start(cursor), cursor);
        let next = match found {
            Some(b) => b,
            None => cursor,
        };
        lemma_recorded(records.drop_last(), blocks, next, max - 1, i);
        let entries = joined_entries(records, blocks, cursor, max);
        if found is Some && i == entries.len() - 1 {
            assert(same_command(blocks[found->0].command, r.cmd));
        }
    }
}

/// A session file of another window that was not written to for more than a day is removed.
pub proof fn law_old_sessions_are_removed(
    files: Seq<FileView>,
    current: Option<Seq<char>>,
    now: i128,
    f: FileView,
)
    requires
        files.contains(f),
        path::name_extension(f.path) == Some("jsonl"@),
        current is None || path::component_list(f.path) != path::component_list(current->0),
        f.modified matches Some(t) && now - t > 24 * 60 * 60 * 1_000_000_000,
    ensures
        removable(files, current, now).contains(f.path),
{
    law_session_files_are_bounded(files, current, now);
    assert(is_other_session(f, current));
    assert(is_stale(f, now));
}

/// Whether a command has single spaces between its words and none around them.
pub open spec fn is_closed_up(command: Seq<char>) -> bool {
    text::joined(text::word_list(command), " "@) == command
}

/// A command that was cut off on the grid, or that stands behind other text there, is the same as
/// the recorded one where at least eight characters agree; other commands are not the same.
pub proof fn law_cut_commands(grid: Seq<char>, record: Seq<char>)
    requires
        is_closed_up(grid),
        is_closed_up(record),
    ensures
        grid.is_prefix_of(record) && grid.len() >= 8 ==> same_command(grid, record),
        record.is_suffix_of(grid) && record.len() >= 8 ==> same_command(grid, record),
        grid == record && grid.len() > 0 ==> same_command(grid, record),
        grid != record && grid.len() < 8 && record.len() < 8 ==> !same_command(grid, record),
        grid != record && !grid.is_prefix_of(record) && !record.is_suffix_of(grid)
            ==> !same_command(grid, record),
        grid.len() == 0 || record.len() == 0 ==> !same_command(grid, record),
{
}

/// The file of a session lies in the directory for state, under the id of the session.
pub proof fn law_session_file(dir: Seq<char>, id: Seq<char>)
    requires
        id.len() > 0,
        id[0] != '/',
        dir.len() > 0,
    ensures
        dir.is_prefix_of(session_file(dir, id)),
        (id + ".jsonl"@).is_suffix_of(session_file(dir, id)),
{
    reveal_strlit("sessions");
    let sessions = path::joined_path(dir, SESSIONS_DIR_NAME@);
    path::law_joined_path(dir, SESSIONS_DIR_NAME@);
    path::law_joined_path(sessions, id + ".jsonl"@);
    let file = session_file(dir, id);
    assert(file.take(dir.len() as int) =~= dir) by {
        assert(sessions.take(dir.len() as int) =~= dir);
        assert(file.take(sessions.len() as int) =~= sessions);
        assert forall|k: int| 0 <= k < dir.len() implies file[k] == dir[k] by {
            assert(file.take(sessions.len() as int)[k] == file[k]);
            assert(sessions.take(dir.len() as int)[k] == sessions[k]);
        }
    }
}

/// A record without a shell counts as one of the shell that wrote last; one of another shell does
/// not, nor does one of another version or without a command.
pub proof fn law_which_records_count(
    before: Seq<Option<RecordView>>,
    extra: RecordView,
    last: RecordView,
    max: int,
)
    requires
        max >= before.len() + 2,
        last.v == 1,
        last.pid != 0,
        text::trimmed(last.cmd).len() > 0,
        forall|i: int| 0 <= i < before.len() ==> is_command_of(#[trigger] before[i], last.pid),
    ensures
        ({
            let all = newest_records(before.push(Some(extra)).push(Some(last)), None, max);
            let others = newest_records(before.push(Some(last)), None, max);
            let counts = extra.v == 1 && text::trimmed(extra.cmd).len() > 0;
            &&& all.len() > 0 && all.last() == last
            &&& counts && (extra.pid == 0 || extra.pid == last.pid) ==> all.len() == before.len() + 2
                && all[before.len() as int] == extra
            &&& !counts || (extra.pid != 0 && extra.pid != last.pid) ==> all == others
        }),
{
    let lines = before.push(Some(extra)).push(Some(last));
    assert(lines.drop_last() =~= before.push(Some(extra)));
    assert(before.push(Some(extra)).drop_last() =~= before);
    assert(before.push(Some(last)).drop_last() =~= before);
    let shell = Some(last.pid);
    reveal_with_fuel(newest_records, 3);
    lemma_all_records(before, shell, last.pid, max - 2);
    lemma_all_records(before, shell, last.pid, max - 1);
}

/// A record finds its output among the three newest blocks that are left, and not further up; the
/// newest block of the command is the one.
pub proof fn law_output_is_found_near(record: RecordView, blocks: Seq<BlockView>, max: int, i: int)
    requires
        max > 0,
        0 <= i < blocks.len(),
        same_command(blocks[i].command, record.cmd),
        forall|k: int|
            i < k < blocks.len() ==> !same_command((#[trigger] blocks[k]).command, record.cmd),
    ensures
        ({
            let entries = merged(seq![record], blocks, max).0;
            &&& entries.len() == 1
            &&& i >= blocks.len() - 3 ==> entries[0].output == blocks[i].output
            &&& i < blocks.len() - 3 ==> entries[0].output.len() == 0
        }),
{
    let n = blocks.len() as int;
    lemma_match_at(blocks, record.cmd, window_start(n), n, i);
    assert(seq![record].drop_last() =~= Seq::<RecordView>::empty());
    assert(seq![record].last() == record);
    reveal_with_fuel(joined_entries, 2);
}

proof fn lemma_match_at(blocks: Seq<BlockView>, cmd: Seq<char>, lo: int, hi: int, i: int)
    requires
        0 <= lo,
        0 <= i < hi <= blocks.len(),
        same_command(blocks[i].command, cmd),
        forall|k: int| i < k < blocks.len() ==> !same_command((#[trigger] blocks[k]).command, cmd),
    ensures
        lo <= i ==> matching_block(blocks, cmd, lo, hi) == Some(i),
        i < lo ==> matching_block(blocks, cmd, lo, hi) is None,
    decreases hi,
{
    if hi > lo && hi - 1 > i {
        assert(!same_command(blocks[hi - 1].command, cmd));
        lemma_match_at(blocks, cmd, lo, hi - 1, i);
    }
}

} // verus!
