//! Reads commands, their output and the user's selection off the terminal grid.
use vstd::prelude::*;
use vstd::string::*;

use crate::session;
use crate::session::{CommandRecord, RecordView};
use crate::text;
use crate::types;
use crate::types::{CommandEntryView, HistorySource, TerminalContext};

verus! {

broadcast use vstd::string::group_string_axioms;

pub const PREFIX_LINES: usize = 40;

pub const SUFFIX_LINES: usize = 40;

pub const MAX_CHARS: usize = 8000;

/// Grid lines (scrollback + screen) scanned when reconstructing command blocks.
pub const HISTORY_SCAN_LINES: usize = 500;

/// Command blocks reconstructed from the grid before matching against shell records.
pub const HISTORY_MAX_BLOCKS: usize = 12;

/// Commands reported in [`TerminalContext::command_history`].
pub const HISTORY_MAX_ENTRIES: usize = 5;

/// Cap on a single block's output, to stay within the LLM context budget.
pub const MAX_BLOCK_OUTPUT_CHARS: usize = 3_000;

// ── Files that the shell hook writes ─────────────────────────────────────────

/// The number that decimal digits stand for.
pub open spec fn digits_value(s: Seq<char>) -> int
    decreases s.len(),
{
    if s.len() == 0 {
        0
    } else {
        10 * digits_value(s.drop_last()) + (s.last() as int - 48)
    }
}

/// Whether `s` is one or more decimal digits.
pub open spec fn is_digits(s: Seq<char>) -> bool {
    s.len() > 0 && forall|i: int| 0 <= i < s.len() ==> text::is_digit(#[trigger] s[i])
}

/// The number that a text is: decimal digits behind an optional sign, within the range of
/// `i32`.
pub open spec fn number_in(s: Seq<char>) -> Option<i32> {
    let negative = s.len() > 0 && s[0] == '-';
    let digits = if s.len() > 0 && (s[0] == '-' || s[0] == '+') {
        s.drop_first()
    } else {
        s
    };
    let value = if negative {
        -digits_value(digits)
    } else {
        digits_value(digits)
    };
    if is_digits(digits) && i32::MIN <= value <= i32::MAX {
        Some(value as i32)
    } else {
        None
    }
}

proof fn lemma_digits_value_grows(s: Seq<char>, n: int)
    requires
        is_digits(s),
        0 <= n <= s.len(),
    ensures
        0 <= digits_value(s.take(n)) <= digits_value(s),
    decreases s.len() - n,
{
    assert(s.take(s.len() as int) =~= s);
    if n < s.len() {
        lemma_digits_value_grows(s, n + 1);
        assert(s.take(n + 1).drop_last() =~= s.take(n));
        lemma_digits_value_positive(s.take(n));
    } else {
        lemma_digits_value_positive(s);
    }
}

proof fn lemma_digits_value_positive(s: Seq<char>)
    requires
        forall|i: int| 0 <= i < s.len() ==> text::is_digit(#[trigger] s[i]),
    ensures
        digits_value(s) >= 0,
    decreases s.len(),
{
    if s.len() > 0 {
        assert(text::is_digit(s[s.len() - 1]));
        lemma_digits_value_positive(s.drop_last());
    }
}

/// The number that a text is.
pub fn parse_i32(s: &str) -> (r: Option<i32>)
    ensures
        r == number_in(s@),
{
    let chars = text::chars_of(s);
    let signed = chars.len() > 0 && (chars[0] == '-' || chars[0] == '+');
    let negative = chars.len() > 0 && chars[0] == '-';
    let start: usize = if signed {
        1
    } else {
        0
    };
    let ghost digits = if signed {
        s@.drop_first()
    } else {
        s@
    };
    if start == chars.len() {
        return None;
    }
    let mut value: i64 = 0;
    let mut i: usize = start;
    while i < chars.len()
        invariant
            start <= i <= chars@.len(),
            start < chars@.len(),
            chars@ == s@,
            start == if signed {
                1int
            } else {
                0
            },
            digits == if signed {
                s@.drop_first()
            } else {
                s@
            },
            signed == (s@.len() > 0 && (s@[0] == '-' || s@[0] == '+')),
            negative == (s@.len() > 0 && s@[0] == '-'),
            0 <= value <= 0x8000_0000,
            value == digits_value(digits.take(i - start)),
            forall|k: int| 0 <= k < i - start ==> text::is_digit(#[trigger] digits[k]),
        decreases chars@.len() - i,
    {
        let c = chars[i];
        assert(digits[i - start] == c);
        if !text::is_ascii_digit(c) {
            return None;
        }
        assert(digits.take(i - start + 1).drop_last() =~= digits.take(i - start));
        value = 10 * value + (c as u32 - 48) as i64;
        i += 1;
        if value > 0x8000_0000 {
            proof {
                if is_digits(digits) {
                    lemma_digits_value_grows(digits, i - start);
                }
            }
            return None;
        }
    }
    assert(digits.take(i - start) =~= digits);
    if negative {
        Some((-value) as i32)
    } else if value > 0x7fff_ffff {
        None
    } else {
        Some(value as i32)
    }
}

/// The exit code in the file that the shell hook writes `$?` to before each prompt.
///
/// `None` if the file could not be read or contains no integer.
pub fn read_last_exit_code(file: Option<&str>) -> (r: Option<i32>)
    ensures
        r == match file {
            Some(s) => number_in(text::trimmed(s@)),
            None => None,
        },
{
    match file {
        Some(s) => parse_i32(text::trim(s)),
        None => None,
    }
}

/// The command in a line of history: behind the semicolon where the line has the prefix of
/// zsh's `EXTENDED_HISTORY`, `: <timestamp>:<duration>;<command>`.
pub open spec fn history_command(file: Seq<char>) -> Option<Seq<char>> {
    let raw = text::trimmed(file);
    let command = if ": "@.is_prefix_of(raw) && text::first_char(raw.skip(2), ';') is Some {
        text::trimmed(raw.skip(2).skip(text::first_char(raw.skip(2), ';')->0 + 1))
    } else {
        raw
    };
    if raw.len() == 0 || command.len() == 0 {
        None
    } else {
        Some(command)
    }
}

/// The last executed command, from the file that the shell hook writes it to.
///
/// More reliable than parsing the terminal grid, which can false-match `$` in command
/// output. Every window overwrites the file, so records of the session come first.
pub fn read_last_command(file: Option<&str>) -> (r: Option<String>)
    ensures
        text::opt_string(r) == match file {
            Some(s) => history_command(s@),
            None => None,
        },
{
    let raw = match file {
        Some(s) => text::trim(s),
        None => {
            return None;
        },
    };
    if raw.is_empty() {
        return None;
    }
    proof {
        reveal_strlit(": ");
    }
    let command = if text::starts_with(raw, ": ") {
        let n = raw.unicode_len();
        let rest = raw.substring_char(2, n);
        assert(rest@ =~= raw@.skip(2));
        match text::find_char(rest, ';') {
            Some(i) => {
                let m = rest.unicode_len();
                let behind = rest.substring_char(i + 1, m);
                assert(behind@ =~= rest@.skip(i + 1));
                text::trim(behind)
            },
            None => raw,
        }
    } else {
        raw
    };
    if command.is_empty() {
        None
    } else {
        Some(command.to_owned())
    }
}

// ── Prompts ──────────────────────────────────────────────────────────────────

/// Whether `c` is the last character of a shell prompt.
pub open spec fn is_marker(c: char) -> bool {
    c == '$' || c == '#' || c == '%' || c == '❯'
}

/// Whether the marker at `i` is plausibly a shell prompt, and no `$` inside output text: it
/// stands first in its line, or is an arrow that only prompts use, or what stands before it
/// looks like a prompt.
pub open spec fn likely_prompt(line: Seq<char>, i: int) -> bool {
    let prefix = text::rtrimmed(line.take(i));
    let before = line[i - 1];
    ||| i == 0
    ||| prefix.len() == 0
    ||| line[i] == '❯'
    ||| before == ']' || before == ')' || before == ':' || before == '-' || before == '─' || before
        == '»' || before == '~'
    ||| (before == ' ' && (prefix.contains('@') || prefix.last() == ']' || prefix.last() == ')'
        || prefix.contains('─') || prefix.contains('❯')))
}

/// Whether a prompt ends at `i` with something behind it.
pub open spec fn prompt_before_text(line: Seq<char>, i: int) -> bool {
    &&& 0 <= i < line.len() - 1
    &&& is_marker(line[i])
    &&& line[i + 1] == ' ' || line[i + 1] == '\t'
    &&& likely_prompt(line, i)
}

/// Whether a prompt ends at `i`, with or without something behind it.
pub open spec fn prompt_at(line: Seq<char>, i: int) -> bool {
    &&& 0 <= i < line.len()
    &&& is_marker(line[i])
    &&& i + 1 == line.len() || line[i + 1] == ' ' || line[i + 1] == '\t'
    &&& likely_prompt(line, i)
}

/// Whether a line holds a prompt.
pub open spec fn has_prompt(line: Seq<char>) -> bool {
    exists|i: int| prompt_at(line, i)
}

/// What stands behind the last prompt that ends before `n` and has something behind it.
pub open spec fn command_before(line: Seq<char>, n: int) -> Option<Seq<char>>
    decreases n,
{
    if n <= 0 {
        None
    } else if prompt_before_text(line, n - 1) && text::trimmed(line.skip(n)).len() > 0 {
        Some(text::trimmed(line.skip(n)))
    } else {
        command_before(line, n - 1)
    }
}

/// The command that was typed at the last prompt of a line.
pub open spec fn typed_command(line: Seq<char>) -> Option<Seq<char>> {
    command_before(line, line.len() as int)
}

/// The typed command stands behind a prompt, and no later prompt of the line has anything
/// behind it.
pub proof fn law_command_follows_last_prompt(line: Seq<char>)
    ensures
        typed_command(line) matches Some(c) ==> c.len() > 0 && exists|i: int|
            #[trigger] prompt_before_text(line, i) && c == text::trimmed(line.skip(i + 1))
                && forall|j: int|
                i < j && #[trigger] prompt_before_text(line, j) ==> text::trimmed(
                    line.skip(j + 1),
                ).len() == 0,
        typed_command(line) is None ==> forall|j: int| #[trigger]
            prompt_before_text(line, j) ==> text::trimmed(line.skip(j + 1)).len() == 0,
{
    lemma_command_before(line, line.len() as int);
}

proof fn lemma_command_before(line: Seq<char>, n: int)
    requires
        0 <= n <= line.len(),
        forall|j: int|
            n <= j && #[trigger] prompt_before_text(line, j) ==> text::trimmed(
                line.skip(j + 1),
            ).len() == 0,
    ensures
        command_before(line, n) matches Some(c) ==> c.len() > 0 && exists|i: int|
            #[trigger] prompt_before_text(line, i) && c == text::trimmed(line.skip(i + 1))
                && forall|j: int|
                i < j && #[trigger] prompt_before_text(line, j) ==> text::trimmed(
                    line.skip(j + 1),
                ).len() == 0,
        command_before(line, n) is None ==> forall|j: int| #[trigger]
            prompt_before_text(line, j) ==> text::trimmed(line.skip(j + 1)).len() == 0,
    decreases n,
{
    if n > 0 {
        if prompt_before_text(line, n - 1) && text::trimmed(line.skip(n)).len() > 0 {
            assert(prompt_before_text(line, n - 1));
        } else {
            lemma_command_before(line, n - 1);
        }
    }
}

fn is_prompt_char(c: char) -> (r: bool)
    ensures
        r == is_marker(c),
{
    c == '$' || c == '#' || c == '%' || c == '❯'
}

/// Whether the marker at `i` is plausibly a shell prompt.
pub fn is_likely_prompt_position(line: &str, i: usize) -> (r: bool)
    requires
        i < line@.len(),
    ensures
        r == likely_prompt(line@, i as int),
{
    if i == 0 {
        return true;
    }
    let head = line.substring_char(0, i);
    assert(head@ =~= line@.take(i as int));
    let prefix = text::trim_end(head);
    if prefix.is_empty() {
        return true;
    }
    // `❯` (U+276F) is used almost exclusively as a shell prompt arrow and is
    // virtually never found in command output.
    if line.get_char(i) == '❯' {
        return true;
    }
    let before = line.get_char(i - 1);
    if before == ']' || before == ')' || before == ':' || before == '-' || before == '─' || before
        == '»' || before == '~' {
        return true;
    }
    // A space before `$` is common on real prompts (`user@host $`, `(venv) $`)
    // but also in prose output (`use $ git`). Require a prompt-like prefix.
    if before == ' ' {
        let n = prefix.unicode_len();
        let last = prefix.get_char(n - 1);
        return text::contains_char(prefix, '@') || last == ']' || last == ')'
            || text::contains_char(prefix, '─') || text::contains_char(prefix, '❯');
    }
    false
}

/// Returns `true` if `line` contains a prompt character at a plausible prompt position, also
/// where nothing stands behind it.
pub fn line_has_prompt(line: &str) -> (r: bool)
    ensures
        r == has_prompt(line@),
{
    let chars = text::chars_of(line);
    let mut i: usize = 0;
    while i < chars.len()
        invariant
            i <= chars@.len(),
            chars@ == line@,
            forall|k: int| k < i ==> !#[trigger] prompt_at(line@, k),
        decreases chars@.len() - i,
    {
        if is_prompt_char(chars[i]) {
            let open = chars.len() - i == 1 || chars[i + 1] == ' ' || chars[i + 1] == '\t';
            if open && is_likely_prompt_position(line, i) {
                assert(prompt_at(line@, i as int));
                return true;
            }
        }
        i += 1;
    }
    false
}

/// The command typed at the LAST prompt on the line, not the first: `$ echo $HOME` must yield
/// `echo $HOME`, not stop at interior `$` tokens.
pub fn command_after_last_prompt(line: &str) -> (r: Option<String>)
    ensures
        text::opt_string(r) == typed_command(line@),
{
    let chars = text::chars_of(line);
    let mut n: usize = chars.len();
    while n > 0
        invariant
            n <= chars@.len(),
            chars@ == line@,
            typed_command(line@) == command_before(line@, n as int),
        decreases n,
    {
        let i: usize = n - 1;
        if n < chars.len() && is_prompt_char(chars[i]) && (chars[n] == ' ' || chars[n] == '\t') {
            if is_likely_prompt_position(line, i) {
                let total = line.unicode_len();
                let behind = line.substring_char(n, total);
                assert(behind@ =~= line@.skip(n as int));
                let command = text::trim(behind);
                if !command.is_empty() {
                    return Some(command.to_owned());
                }
            }
        }
        n -= 1;
    }
    None
}

/// The command on the last of `lines` that has one.
pub open spec fn last_typed(lines: Seq<Seq<char>>) -> Seq<char>
    decreases lines.len(),
{
    if lines.len() == 0 {
        seq![]
    } else {
        match typed_command(lines.last()) {
            Some(c) => c,
            None => last_typed(lines.drop_last()),
        }
    }
}

/// The last ten of `lines`.
pub open spec fn last_ten(lines: Seq<Seq<char>>) -> Seq<Seq<char>> {
    if lines.len() > 10 {
        lines.skip(lines.len() - 10)
    } else {
        lines
    }
}

/// Returns the most recent non-empty command after a prompt in the last 10 lines.
pub fn extract_last_command(lines: &[String]) -> (r: String)
    ensures
        r@ == last_typed(last_ten(text::views(lines@))),
{
    let ghost tail = last_ten(text::views(lines@));
    let start: usize = if lines.len() > 10 {
        lines.len() - 10
    } else {
        0
    };
    let mut n: usize = lines.len();
    assert(tail.take(n - start) =~= tail);
    while n > start
        invariant
            start <= n <= lines@.len(),
            tail == last_ten(text::views(lines@)),
            start == if lines@.len() > 10 {
                lines@.len() - 10
            } else {
                0
            },
            last_typed(tail) == last_typed(tail.take(n - start)),
        decreases n,
    {
        proof {
            let t = tail.take(n - start);
            assert(t.last() == lines@[n - 1]@);
            assert(t.drop_last() =~= tail.take(n - 1 - start));
        }
        if let Some(c) = command_after_last_prompt(lines[n - 1].as_str()) {
            return c;
        }
        n -= 1;
    }
    String::new()
}

// ── Blocks ───────────────────────────────────────────────────────────────────

/// A command and the output it produced, reconstructed from the grid.
#[derive(Debug, Clone, PartialEq, Eq)]
pub struct GridBlock {
    pub command: String,
    pub output: String,
    /// Index into the scanned line slice of the prompt row the command was typed on.
    pub prompt_row: usize,
}

impl Default for GridBlock {
    fn default() -> (r: Self)
        ensures
            r@ == (BlockView { command: seq![], output: seq![], prompt_row: 0 }),
    {
        GridBlock { command: String::new(), output: String::new(), prompt_row: 0 }
    }
}

/// What a [`GridBlock`] says.
pub ghost struct BlockView {
    pub command: Seq<char>,
    pub output: Seq<char>,
    pub prompt_row: int,
}

impl View for GridBlock {
    type V = BlockView;

    open spec fn view(&self) -> BlockView {
        BlockView {
            command: self.command@,
            output: self.output@,
            prompt_row: self.prompt_row as int,
        }
    }
}

/// What each of the blocks says.
pub open spec fn block_views(blocks: Seq<GridBlock>) -> Seq<BlockView> {
    Seq::new(blocks.len(), |i: int| blocks[i]@)
}

/// `text` cut to `max` characters, with `marker` behind the cut.
pub open spec fn cut_at(text: Seq<char>, max: nat, marker: Seq<char>) -> Seq<char> {
    if text.len() <= max {
        text
    } else {
        text.take(max as int) + marker
    }
}

/// Truncate to `max_chars` *characters* and append `marker` when anything was cut.
///
/// Counts characters, not bytes, so a cut never falls inside a multi-byte character.
pub fn truncate_with_marker(text: &str, max_chars: usize, marker: &str) -> (r: String)
    ensures
        r@ == cut_at(text@, max_chars as nat, marker@),
{
    if text.unicode_len() <= max_chars {
        return text.to_owned();
    }
    let kept = text.substring_char(0, max_chars);
    assert(kept@ =~= text@.take(max_chars as int));
    text::concat(kept, marker)
}

/// The rows among the first `n` of `lines` that hold a prompt.
pub open spec fn prompt_rows(lines: Seq<Seq<char>>, n: int) -> Seq<int>
    decreases n,
{
    if n <= 0 {
        seq![]
    } else if has_prompt(lines[n - 1]) {
        prompt_rows(lines, n - 1).push(n - 1)
    } else {
        prompt_rows(lines, n - 1)
    }
}

/// The last `n` of `rows`, or all where there are no more.
pub open spec fn last_rows(rows: Seq<int>, n: int) -> Seq<int> {
    if rows.len() > n {
        rows.skip(rows.len() - n)
    } else {
        rows
    }
}

/// The output between two prompt rows.
pub open spec fn output_between(lines: Seq<Seq<char>>, from: int, to: int) -> Seq<char> {
    cut_at(
        text::trimmed(text::joined(lines.subrange(from + 1, to), "\n"@)),
        MAX_BLOCK_OUTPUT_CHARS as nat,
        "\n... [output truncated]"@,
    )
}

/// The blocks between neighbouring rows; a bare prompt starts none.
pub open spec fn blocks_between(rows: Seq<int>, lines: Seq<Seq<char>>) -> Seq<BlockView>
    decreases rows.len(),
{
    if rows.len() < 2 {
        seq![]
    } else {
        let before = blocks_between(rows.drop_last(), lines);
        let row = rows[rows.len() - 2];
        match typed_command(lines[row]) {
            Some(command) => before.push(
                BlockView {
                    command,
                    output: output_between(lines, row, rows.last()),
                    prompt_row: row,
                },
            ),
            None => before,
        }
    }
}

/// Up to `max` command blocks of `lines`, oldest first.
pub open spec fn blocks_in(lines: Seq<Seq<char>>, max: int) -> Seq<BlockView> {
    if max <= 0 {
        seq![]
    } else {
        blocks_between(last_rows(prompt_rows(lines, lines.len() as int), max + 1), lines)
    }
}

/// Blocks come oldest first, each with a command, typed on a row of the lines; there are no more
/// than were asked for.
pub proof fn law_blocks(lines: Seq<Seq<char>>, max: int)
    requires
        max >= 0,
    ensures
        blocks_in(lines, max).len() <= max,
        forall|i: int|
            0 <= i < blocks_in(lines, max).len() ==> {
                let b = #[trigger] blocks_in(lines, max)[i];
                &&& b.command.len() > 0
                &&& 0 <= b.prompt_row < lines.len()
                &&& has_prompt(lines[b.prompt_row])
                &&& typed_command(lines[b.prompt_row]) == Some(b.command)
            },
        forall|i: int, j: int|
            0 <= i < j < blocks_in(lines, max).len() ==> (#[trigger] blocks_in(
                lines,
                max,
            )[i]).prompt_row < (#[trigger] blocks_in(lines, max)[j]).prompt_row,
{
    if max > 0 {
        let all = prompt_rows(lines, lines.len() as int);
        let rows = last_rows(all, max + 1);
        lemma_prompt_rows(lines, lines.len() as int);
        assert forall|i: int| 0 <= i < rows.len() implies 0 <= #[trigger] rows[i] < lines.len()
            && has_prompt(lines[rows[i]]) by {
            assert(rows[i] == all[all.len() - rows.len() + i]);
        }
        assert forall|i: int, j: int| 0 <= i < j < rows.len() implies #[trigger] rows[i]
            < #[trigger] rows[j] by {
            assert(rows[i] == all[all.len() - rows.len() + i]);
            assert(rows[j] == all[all.len() - rows.len() + j]);
        }
        lemma_blocks_between(rows, lines);
    }
}

/// A smaller limit gives the newest of the blocks of a larger one.
pub proof fn law_fewer_blocks_are_the_newest(lines: Seq<Seq<char>>, few: int, many: int)
    requires
        0 <= few <= many,
    ensures
        blocks_in(lines, few).is_suffix_of(blocks_in(lines, many)),
{
    let all = prompt_rows(lines, lines.len() as int);
    let long = last_rows(all, many + 1);
    if few > 0 {
        let short = last_rows(all, few + 1);
        assert(short =~= long.skip(long.len() - short.len()));
        lemma_later_blocks(long, lines, long.len() - short.len());
    } else {
        let blocks = blocks_in(lines, many);
        assert(blocks.subrange(blocks.len() as int, blocks.len() as int) =~= seq![]);
    }
}

proof fn lemma_later_blocks(rows: Seq<int>, lines: Seq<Seq<char>>, k: int)
    requires
        0 <= k <= rows.len(),
    ensures
        blocks_between(rows.skip(k), lines).is_suffix_of(blocks_between(rows, lines)),
    decreases rows.len(),
{
    let later = rows.skip(k);
    let all = blocks_between(rows, lines);
    let end = all.len() as int;
    if later.len() < 2 {
        assert(all.subrange(end, end) =~= seq![]);
    } else {
        let init = rows.drop_last();
        assert(later.drop_last() =~= init.skip(k));
        lemma_later_blocks(init, lines, k);
        let some = blocks_between(init.skip(k), lines);
        let before = blocks_between(init, lines);
        assert(some =~= before.subrange(before.len() - some.len(), before.len() as int));
        let part = blocks_between(later, lines);
        assert(part =~= all.subrange(end - part.len(), end));
    }
}

proof fn lemma_prompt_rows(lines: Seq<Seq<char>>, n: int)
    requires
        0 <= n <= lines.len(),
    ensures
        forall|i: int|
            0 <= i < prompt_rows(lines, n).len() ==> 0 <= #[trigger] prompt_rows(lines, n)[i] < n
                && has_prompt(lines[prompt_rows(lines, n)[i]]),
        forall|i: int, j: int|
            0 <= i < j < prompt_rows(lines, n).len() ==> #[trigger] prompt_rows(lines, n)[i]
                < #[trigger] prompt_rows(lines, n)[j],
    decreases n,
{
    if n > 0 {
        lemma_prompt_rows(lines, n - 1);
        let before = prompt_rows(lines, n - 1);
        let r = prompt_rows(lines, n);
        assert forall|i: int| 0 <= i < r.len() implies 0 <= #[trigger] r[i] < n && has_prompt(
            lines[r[i]],
        ) by {
            if i < before.len() {
                assert(r[i] == before[i]);
            }
        }
        assert forall|i: int, j: int| 0 <= i < j < r.len() implies #[trigger] r[i]
            < #[trigger] r[j] by {
            assert(r[i] == before[i]);
            if j < before.len() {
                assert(r[j] == before[j]);
            }
        }
    }
}

proof fn lemma_blocks_between(rows: Seq<int>, lines: Seq<Seq<char>>)
    requires
        forall|i: int|
            0 <= i < rows.len() ==> 0 <= #[trigger] rows[i] < lines.len() && has_prompt(
                lines[rows[i]],
            ),
        forall|i: int, j: int|
            0 <= i < j < rows.len() ==> #[trigger] rows[i] < #[trigger] rows[j],
    ensures
        rows.len() >= 1 ==> blocks_between(rows, lines).len() <= rows.len() - 1,
        rows.len() == 0 ==> blocks_between(rows, lines).len() == 0,
        forall|i: int|
            0 <= i < blocks_between(rows, lines).len() ==> {
                let b = #[trigger] blocks_between(rows, lines)[i];
                &&& b.command.len() > 0
                &&& 0 <= b.prompt_row < lines.len()
                &&& has_prompt(lines[b.prompt_row])
                &&& typed_command(lines[b.prompt_row]) == Some(b.command)
                &&& b.prompt_row < rows.last()
            },
        forall|i: int, j: int|
            0 <= i < j < blocks_between(rows, lines).len() ==> (#[trigger] blocks_between(
                rows,
                lines,
            )[i]).prompt_row < (#[trigger] blocks_between(rows, lines)[j]).prompt_row,
    decreases rows.len(),
{
    if rows.len() >= 2 {
        let init = rows.drop_last();
        assert forall|i: int| 0 <= i < init.len() implies 0 <= #[trigger] init[i] < lines.len()
            && has_prompt(lines[init[i]]) by {
            assert(init[i] == rows[i]);
        }
        assert forall|i: int, j: int| 0 <= i < j < init.len() implies #[trigger] init[i]
            < #[trigger] init[j] by {
            assert(init[i] == rows[i] && init[j] == rows[j]);
        }
        lemma_blocks_between(init, lines);
        let row = rows[rows.len() - 2];
        assert(init.last() == row);
        assert(row < rows[rows.len() - 1]);
        law_command_follows_last_prompt(lines[row]);
        let before = blocks_between(init, lines);
        let r = blocks_between(rows, lines);
        assert forall|i: int| 0 <= i < r.len() implies ({
            let b = #[trigger] r[i];
            &&& b.command.len() > 0
            &&& 0 <= b.prompt_row < lines.len()
            &&& has_prompt(lines[b.prompt_row])
            &&& typed_command(lines[b.prompt_row]) == Some(b.command)
            &&& b.prompt_row < rows.last()
        }) by {
            if i < before.len() {
                assert(r[i] == before[i]);
            }
        }
        assert forall|i: int, j: int| 0 <= i < j < r.len() implies (#[trigger] r[i]).prompt_row < (
        #[trigger] r[j]).prompt_row by {
            assert(r[i] == before[i]);
            if j < before.len() {
                assert(r[j] == before[j]);
            }
        }
    }
}

/// The last `max` + 1 prompt rows, in their order.
fn find_prompt_rows(lines: &[String], max: usize) -> (r: Vec<usize>)
    ensures
        r@.map_values(|x: usize| x as int) == last_rows(
            prompt_rows(text::views(lines@), lines@.len() as int),
            max + 1,
        ),
        forall|i: int| 0 <= i < r@.len() ==> #[trigger] r@[i] < lines@.len(),
        forall|i: int, j: int| 0 <= i < j < r@.len() ==> #[trigger] r@[i] < #[trigger] r@[j],
{
    let ghost all = text::views(lines@);
    let mut out: Vec<usize> = Vec::new();
    let mut i: usize = 0;
    proof {
        assert(out@.map_values(|x: usize| x as int) =~= seq![]);
    }
    while i < lines.len()
        invariant
            i <= lines@.len(),
            all == text::views(lines@),
            out@.map_values(|x: usize| x as int) == prompt_rows(all, i as int),
            forall|k: int| 0 <= k < out@.len() ==> #[trigger] out@[k] < i,
            forall|k: int, l: int|
                0 <= k < l < out@.len() ==> #[trigger] out@[k] < #[trigger] out@[l],
        decreases lines@.len() - i,
    {
        assert(all[i as int] == lines@[i as int]@);
        if line_has_prompt(lines[i].as_str()) {
            let ghost before = out@.map_values(|x: usize| x as int);
            out.push(i);
            assert(out@.map_values(|x: usize| x as int) =~= before.push(i as int));
        }
        i += 1;
    }
    if out.len() > 0 && out.len() - 1 > max {
        let first: usize = out.len() - 1 - max;
        let ghost rows = out@.map_values(|x: usize| x as int);
        let kept = vstd::slice::slice_subrange(out.as_slice(), first, out.len());
        let mut tail: Vec<usize> = Vec::new();
        let mut j: usize = 0;
        while j < kept.len()
            invariant
                j <= kept@.len(),
                tail@ == kept@.take(j as int),
            decreases kept@.len() - j,
        {
            tail.push(kept[j]);
            j += 1;
            assert(tail@ =~= kept@.take(j as int));
        }
        assert(tail@ =~= kept@);
        proof {
            assert(tail@.map_values(|x: usize| x as int) =~= last_rows(rows, max + 1));
            assert forall|k: int, l: int| 0 <= k < l < tail@.len() implies #[trigger] tail@[k]
                < #[trigger] tail@[l] by {
                assert(tail@[k] == out@[first + k] && tail@[l] == out@[first + l]);
            }
        }
        return tail;
    }
    out
}

/// Reconstruct up to `max_blocks` command blocks from `lines`, oldest first.
///
/// A block is the text between two consecutive prompt-bearing lines, so the bottommost
/// prompt acts as a delimiter only — a command the user is still typing is excluded.
/// Bare prompts (no command after the marker) are delimiters too.
pub fn extract_command_blocks(lines: &[String], max_blocks: usize) -> (r: Vec<GridBlock>)
    ensures
        block_views(r@) == blocks_in(text::views(lines@), max_blocks as int),
{
    let mut blocks: Vec<GridBlock> = Vec::new();
    assert(block_views(blocks@) =~= seq![]);
    if max_blocks == 0 {
        return blocks;
    }
    let ghost all = text::views(lines@);
    let rows = find_prompt_rows(lines, max_blocks);
    let ghost rv = rows@.map_values(|x: usize| x as int);
    if rows.len() < 2 {
        return blocks;
    }
    let mut i: usize = 1;
    assert(rv.take(1).len() < 2);
    while i < rows.len()
        invariant
            1 <= i <= rows@.len(),
            all == text::views(lines@),
            rv == rows@.map_values(|x: usize| x as int),
            forall|k: int| 0 <= k < rows@.len() ==> #[trigger] rows@[k] < lines@.len(),
            forall|k: int, l: int|
                0 <= k < l < rows@.len() ==> #[trigger] rows@[k] < #[trigger] rows@[l],
            block_views(blocks@) == blocks_between(rv.take(i as int), all),
        decreases rows@.len() - i,
    {
        let ghost before = block_views(blocks@);
        let row = rows[i - 1];
        let next = rows[i];
        assert(rows@[i - 1] < rows@[i as int]);
        proof {
            let t = rv.take(i + 1);
            assert(t.drop_last() =~= rv.take(i as int));
            assert(t.last() == next && t[t.len() - 2] == row);
            assert(all[row as int] == lines@[row as int]@);
        }
        if let Some(command) = command_after_last_prompt(lines[row].as_str()) {
            let between = vstd::slice::slice_subrange(lines, row + 1, next);
            assert(text::views(between@) =~= all.subrange(row + 1, next as int));
            let joined = text::join(between, "\n");
            let output = truncate_with_marker(
                text::trim(joined.as_str()),
                MAX_BLOCK_OUTPUT_CHARS,
                "\n... [output truncated]",
            );
            let block = GridBlock { command, output, prompt_row: row };
            let ghost bv = block@;
            blocks.push(block);
            assert(block_views(blocks@) =~= before.push(bv));
        }
        i += 1;
    }
    assert(rv.take(i as int) =~= rv);
    blocks
}

/// Extract the most recent command and its output from the visible grid.
///
/// The command is what was typed at the second prompt from the bottom, and the output is the
/// text between the two prompts. Both strings are empty when fewer than two prompt lines are
/// visible or the earlier prompt has no command (e.g. user just opened the shell).
pub fn extract_command_block(lines: &[String]) -> (r: (String, String))
    ensures
        ({
            let blocks = blocks_in(text::views(lines@), 1);
            if blocks.len() > 0 {
                r.0@ == blocks.last().command && r.1@ == blocks.last().output
            } else {
                r.0@ == Seq::<char>::empty() && r.1@ == Seq::<char>::empty()
            }
        }),
{
    let mut blocks = extract_command_blocks(lines, 1);
    let ghost views = block_views(blocks@);
    match blocks.pop() {
        Some(block) => {
            assert(views.last() == block@);
            (block.command, block.output)
        },
        None => (String::new(), String::new()),
    }
}

// ── The grid ─────────────────────────────────────────────────────────────────

/// A cell of the terminal grid.
#[derive(Debug, Clone, Copy, PartialEq, Eq, Structural)]
pub struct GridCell {
    pub c: char,
    /// Whether the cell only fills up the second column of a wide character.
    pub spacer: bool,
}

/// The terminal grid: scrollback and screen.
///
/// Lines are numbered so that 0 is the first line of the screen; lines of the scrollback have
/// negative numbers.
#[derive(Debug, Clone, PartialEq, Eq)]
pub struct TerminalGrid {
    /// All lines, the oldest first.
    pub rows: Vec<Vec<GridCell>>,
    /// How many of the lines are scrollback.
    pub history: usize,
    pub screen_lines: usize,
    pub columns: usize,
    /// How far the user has scrolled up.
    pub display_offset: usize,
}

impl TerminalGrid {
    /// Whether the lines are those that the sizes say.
    pub open spec fn well_formed(self) -> bool {
        &&& self.rows@.len() == self.history + self.screen_lines
        &&& self.rows@.len() <= i32::MAX
        &&& self.display_offset <= self.history
        &&& forall|i: int|
            0 <= i < self.rows@.len() ==> (#[trigger] self.rows@[i])@.len() == self.columns
    }

    /// The text of each line, the oldest first.
    pub open spec fn texts(self) -> Seq<Seq<char>> {
        Seq::new(self.rows@.len(), |i: int| row_text(self.rows@[i]@))
    }

    /// The text of the lines on display.
    pub open spec fn visible(self) -> Seq<Seq<char>> {
        self.texts().subrange(
            self.history - self.display_offset,
            self.history - self.display_offset + self.screen_lines,
        )
    }

    /// The text of the newest `max` lines, wherever the user has scrolled to.
    pub open spec fn recent(self, max: int) -> Seq<Seq<char>> {
        let n = if max > 1 {
            max
        } else {
            1
        };
        if self.texts().len() > n {
            self.texts().skip(self.texts().len() - n)
        } else {
            self.texts()
        }
    }
}

/// The characters of cells, without those that fill up wide ones.
pub open spec fn cell_chars(cells: Seq<GridCell>) -> Seq<char>
    decreases cells.len(),
{
    if cells.len() == 0 {
        seq![]
    } else if cells.last().spacer {
        cell_chars(cells.drop_last())
    } else {
        cell_chars(cells.drop_last()).push(cells.last().c)
    }
}

/// The text of a line.
pub open spec fn row_text(cells: Seq<GridCell>) -> Seq<char> {
    text::rtrimmed(cell_chars(cells))
}

/// The text of a line.
pub fn line_to_string(cells: &[GridCell]) -> (r: String)
    ensures
        r@ == row_text(cells@),
{
    let mut out = String::new();
    let mut i: usize = 0;
    while i < cells.len()
        invariant
            i <= cells@.len(),
            out@ == cell_chars(cells@.take(i as int)),
        decreases cells@.len() - i,
    {
        assert(cells@.take(i + 1).drop_last() =~= cells@.take(i as int));
        assert(cells@.take(i + 1).last() == cells@[i as int]);
        if !cells[i].spacer {
            out.push(cells[i].c);
        }
        i += 1;
    }
    assert(cells@.take(i as int) =~= cells@);
    text::trim_end(out.as_str()).to_owned()
}

fn collect_lines(grid: &TerminalGrid, from: usize, to: usize) -> (r: Vec<String>)
    requires
        from <= to <= grid.rows@.len(),
    ensures
        text::views(r@) == grid.texts().subrange(from as int, to as int),
{
    let ghost want = grid.texts().subrange(from as int, to as int);
    let mut out: Vec<String> = Vec::new();
    let mut i: usize = from;
    assert(text::views(out@) =~= want.take(0));
    while i < to
        invariant
            from <= i <= to <= grid.rows@.len(),
            want == grid.texts().subrange(from as int, to as int),
            text::views(out@) == want.take(i - from),
        decreases to - i,
    {
        text::push_text(&mut out, line_to_string(grid.rows[i].as_slice()));
        i += 1;
        assert(text::views(out@) =~= want.take(i - from));
    }
    assert(want.take(i - from) =~= want);
    out
}

/// The text of the lines on display.
pub fn collect_visible_lines(grid: &TerminalGrid) -> (r: Vec<String>)
    requires
        grid.well_formed(),
    ensures
        text::views(r@) == grid.visible(),
{
    let top: usize = grid.history - grid.display_offset;
    collect_lines(grid, top, top + grid.screen_lines)
}

/// Inclusive `[top, bottom]` grid-line range covering the last `max_lines` lines.
///
/// Buffer-relative, unlike [`collect_visible_lines`]: it always ends at the bottom of the
/// buffer so scrolling up does not change which commands are recovered.
pub fn scan_range(topmost: i32, bottommost: i32, max_lines: usize) -> (r: (i32, i32))
    requires
        max_lines <= i64::MAX,
        bottommost - max_lines >= i64::MIN,
    ensures
        r.1 == bottommost,
        ({
            let n = if max_lines > 1 {
                max_lines as int
            } else {
                1
            };
            r.0 == if bottommost - n + 1 > topmost {
                bottommost - n + 1
            } else {
                topmost as int
            }
        }),
{
    let max: i64 = if max_lines > 1 {
        max_lines as i64
    } else {
        1
    };
    let first: i64 = bottommost as i64 - max + 1;
    let start: i64 = if first > topmost as i64 {
        first
    } else {
        topmost as i64
    };
    (start as i32, bottommost)
}

/// The text of the newest `max_lines` lines.
pub fn collect_recent_lines(grid: &TerminalGrid, max_lines: usize) -> (r: Vec<String>)
    requires
        grid.well_formed(),
        max_lines <= i64::MAX,
    ensures
        text::views(r@) == grid.recent(max_lines as int),
{
    let total = grid.rows.len();
    if total == 0 {
        let none: Vec<String> = Vec::new();
        assert(text::views(none@) =~= grid.recent(max_lines as int));
        return none;
    }
    let topmost: i32 = -(grid.history as i32);
    let bottommost: i32 = (total as i32 - grid.history as i32) - 1;
    let (start, end) = scan_range(topmost, bottommost, max_lines);
    let from: usize = (start as i64 - topmost as i64) as usize;
    let out = collect_lines(grid, from, total);
    assert(grid.texts().subrange(from as int, total as int) =~= grid.recent(max_lines as int));
    out
}

// ── Selection ────────────────────────────────────────────────────────────────

/// A selected stretch of the grid, both ends included. A block selection takes the same columns
/// of each line.
#[derive(Debug, Clone, Copy, PartialEq, Eq, Structural)]
pub struct SelectionSpan {
    pub start_line: i32,
    pub start_column: usize,
    pub end_line: i32,
    pub end_column: usize,
    pub is_block: bool,
}

impl SelectionSpan {
    /// Whether a position is selected.
    pub open spec fn covers(self, line: int, column: int) -> bool {
        &&& self.start_line <= line <= self.end_line
        &&& self.start_column <= column || (self.start_line != line && !self.is_block)
        &&& column <= self.end_column || (self.end_line != line && !self.is_block)
    }

    /// Whether the span ends before it starts.
    pub open spec fn is_backwards(self) -> bool {
        self.start_line > self.end_line || (self.start_line == self.end_line && self.start_column
            > self.end_column)
    }

    /// Whether every position that the span is read at lies on the grid.
    pub open spec fn lies_on(self, grid: TerminalGrid) -> bool {
        self.is_backwards() || (-grid.history <= self.start_line && self.end_line
            < grid.screen_lines && self.start_column < grid.columns)
    }
}

/// `acc` with a line feed behind it, unless it is empty or has one.
pub open spec fn with_line_feed(acc: Seq<char>) -> Seq<char> {
    if acc.len() > 0 && acc.last() != '\n' {
        acc.push('\n')
    } else {
        acc
    }
}

/// `acc` with the character at a position behind it, where the position is selected.
pub open spec fn with_cell(
    grid: TerminalGrid,
    span: SelectionSpan,
    line: int,
    column: int,
    acc: Seq<char>,
) -> Seq<char> {
    let cell = grid.rows@[line + grid.history]@[column];
    if span.covers(line, column) && !cell.spacer {
        acc.push(cell.c)
    } else {
        acc
    }
}

/// `acc` with what is selected from a position on behind it, line by line.
pub open spec fn selected_from(
    grid: TerminalGrid,
    span: SelectionSpan,
    line: int,
    column: int,
    acc: Seq<char>,
) -> Seq<char>
    decreases span.end_line - line, grid.columns - column,
{
    if line > span.end_line || (line == span.end_line && column > span.end_column) {
        acc
    } else {
        let next = with_cell(grid, span, line, column, acc);
        if line == span.end_line && column == span.end_column {
            next
        } else if column >= grid.columns - 1 {
            if line == span.end_line {
                with_line_feed(next)
            } else {
                selected_from(grid, span, line + 1, 0, with_line_feed(next))
            }
        } else {
            selected_from(grid, span, line, column + 1, next)
        }
    }
}

/// The selected text, where it is not blank.
pub open spec fn selection_in(grid: TerminalGrid, span: SelectionSpan) -> Option<Seq<char>> {
    let t = text::trimmed(
        selected_from(grid, span, span.start_line as int, span.start_column as int, seq![]),
    );
    if t.len() > 0 {
        Some(t)
    } else {
        None
    }
}

fn is_covered(span: &SelectionSpan, line: i32, column: usize) -> (r: bool)
    ensures
        r == span.covers(line as int, column as int),
{
    span.start_line <= line && line <= span.end_line && (span.start_column <= column || (
    span.start_line != line && !span.is_block)) && (column <= span.end_column || (span.end_line
        != line && !span.is_block))
}

/// The selected text, where it is not blank.
pub fn extract_selection(grid: &TerminalGrid, span: &SelectionSpan) -> (r: Option<String>)
    requires
        grid.well_formed(),
        span.lies_on(*grid),
    ensures
        text::opt_string(r) == selection_in(*grid, *span),
{
    let ghost want = selected_from(
        *grid,
        *span,
        span.start_line as int,
        span.start_column as int,
        seq![],
    );
    let mut out: Vec<char> = Vec::new();
    let mut line: i32 = span.start_line;
    let mut column: usize = span.start_column;
    let total = grid.rows.len();
    let backwards = span.start_line > span.end_line || (span.start_line == span.end_line
        && span.start_column > span.end_column);
    assert(out@ =~= seq![]);
    loop
        invariant_except_break
            selected_from(*grid, *span, line as int, column as int, out@) == want,
        invariant
            grid.well_formed(),
            total == grid.rows@.len(),
            span.lies_on(*grid),
            line >= span.start_line,
            !span.is_backwards() ==> column < grid.columns,
            span.is_backwards() ==> line == span.start_line && column == span.start_column,
        ensures
            out@ == want,
        decreases span.end_line - line, grid.columns - column,
    {
        if line > span.end_line || (line == span.end_line && column > span.end_column) {
            break;
        }
        let at: usize = (line as i64 + grid.history as i64) as usize;
        let cell = grid.rows[at][column];
        if is_covered(span, line, column) && !cell.spacer {
            out.push(cell.c);
        }
        if line == span.end_line && column == span.end_column {
            break;
        }
        if grid.columns - 1 <= column {
            let n = out.len();
            if n > 0 && out[n - 1] != '\n' {
                out.push('\n');
            }
            if line == span.end_line {
                break;
            }
            column = 0;
            line = line + 1;
        } else {
            column = column + 1;
        }
    }
    let whole = text::string_of(out.as_slice());
    let t = text::trim(whole.as_str());
    if t.is_empty() {
        None
    } else {
        Some(t.to_owned())
    }
}

// ── Context ──────────────────────────────────────────────────────────────────

/// The note that stands where lines were left out.
pub open spec fn skipped_note(n: int) -> Seq<char> {
    "\n... [truncated "@ + text::decimal(n as nat) + " lines] ...\n"@
}

/// Lines with the middle left out where there are too many.
pub open spec fn middle_cut(lines: Seq<Seq<char>>) -> Seq<char> {
    if lines.len() <= PREFIX_LINES + SUFFIX_LINES {
        text::joined(lines, "\n"@)
    } else {
        text::joined(lines.take(PREFIX_LINES as int), "\n"@) + skipped_note(
            lines.len() - PREFIX_LINES - SUFFIX_LINES,
        ) + text::joined(lines.skip(lines.len() - SUFFIX_LINES), "\n"@)
    }
}

/// The text of lines, cut in the middle and then at the character limit.
pub open spec fn screen_text(lines: Seq<Seq<char>>) -> Seq<char> {
    cut_at(middle_cut(lines), MAX_CHARS as nat, "\n... [char limit reached]"@)
}

/// What is shown of the screen keeps to the character limit, but for the note of the cut.
pub proof fn law_screen_text_is_bounded(lines: Seq<Seq<char>>)
    ensures
        screen_text(lines).len() <= MAX_CHARS + "\n... [char limit reached]"@.len(),
{
}

/// Where lines are left out, the first and the last forty are kept.
pub proof fn law_middle_cut_keeps_ends(lines: Seq<Seq<char>>)
    requires
        lines.len() > PREFIX_LINES + SUFFIX_LINES,
    ensures
        text::joined(lines.take(PREFIX_LINES as int), "\n"@).is_prefix_of(middle_cut(lines)),
        text::joined(lines.skip(lines.len() - SUFFIX_LINES), "\n"@).is_suffix_of(middle_cut(lines)),
{
    let a = text::joined(lines.take(PREFIX_LINES as int), "\n"@);
    let b = text::joined(lines.skip(lines.len() - SUFFIX_LINES), "\n"@);
    let r = middle_cut(lines);
    assert(r.subrange(0, a.len() as int) =~= a);
    assert(r.subrange(r.len() - b.len(), r.len() as int) =~= b);
}

/// The text of lines, cut in the middle and then at the character limit.
pub fn truncate_lines(lines: &[String]) -> (r: String)
    ensures
        r@ == screen_text(text::views(lines@)),
{
    let ghost all = text::views(lines@);
    let whole = if lines.len() <= PREFIX_LINES + SUFFIX_LINES {
        text::join(lines, "\n")
    } else {
        let n = lines.len();
        let skipped: usize = n - PREFIX_LINES - SUFFIX_LINES;
        let head = vstd::slice::slice_subrange(lines, 0, PREFIX_LINES);
        let tail = vstd::slice::slice_subrange(lines, n - SUFFIX_LINES, n);
        assert(text::views(head@) =~= all.take(PREFIX_LINES as int));
        assert(text::views(tail@) =~= all.skip(all.len() - SUFFIX_LINES));
        let first = text::join(head, "\n");
        let last = text::join(tail, "\n");
        let number = text::usize_text(skipped);
        let note = text::concat3("\n... [truncated ", number.as_str(), " lines] ...\n");
        text::concat3(first.as_str(), note.as_str(), last.as_str())
    };
    truncate_with_marker(whole.as_str(), MAX_CHARS, "\n... [char limit reached]")
}

/// `entries` with the exit code of the newest filled in where it is not known.
pub open spec fn with_exit_code(entries: Seq<CommandEntryView>, code: Option<i32>) -> Seq<
    CommandEntryView,
> {
    if entries.len() > 0 && entries.last().exit_code is None {
        entries.drop_last().push(CommandEntryView { exit_code: code, ..entries.last() })
    } else {
        entries
    }
}

/// The history of a grid, and where it is from.
pub open spec fn history_of(grid: TerminalGrid, records: Seq<RecordView>) -> (
    Seq<CommandEntryView>,
    HistorySource,
) {
    session::merged(
        records,
        blocks_in(grid.recent(HISTORY_SCAN_LINES as int), HISTORY_MAX_BLOCKS as int),
        HISTORY_MAX_ENTRIES as int,
    )
}

/// The last command: that of the newest record, else what the shell hook wrote, else the newest
/// that the grid shows.
pub open spec fn last_command_of(
    history: (Seq<CommandEntryView>, HistorySource),
    file: Option<Seq<char>>,
    lines: Seq<Seq<char>>,
) -> Seq<char> {
    let written = match file {
        Some(s) => history_command(s),
        None => None,
    };
    let block = blocks_in(lines, 1);
    if history.1 == HistorySource::ShellHook && history.0.len() > 0
        && history.0.last().command.len() > 0 {
        history.0.last().command
    } else if written is Some {
        written->0
    } else if history.0.len() > 0 && history.0.last().command.len() > 0 {
        history.0.last().command
    } else if block.len() > 0 {
        block.last().command
    } else {
        last_typed(last_ten(lines))
    }
}

/// The history with the last command at its end: in its own words where the newest entry is the
/// same command read off the grid, else behind that entry. An empty history stays empty, and
/// the oldest entry gives way where there is one too many.
pub open spec fn ending_with(entries: Seq<CommandEntryView>, command: Seq<char>) -> Seq<
    CommandEntryView,
> {
    if entries.len() == 0 || entries.last().command == command {
        entries
    } else if session::same_command(entries.last().command, command) {
        entries.drop_last().push(CommandEntryView { command, ..entries.last() })
    } else {
        let longer = entries.push(
            CommandEntryView { command, exit_code: None, output: seq![], cwd: seq![] },
        );
        if longer.len() > HISTORY_MAX_ENTRIES {
            longer.skip(longer.len() - HISTORY_MAX_ENTRIES)
        } else {
            longer
        }
    }
}

/// The output of the last command: that of the newest command on the screen, where this is the
/// last command.
pub open spec fn last_output_of(block: Seq<BlockView>, last_command: Seq<char>) -> Seq<char> {
    if block.len() > 0 && (block.last().command == last_command || session::same_command(
        block.last().command,
        last_command,
    )) {
        block.last().output
    } else {
        seq![]
    }
}

/// Whether a context is what a grid shows.
pub open spec fn is_context_of(
    ctx: TerminalContext,
    grid: TerminalGrid,
    selection: Option<SelectionSpan>,
    cwd: Seq<char>,
    last_exit_code: Option<i32>,
    records: Seq<RecordView>,
    last_command_file: Option<Seq<char>>,
) -> bool {
    let lines = grid.visible();
    let block = blocks_in(lines, 1);
    let history = history_of(grid, records);
    let last_command = last_command_of(history, last_command_file, lines);
    let entries = with_exit_code(ending_with(history.0, last_command), last_exit_code);
    &&& ctx.visible_text@ == screen_text(lines)
    &&& text::opt_string(ctx.selected_text) == match selection {
        Some(span) => selection_in(grid, span),
        None => None,
    }
    &&& ctx.last_command@ == last_command
    &&& ctx.last_command_output@ == last_output_of(block, last_command)
    &&& types::entry_views(ctx.command_history@) == entries
    &&& ctx.history_source == history.1
    &&& ctx.cwd@ == cwd
    &&& ctx.exit_code == if entries.len() > 0 && entries.last().exit_code is Some {
        entries.last().exit_code
    } else {
        last_exit_code
    }
    &&& ctx.rows == grid.screen_lines as u16
    &&& ctx.cols == grid.columns as u16
}

/// The history with the last command at its end.
fn end_with(entries: Vec<types::CommandEntry>, command: &str) -> (r: Vec<types::CommandEntry>)
    ensures
        types::entry_views(r@) == ending_with(types::entry_views(entries@), command@),
{
    let ghost all = types::entry_views(entries@);
    let mut out = entries;
    let n = out.len();
    assert(all.len() == n);
    if n == 0 {
        return out;
    }
    assert(all.last() == out@[n - 1]@);
    if text::same(out[n - 1].command.as_str(), command) {
        return out;
    }
    if session::commands_equal(out[n - 1].command.as_str(), command) {
        if let Some(newest) = out.pop() {
            out.push(
                types::CommandEntry {
                    command: command.to_owned(),
                    exit_code: newest.exit_code,
                    output: newest.output,
                    cwd: newest.cwd,
                },
            );
        }
        assert(types::entry_views(out@) =~= ending_with(all, command@));
        return out;
    }
    let added = types::CommandEntry {
        command: command.to_owned(),
        exit_code: None,
        output: String::new(),
        cwd: String::new(),
    };
    let ghost added_view = added@;
    out.push(added);
    let ghost longer = types::entry_views(out@);
    assert(added_view.output =~= seq![] && added_view.cwd =~= seq![]);
    assert(longer =~= all.push(added_view));
    let mut total = out.len();
    assert(longer.skip(0) =~= longer);
    while total > HISTORY_MAX_ENTRIES
        invariant
            total == out@.len(),
            longer.len() > HISTORY_MAX_ENTRIES ==> total >= HISTORY_MAX_ENTRIES,
            total <= longer.len(),
            longer.len() <= HISTORY_MAX_ENTRIES ==> total == longer.len(),
            types::entry_views(out@) == longer.skip(longer.len() - total),
        decreases total,
    {
        let ghost held = types::entry_views(out@);
        out.remove(0);
        total = total - 1;
        assert(types::entry_views(out@) =~= held.skip(1));
        assert(held.skip(1) =~= longer.skip(longer.len() - total));
    }
    assert(longer.skip(0) =~= longer);
    out
}

/// Extract terminal context from the grid.
///
/// `records` are the commands the shell integration hook wrote for this session, oldest
/// first. They are authoritative for command text and exit codes; the grid supplies the
/// output each command produced. Pass an empty slice when the hook is not installed.
/// `last_command_file` is what the hook wrote as the last command. A selection that does not lie
/// on the grid gives an empty context.
pub fn extract_context(
    grid: &TerminalGrid,
    selection: Option<SelectionSpan>,
    cwd: &str,
    last_exit_code: Option<i32>,
    records: &[CommandRecord],
    last_command_file: Option<&str>,
) -> (r: TerminalContext)
    requires
        grid.well_formed(),
    ensures
        (selection is Some ==> selection->0.lies_on(*grid)) ==> is_context_of(
            r,
            *grid,
            selection,
            cwd@,
            last_exit_code,
            session::record_views(records@),
            text::opt_text(last_command_file),
        ),
        r.command_history@.len() > 0 ==> r.command_history@.last().command@ == r.last_command@,
        selection is Some && !selection->0.lies_on(*grid) ==> r.visible_text@.len() == 0
            && r.selected_text is None && r.last_command@.len() == 0
            && r.last_command_output@.len() == 0 && r.command_history@.len() == 0
            && r.history_source == HistorySource::Absent && r.cwd@.len() == 0 && r.exit_code is None
            && r.rows == 0 && r.cols == 0,
{
    let selected_text = match selection {
        Some(span) => {
            let backwards = span.start_line > span.end_line || (span.start_line == span.end_line
                && span.start_column > span.end_column);
            let inside = -(grid.history as i64) <= span.start_line as i64 && (span.end_line as i64)
                < grid.screen_lines as i64 && span.start_column < grid.columns;
            if !backwards && !inside {
                return TerminalContext::default();
            }
            extract_selection(grid, &span)
        },
        None => None,
    };
    let lines = collect_visible_lines(grid);
    let visible_text = truncate_lines(lines.as_slice());
    let (block_command, block_output) = extract_command_block(lines.as_slice());
    proof {
        law_blocks(grid.visible(), 1);
    }

    // Reconstruct the session history from the scrollback, which reaches further back
    // than the viewport and is unaffected by how far the user has scrolled.
    let recent = collect_recent_lines(grid, HISTORY_SCAN_LINES);
    let blocks = extract_command_blocks(recent.as_slice(), HISTORY_MAX_BLOCKS);
    let (entries, history_source) = session::merge_history(
        records,
        blocks.as_slice(),
        HISTORY_MAX_ENTRIES,
    );
    let ghost merged = types::entry_views(entries@);
    assert(merged.len() == entries@.len());

    // A shell record's command text beats every grid heuristic. Without records the
    // fallback chain is the state file, then the grid.
    let m = entries.len();
    let newest: Option<String> = if m > 0 && !entries[m - 1].command.as_str().is_empty() {
        assert(merged.last() == entries@[m - 1]@);
        Some(entries[m - 1].command.clone())
    } else {
        assert(m > 0 ==> merged.last() == entries@[m - 1]@);
        None
    };
    let written = if history_source == HistorySource::ShellHook && newest.is_some() {
        None
    } else {
        read_last_command(last_command_file)
    };
    let last_command = match (written, newest) {
        (Some(c), _) => c,
        (None, Some(c)) => c,
        (None, None) => {
            if !block_command.as_str().is_empty() {
                block_command.clone()
            } else {
                extract_last_command(lines.as_slice())
            }
        },
    };
    let shown = !block_command.as_str().is_empty() && (text::same(
        block_command.as_str(),
        last_command.as_str(),
    ) || session::commands_equal(block_command.as_str(), last_command.as_str()));
    let last_command_output = if shown {
        block_output
    } else {
        String::new()
    };
    assert(last_command_output@ =~= last_output_of(
        blocks_in(grid.visible(), 1),
        last_command@,
    ));
    let mut history = end_with(entries, last_command.as_str());
    let n = history.len();
    let ghost before = types::entry_views(history@);
    assert(before.len() == n);

    // On the grid-only path the newest command's exit code is the one thing the shell
    // still tells us, via the state file.
    if n > 0 {
        assert(before.last() == history@[n - 1]@);
        if history[n - 1].exit_code.is_none() {
            if let Some(newest) = history.pop() {
                let filled = types::CommandEntry {
                    command: newest.command,
                    exit_code: last_exit_code,
                    output: newest.output,
                    cwd: newest.cwd,
                };
                history.push(filled);
            }
        }
    }
    assert(types::entry_views(history@) =~= with_exit_code(before, last_exit_code));

    // Prefer the session's own newest exit code over the state file, which every
    // Learnminal window writes to.
    let exit_code = if n > 0 && history[n - 1].exit_code.is_some() {
        history[n - 1].exit_code
    } else {
        last_exit_code
    };
    assert(n > 0 ==> types::entry_views(history@).last() == history@[n - 1]@);

    TerminalContext {
        visible_text,
        selected_text,
        last_command,
        last_command_output,
        command_history: history,
        history_source,
        cwd: cwd.to_owned(),
        exit_code,
        rows: grid.screen_lines as u16,
        cols: grid.columns as u16,
    }
}

// ── What is read off a terminal ──────────────────────────────────────────────

/// A line on which `command` was typed behind a prompt such as `user@host $ ` is a prompt line,
/// and the command is what was typed: all of it.
pub proof fn law_typed_command(head: Seq<char>, marker: char, command: Seq<char>)
    requires
        is_marker(marker),
        head.contains('@'),
        head.len() > 0,
        !text::is_white(head.last()),
        command.len() > 0,
        text::is_tight(command),
        forall|k: int| 0 <= k < command.len() ==> !is_marker(#[trigger] command[k]),
    ensures
        ({
            let line = head + seq![' ', marker, ' '] + command;
            has_prompt(line) && typed_command(line) == Some(command)
        }),
        has_prompt(head + seq![' ', marker]),
{
    let line = head + seq![' ', marker, ' '] + command;
    let at = head.len() as int + 1;
    assert(line.take(at) =~= head + seq![' ']);
    lemma_prompt_behind(head, line, at);
    assert(prompt_before_text(line, at));
    assert(prompt_at(line, at));
    assert(line.skip(at + 1) =~= seq![' '] + command);
    lemma_command_from(line, at, line.len() as int, command);
    let bare = head + seq![' ', marker];
    assert(bare.take(at) =~= head + seq![' ']);
    lemma_prompt_behind(head, bare, at);
    assert(prompt_at(bare, at));
}

/// A line that starts with a marker and a blank is a prompt line, whatever was typed behind it.
pub proof fn law_typed_command_at_start(marker: char, command: Seq<char>)
    requires
        is_marker(marker),
        command.len() > 0,
        text::is_tight(command),
        forall|k: int| 0 <= k < command.len() ==> !is_marker(#[trigger] command[k]),
    ensures
        has_prompt(seq![marker, ' '] + command),
        typed_command(seq![marker, ' '] + command) == Some(command),
{
    let line = seq![marker, ' '] + command;
    assert(prompt_before_text(line, 0));
    assert(prompt_at(line, 0));
    assert(line.skip(1) =~= seq![' '] + command);
    lemma_command_from(line, 0, line.len() as int, command);
}

/// A line without a marker is no prompt line.
pub proof fn law_output_line_is_no_prompt(line: Seq<char>)
    requires
        forall|k: int| 0 <= k < line.len() ==> !is_marker(#[trigger] line[k]),
    ensures
        !has_prompt(line),
        typed_command(line) is None,
{
    law_command_follows_last_prompt(line);
}

/// What may end a prompt.
pub proof fn law_markers(c: char)
    ensures
        is_marker(c) <==> seq!['$', '#', '%', '❯'].contains(c),
{
    let all = seq!['$', '#', '%', '❯'];
    assert(all[0] == '$' && all[1] == '#' && all[2] == '%' && all[3] == '❯');
}

proof fn lemma_prompt_behind(head: Seq<char>, line: Seq<char>, at: int)
    requires
        head.contains('@'),
        head.len() > 0,
        !text::is_white(head.last()),
        at == head.len() + 1,
        at < line.len(),
        line.take(at) == head + seq![' '],
    ensures
        likely_prompt(line, at),
{
    let t = line.take(at);
    text::lemma_rtrimmed(t);
    let prefix = text::rtrimmed(t);
    assert(t[head.len() - 1] == head.last());
    assert(t[head.len() as int] == ' ');
    assert(prefix.len() == head.len()) by {
        if prefix.len() > head.len() {
            assert(prefix.last() == ' ');
        }
        if prefix.len() < head.len() {
            assert(text::is_white(t[head.len() - 1]));
        }
    }
    assert(prefix =~= head);
    assert(line[at - 1] == t[at - 1]);
}

proof fn lemma_command_from(line: Seq<char>, at: int, n: int, command: Seq<char>)
    requires
        prompt_before_text(line, at),
        line.skip(at + 1) == seq![' '] + command,
        command.len() > 0,
        text::is_tight(command),
        forall|k: int| 0 <= k < command.len() ==> !is_marker(#[trigger] command[k]),
        at < n <= line.len(),
    ensures
        command_before(line, n) == Some(command),
    decreases n,
{
    let rest = line.skip(at + 1);
    if n - 1 == at {
        assert(line.skip(n) =~= rest);
        text::lemma_lead_is(rest, text::CharSet::White, 1);
        assert(rest.skip(1) =~= command);
        text::lemma_trimmed_same(command);
        assert(text::trimmed_start(rest, text::CharSet::White) =~= command);
        assert(command.take(command.len() as int) =~= command);
        assert(text::trail(command, text::CharSet::White) == 0);
    } else {
        let typed = seq![' '] + command;
        assert(rest.len() == line.len() - at - 1);
        assert(line[n - 1] == rest[n - 2 - at]);
        assert(rest[n - 2 - at] == typed[n - 2 - at]);
        if n - 2 - at > 0 {
            assert(typed[n - 2 - at] == command[n - 3 - at]);
        }
        assert(!prompt_before_text(line, n - 1));
        lemma_command_from(line, at, n - 1, command);
    }
}

/// Between a prompt line on which a command was typed and the next prompt line stands the output
/// of the command: the block of the command holds every row between them, in its order, none
/// missing and none added.
pub proof fn law_output_is_every_row(
    lines: Seq<Seq<char>>,
    max: int,
    from: int,
    to: int,
    command: Seq<char>,
)
    requires
        0 <= from < to < lines.len(),
        lines.len() <= max + 1,
        has_prompt(lines[from]),
        has_prompt(lines[to]),
        forall|r: int| from < r < to ==> !has_prompt(#[trigger] lines[r]),
        typed_command(lines[from]) == Some(command),
    ensures
        exists|b: int|
            0 <= b < blocks_in(lines, max).len() && {
                let block = #[trigger] blocks_in(lines, max)[b];
                &&& block.prompt_row == from
                &&& block.command == command
                &&& is_output_of(block.output, lines.subrange(from + 1, to))
            },
{
    let n = lines.len() as int;
    let rows = prompt_rows(lines, n);
    lemma_prompt_rows(lines, n);
    lemma_all_prompt_rows(lines, n, from);
    lemma_all_prompt_rows(lines, n, to);
    lemma_few_prompt_rows(lines, n);
    let i = choose|i: int| 0 <= i < rows.len() && rows[i] == from;
    let j = choose|j: int| 0 <= j < rows.len() && rows[j] == to;
    assert(i < j) by {
        if j < i {
            assert(rows[j] < rows[i]);
        }
    }
    assert(j == i + 1) by {
        if i + 1 < j {
            assert(rows[i] < rows[i + 1] && rows[i + 1] < rows[j]);
            assert(has_prompt(lines[rows[i + 1]]));
        }
    }
    assert(last_rows(rows, max + 1) == rows);
    lemma_block_of_pair(rows, lines, i);
    let b = choose|b: int|
        0 <= b < blocks_between(rows, lines).len() && #[trigger] blocks_between(rows, lines)[b]
            == (BlockView { command, output: output_between(lines, from, to), prompt_row: from });
    assert(blocks_in(lines, max)[b].prompt_row == from);
    lemma_output_between(lines, from, to);
}

/// Whether `output` is what `rows` say: where it is not too long, the rows that are not blank
/// stand in it, trimmed and in their order, and where neither end of it is blank, splitting it
/// at line feeds gives back exactly the rows. Where it is too long, it is the start of that.
pub open spec fn is_output_of(output: Seq<char>, rows: Seq<Seq<char>>) -> bool {
    &&& text::joined_len(rows) <= MAX_BLOCK_OUTPUT_CHARS ==> text::is_text_of_rows(output, rows)
    &&& output.len() <= MAX_BLOCK_OUTPUT_CHARS + "\n... [output truncated]"@.len()
}

proof fn lemma_output_between(lines: Seq<Seq<char>>, from: int, to: int)
    requires
        0 <= from < to < lines.len(),
    ensures
        is_output_of(output_between(lines, from, to), lines.subrange(from + 1, to)),
{
    reveal_strlit("\n");
    assert("\n"@ =~= seq!['\n']);
    let rows = lines.subrange(from + 1, to);
    let whole = text::joined(rows, "\n"@);
    text::lemma_joined_len(rows);
    text::lemma_trimmed_part(whole);
    text::lemma_text_of_rows(rows);
}

proof fn lemma_all_prompt_rows(lines: Seq<Seq<char>>, n: int, r: int)
    requires
        0 <= r < n <= lines.len(),
        has_prompt(lines[r]),
    ensures
        exists|i: int| 0 <= i < prompt_rows(lines, n).len() && #[trigger] prompt_rows(lines, n)[i]
            == r,
    decreases n,
{
    let before = prompt_rows(lines, n - 1);
    if r == n - 1 {
        assert(prompt_rows(lines, n)[before.len() as int] == r);
    } else {
        lemma_all_prompt_rows(lines, n - 1, r);
        let i = choose|i: int| 0 <= i < before.len() && #[trigger] before[i] == r;
        assert(prompt_rows(lines, n)[i] == r);
    }
}

proof fn lemma_few_prompt_rows(lines: Seq<Seq<char>>, n: int)
    requires
        0 <= n <= lines.len(),
    ensures
        prompt_rows(lines, n).len() <= n,
    decreases n,
{
    if n > 0 {
        lemma_few_prompt_rows(lines, n - 1);
    }
}

proof fn lemma_block_of_pair(rows: Seq<int>, lines: Seq<Seq<char>>, i: int)
    requires
        0 <= i,
        i + 1 < rows.len(),
        typed_command(lines[rows[i]]) is Some,
    ensures
        exists|b: int|
            0 <= b < blocks_between(rows, lines).len() && #[trigger] blocks_between(rows, lines)[b]
                == (BlockView {
                command: typed_command(lines[rows[i]])->0,
                output: output_between(lines, rows[i], rows[i + 1]),
                prompt_row: rows[i],
            }),
    decreases rows.len(),
{
    let init = rows.drop_last();
    let before = blocks_between(init, lines);
    let all = blocks_between(rows, lines);
    if i + 2 == rows.len() {
        assert(all[before.len() as int].prompt_row == rows[i]);
    } else {
        lemma_block_of_pair(init, lines, i);
        let want = BlockView {
            command: typed_command(lines[rows[i]])->0,
            output: output_between(lines, rows[i], rows[i + 1]),
            prompt_row: rows[i],
        };
        assert(init[i] == rows[i] && init[i + 1] == rows[i + 1]);
        let b = choose|b: int| 0 <= b < before.len() && #[trigger] before[b] == want;
        assert(all[b] == want);
    }
}

/// A row without wide characters reads as the characters of its cells, without the blanks at its
/// end.
pub proof fn law_row_text(cells: Seq<GridCell>)
    requires
        forall|i: int| 0 <= i < cells.len() ==> !(#[trigger] cells[i]).spacer,
    ensures
        row_text(cells).len() <= cells.len(),
        forall|i: int|
            0 <= i < row_text(cells).len() ==> #[trigger] row_text(cells)[i] == cells[i].c,
        forall|i: int|
            row_text(cells).len() <= i < cells.len() ==> text::is_white((#[trigger] cells[i]).c),
        row_text(cells).len() > 0 ==> !text::is_white(row_text(cells).last()),
{
    lemma_cell_chars(cells);
    text::lemma_rtrimmed(cell_chars(cells));
    assert forall|i: int| row_text(cells).len() <= i < cells.len() implies text::is_white(
        (#[trigger] cells[i]).c,
    ) by {
        assert(cell_chars(cells)[i] == cells[i].c);
    }
}

proof fn lemma_cell_chars(cells: Seq<GridCell>)
    requires
        forall|i: int| 0 <= i < cells.len() ==> !(#[trigger] cells[i]).spacer,
    ensures
        cell_chars(cells) == Seq::new(cells.len(), |i: int| cells[i].c),
    decreases cells.len(),
{
    if cells.len() > 0 {
        let init = cells.drop_last();
        assert forall|i: int| 0 <= i < init.len() implies !(#[trigger] init[i]).spacer by {
            assert(init[i] == cells[i]);
        }
        assert(cells.last() == cells[cells.len() - 1]);
        lemma_cell_chars(init);
    }
    assert(cell_chars(cells) =~= Seq::new(cells.len(), |i: int| cells[i].c));
}

/// The lines that are read are rows of the grid: those on the screen, and the newest ones.
pub proof fn law_rows_read(grid: TerminalGrid, max: int, i: int)
    requires
        grid.well_formed(),
        max >= 1,
    ensures
        grid.visible().len() == grid.screen_lines,
        0 <= i < grid.screen_lines ==> grid.visible()[i] == row_text(
            grid.rows@[grid.history - grid.display_offset + i]@,
        ),
        grid.recent(max).len() == if grid.rows@.len() < max {
            grid.rows@.len() as int
        } else {
            max
        },
        0 <= i < grid.recent(max).len() ==> grid.recent(max)[i] == row_text(
            grid.rows@[grid.rows@.len() - grid.recent(max).len() + i]@,
        ),
{
}

/// Few short lines are shown in full: splitting the text at line feeds gives them back.
pub proof fn law_screen_text_holds_lines(lines: Seq<Seq<char>>)
    requires
        0 < lines.len() <= 40 + 40,
        text::joined_len(lines) <= 8_000,
        forall|r: int| 0 <= r < lines.len() ==> !(#[trigger] lines[r]).contains('\n'),
    ensures
        text::piece_list(screen_text(lines), '\n') == lines,
{
    reveal_strlit("\n");
    assert("\n"@ =~= seq!['\n']);
    text::lemma_joined_len(lines);
    text::law_join_and_split(lines, '\n');
}

/// Many lines are shown with their start and their end: the first and the last lines stand in
/// the text, in their order, as far as the limit on characters lets them.
pub proof fn law_screen_text_holds_ends(lines: Seq<Seq<char>>)
    requires
        lines.len() > 40 + 40,
        middle_cut(lines).len() <= 8_000,
    ensures
        text::in_order(
            screen_text(lines),
            lines.take(40) + lines.skip(lines.len() - 40),
        ),
{
    let a = lines.take(PREFIX_LINES as int);
    let b = lines.skip(lines.len() - SUFFIX_LINES);
    let note = skipped_note(lines.len() - PREFIX_LINES - SUFFIX_LINES);
    text::law_joined_holds_all(a, "\n"@);
    text::law_joined_holds_all(b, "\n"@);
    let x = text::joined(a, "\n"@);
    let y = text::joined(b, "\n"@);
    text::lemma_in_order_around(Seq::<char>::empty(), x, note, a);
    assert(Seq::<char>::empty() + x + note =~= x + note);
    text::lemma_in_order_concat(x + note, y, a, b);
}

/// A number that was written in decimal is read back, with or without a sign.
pub proof fn law_number_read_back(n: int)
    requires
        i32::MIN <= n <= i32::MAX,
    ensures
        number_in(text::signed_decimal(n)) == Some(n as i32),
{
    let m = if n < 0 {
        -n
    } else {
        n
    };
    let digits = text::decimal(m as nat);
    text::law_decimal(m as nat);
    lemma_digits_are_number(digits);
    assert(text::is_digit(digits[0]));
    if n < 0 {
        assert(text::signed_decimal(n).drop_first() =~= digits);
    }
}

proof fn lemma_digits_are_number(s: Seq<char>)
    ensures
        digits_value(s) == text::number_of(s),
    decreases s.len(),
{
    if s.len() > 0 {
        lemma_digits_are_number(s.drop_last());
    }
}

/// The command that the shell wrote down is read back in full, with or without the time stamp
/// that zsh writes before it.
pub proof fn law_written_command_read_back(stamp: Seq<char>, command: Seq<char>)
    requires
        command.len() > 0,
        text::is_tight(command),
        !stamp.contains(';'),
    ensures
        !": "@.is_prefix_of(command) ==> history_command(command) == Some(command),
        history_command(": "@ + stamp + ";"@ + command) == Some(command),
{
    reveal_strlit(": ");
    reveal_strlit(";");
    text::lemma_trimmed_same(command);
    let raw = ": "@ + stamp + ";"@ + command;
    assert(raw[0] == ':' && raw.last() == command.last());
    text::lemma_trimmed_same(raw);
    assert(": "@.is_prefix_of(raw)) by {
        assert(raw.subrange(0, 2) =~= ": "@);
    }
    let rest = raw.skip(2);
    assert(rest =~= stamp + ";"@ + command);
    let n = stamp.len() as int;
    assert forall|k: int| 0 <= k < n implies text::CharSet::Not(';').has(#[trigger] rest[k]) by {
        assert(rest[k] == stamp[k]);
        assert(stamp.contains(stamp[k]));
    }
    text::lemma_lead_is(rest, text::CharSet::Not(';'), n);
    assert(rest.skip(n + 1) =~= command);
}

/// The first selected column of a line, and the one behind the last.
pub open spec fn selected_columns(grid: TerminalGrid, span: SelectionSpan, line: int) -> (int, int) {
    (
        if line == span.start_line || span.is_block {
            span.start_column as int
        } else {
            0
        },
        if (line == span.end_line || span.is_block) && span.end_column < grid.columns {
            span.end_column + 1
        } else {
            grid.columns as int
        },
    )
}

/// The selected characters of a line from `column` on.
pub open spec fn selected_in_line(
    grid: TerminalGrid,
    span: SelectionSpan,
    line: int,
    column: int,
) -> Seq<char> {
    let (lo, hi) = selected_columns(grid, span, line);
    let from = if column > lo {
        column
    } else {
        lo
    };
    if from < hi {
        cell_chars(grid.rows@[line + grid.history]@.subrange(from, hi))
    } else {
        seq![]
    }
}

/// The selected characters of the lines from `line` on.
pub open spec fn selected_in_lines(grid: TerminalGrid, span: SelectionSpan, line: int) -> Seq<char>
    decreases span.end_line + 1 - line,
{
    if line > span.end_line {
        seq![]
    } else {
        selected_in_line(grid, span, line, 0) + selected_in_lines(grid, span, line + 1)
    }
}

proof fn lemma_cells_concat(a: Seq<GridCell>, b: Seq<GridCell>)
    ensures
        cell_chars(a + b) == cell_chars(a) + cell_chars(b),
    decreases b.len(),
{
    if b.len() == 0 {
        assert(a + b =~= a);
    } else {
        assert((a + b).drop_last() =~= a + b.drop_last());
        lemma_cells_concat(a, b.drop_last());
    }
}

proof fn lemma_solid_concat(a: Seq<char>, b: Seq<char>)
    ensures
        text::solid_chars(a + b) == text::solid_chars(a) + text::solid_chars(b),
    decreases b.len(),
{
    reveal(Seq::filter);
    if b.len() == 0 {
        assert(a + b =~= a);
        assert(text::solid_chars(b) =~= seq![]);
    } else {
        assert((a + b).drop_last() =~= a + b.drop_last());
        lemma_solid_concat(a, b.drop_last());
    }
}

proof fn lemma_line_feed_adds_nothing(acc: Seq<char>)
    ensures
        text::solid_chars(with_line_feed(acc)) == text::solid_chars(acc),
{
    reveal(Seq::filter);
    assert(acc.push('\n').drop_last() =~= acc);
}

proof fn lemma_line_step(grid: TerminalGrid, span: SelectionSpan, line: int, column: int)
    requires
        grid.well_formed(),
        -grid.history <= line < grid.screen_lines,
        0 <= column < grid.columns,
        span.start_line <= line <= span.end_line,
    ensures
        with_cell(grid, span, line, column, seq![]) + selected_in_line(
            grid,
            span,
            line,
            column + 1,
        ) == selected_in_line(grid, span, line, column),
{
    let row = grid.rows@[line + grid.history]@;
    let (lo, hi) = selected_columns(grid, span, line);
    let cell = row[column];
    assert(row.len() == grid.columns);
    if lo <= column < hi {
        let rest = row.subrange(column + 1, hi);
        let one = seq![cell];
        assert(row.subrange(column, hi) =~= one + rest);
        lemma_cells_concat(one, rest);
        assert(one.drop_last() =~= Seq::<GridCell>::empty());
        reveal_with_fuel(cell_chars, 2);
        assert(cell_chars(one) =~= with_cell(grid, span, line, column, seq![]));
        if column + 1 >= hi {
            assert(rest =~= Seq::<GridCell>::empty());
            assert(cell_chars(rest) =~= seq![]);
        }
    } else {
        assert(with_cell(grid, span, line, column, seq![]) =~= seq![]);
        let now = selected_in_line(grid, span, line, column);
        assert(Seq::<char>::empty() + now =~= now);
    }
}

proof fn lemma_selected_from(
    grid: TerminalGrid,
    span: SelectionSpan,
    line: int,
    column: int,
    acc: Seq<char>,
)
    requires
        grid.well_formed(),
        span.lies_on(grid),
        !span.is_backwards(),
        span.start_line <= line <= span.end_line,
        0 <= column < grid.columns,
        line == span.end_line ==> column <= span.end_column,
        span.is_block ==> span.start_column <= span.end_column,
    ensures
        text::solid_chars(selected_from(grid, span, line, column, acc)) == text::solid_chars(acc)
            + text::solid_chars(
            selected_in_line(grid, span, line, column) + selected_in_lines(grid, span, line + 1),
        ),
    decreases span.end_line - line, grid.columns - column,
{
    let next = with_cell(grid, span, line, column, acc);
    let got = with_cell(grid, span, line, column, seq![]);
    let later = selected_in_lines(grid, span, line + 1);
    let rest = selected_in_line(grid, span, line, column + 1);
    let here = selected_in_line(grid, span, line, column);
    assert(next =~= acc + got);
    lemma_solid_concat(acc, got);
    lemma_line_step(grid, span, line, column);
    lemma_solid_concat(here, later);
    lemma_solid_concat(got, rest);
    lemma_line_feed_adds_nothing(next);
    let none = Seq::<char>::empty();
    assert(text::solid_chars(none) =~= none) by {
        reveal(Seq::filter);
    }
    if line == span.end_line && column == span.end_column {
        assert(rest =~= none);
        assert(later =~= none);
    } else if column >= grid.columns - 1 {
        assert(rest =~= none);
        if line == span.end_line {
            assert(later =~= none);
        } else {
            let fed = with_line_feed(next);
            lemma_selected_from(grid, span, line + 1, 0, fed);
            assert(later == selected_in_line(grid, span, line + 1, 0) + selected_in_lines(
                grid,
                span,
                line + 2,
            ));
        }
    } else {
        lemma_selected_from(grid, span, line, column + 1, next);
        lemma_solid_concat(rest, later);
    }
    let all = text::solid_chars(selected_from(grid, span, line, column, acc));
    assert(all =~= text::solid_chars(acc) + text::solid_chars(here + later));
}

/// What is selected is read off the grid in full, line by line: the end of the first line, the
/// lines between, and the start of the last, or the same columns of each in a block. Only white
/// space is added or taken away.
pub proof fn law_selection_is_read(grid: TerminalGrid, span: SelectionSpan)
    requires
        grid.well_formed(),
        span.lies_on(grid),
        !span.is_backwards(),
        span.start_line == span.end_line || span.is_block ==> span.start_column <= span.end_column,
    ensures
        ({
            let all = text::solid_chars(selected_in_lines(grid, span, span.start_line as int));
            &&& selection_in(grid, span) matches Some(t) ==> text::solid_chars(t) == all
            &&& selection_in(grid, span) is None ==> all.len() == 0
        }),
{
    let line = span.start_line as int;
    let column = span.start_column as int;
    let whole = selected_from(grid, span, line, column, seq![]);
    lemma_selected_from(grid, span, line, column, seq![]);
    let none = Seq::<char>::empty();
    assert(text::solid_chars(none) =~= none) by {
        reveal(Seq::filter);
    }
    assert(selected_in_line(grid, span, line, column) =~= selected_in_line(grid, span, line, 0));
    let all = text::solid_chars(selected_in_lines(grid, span, line));
    assert(none + all =~= all);
    lemma_trimming_keeps_solid(whole);
}

proof fn lemma_trimming_keeps_solid(s: Seq<char>)
    ensures
        text::solid_chars(text::trimmed(s)) == text::solid_chars(s),
        text::trimmed(s).len() == 0 ==> text::solid_chars(s).len() == 0,
{
    text::law_trimmed_takes_white_space(s);
    let t = text::trimmed(s);
    let i = choose|i: int|
        #[trigger] text::occurs_at(s, t, i) && (forall|k: int|
            0 <= k < s.len() && !(i <= k < i + t.len()) ==> text::is_white(#[trigger] s[k]));
    let a = s.take(i);
    let b = s.skip(i + t.len());
    assert(a + t + b =~= s) by {
        assert(s.subrange(i, i + t.len()) == t);
    }
    lemma_solid_concat(a + t, b);
    lemma_solid_concat(a, t);
    lemma_white_is_not_solid(a);
    lemma_white_is_not_solid(b);
    assert(seq![] + text::solid_chars(t) + seq![] =~= text::solid_chars(t));
    if t.len() == 0 {
        lemma_white_is_not_solid(t);
    }
}

proof fn lemma_white_is_not_solid(a: Seq<char>)
    requires
        forall|i: int| 0 <= i < a.len() ==> text::is_white(#[trigger] a[i]),
    ensures
        text::solid_chars(a) == Seq::<char>::empty(),
    decreases a.len(),
{
    reveal(Seq::filter);
    if a.len() > 0 {
        lemma_white_is_not_solid(a.drop_last());
    }
}

/// The last command stands at the end of the history, and what came before it stays, as long as
/// there is room. The exit code is filled in where it is not known, and nothing else is changed.
pub proof fn law_history_ends_with_last_command(
    entries: Seq<CommandEntryView>,
    command: Seq<char>,
    code: Option<i32>,
    i: int,
)
    requires
        0 < entries.len() <= 5,
    ensures
        ending_with(entries, command).last().command == command,
        ending_with(entries, command).len() <= 5,
        0 <= i < entries.len() - 1 && entries.len() < 5 ==> ending_with(entries, command)[i]
            == entries[i],
        entries.last().command == command ==> ending_with(entries, command) == entries,
        session::same_command(entries.last().command, command) ==> ending_with(
            entries,
            command,
        ).last().output == entries.last().output && ending_with(entries, command).last().exit_code
            == entries.last().exit_code && ending_with(entries, command).len() == entries.len(),
        entries.last().command != command && !session::same_command(entries.last().command, command)
            && entries.len() < 5 ==> entries.is_prefix_of(ending_with(entries, command)),
        entries.last().exit_code is None ==> with_exit_code(entries, code).last().exit_code == code,
        entries.last().exit_code is Some ==> with_exit_code(entries, code) == entries,
        with_exit_code(entries, code).len() == entries.len(),
        with_exit_code(entries, code).last().command == entries.last().command,
        with_exit_code(entries, code).last().output == entries.last().output,
        0 <= i < entries.len() - 1 ==> with_exit_code(entries, code)[i] == entries[i],
{
    let longer = ending_with(entries, command);
    if entries.last().command != command && !session::same_command(entries.last().command, command)
        && entries.len() < 5 {
        assert(longer.take(entries.len() as int) =~= entries);
    }
}

/// Where the last command is looked for: in what the shell recorded, then in what it wrote down,
/// then on the screen.
pub proof fn law_last_command(
    history: Seq<CommandEntryView>,
    source: HistorySource,
    written: Seq<char>,
    lines: Seq<Seq<char>>,
)
    requires
        written.len() > 0,
        text::is_tight(written),
        !": "@.is_prefix_of(written),
    ensures
        history.len() > 0 && history.last().command.len() > 0 && source == HistorySource::ShellHook
            ==> last_command_of((history, source), Some(written), lines) == history.last().command,
        source != HistorySource::ShellHook ==> last_command_of(
            (history, source),
            Some(written),
            lines,
        ) == written,
        history.len() > 0 && history.last().command.len() > 0 ==> last_command_of(
            (history, source),
            None,
            lines,
        ) == history.last().command,
        history.len() == 0 && blocks_in(lines, 1).len() > 0 ==> last_command_of(
            (history, source),
            None,
            lines,
        ) == blocks_in(lines, 1).last().command,
{
    text::lemma_trimmed_same(written);
}

/// The command typed last on the screen is found, whatever stands below it, as long as it is
/// within the last ten lines.
pub proof fn law_last_typed(lines: Seq<Seq<char>>, i: int, command: Seq<char>)
    requires
        0 <= i < lines.len() <= 10,
        typed_command(lines[i]) == Some(command),
        forall|k: int| i < k < lines.len() ==> typed_command(#[trigger] lines[k]) is None,
    ensures
        last_typed(last_ten(lines)) == command,
    decreases lines.len(),
{
    if i < lines.len() - 1 {
        let init = lines.drop_last();
        assert(typed_command(lines[lines.len() - 1]) is None);
        assert forall|k: int| i < k < init.len() implies typed_command(#[trigger] init[k]) is None by {
            assert(init[k] == lines[k]);
        }
        law_last_typed(init, i, command);
    }
}

/// The output of the last command is that of the newest command on the screen, where it is the
/// same command, and otherwise not known.
pub proof fn law_last_output(block: BlockView, command: Seq<char>)
    ensures
        last_output_of(seq![block], block.command) == block.output,
        session::same_command(block.command, command) ==> last_output_of(seq![block], command)
            == block.output,
        block.command != command && !session::same_command(block.command, command)
            ==> last_output_of(seq![block], command).len() == 0,
        last_output_of(seq![], command).len() == 0,
{
}

/// A context holds what the screen shows, what is selected, the directory and the size of the
/// screen; its history ends with its last command and its exit code.
pub proof fn law_context(
    ctx: TerminalContext,
    grid: TerminalGrid,
    selection: Option<SelectionSpan>,
    cwd: Seq<char>,
    code: Option<i32>,
    records: Seq<RecordView>,
    file: Option<Seq<char>>,
)
    requires
        is_context_of(ctx, grid, selection, cwd, code, records, file),
    ensures
        ctx.cwd@ == cwd,
        ctx.visible_text@ == screen_text(grid.visible()),
        selection matches Some(span) ==> text::opt_string(ctx.selected_text) == selection_in(
            grid,
            span,
        ),
        selection is None ==> ctx.selected_text is None,
        grid.screen_lines <= u16::MAX ==> ctx.rows == grid.screen_lines,
        grid.columns <= u16::MAX ==> ctx.cols == grid.columns,
        ctx.command_history@.len() > 0 ==> ctx.command_history@.last()@.command
            == ctx.last_command@ && ctx.command_history@.last()@.exit_code == ctx.exit_code,
        ctx.command_history@.len() == 0 ==> ctx.exit_code == code,
        records.len() > 0 && text::trimmed(records.last().cmd).len() > 0 ==> ctx.last_command@
            == text::trimmed(records.last().cmd) && ctx.history_source == HistorySource::ShellHook,
{
    let history = history_of(grid, records);
    let lines = grid.visible();
    let last = last_command_of(history, file, lines);
    let views = types::entry_views(ctx.command_history@);
    let entries = with_exit_code(ending_with(history.0, last), code);
    assert(views =~= entries);
    assert(views.len() == ctx.command_history@.len());
    if ctx.command_history@.len() > 0 {
        let n = ctx.command_history@.len() - 1;
        assert(views[n] == ctx.command_history@[n]@);
    }
    let blocks = blocks_in(grid.recent(HISTORY_SCAN_LINES as int), HISTORY_MAX_BLOCKS as int);
    if records.len() > 0 {
        session::law_merged(records, blocks, HISTORY_MAX_ENTRIES as int);
        session::law_recorded_history(
            records,
            blocks,
            HISTORY_MAX_ENTRIES as int,
            history.0.len() - 1,
        );
    }
}

/// A long text is cut to its start, and the mark tells so.
pub proof fn law_cut_at(text: Seq<char>, max: nat, marker: Seq<char>)
    ensures
        text.len() <= max ==> cut_at(text, max, marker) == text,
        text.len() > max ==> cut_at(text, max, marker).take(max as int) == text.take(max as int)
            && marker.is_suffix_of(cut_at(text, max, marker)) && cut_at(text, max, marker).len()
            == max + marker.len(),
{
    let cut = cut_at(text, max, marker);
    if text.len() > max {
        assert(cut.take(max as int) =~= text.take(max as int));
        assert(cut.subrange(cut.len() - marker.len(), cut.len() as int) =~= marker);
    }
}

/// A marker right behind a sign that ends a prompt begins what was typed, and so does an arrow
/// wherever it stands. A marker in the middle of other text does not.
pub proof fn law_where_prompts_end(
    head: Seq<char>,
    end: char,
    marker: char,
    command: Seq<char>,
    prose: Seq<char>,
)
    requires
        end == ']' || end == ')' || end == ':' || end == '-' || end == '─' || end == '»' || end
            == '~',
        is_marker(marker),
        command.len() > 0,
        text::is_tight(command),
        forall|k: int| 0 <= k < command.len() ==> !is_marker(#[trigger] command[k]),
        prose.len() > 0,
        forall|k: int|
            0 <= k < prose.len() ==> 'a' <= #[trigger] prose[k] <= 'z' || prose[k] == ' ',
        prose.last() != ' ',
        marker != '❯',
    ensures
        typed_command(head + seq![end, marker, ' '] + command) == Some(command),
        typed_command(head + seq!['❯', ' '] + command) == Some(command),
        !has_prompt(prose + seq![' ', marker, ' '] + command),
        typed_command(prose + seq![' ', marker, ' '] + command) is None,
{
    let line = head + seq![end, marker, ' '] + command;
    let at = head.len() as int + 1;
    assert(line[at - 1] == end);
    assert(prompt_before_text(line, at));
    assert(line.skip(at + 1) =~= seq![' '] + command);
    lemma_command_from(line, at, line.len() as int, command);
    let arrow = head + seq!['❯', ' '] + command;
    let there = head.len() as int;
    assert(prompt_before_text(arrow, there));
    assert(arrow.skip(there + 1) =~= seq![' '] + command);
    lemma_command_from(arrow, there, arrow.len() as int, command);
    lemma_marker_in_prose(prose, marker, command);
}

proof fn lemma_marker_in_prose(prose: Seq<char>, marker: char, command: Seq<char>)
    requires
        is_marker(marker),
        marker != '❯',
        forall|k: int| 0 <= k < command.len() ==> !is_marker(#[trigger] command[k]),
        prose.len() > 0,
        forall|k: int|
            0 <= k < prose.len() ==> 'a' <= #[trigger] prose[k] <= 'z' || prose[k] == ' ',
        prose.last() != ' ',
    ensures
        !has_prompt(prose + seq![' ', marker, ' '] + command),
        typed_command(prose + seq![' ', marker, ' '] + command) is None,
{
    let line = prose + seq![' ', marker, ' '] + command;
    let n = prose.len() as int;
    let t = line.take(n + 1);
    assert(t =~= prose + seq![' ']);
    text::lemma_rtrimmed(t);
    let prefix = text::rtrimmed(t);
    assert(t[n - 1] == prose.last());
    assert(prose[n - 1] == prose.last());
    assert(prefix.len() == n) by {
        if prefix.len() > n {
            assert(prefix.last() == ' ');
        }
        if prefix.len() < n {
            assert(text::is_white(t[n - 1]));
        }
    }
    assert(prefix =~= prose);
    assert forall|i: int| !prompt_at(line, i) && !prompt_before_text(line, i) by {
        if 0 <= i < line.len() && is_marker(line[i]) {
            if i < n {
                assert(line[i] == prose[i]);
            } else if i > n + 2 {
                assert(line[i] == command[i - n - 3]);
            } else {
                assert(i == n + 1);
                assert(line[n] == ' ');
                if prose.contains('@') {
                    let k = prose.index_of('@');
                    assert('a' <= prose[k] <= 'z' || prose[k] == ' ');
                }
                if prose.contains('─') {
                    let k = prose.index_of('─');
                    assert('a' <= prose[k] <= 'z' || prose[k] == ' ');
                }
                if prose.contains('❯') {
                    let k = prose.index_of('❯');
                    assert('a' <= prose[k] <= 'z' || prose[k] == ' ');
                }
            }
        }
    }
    law_command_follows_last_prompt(line);
}

proof fn lemma_row_is_taken(
    grid: TerminalGrid,
    span: SelectionSpan,
    line: int,
    column: int,
    acc: Seq<char>,
)
    requires
        grid.well_formed(),
        span.lies_on(grid),
        !span.is_backwards(),
        span.start_line <= line <= span.end_line,
        0 <= column < grid.columns,
        line == span.end_line ==> column <= span.end_column && span.end_column < grid.columns,
        span.is_block ==> span.start_column <= span.end_column,
    ensures
        line < span.end_line ==> selected_from(grid, span, line, column, acc) == selected_from(
            grid,
            span,
            line + 1,
            0,
            with_line_feed(acc + selected_in_line(grid, span, line, column)),
        ),
        line == span.end_line ==> selected_from(grid, span, line, column, acc) == acc
            + selected_in_line(grid, span, line, column),
    decreases grid.columns - column,
{
    let got = with_cell(grid, span, line, column, seq![]);
    let next = with_cell(grid, span, line, column, acc);
    let rest = selected_in_line(grid, span, line, column + 1);
    let here = selected_in_line(grid, span, line, column);
    assert(next =~= acc + got);
    lemma_line_step(grid, span, line, column);
    assert(acc + got + rest =~= acc + here);
    if line == span.end_line && column == span.end_column || column >= grid.columns - 1 {
        assert(rest =~= seq![]);
        assert(next =~= acc + here);
    } else {
        lemma_row_is_taken(grid, span, line, column + 1, next);
    }
}

/// What is selected on one line is read as it stands; what is selected on two is read as two
/// lines.
pub proof fn law_selected_lines_stay_lines(grid: TerminalGrid, span: SelectionSpan)
    requires
        grid.well_formed(),
        span.lies_on(grid),
        !span.is_backwards(),
        span.end_column < grid.columns,
        span.start_line == span.end_line || span.is_block ==> span.start_column <= span.end_column,
    ensures
        ({
            let whole = selected_from(
                grid,
                span,
                span.start_line as int,
                span.start_column as int,
                seq![],
            );
            let first = selected_in_line(grid, span, span.start_line as int, 0);
            let last = selected_in_line(grid, span, span.end_line as int, 0);
            &&& span.start_line == span.end_line ==> whole == first
            &&& span.start_line + 1 == span.end_line && first.len() > 0 && first.last() != '\n'
                ==> whole == first + seq!['\n'] + last
            &&& span.start_line + 1 == span.end_line && first.len() == 0 ==> whole == last
        }),
{
    let line = span.start_line as int;
    let column = span.start_column as int;
    let first = selected_in_line(grid, span, line, 0);
    assert(selected_in_line(grid, span, line, column) =~= first);
    let none = Seq::<char>::empty();
    assert(none + first =~= first);
    lemma_row_is_taken(grid, span, line, column, none);
    if span.start_line + 1 == span.end_line {
        let fed = with_line_feed(first);
        lemma_row_is_taken(grid, span, line + 1, 0, fed);
        let last = selected_in_line(grid, span, line + 1, 0);
        if first.len() > 0 && first.last() != '\n' {
            assert(fed + last =~= first + seq!['\n'] + last);
        } else if first.len() == 0 {
            assert(fed + last =~= last);
        }
    }
}

} // verus!
