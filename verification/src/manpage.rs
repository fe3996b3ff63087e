//! Turns the output of `man` and `--help` into a budgeted context block.
//!
//! Also builds a [`ReferenceContext`] with package/docs fallbacks when manuals
//! are missing. Used as hidden context for the chat model.
use vstd::prelude::*;
use vstd::string::*;

use crate::text;
use crate::text::CharSet;
use crate::types::{ReferenceContext, ReferenceSource, ReferenceView};

verus! {

broadcast use vstd::string::group_string_axioms;

/// Most characters that the options sections of a manual may take up.
pub const OPTIONS_CONTEXT_BUDGET: usize = 12_000;

/// Default character budget for the hidden man/`--help` context excerpt.
pub const DEFAULT_CONTEXT_BUDGET: usize = 4_000;

/// A fetched manual or `--help` body.
#[derive(Debug, Clone, PartialEq, Eq)]
pub struct ManualResult {
    /// `"man"` or `"help"`.
    pub source: String,
    pub body: String,
}

/// What a process wrote before it ended.
#[derive(Debug, Clone, PartialEq, Eq)]
pub struct ProcessOutput {
    pub stdout: Vec<u8>,
    pub stderr: Vec<u8>,
}

/// What came of asking for a program's manual. `None` stands for a process that could not be
/// started, took too long, or was not needed.
#[derive(Debug, Clone, PartialEq, Eq)]
pub struct ManualProbe {
    /// Output of `man`.
    pub man: Option<ProcessOutput>,
    /// Output of the program with `--help`.
    pub long_help: Option<ProcessOutput>,
    /// Output of the program with `-h`.
    pub short_help: Option<ProcessOutput>,
}

// ── Cleaning ─────────────────────────────────────────────────────────────────

/// `s` without terminal escapes that set colours or erase (`ESC [ … m` and `ESC [ … K`).
pub open spec fn without_escapes(s: Seq<char>) -> Seq<char>
    decreases s.len(),
{
    if s.len() == 0 {
        seq![]
    } else if s[0] == '\x1b' && s.len() > 1 && s[1] == '[' {
        let n = text::lead(s.skip(2), CharSet::EscapeParams) as int;
        if 0 <= n && 2 + n < s.len() && (s[2 + n] == 'm' || s[2 + n] == 'K') {
            without_escapes(s.skip(n + 3))
        } else {
            seq![s[0]] + without_escapes(s.drop_first())
        }
    } else {
        seq![s[0]] + without_escapes(s.drop_first())
    }
}

/// `s` with each backspace taking away the character before it.
pub open spec fn overstruck(s: Seq<char>) -> Seq<char>
    decreases s.len(),
{
    if s.len() == 0 {
        seq![]
    } else {
        let before = overstruck(s.drop_last());
        if s.last() != '\x08' {
            before.push(s.last())
        } else if before.len() > 0 {
            before.drop_last()
        } else {
            before
        }
    }
}

/// `s` without terminal formatting.
pub open spec fn cleaned(s: Seq<char>) -> Seq<char> {
    overstruck(without_escapes(s))
}

/// Cleaned text holds no backspace.
pub proof fn law_cleaned_has_no_backspace(s: Seq<char>)
    ensures
        !cleaned(s).contains('\x08'),
{
    lemma_overstruck(without_escapes(s));
}

proof fn lemma_overstruck(s: Seq<char>)
    ensures
        forall|i: int| 0 <= i < overstruck(s).len() ==> #[trigger] overstruck(s)[i] != '\x08',
    decreases s.len(),
{
    if s.len() > 0 {
        lemma_overstruck(s.drop_last());
        let before = overstruck(s.drop_last());
        assert forall|i: int| 0 <= i < overstruck(s).len() implies #[trigger] overstruck(s)[i]
            != '\x08' by {
            if i < before.len() {
                assert(overstruck(s)[i] == before[i]);
            }
        }
    }
}

/// Strip ANSI SGR/erase sequences and overstrike backspaces (man formatting).
pub fn clean(text: &str) -> (r: String)
    ensures
        r@ == cleaned(text@),
{
    let stripped = strip_ansi(text);
    strip_backspaces(stripped.as_str())
}

fn strip_ansi(text: &str) -> (r: String)
    ensures
        r@ == without_escapes(text@),
{
    let chars = text::chars_of(text);
    let mut out = String::new();
    let mut i: usize = 0;
    assert(text@.skip(0) =~= text@);
    while i < chars.len()
        invariant
            i <= chars@.len(),
            chars@ == text@,
            out@ + without_escapes(text@.skip(i as int)) == without_escapes(text@),
        decreases chars@.len() - i,
    {
        let ghost rest = text@.skip(i as int);
        let ghost prev = out@;
        if chars[i] == '\x1b' && chars.len() - i > 1 && chars[i + 1] == '[' {
            let n = text::run_length(chars.as_slice(), i + 2, CharSet::EscapeParams);
            assert(rest.skip(2) =~= text@.skip(i + 2));
            let j: usize = i + 2 + n;
            if j < chars.len() && (chars[j] == 'm' || chars[j] == 'K') {
                assert(rest[2 + n] == chars@[j as int]);
                assert(rest.skip(n + 3) =~= text@.skip(j + 1));
                i = j + 1;
                continue;
            }
            if j < chars.len() {
                assert(rest[2 + n] == chars@[j as int]);
            }
        }
        out.push(chars[i]);
        proof {
            assert(rest.drop_first() =~= text@.skip(i + 1));
            assert(prev.push(rest[0]) + without_escapes(text@.skip(i + 1)) =~= prev + (seq![rest[0]]
                + without_escapes(text@.skip(i + 1))));
        }
        i += 1;
    }
    assert(text@.skip(i as int) =~= seq![]);
    assert(out@ + without_escapes(text@.skip(i as int)) =~= out@);
    out
}

fn strip_backspaces(text: &str) -> (r: String)
    ensures
        r@ == overstruck(text@),
{
    let chars = text::chars_of(text);
    let mut kept: Vec<char> = Vec::new();
    let mut i: usize = 0;
    assert(overstruck(text@.take(0)) =~= seq![]);
    while i < chars.len()
        invariant
            i <= chars@.len(),
            chars@ == text@,
            kept@ == overstruck(text@.take(i as int)),
        decreases chars@.len() - i,
    {
        assert(text@.take(i + 1).drop_last() =~= text@.take(i as int));
        assert(text@.take(i + 1).last() == chars@[i as int]);
        if chars[i] == '\x08' {
            if kept.len() > 0 {
                kept.pop();
            }
        } else {
            kept.push(chars[i]);
        }
        i += 1;
    }
    assert(text@.take(i as int) =~= text@);
    text::string_of(kept.as_slice())
}

// ── Fetching ─────────────────────────────────────────────────────────────────

/// The manual in the output of `man`: nothing where it is too short to be one.
pub open spec fn man_body(raw: Seq<char>) -> Option<Seq<char>> {
    let body = text::trimmed(cleaned(raw));
    if body.len() > 100 {
        Some(body)
    } else {
        None
    }
}

/// The help text in the output of a program: nothing where it is too short to be one.
pub open spec fn help_body(raw: Seq<char>) -> Option<Seq<char>> {
    let body = text::trimmed(cleaned(raw));
    if body.len() > 50 {
        Some(body)
    } else {
        None
    }
}

/// The manual in the output of `man`.
pub fn man_text(raw: &str) -> (r: Option<String>)
    ensures
        match r {
            Some(b) => man_body(raw@) == Some(b@),
            None => man_body(raw@) is None,
        },
{
    let cleaned = clean(raw);
    let body = text::trim(cleaned.as_str());
    if body.unicode_len() > 100 {
        Some(body.to_owned())
    } else {
        None
    }
}

/// The help text in the output of a program.
pub fn help_text(raw: &str) -> (r: Option<String>)
    ensures
        match r {
            Some(b) => help_body(raw@) == Some(b@),
            None => help_body(raw@) is None,
        },
{
    let cleaned = clean(raw);
    let body = text::trim(cleaned.as_str());
    if body.unicode_len() > 50 {
        Some(body.to_owned())
    } else {
        None
    }
}

/// What a process wrote to its standard output, as text.
pub open spec fn stdout_text(out: Option<ProcessOutput>) -> Option<Seq<char>> {
    match out {
        Some(o) => Some(text::lossy_text(o.stdout@)),
        None => None,
    }
}

/// What a process wrote to its standard output and then to its standard error, as text.
pub open spec fn both_text(out: Option<ProcessOutput>) -> Option<Seq<char>> {
    match out {
        Some(o) => Some(text::lossy_text(o.stdout@) + text::lossy_text(o.stderr@)),
        None => None,
    }
}

/// A manual and where it is from, as text: `man` comes before `--help`, and that before `-h`.
pub open spec fn manual_in(
    program: Seq<char>,
    man: Option<Seq<char>>,
    long_help: Option<Seq<char>>,
    short_help: Option<Seq<char>>,
) -> Option<(Seq<char>, Seq<char>)> {
    if text::trimmed(program).len() == 0 {
        None
    } else if man is Some && man_body(man->0) is Some {
        Some(("man"@, man_body(man->0)->0))
    } else if long_help is Some && help_body(long_help->0) is Some {
        Some(("help"@, help_body(long_help->0)->0))
    } else if short_help is Some && help_body(short_help->0) is Some {
        Some(("help"@, help_body(short_help->0)->0))
    } else {
        None
    }
}

/// Pick the manual for `program` out of what the processes wrote, as text.
pub fn manual_from_text(
    program: &str,
    man: Option<String>,
    long_help: Option<String>,
    short_help: Option<String>,
) -> (r: Option<ManualResult>)
    ensures
        ({
            let m = match man {
                Some(t) => Some(t@),
                None => None,
            };
            let l = match long_help {
                Some(t) => Some(t@),
                None => None,
            };
            let s = match short_help {
                Some(t) => Some(t@),
                None => None,
            };
            match r {
                Some(found) => manual_in(program@, m, l, s) == Some((found.source@, found.body@)),
                None => manual_in(program@, m, l, s) is None,
            }
        }),
{
    if text::trim(program).is_empty() {
        return None;
    }
    if let Some(raw) = man {
        if let Some(body) = man_text(raw.as_str()) {
            return Some(ManualResult { source: "man".to_owned(), body });
        }
    }
    if let Some(raw) = long_help {
        if let Some(body) = help_text(raw.as_str()) {
            return Some(ManualResult { source: "help".to_owned(), body });
        }
    }
    if let Some(raw) = short_help {
        if let Some(body) = help_text(raw.as_str()) {
            return Some(ManualResult { source: "help".to_owned(), body });
        }
    }
    None
}

fn decode_both(out: &ProcessOutput) -> (r: String)
    ensures
        r@ == text::lossy_text(out.stdout@) + text::lossy_text(out.stderr@),
{
    let a = text::from_utf8_lossy(out.stdout.as_slice());
    let b = text::from_utf8_lossy(out.stderr.as_slice());
    text::concat(a.as_str(), b.as_str())
}

/// Fetch a manual for `program` from what `man`, then `--help`, then `-h` wrote.
///
/// Returns `None` when nothing usable is available.
pub fn fetch_manual(program: &str, probe: &ManualProbe) -> (r: Option<ManualResult>)
    ensures
        ({
            let found = manual_in(
                program@,
                stdout_text(probe.man),
                both_text(probe.long_help),
                both_text(probe.short_help),
            );
            match r {
                Some(m) => found == Some((m.source@, m.body@)),
                None => found is None,
            }
        }),
{
    let man = match &probe.man {
        Some(out) => Some(text::from_utf8_lossy(out.stdout.as_slice())),
        None => None,
    };
    let long_help = match &probe.long_help {
        Some(out) => Some(decode_both(out)),
        None => None,
    };
    let short_help = match &probe.short_help {
        Some(out) => Some(decode_both(out)),
        None => None,
    };
    manual_from_text(program, man, long_help, short_help)
}

// ── Truncation ───────────────────────────────────────────────────────────────

/// `text` cut so that with a note of the cut it has at most `max` characters; where the note
/// itself has more, without it.
pub open spec fn truncated(text: Seq<char>, max: nat) -> Seq<char> {
    if text.len() <= max {
        text
    } else if max < 16 {
        text::first_chars(text, max)
    } else {
        text::rtrimmed(text::first_chars(text, (max - 16) as nat)) + "\n... [truncated]"@
    }
}

/// Truncate to at most `max_chars` unicode characters.
pub fn truncate_chars(text: &str, max_chars: usize) -> (r: String)
    ensures
        r@ == truncated(text@, max_chars as nat),
        r@.len() <= max_chars,
        r@ == text@ <==> text@.len() <= max_chars,
{
    if text.unicode_len() <= max_chars {
        return text.to_owned();
    }
    if max_chars < 16 {
        return text::take(text, max_chars).to_owned();
    }
    let kept = text::take(text, max_chars - 16);
    proof {
        reveal_strlit("\n... [truncated]");
        text::lemma_trail(kept@, CharSet::White);
    }
    text::concat(text::trim_end(kept), "\n... [truncated]")
}

/// The note that stands where a section was cut.
pub open spec fn cut_note(name: Seq<char>) -> Seq<char> {
    "\n\n[... "@ + name + " truncated ...]"@
}

/// The text of a section, cut so that with the note it has at most `max` characters; where the
/// note itself has more, the note alone.
pub open spec fn section_cut(name: Seq<char>, text: Seq<char>, max: int) -> Seq<char> {
    let note = cut_note(name);
    if text.len() + note.len() <= max {
        text
    } else {
        text::rtrimmed(text::first_chars(text, less(max, note.len() as int) as nat)) + note
    }
}

fn truncate_section(name: &str, text: &str, max_chars: usize) -> (r: String)
    ensures
        r@ == section_cut(name@, text@, max_chars as int),
{
    let note = text::concat3("\n\n[... ", name, " truncated ...]");
    let note_len = note.as_str().unicode_len();
    if note_len <= max_chars && text.unicode_len() <= max_chars - note_len {
        return text.to_owned();
    }
    let keep: usize = if note_len < max_chars {
        max_chars - note_len
    } else {
        0
    };
    text::concat(text::trim_end(text::take(text, keep)), note.as_str())
}

/// A whole excerpt, cut to at most `budget` characters: with the note where that fits.
pub open spec fn excerpt_cut(name: Seq<char>, text: Seq<char>, budget: int) -> Seq<char> {
    if cut_note(name).len() <= budget {
        section_cut(name, text, budget)
    } else {
        text::first_chars(text, budget as nat)
    }
}

/// An excerpt that was cut is no longer than asked.
pub proof fn lemma_excerpt_cut(name: Seq<char>, text: Seq<char>, budget: int)
    requires
        budget >= 0,
    ensures
        excerpt_cut(name, text, budget).len() <= budget,
{
    let note = cut_note(name);
    if note.len() <= budget {
        text::lemma_trail(
            text::first_chars(text, less(budget, note.len() as int) as nat),
            CharSet::White,
        );
    }
}

fn truncate_excerpt(name: &str, text: &str, budget: usize) -> (r: String)
    ensures
        r@ == excerpt_cut(name@, text@, budget as int),
{
    let note = text::concat3("\n\n[... ", name, " truncated ...]");
    if note.as_str().unicode_len() <= budget {
        truncate_section(name, text, budget)
    } else {
        text::take(text, budget).to_owned()
    }
}

// ── Sections ─────────────────────────────────────────────────────────────────

/// Whether `c` may stand in a section title behind its second character.
pub open spec fn is_title_char(c: char) -> bool {
    text::is_upper(c) || text::is_digit(c) || c == ' ' || c == '-'
}

/// A line without one colon at its end.
pub open spec fn without_colon(s: Seq<char>) -> Seq<char> {
    if s.len() > 0 && s.last() == ':' {
        s.drop_last()
    } else {
        s
    }
}

/// The title in a line that is one, such as `NAME`, `SEE ALSO` or `OPTIONS:`.
pub open spec fn section_title(line: Seq<char>) -> Option<Seq<char>> {
    let t = without_colon(text::trimmed(line));
    if 2 <= t.len() <= 42 && text::is_upper(t[0]) && (text::is_upper(t[1]) || text::is_digit(t[1]))
        && forall|i: int| 2 <= i < t.len() ==> is_title_char(#[trigger] t[i]) {
        Some(text::trimmed(t))
    } else {
        None
    }
}

/// Match a man-page section header, e.g. `NAME`, `SEE ALSO`, `OPTIONS:`.
pub fn parse_section_header(line: &str) -> (r: Option<String>)
    ensures
        match r {
            Some(t) => section_title(line@) == Some(t@),
            None => section_title(line@) is None,
        },
{
    let trimmed = text::trim(line);
    let n = trimmed.unicode_len();
    let title = if n > 0 && trimmed.get_char(n - 1) == ':' {
        trimmed.substring_char(0, n - 1)
    } else {
        trimmed
    };
    let ghost t = without_colon(text::trimmed(line@));
    assert(title@ =~= t);
    let chars = text::chars_of(title);
    if chars.len() < 2 || chars.len() > 42 {
        return None;
    }
    if !text::is_ascii_uppercase(chars[0]) {
        return None;
    }
    if !(text::is_ascii_uppercase(chars[1]) || text::is_ascii_digit(chars[1])) {
        return None;
    }
    let mut i: usize = 2;
    while i < chars.len()
        invariant
            2 <= i <= chars@.len(),
            chars@ == t,
            t == without_colon(text::trimmed(line@)),
            forall|k: int| 2 <= k < i ==> is_title_char(#[trigger] t[k]),
        decreases chars@.len() - i,
    {
        let c = chars[i];
        if !(text::is_ascii_uppercase(c) || text::is_ascii_digit(c) || c == ' ' || c == '-') {
            assert(!is_title_char(t[i as int]));
            return None;
        }
        i += 1;
    }
    Some(text::trim(title).to_owned())
}

/// A section: its title and its lines.
pub type Section = (String, Vec<String>);

/// The titles and lines of sections.
pub open spec fn section_views(sections: Seq<Section>) -> Seq<(Seq<char>, Seq<Seq<char>>)> {
    Seq::new(sections.len(), |i: int| (sections[i].0@, text::views(sections[i].1@)))
}

/// The sections of `lines`, where `held` are lines already read under the title `title`. A
/// section without lines is left out.
pub open spec fn sections_in(
    lines: Seq<Seq<char>>,
    title: Seq<char>,
    held: Seq<Seq<char>>,
) -> Seq<(Seq<char>, Seq<Seq<char>>)>
    decreases lines.len(),
{
    let done = if held.len() > 0 {
        seq![(title, held)]
    } else {
        seq![]
    };
    if lines.len() == 0 {
        done
    } else {
        let line = text::rtrimmed(lines[0]);
        match section_title(text::trimmed(line)) {
            Some(next) => done + sections_in(lines.drop_first(), next, seq![]),
            None => sections_in(lines.drop_first(), title, held.push(line)),
        }
    }
}

/// The sections of a manual. What stands before the first title is called `Reference`.
pub open spec fn manual_sections(body: Seq<char>) -> Seq<(Seq<char>, Seq<Seq<char>>)> {
    sections_in(text::line_list(body), "Reference"@, seq![])
}

fn push_section(sections: &mut Vec<Section>, title: String, lines: Vec<String>)
    ensures
        section_views(final(sections)@) == section_views(old(sections)@).push(
            (title@, text::views(lines@)),
        ),
{
    sections.push((title, lines));
    assert(section_views(sections@) =~= section_views(old(sections)@).push(
        (title@, text::views(lines@)),
    ));
}

/// Split a manual at its section titles.
pub fn split_man_sections(body: &str) -> (r: Vec<Section>)
    ensures
        section_views(r@) == manual_sections(body@),
{
    let lines = text::lines(body);
    let ghost all = text::line_list(body@);
    let mut sections: Vec<Section> = Vec::new();
    let mut title = "Reference".to_owned();
    let mut held: Vec<String> = Vec::new();
    let mut i: usize = 0;
    assert(all.skip(0) =~= all);
    assert(text::views(held@) =~= seq![]);
    assert(section_views(sections@) =~= seq![]);
    while i < lines.len()
        invariant
            i <= lines@.len(),
            text::views(lines@) == all,
            section_views(sections@) + sections_in(all.skip(i as int), title@, text::views(held@))
                == sections_in(all, "Reference"@, seq![]),
        decreases lines@.len() - i,
    {
        let ghost rest = all.skip(i as int);
        let ghost before = section_views(sections@);
        assert(rest[0] == lines@[i as int]@);
        assert(rest.drop_first() =~= all.skip(i + 1));
        let line = text::trim_end(lines[i].as_str());
        match parse_section_header(text::trim(line)) {
            Some(next) => {
                if held.len() > 0 {
                    push_section(&mut sections, title, held);
                }
                proof {
                    assert(section_views(sections@) + sections_in(all.skip(i + 1), next@, seq![])
                        =~= before + sections_in(rest, title@, text::views(held@)));
                }
                title = next;
                held = Vec::new();
                assert(text::views(held@) =~= seq![]);
            },
            None => {
                text::push_text(&mut held, line.to_owned());
            },
        }
        i += 1;
    }
    assert(all.skip(i as int) =~= seq![]);
    let ghost before = section_views(sections@);
    if held.len() > 0 {
        push_section(&mut sections, title, held);
    }
    assert(section_views(sections@) =~= before + sections_in(
        all.skip(i as int),
        title@,
        text::views(held@),
    ));
    sections
}

/// The text of a section's lines.
pub open spec fn section_body(lines: Seq<Seq<char>>) -> Seq<char> {
    text::trimmed(text::joined(lines, "\n"@))
}

/// The lines of the first section with this title.
pub open spec fn section_lines(
    sections: Seq<(Seq<char>, Seq<Seq<char>>)>,
    title: Seq<char>,
) -> Option<Seq<Seq<char>>>
    decreases sections.len(),
{
    if sections.len() == 0 {
        None
    } else if sections[0].0 == title {
        Some(sections[0].1)
    } else {
        section_lines(sections.drop_first(), title)
    }
}

/// The text of the first section with this title, empty where there is none.
pub open spec fn body_of(sections: Seq<(Seq<char>, Seq<Seq<char>>)>, title: Seq<char>) -> Seq<char> {
    match section_lines(sections, title) {
        Some(lines) => section_body(lines),
        None => seq![],
    }
}

fn section_text_of(sections: &[Section], title: &str) -> (r: String)
    ensures
        r@ == body_of(section_views(sections@), title@),
{
    let ghost all = section_views(sections@);
    let mut i: usize = 0;
    assert(all.skip(0) =~= all);
    while i < sections.len()
        invariant
            i <= sections@.len(),
            all == section_views(sections@),
            section_lines(all, title@) == section_lines(all.skip(i as int), title@),
        decreases sections@.len() - i,
    {
        assert(all.skip(i as int)[0] == all[i as int]);
        assert(all.skip(i as int).drop_first() =~= all.skip(i + 1));
        if text::same(sections[i].0.as_str(), title) {
            let whole = text::join(sections[i].1.as_slice(), "\n");
            return text::trim(whole.as_str()).to_owned();
        }
        i += 1;
    }
    String::new()
}

/// Whether a section describes options.
pub open spec fn is_options_title(title: Seq<char>) -> bool {
    text::has_sub(title, "OPTIONS"@)
}

/// Those of `titles` that are titles of options sections, or those that are not.
pub open spec fn titles_by_kind(titles: Seq<Seq<char>>, options: bool) -> Seq<Seq<char>>
    decreases titles.len(),
{
    if titles.len() == 0 {
        seq![]
    } else if is_options_title(titles.last()) == options {
        titles_by_kind(titles.drop_last(), options).push(titles.last())
    } else {
        titles_by_kind(titles.drop_last(), options)
    }
}

fn pick_titles(titles: &[String], options: bool) -> (r: Vec<String>)
    ensures
        text::views(r@) == titles_by_kind(text::views(titles@), options),
{
    let mut out: Vec<String> = Vec::new();
    let mut i: usize = 0;
    assert(text::views(out@) =~= seq![]);
    while i < titles.len()
        invariant
            i <= titles@.len(),
            text::views(out@) == titles_by_kind(text::views(titles@).take(i as int), options),
        decreases titles@.len() - i,
    {
        proof {
            let t = text::views(titles@).take(i + 1);
            assert(t.drop_last() =~= text::views(titles@).take(i as int));
            assert(t.last() == titles@[i as int]@);
        }
        if text::contains(titles[i].as_str(), "OPTIONS") == options {
            text::push_text(&mut out, titles[i].clone());
        }
        i += 1;
    }
    assert(text::views(titles@).take(i as int) =~= text::views(titles@));
    out
}

/// Those of `titles` that end in ` COMMANDS`.
pub open spec fn command_titles(titles: Seq<Seq<char>>) -> Seq<Seq<char>>
    decreases titles.len(),
{
    if titles.len() == 0 {
        seq![]
    } else if " COMMANDS"@.is_suffix_of(titles.last()) {
        command_titles(titles.drop_last()).push(titles.last())
    } else {
        command_titles(titles.drop_last())
    }
}

/// The titles of sections, in their order.
pub open spec fn titles_of(sections: Seq<(Seq<char>, Seq<Seq<char>>)>) -> Seq<Seq<char>> {
    Seq::new(sections.len(), |i: int| sections[i].0)
}

/// The titles that every manual is searched for, most telling first.
pub open spec fn fixed_titles() -> Seq<Seq<char>> {
    seq![
        "NAME"@,
        "SYNOPSIS"@,
        "DESCRIPTION"@,
        "USAGE"@,
        "POSITIONAL ARGUMENTS"@,
        "ARGUMENTS"@,
        "EXAMPLES"@,
        "FLAGS"@,
        "COMMANDS"@,
    ]
}

/// The titles that may go into the context, in order of preference, some of them twice.
pub open spec fn candidate_titles(sections: Seq<(Seq<char>, Seq<Seq<char>>)>) -> Seq<Seq<char>> {
    let intro = if 0 < body_of(sections, "Reference"@).len() <= 800 {
        seq!["Reference"@]
    } else {
        seq![]
    };
    intro + fixed_titles() + command_titles(titles_of(sections)) + titles_by_kind(
        titles_of(sections),
        true,
    )
}

/// Those of `titles` that have a section with text, each once.
pub open spec fn present_titles(
    titles: Seq<Seq<char>>,
    sections: Seq<(Seq<char>, Seq<Seq<char>>)>,
) -> Seq<Seq<char>>
    decreases titles.len(),
{
    if titles.len() == 0 {
        seq![]
    } else {
        let before = present_titles(titles.drop_last(), sections);
        let t = titles.last();
        if !before.contains(t) && body_of(sections, t).len() > 0 {
            before.push(t)
        } else {
            before
        }
    }
}

/// The titles of the sections that go into the context, in their order.
pub open spec fn title_order(sections: Seq<(Seq<char>, Seq<Seq<char>>)>) -> Seq<Seq<char>> {
    present_titles(candidate_titles(sections), sections)
}

/// Each title in the order occurs once, and has a section with text.
pub proof fn law_title_order(sections: Seq<(Seq<char>, Seq<Seq<char>>)>)
    ensures
        title_order(sections).no_duplicates(),
        forall|i: int|
            0 <= i < title_order(sections).len() ==> body_of(
                sections,
                #[trigger] title_order(sections)[i],
            ).len() > 0,
{
    lemma_present_titles(candidate_titles(sections), sections);
}

proof fn lemma_present_titles(
    titles: Seq<Seq<char>>,
    sections: Seq<(Seq<char>, Seq<Seq<char>>)>,
)
    ensures
        present_titles(titles, sections).no_duplicates(),
        forall|i: int|
            0 <= i < present_titles(titles, sections).len() ==> body_of(
                sections,
                #[trigger] present_titles(titles, sections)[i],
            ).len() > 0,
    decreases titles.len(),
{
    if titles.len() > 0 {
        lemma_present_titles(titles.drop_last(), sections);
    }
}

fn section_titles(sections: &[Section]) -> (r: Vec<String>)
    ensures
        text::views(r@) == titles_of(section_views(sections@)),
{
    let mut out: Vec<String> = Vec::new();
    let mut i: usize = 0;
    while i < sections.len()
        invariant
            i <= sections@.len(),
            text::views(out@) == titles_of(section_views(sections@)).take(i as int),
        decreases sections@.len() - i,
    {
        text::push_text(&mut out, sections[i].0.clone());
        i += 1;
        assert(text::views(out@) =~= titles_of(section_views(sections@)).take(i as int));
    }
    assert(text::views(out@) =~= titles_of(section_views(sections@)));
    out
}

fn append_texts(list: &mut Vec<String>, more: &[String])
    ensures
        text::views(final(list)@) == text::views(old(list)@) + text::views(more@),
{
    let ghost start = text::views(list@);
    let mut i: usize = 0;
    assert(start + text::views(more@).take(0) =~= start);
    while i < more.len()
        invariant
            i <= more@.len(),
            text::views(list@) == start + text::views(more@).take(i as int),
        decreases more@.len() - i,
    {
        text::push_text(list, more[i].clone());
        i += 1;
        assert(text::views(list@) =~= start + text::views(more@).take(i as int));
    }
    assert(text::views(more@).take(i as int) =~= text::views(more@));
}

fn pick_command_titles(titles: &[String]) -> (r: Vec<String>)
    ensures
        text::views(r@) == command_titles(text::views(titles@)),
{
    let mut out: Vec<String> = Vec::new();
    let mut i: usize = 0;
    assert(text::views(out@) =~= seq![]);
    while i < titles.len()
        invariant
            i <= titles@.len(),
            text::views(out@) == command_titles(text::views(titles@).take(i as int)),
        decreases titles@.len() - i,
    {
        proof {
            let t = text::views(titles@).take(i + 1);
            assert(t.drop_last() =~= text::views(titles@).take(i as int));
            assert(t.last() == titles@[i as int]@);
        }
        if text::ends_with(titles[i].as_str(), " COMMANDS") {
            text::push_text(&mut out, titles[i].clone());
        }
        i += 1;
    }
    assert(text::views(titles@).take(i as int) =~= text::views(titles@));
    out
}

fn context_candidates(sections: &[Section]) -> (r: Vec<String>)
    ensures
        text::views(r@) == candidate_titles(section_views(sections@)),
{
    let mut out: Vec<String> = Vec::new();
    assert(text::views(out@) =~= seq![]);
    let intro = section_text_of(sections, "Reference");
    let intro_len = intro.as_str().unicode_len();
    if intro_len > 0 && intro_len <= 800 {
        text::push_text(&mut out, "Reference".to_owned());
    }
    let ghost start = text::views(out@);
    text::push_text(&mut out, "NAME".to_owned());
    text::push_text(&mut out, "SYNOPSIS".to_owned());
    text::push_text(&mut out, "DESCRIPTION".to_owned());
    text::push_text(&mut out, "USAGE".to_owned());
    text::push_text(&mut out, "POSITIONAL ARGUMENTS".to_owned());
    text::push_text(&mut out, "ARGUMENTS".to_owned());
    text::push_text(&mut out, "EXAMPLES".to_owned());
    text::push_text(&mut out, "FLAGS".to_owned());
    text::push_text(&mut out, "COMMANDS".to_owned());
    assert(text::views(out@) =~= start + fixed_titles());
    let titles = section_titles(sections);
    let commands = pick_command_titles(titles.as_slice());
    append_texts(&mut out, commands.as_slice());
    let options = pick_titles(titles.as_slice(), true);
    append_texts(&mut out, options.as_slice());
    assert(start =~= (if 0 < body_of(section_views(sections@), "Reference"@).len() <= 800 {
        seq!["Reference"@]
    } else {
        seq![]
    }));
    out
}

/// The titles of the sections that go into the context, in their order.
pub fn context_section_order(sections: &[Section]) -> (r: Vec<String>)
    ensures
        text::views(r@) == title_order(section_views(sections@)),
{
    let candidates = context_candidates(sections);
    let ghost all = text::views(candidates@);
    let mut out: Vec<String> = Vec::new();
    let mut i: usize = 0;
    assert(text::views(out@) =~= seq![]);
    while i < candidates.len()
        invariant
            i <= candidates@.len(),
            all == text::views(candidates@),
            text::views(out@) == present_titles(all.take(i as int), section_views(sections@)),
        decreases candidates@.len() - i,
    {
        assert(all.take(i + 1).drop_last() =~= all.take(i as int));
        assert(all.take(i + 1).last() == candidates@[i as int]@);
        if !text::list_contains(out.as_slice(), candidates[i].as_str()) {
            let body = section_text_of(sections, candidates[i].as_str());
            if !body.as_str().is_empty() {
                text::push_text(&mut out, candidates[i].clone());
            }
        }
        i += 1;
    }
    assert(all.take(i as int) =~= all);
    out
}

// ── The context ──────────────────────────────────────────────────────────────

/// `a - b`, or nothing where that is less.
pub open spec fn less(a: int, b: int) -> int {
    if a > b {
        a - b
    } else {
        0
    }
}

/// A section as it stands in the context.
pub open spec fn block(title: Seq<char>, body: Seq<char>) -> Seq<char> {
    title + "\n"@ + body
}

/// The sections `titles`, each cut to what is left of `left` characters, and what is left
/// behind the last of them. A section comes in only where its title and a little more fit.
pub open spec fn body_blocks(
    titles: Seq<Seq<char>>,
    sections: Seq<(Seq<char>, Seq<Seq<char>>)>,
    left: int,
) -> (Seq<Seq<char>>, int)
    decreases titles.len(),
{
    if titles.len() == 0 {
        (seq![], left)
    } else {
        let t = titles[0];
        let width = text::byte_len(t);
        if left <= width + 20 {
            (seq![], left)
        } else {
            let b = block(t, section_cut(t, body_of(sections, t), left - width - 1));
            let rest = less(left, b.len() as int + 2);
            if rest == 0 {
                (seq![b], 0)
            } else {
                let more = body_blocks(titles.drop_first(), sections, rest);
                (seq![b] + more.0, more.1)
            }
        }
    }
}

/// The options sections `titles`, each cut to `share` characters and to what is left of `left`.
pub open spec fn option_blocks(
    titles: Seq<Seq<char>>,
    sections: Seq<(Seq<char>, Seq<Seq<char>>)>,
    share: int,
    left: int,
) -> Seq<Seq<char>>
    decreases titles.len(),
{
    if titles.len() == 0 {
        seq![]
    } else {
        let t = titles[0];
        let room = if share < left {
            share
        } else {
            left
        };
        if body_of(sections, t).len() == 0 {
            option_blocks(titles.drop_first(), sections, share, left)
        } else if room < 200 {
            seq![]
        } else {
            let b = block(
                t,
                section_cut(t, body_of(sections, t), less(room, text::byte_len(t) as int + 1)),
            );
            let rest = less(left, b.len() as int + 2);
            if rest <= 200 {
                seq![b]
            } else {
                seq![b] + option_blocks(titles.drop_first(), sections, share, rest)
            }
        }
    }
}

/// The blocks of a context: the sections that are not about options, then those that are.
pub open spec fn context_blocks(
    order: Seq<Seq<char>>,
    sections: Seq<(Seq<char>, Seq<Seq<char>>)>,
    budget: int,
) -> Seq<Seq<char>> {
    let body = body_blocks(titles_by_kind(order, false), sections, budget);
    let options = titles_by_kind(order, true);
    let left = if body.1 < OPTIONS_CONTEXT_BUDGET {
        body.1
    } else {
        OPTIONS_CONTEXT_BUDGET as int
    };
    if left > 300 && options.len() > 0 {
        let even = left / options.len() as int;
        let share = if even > 400 {
            even
        } else {
            400
        };
        body.0 + option_blocks(options, sections, share, left)
    } else {
        body.0
    }
}

/// The context that is taken from a manual.
pub open spec fn manual_excerpt(body: Seq<char>, budget: int) -> Seq<char> {
    let body = text::trimmed(body);
    let sections = manual_sections(body);
    let order = title_order(sections);
    if body.len() == 0 {
        seq![]
    } else if sections.len() == 1 && sections[0].0 == "Reference"@ && body.len() <= budget {
        body
    } else if order.len() == 0 {
        if body.len() <= budget {
            body
        } else {
            excerpt_cut("Reference"@, body, budget)
        }
    } else {
        let whole = text::trimmed(text::joined(context_blocks(order, sections, budget), "\n\n"@));
        if whole.len() == 0 {
            excerpt_cut("Reference"@, body, budget)
        } else if whole.len() > budget {
            excerpt_cut("Summary"@, whole, budget)
        } else {
            whole
        }
    }
}

/// The context keeps to its budget.
pub proof fn law_excerpt_within_budget(body: Seq<char>, budget: int)
    requires
        budget >= 0,
    ensures
        manual_excerpt(body, budget).len() <= budget,
{
    let trimmed = text::trimmed(body);
    let sections = manual_sections(trimmed);
    let whole = text::trimmed(
        text::joined(context_blocks(title_order(sections), sections, budget), "\n\n"@),
    );
    lemma_excerpt_cut("Reference"@, trimmed, budget);
    lemma_excerpt_cut("Summary"@, whole, budget);
}

fn make_block(title: &str, body: &str) -> (r: String)
    ensures
        r@ == block(title@, body@),
{
    text::concat3(title, "\n", body)
}

fn less_than(a: usize, b: usize) -> (r: usize)
    ensures
        r == less(a as int, b as int + 2),
{
    if a > b && a - b > 2 {
        a - b - 2
    } else {
        0
    }
}

fn fill_body(titles: &[String], sections: &[Section], budget: usize) -> (r: (Vec<String>, usize))
    ensures
        ({
            let want = body_blocks(
                text::views(titles@),
                section_views(sections@),
                budget as int,
            );
            text::views(r.0@) == want.0 && r.1 == want.1
        }),
{
    let ghost all = text::views(titles@);
    let ghost sv = section_views(sections@);
    let ghost want = body_blocks(all, sv, budget as int);
    let mut parts: Vec<String> = Vec::new();
    let mut left: usize = budget;
    let mut i: usize = 0;
    assert(all.skip(0) =~= all);
    assert(text::views(parts@) =~= seq![]);
    while i < titles.len()
        invariant
            i <= titles@.len(),
            all == text::views(titles@),
            sv == section_views(sections@),
            want == body_blocks(all, sv, budget as int),
            text::views(parts@) + body_blocks(all.skip(i as int), sv, left as int).0 == want.0,
            body_blocks(all.skip(i as int), sv, left as int).1 == want.1,
        decreases titles@.len() - i,
    {
        let ghost rest = all.skip(i as int);
        let ghost before = text::views(parts@);
        assert(rest[0] == titles@[i as int]@);
        assert(rest.drop_first() =~= all.skip(i + 1));
        let title = titles[i].as_str();
        let width = text::len_bytes(title);
        if left <= 20 || left - 20 <= width {
            assert(before + seq![] =~= before);
            return (parts, left);
        }
        let body = section_text_of(sections, title);
        let cut = truncate_section(title, body.as_str(), left - width - 1);
        let b = make_block(title, cut.as_str());
        let ghost bv = b@;
        let next = less_than(left, b.as_str().unicode_len());
        text::push_text(&mut parts, b);
        if next == 0 {
            assert(before.push(bv) =~= before + seq![bv]);
            return (parts, 0);
        }
        proof {
            let more = body_blocks(all.skip(i + 1), sv, next as int).0;
            assert(before.push(bv) + more =~= before + (seq![bv] + more));
        }
        left = next;
        i += 1;
    }
    assert(all.skip(i as int) =~= seq![]);
    assert(text::views(parts@) + seq![] =~= text::views(parts@));
    (parts, left)
}

fn fill_options(titles: &[String], sections: &[Section], share: usize, budget: usize) -> (r: Vec<
    String,
>)
    ensures
        text::views(r@) == option_blocks(
            text::views(titles@),
            section_views(sections@),
            share as int,
            budget as int,
        ),
{
    let ghost all = text::views(titles@);
    let ghost sv = section_views(sections@);
    let ghost want = option_blocks(all, sv, share as int, budget as int);
    let mut parts: Vec<String> = Vec::new();
    let mut left: usize = budget;
    let mut i: usize = 0;
    assert(all.skip(0) =~= all);
    assert(text::views(parts@) =~= seq![]);
    while i < titles.len()
        invariant
            i <= titles@.len(),
            all == text::views(titles@),
            sv == section_views(sections@),
            want == option_blocks(all, sv, share as int, budget as int),
            text::views(parts@) + option_blocks(all.skip(i as int), sv, share as int, left as int)
                == want,
        decreases titles@.len() - i,
    {
        let ghost rest = all.skip(i as int);
        let ghost before = text::views(parts@);
        assert(rest[0] == titles@[i as int]@);
        assert(rest.drop_first() =~= all.skip(i + 1));
        let title = titles[i].as_str();
        let body = section_text_of(sections, title);
        if body.as_str().is_empty() {
            i += 1;
            continue;
        }
        let room: usize = if share < left {
            share
        } else {
            left
        };
        if room < 200 {
            assert(before + seq![] =~= before);
            return parts;
        }
        let width = text::len_bytes(title);
        let max: usize = if width >= room {
            0
        } else {
            room - width - 1
        };
        let cut = truncate_section(title, body.as_str(), max);
        let b = make_block(title, cut.as_str());
        let ghost bv = b@;
        let next = less_than(left, b.as_str().unicode_len());
        text::push_text(&mut parts, b);
        if next <= 200 {
            assert(before.push(bv) =~= before + seq![bv]);
            return parts;
        }
        proof {
            let more = option_blocks(all.skip(i + 1), sv, share as int, next as int);
            assert(before.push(bv) + more =~= before + (seq![bv] + more));
        }
        left = next;
        i += 1;
    }
    assert(all.skip(i as int) =~= seq![]);
    assert(text::views(parts@) + seq![] =~= text::views(parts@));
    parts
}

fn fill_context(order: &[String], sections: &[Section], budget: usize) -> (r: Vec<String>)
    ensures
        text::views(r@) == context_blocks(
            text::views(order@),
            section_views(sections@),
            budget as int,
        ),
{
    let body_titles = pick_titles(order, false);
    let option_titles = pick_titles(order, true);
    let (mut parts, left) = fill_body(body_titles.as_slice(), sections, budget);
    let room: usize = if left < OPTIONS_CONTEXT_BUDGET {
        left
    } else {
        OPTIONS_CONTEXT_BUDGET
    };
    if room > 300 && option_titles.len() > 0 {
        let even: usize = room / option_titles.len();
        let share: usize = if even > 400 {
            even
        } else {
            400
        };
        let options = fill_options(option_titles.as_slice(), sections, share, room);
        append_texts(&mut parts, options.as_slice());
    }
    parts
}

/// Extract high-signal manual sections for hidden chat context.
pub fn extract_manual_context(body: &str, budget: usize) -> (r: String)
    ensures
        r@ == manual_excerpt(body@, budget as int),
{
    let body = text::trim(body);
    if body.is_empty() {
        return String::new();
    }
    let sections = split_man_sections(body);
    let fits = body.unicode_len() <= budget;
    assert(sections@.len() > 0 ==> section_views(sections@)[0].0 == sections@[0].0@);
    if sections.len() == 1 && text::same(sections[0].0.as_str(), "Reference") && fits {
        return body.to_owned();
    }
    let order = context_section_order(sections.as_slice());
    if order.len() == 0 {
        if fits {
            return body.to_owned();
        }
        return truncate_excerpt("Reference", body, budget);
    }
    let parts = fill_context(order.as_slice(), sections.as_slice(), budget);
    let joined = text::join(parts.as_slice(), "\n\n");
    let whole = text::trim(joined.as_str());
    if whole.is_empty() {
        return truncate_excerpt("Reference", body, budget);
    }
    if whole.unicode_len() > budget {
        return truncate_excerpt("Summary", whole, budget);
    }
    whole.to_owned()
}

// ── References ───────────────────────────────────────────────────────────────

/// The best reference for a program: its manual, else what the package manager says, else its
/// documentation on the web, each only where something is left of it within the budget.
pub open spec fn best_reference(
    program: Seq<char>,
    budget: nat,
    manual: Option<(Seq<char>, Seq<char>)>,
    package: Option<Seq<char>>,
    docs: Option<Seq<char>>,
) -> ReferenceView {
    let name = text::trimmed(program);
    if name.len() == 0 {
        ReferenceView { program: seq![], source: ReferenceSource::Absent, body: seq![] }
    } else if manual is Some && text::trimmed(manual_excerpt((manual->0).1, budget as int)).len() > 0 {
        ReferenceView {
            program: name,
            source: if (manual->0).0 == "man"@ {
                ReferenceSource::Man
            } else {
                ReferenceSource::Help
            },
            body: manual_excerpt((manual->0).1, budget as int),
        }
    } else if package is Some && text::trimmed(truncated(package->0, budget)).len() > 0 {
        ReferenceView {
            program: name,
            source: ReferenceSource::Package,
            body: truncated(package->0, budget),
        }
    } else if docs is Some && text::trimmed(truncated(docs->0, budget)).len() > 0 {
        ReferenceView {
            program: name,
            source: ReferenceSource::Docs,
            body: truncated(docs->0, budget),
        }
    } else {
        ReferenceView { program: name, source: ReferenceSource::Absent, body: seq![] }
    }
}

/// A reference is reported with a source exactly when it has a body.
pub proof fn law_reference_source(
    program: Seq<char>,
    budget: nat,
    manual: Option<(Seq<char>, Seq<char>)>,
    package: Option<Seq<char>>,
    docs: Option<Seq<char>>,
)
    ensures
        ({
            let r = best_reference(program, budget, manual, package, docs);
            r.source == ReferenceSource::Absent <==> text::trimmed(r.body).len() == 0
        }),
{
}

/// The best reference for `program` among a manual that was found, package information and
/// documentation.
pub fn reference_from(
    program: &str,
    budget: usize,
    manual: Option<&ManualResult>,
    package: Option<&str>,
    docs: Option<&str>,
) -> (r: ReferenceContext)
    ensures
        r@ == best_reference(
            program@,
            budget as nat,
            match manual {
                Some(m) => Some((m.source@, m.body@)),
                None => None,
            },
            text::opt_text(package),
            text::opt_text(docs),
        ),
{
    let program = text::trim(program);
    if program.is_empty() {
        return ReferenceContext::empty(String::new());
    }
    if let Some(m) = manual {
        let extracted = extract_manual_context(m.body.as_str(), budget);
        if !text::trim(extracted.as_str()).is_empty() {
            let source = if text::same(m.source.as_str(), "man") {
                ReferenceSource::Man
            } else {
                ReferenceSource::Help
            };
            return ReferenceContext { program: program.to_owned(), source, body: extracted };
        }
    }
    if let Some(info) = package {
        let body = truncate_chars(info, budget);
        if !text::trim(body.as_str()).is_empty() {
            return ReferenceContext {
                program: program.to_owned(),
                source: ReferenceSource::Package,
                body,
            };
        }
    }
    if let Some(page) = docs {
        let body = truncate_chars(page, budget);
        if !text::trim(body.as_str()).is_empty() {
            return ReferenceContext {
                program: program.to_owned(),
                source: ReferenceSource::Docs,
                body,
            };
        }
    }
    ReferenceContext::empty(program.to_owned())
}

/// The manual that a probe of `program` found, as text.
pub open spec fn probed(program: Seq<char>, probe: ManualProbe) -> Option<(Seq<char>, Seq<char>)> {
    manual_in(
        program,
        stdout_text(probe.man),
        both_text(probe.long_help),
        both_text(probe.short_help),
    )
}

/// Resolve the best available reference for `program` (man → help → package → docs).
pub fn reference_context(
    program: &str,
    budget: usize,
    probe: &ManualProbe,
    package: Option<&str>,
    docs: Option<&str>,
) -> (r: ReferenceContext)
    ensures
        r@ == best_reference(
            program@,
            budget as nat,
            probed(text::trimmed(program@), *probe),
            text::opt_text(package),
            text::opt_text(docs),
        ),
{
    let found = fetch_manual(text::trim(program), probe);
    match &found {
        Some(m) => reference_from(program, budget, Some(m), package, docs),
        None => reference_from(program, budget, None, package, docs),
    }
}

/// Fetch and extract a budgeted context excerpt for `program`.
pub fn manual_context(
    program: &str,
    budget: usize,
    probe: &ManualProbe,
    package: Option<&str>,
    docs: Option<&str>,
) -> (r: Option<String>)
    ensures
        ({
            let best = best_reference(
                program@,
                budget as nat,
                probed(text::trimmed(program@), *probe),
                text::opt_text(package),
                text::opt_text(docs),
            );
            match r {
                Some(body) => text::trimmed(best.body).len() > 0 && body@ == best.body,
                None => text::trimmed(best.body).len() == 0,
            }
        }),
{
    let ctx = reference_context(program, budget, probe, package, docs);
    if ctx.has_body() {
        Some(ctx.body)
    } else {
        None
    }
}

// ── What a reference says ────────────────────────────────────────────────────

/// Text without escapes and backspaces is left as it is.
pub proof fn law_plain_text_stays(s: Seq<char>)
    requires
        !s.contains('\x1b'),
        !s.contains('\x08'),
    ensures
        cleaned(s) == s,
{
    lemma_no_escapes(s);
    lemma_no_backspaces(s);
}

proof fn lemma_no_escapes(s: Seq<char>)
    requires
        !s.contains('\x1b'),
    ensures
        without_escapes(s) == s,
    decreases s.len(),
{
    if s.len() > 0 {
        let rest = s.drop_first();
        assert(s.contains(s[0]));
        assert(!rest.contains('\x1b')) by {
            if rest.contains('\x1b') {
                let k = rest.index_of('\x1b');
                assert(s[k + 1] == '\x1b');
            }
        }
        lemma_no_escapes(rest);
        assert(seq![s[0]] + rest =~= s);
    } else {
        assert(s =~= seq![]);
    }
}

proof fn lemma_no_backspaces(s: Seq<char>)
    requires
        !s.contains('\x08'),
    ensures
        overstruck(s) == s,
    decreases s.len(),
{
    if s.len() > 0 {
        let init = s.drop_last();
        assert(s.contains(s.last()));
        assert(!init.contains('\x08')) by {
            if init.contains('\x08') {
                let k = init.index_of('\x08');
                assert(s[k] == '\x08');
            }
        }
        lemma_no_backspaces(init);
        assert(init.push(s.last()) =~= s);
    } else {
        assert(s =~= seq![]);
    }
}

/// An escape that sets a colour or erases leaves nothing behind, and takes nothing else away.
pub proof fn law_escapes_are_taken_out(
    before: Seq<char>,
    params: Seq<char>,
    end: char,
    after: Seq<char>,
)
    requires
        !before.contains('\x1b'),
        !before.contains('\x08'),
        !after.contains('\x1b'),
        !after.contains('\x08'),
        forall|k: int|
            0 <= k < params.len() ==> text::is_digit(#[trigger] params[k]) || params[k] == ';',
        end == 'm' || end == 'K',
    ensures
        cleaned(before + seq!['\x1b', '['] + params + seq![end] + after) == before + after,
{
    let tail = seq!['\x1b', '['] + params + seq![end] + after;
    let s = before + tail;
    assert(before + seq!['\x1b', '['] + params + seq![end] + after =~= s);
    lemma_escapes_behind(before, tail);
    let rest = tail.skip(2);
    let n = params.len() as int;
    assert forall|k: int| 0 <= k < n implies CharSet::EscapeParams.has(#[trigger] rest[k]) by {
        assert(rest[k] == params[k]);
    }
    assert(rest[n] == end);
    text::lemma_lead_is(rest, CharSet::EscapeParams, n);
    assert(tail[2 + n] == end);
    assert(tail.skip(n + 3) =~= after);
    lemma_no_escapes(after);
    assert(without_escapes(s) =~= before + after);
    assert(!(before + after).contains('\x08')) by {
        if (before + after).contains('\x08') {
            let k = (before + after).index_of('\x08');
            if k < before.len() {
                assert(before.contains(before[k]));
            } else {
                assert(after.contains(after[k - before.len()]));
            }
        }
    }
    lemma_no_backspaces(before + after);
}

proof fn lemma_escapes_behind(before: Seq<char>, tail: Seq<char>)
    requires
        !before.contains('\x1b'),
    ensures
        without_escapes(before + tail) == before + without_escapes(tail),
    decreases before.len(),
{
    if before.len() == 0 {
        assert(before + tail =~= tail);
        assert(before + without_escapes(tail) =~= without_escapes(tail));
    } else {
        let rest = before.drop_first();
        assert(before.contains(before[0]));
        assert(!rest.contains('\x1b')) by {
            if rest.contains('\x1b') {
                let k = rest.index_of('\x1b');
                assert(before[k + 1] == '\x1b');
            }
        }
        lemma_escapes_behind(rest, tail);
        let s = before + tail;
        assert(s[0] == before[0]);
        assert(s.drop_first() =~= rest + tail);
        assert(without_escapes(s) =~= before + without_escapes(tail));
    }
}

/// A backspace takes away the character before it, and nothing else.
pub proof fn law_backspace(s: Seq<char>, c: char)
    requires
        c != '\x08',
    ensures
        overstruck(s.push(c).push('\x08')) == overstruck(s),
        overstruck(s.push(c)) == overstruck(s).push(c),
{
    assert(s.push(c).drop_last() =~= s);
    assert(s.push(c).push('\x08').drop_last() =~= s.push(c));
    assert(s.push(c).last() == c && s.push(c).push('\x08').last() == '\x08');
    assert(overstruck(s.push(c)) == overstruck(s).push(c));
    assert(overstruck(s).push(c).drop_last() =~= overstruck(s));
}

/// The manual that is used is the whole text that `man` wrote, where that is long enough, else
/// what the program wrote for `--help`, else for `-h`, each without its formatting.
pub proof fn law_manual_is_the_whole_text(
    program: Seq<char>,
    man: Seq<char>,
    long_help: Seq<char>,
    short_help: Seq<char>,
)
    requires
        text::trimmed(program).len() > 0,
    ensures
        text::trimmed(cleaned(man)).len() > 100 ==> manual_in(
            program,
            Some(man),
            Some(long_help),
            Some(short_help),
        ) == Some(("man"@, text::trimmed(cleaned(man)))),
        text::trimmed(cleaned(man)).len() <= 100 && text::trimmed(cleaned(long_help)).len() > 50
            ==> manual_in(program, Some(man), Some(long_help), Some(short_help)) == Some(
            ("help"@, text::trimmed(cleaned(long_help))),
        ),
        text::trimmed(cleaned(short_help)).len() > 50 ==> manual_in(
            program,
            None,
            None,
            Some(short_help),
        ) == Some(("help"@, text::trimmed(cleaned(short_help)))),
        text::trimmed(cleaned(man)).len() <= 100 && text::trimmed(cleaned(long_help)).len() <= 50
            && text::trimmed(cleaned(short_help)).len() <= 50 ==> manual_in(
            program,
            Some(man),
            Some(long_help),
            Some(short_help),
        ) is None,
{
}

/// A text that is cut is its start, as long as the limit lets it be, with a note of the cut.
pub proof fn law_truncated_is_a_start(s: Seq<char>, max: nat)
    requires
        max >= 16,
    ensures
        s.len() <= max ==> truncated(s, max) == s,
        s.len() > max ==> exists|n: int|
            #![trigger s.take(n)]
            0 <= n <= max - 16 && truncated(s, max) == s.take(n) + "\n... [truncated]"@ && forall|
                k: int,
            |
                n <= k < max - 16 ==> text::is_white(#[trigger] s[k]),
{
    if s.len() > max {
        let head = s.take(max - 16);
        text::lemma_rtrimmed(head);
        let n = text::rtrimmed(head).len() as int;
        assert(s.take(n) =~= text::rtrimmed(head));
        assert forall|k: int| n <= k < max - 16 implies text::is_white(#[trigger] s[k]) by {
            assert(head[k] == s[k]);
        }
    }
}

/// A line of capitals and digits is a title, with or without a colon; a line with a small letter
/// is none.
pub proof fn law_section_title(title: Seq<char>, line: Seq<char>)
    ensures
        2 <= title.len() <= 41 && (forall|k: int|
            0 <= k < title.len() ==> text::is_upper(#[trigger] title[k])) ==> section_title(title)
            == Some(title) && section_title(title.push(':')) == Some(title),
        (exists|k: int| 0 <= k < line.len() && text::is_lower(#[trigger] line[k]))
            ==> section_title(line) is None,
{
    if 2 <= title.len() <= 41 && (forall|k: int|
        0 <= k < title.len() ==> text::is_upper(#[trigger] title[k])) {
        assert(text::is_upper(title[0]) && text::is_upper(title[1]) && text::is_upper(
            title[title.len() - 1],
        ));
        text::lemma_trimmed_same(title);
        text::lemma_trimmed_same(title.push(':'));
        assert(title.push(':').drop_last() =~= title);
    }
    if exists|k: int| 0 <= k < line.len() && text::is_lower(#[trigger] line[k]) {
        let k = choose|k: int| 0 <= k < line.len() && text::is_lower(#[trigger] line[k]);
        let t = text::trimmed(line);
        text::law_trimmed_takes_white_space(line);
        let i = choose|i: int|
            #[trigger] text::occurs_at(line, t, i) && (forall|m: int|
                0 <= m < line.len() && !(i <= m < i + t.len()) ==> text::is_white(
                    #[trigger] line[m],
                ));
        assert(!text::is_white(line[k]));
        assert(i <= k < i + t.len());
        assert(t[k - i] == line[k]);
        let u = without_colon(t);
        if section_title(line) is Some {
            assert(u[k - i] == t[k - i]);
            if k - i >= 2 {
                assert(is_title_char(u[k - i]));
            }
        }
    }
}

/// What stands under a title in a manual, up to the next title or the end, is the section of that
/// title: every line of it, in its order.
pub proof fn law_section_holds_its_lines(
    before: Seq<Seq<char>>,
    header: Seq<char>,
    rows: Seq<Seq<char>>,
    after: Seq<Seq<char>>,
    title: Seq<char>,
)
    requires
        section_title(text::trimmed(text::rtrimmed(header))) == Some(title),
        rows.len() > 0,
        forall|k: int|
            0 <= k < rows.len() ==> section_title(
                text::trimmed(text::rtrimmed(#[trigger] rows[k])),
            ) is None,
        after.len() > 0 ==> section_title(text::trimmed(text::rtrimmed(after[0]))) is Some,
    ensures
        sections_in(
            before + seq![header] + rows + after,
            "Reference"@,
            seq![],
        ).contains((title, Seq::new(rows.len(), |k: int| text::rtrimmed(rows[k])))),
{
    lemma_section_found(before, header, rows, after, title, "Reference"@, seq![]);
}

proof fn lemma_section_found(
    before: Seq<Seq<char>>,
    header: Seq<char>,
    rows: Seq<Seq<char>>,
    after: Seq<Seq<char>>,
    title: Seq<char>,
    under: Seq<char>,
    held: Seq<Seq<char>>,
)
    requires
        section_title(text::trimmed(text::rtrimmed(header))) == Some(title),
        rows.len() > 0,
        forall|k: int|
            0 <= k < rows.len() ==> section_title(
                text::trimmed(text::rtrimmed(#[trigger] rows[k])),
            ) is None,
        after.len() > 0 ==> section_title(text::trimmed(text::rtrimmed(after[0]))) is Some,
    ensures
        sections_in(before + seq![header] + rows + after, under, held).contains(
            (title, Seq::new(rows.len(), |k: int| text::rtrimmed(rows[k]))),
        ),
    decreases before.len(),
{
    let lines = before + seq![header] + rows + after;
    let want = (title, Seq::new(rows.len(), |k: int| text::rtrimmed(rows[k])));
    let done = if held.len() > 0 {
        seq![(under, held)]
    } else {
        seq![]
    };
    let all = sections_in(lines, under, held);
    if before.len() == 0 {
        assert(lines[0] == header);
        assert(lines.drop_first() =~= rows + after);
        lemma_rows_held(rows, after, title, seq![]);
        assert(Seq::<Seq<char>>::empty() + want.1 =~= want.1);
        let rest = sections_in(rows + after, title, seq![]);
        assert(rest[0] == want);
        assert(all[done.len() as int] == want);
    } else {
        let line = text::rtrimmed(lines[0]);
        assert(lines.drop_first() =~= before.drop_first() + seq![header] + rows + after);
        match section_title(text::trimmed(line)) {
            Some(next) => {
                lemma_section_found(before.drop_first(), header, rows, after, title, next, seq![]);
                let rest = sections_in(lines.drop_first(), next, seq![]);
                let k = rest.index_of(want);
                assert(all[done.len() + k] == want);
            },
            None => {
                lemma_section_found(
                    before.drop_first(),
                    header,
                    rows,
                    after,
                    title,
                    under,
                    held.push(line),
                );
            },
        }
    }
}

proof fn lemma_rows_held(
    rows: Seq<Seq<char>>,
    after: Seq<Seq<char>>,
    title: Seq<char>,
    held: Seq<Seq<char>>,
)
    requires
        held.len() + rows.len() > 0,
        forall|k: int|
            0 <= k < rows.len() ==> section_title(
                text::trimmed(text::rtrimmed(#[trigger] rows[k])),
            ) is None,
        after.len() > 0 ==> section_title(text::trimmed(text::rtrimmed(after[0]))) is Some,
    ensures
        sections_in(rows + after, title, held).len() > 0,
        sections_in(rows + after, title, held)[0] == (
            title,
            held + Seq::new(rows.len(), |k: int| text::rtrimmed(rows[k])),
        ),
    decreases rows.len(),
{
    let lines = rows + after;
    let ends = Seq::new(rows.len(), |k: int| text::rtrimmed(rows[k]));
    if rows.len() == 0 {
        assert(lines =~= after);
        assert(held + ends =~= held);
        if after.len() > 0 {
            assert(lines[0] == after[0]);
        }
    } else {
        let line = text::rtrimmed(rows[0]);
        assert(lines[0] == rows[0]);
        let rest = rows.drop_first();
        assert forall|k: int| 0 <= k < rest.len() implies section_title(
            text::trimmed(text::rtrimmed(#[trigger] rest[k])),
        ) is None by {
            assert(rest[k] == rows[k + 1]);
        }
        assert(lines.drop_first() =~= rest + after);
        lemma_rows_held(rest, after, title, held.push(line));
        assert(held.push(line) + Seq::new(rest.len(), |k: int| text::rtrimmed(rest[k])) =~= held
            + ends);
    }
}

/// The text of a section is all its lines: those that are not blank stand in it in their order,
/// and where neither its first nor its last line is blank, splitting it at line feeds gives them
/// back.
pub proof fn law_section_text_holds_its_lines(
    sections: Seq<(Seq<char>, Seq<Seq<char>>)>,
    k: int,
)
    requires
        0 <= k < sections.len(),
        forall|j: int| 0 <= j < k ==> (#[trigger] sections[j]).0 != sections[k].0,
    ensures
        text::is_text_of_rows(body_of(sections, sections[k].0), sections[k].1),
        text::is_tight(body_of(sections, sections[k].0)),
{
    reveal_strlit("\n");
    assert("\n"@ =~= seq!['\n']);
    lemma_section_lines(sections, k);
    text::lemma_text_of_rows(sections[k].1);
    text::lemma_trimmed(text::joined(sections[k].1, "\n"@));
}

proof fn lemma_section_lines(sections: Seq<(Seq<char>, Seq<Seq<char>>)>, k: int)
    requires
        0 <= k < sections.len(),
        forall|j: int| 0 <= j < k ==> (#[trigger] sections[j]).0 != sections[k].0,
    ensures
        section_lines(sections, sections[k].0) == Some(sections[k].1),
    decreases k,
{
    if k > 0 {
        let rest = sections.drop_first();
        assert(sections[0].0 != sections[k].0);
        assert(rest[k - 1] == sections[k]);
        assert forall|j: int| 0 <= j < k - 1 implies (#[trigger] rest[j]).0 != rest[k - 1].0 by {
            assert(rest[j] == sections[j + 1]);
        }
        lemma_section_lines(rest, k - 1);
    }
}

/// The sections that tell most go into the context where they have text: the name, the synopsis,
/// the description, the usage, the arguments, the examples, the flags, the commands, and all on
/// options.
pub proof fn law_telling_sections_are_selected(
    sections: Seq<(Seq<char>, Seq<Seq<char>>)>,
    t: Seq<char>,
    k: int,
)
    requires
        body_of(sections, t).len() > 0,
    ensures
        t == "NAME"@ || t == "SYNOPSIS"@ || t == "DESCRIPTION"@ || t == "USAGE"@ || t
            == "POSITIONAL ARGUMENTS"@ || t == "ARGUMENTS"@ || t == "EXAMPLES"@ || t == "FLAGS"@ || t
            == "COMMANDS"@ ==> title_order(sections).contains(t),
        0 <= k < sections.len() && sections[k].0 == t && (" COMMANDS"@.is_suffix_of(t)
            || text::has_sub(t, "OPTIONS"@)) ==> title_order(sections).contains(t),
        t == "Reference"@ && body_of(sections, t).len() <= 800 ==> title_order(sections).contains(t),
{
    let candidates = candidate_titles(sections);
    let intro = if 0 < body_of(sections, "Reference"@).len() <= 800 {
        seq!["Reference"@]
    } else {
        seq![]
    };
    let fixed = fixed_titles();
    let commands = command_titles(titles_of(sections));
    let options = titles_by_kind(titles_of(sections), true);
    if t == "NAME"@ || t == "SYNOPSIS"@ || t == "DESCRIPTION"@ || t == "USAGE"@ || t
        == "POSITIONAL ARGUMENTS"@ || t == "ARGUMENTS"@ || t == "EXAMPLES"@ || t == "FLAGS"@ || t
        == "COMMANDS"@ {
        assert(fixed[0] == "NAME"@ && fixed[1] == "SYNOPSIS"@ && fixed[2] == "DESCRIPTION"@
            && fixed[3] == "USAGE"@ && fixed[4] == "POSITIONAL ARGUMENTS"@ && fixed[5]
            == "ARGUMENTS"@ && fixed[6] == "EXAMPLES"@ && fixed[7] == "FLAGS"@ && fixed[8]
            == "COMMANDS"@);
        assert(fixed.contains(t));
        let i = fixed.index_of(t);
        assert(candidates[intro.len() + i] == t);
        lemma_present(candidates, sections, t);
    }
    if 0 <= k < sections.len() && sections[k].0 == t {
        assert(titles_of(sections)[k] == t);
        if " COMMANDS"@.is_suffix_of(t) {
            lemma_command_titles(titles_of(sections), k);
            let i = commands.index_of(t);
            assert(candidates[intro.len() + fixed.len() + i] == t);
            lemma_present(candidates, sections, t);
        }
        if text::has_sub(t, "OPTIONS"@) {
            lemma_titles_by_kind(titles_of(sections), true, k);
            let i = options.index_of(t);
            assert(candidates[intro.len() + fixed.len() + commands.len() + i] == t);
            lemma_present(candidates, sections, t);
        }
    }
    if t == "Reference"@ && body_of(sections, t).len() <= 800 {
        assert(candidates[0] == t);
        lemma_present(candidates, sections, t);
    }
}

proof fn lemma_command_titles(titles: Seq<Seq<char>>, k: int)
    requires
        0 <= k < titles.len(),
        " COMMANDS"@.is_suffix_of(titles[k]),
    ensures
        command_titles(titles).contains(titles[k]),
    decreases titles.len(),
{
    let before = command_titles(titles.drop_last());
    if k == titles.len() - 1 {
        assert(command_titles(titles)[before.len() as int] == titles[k]);
    } else {
        lemma_command_titles(titles.drop_last(), k);
        let i = before.index_of(titles[k]);
        assert(command_titles(titles)[i] == titles[k]);
    }
}

proof fn lemma_titles_by_kind(titles: Seq<Seq<char>>, options: bool, k: int)
    requires
        0 <= k < titles.len(),
        is_options_title(titles[k]) == options,
    ensures
        titles_by_kind(titles, options).contains(titles[k]),
    decreases titles.len(),
{
    let before = titles_by_kind(titles.drop_last(), options);
    if k == titles.len() - 1 {
        assert(titles_by_kind(titles, options)[before.len() as int] == titles[k]);
    } else {
        lemma_titles_by_kind(titles.drop_last(), options, k);
        let i = before.index_of(titles[k]);
        assert(titles_by_kind(titles, options)[i] == titles[k]);
    }
}

proof fn lemma_present(
    titles: Seq<Seq<char>>,
    sections: Seq<(Seq<char>, Seq<Seq<char>>)>,
    t: Seq<char>,
)
    requires
        titles.contains(t),
        body_of(sections, t).len() > 0,
    ensures
        present_titles(titles, sections).contains(t),
    decreases titles.len(),
{
    let init = titles.drop_last();
    let before = present_titles(init, sections);
    let all = present_titles(titles, sections);
    if titles.last() == t {
        if !before.contains(t) {
            assert(all[before.len() as int] == t);
        }
    } else {
        let i = titles.index_of(t);
        assert(init[i] == t);
        lemma_present(init, sections, t);
        let k = before.index_of(t);
        assert(all[k] == t);
    }
}

/// How many characters of the budget are enough for sections.
pub open spec fn room_for(
    titles: Seq<Seq<char>>,
    sections: Seq<(Seq<char>, Seq<Seq<char>>)>,
) -> nat
    decreases titles.len(),
{
    if titles.len() == 0 {
        0
    } else {
        room_for(titles.drop_first(), sections) + 2 * text::byte_len(titles[0]) + body_of(
            sections,
            titles[0],
        ).len() + 30
    }
}

/// Where the budget has room for them, all selected sections that are not on options stand in
/// the excerpt in full, each under its title.
pub proof fn law_excerpt_holds_sections(body: Seq<char>, budget: int, t: Seq<char>)
    requires
        ({
            let sections = manual_sections(text::trimmed(body));
            let order = title_order(sections);
            &&& order.contains(t)
            &&& !text::has_sub(t, "OPTIONS"@)
            &&& titles_by_kind(order, true).len() == 0
            &&& room_for(titles_by_kind(order, false), sections) <= budget
            &&& text::trimmed(body).len() <= budget
            &&& !(sections.len() == 1 && sections[0].0 == "Reference"@)
        }),
    ensures
        ({
            let sections = manual_sections(text::trimmed(body));
            text::has_sub(
                manual_excerpt(body, budget),
                t + "\n"@ + body_of(sections, t),
            )
        }),
{
    let b = text::trimmed(body);
    let sections = manual_sections(b);
    let order = title_order(sections);
    let plain = titles_by_kind(order, false);
    let k = order.index_of(t);
    lemma_titles_by_kind(order, false, k);
    lemma_whole_blocks(plain, sections, budget);
    let blocks = body_blocks(plain, sections, budget).0;
    assert(context_blocks(order, sections, budget) == blocks);
    let joined = text::joined(blocks, "\n\n"@);
    text::law_joined_holds_all(blocks, "\n\n"@);
    let i = plain.index_of(t);
    let want = t + "\n"@ + body_of(sections, t);
    assert(blocks[i] == want);
    text::lemma_in_order_each(joined, blocks, i);
    let at = choose|at: int| text::occurs_at(joined, want, at);
    reveal_strlit("Reference");
    lemma_titles_are_tight(text::line_list(b), "Reference"@, seq![]);
    law_title_order(sections);
    assert(body_of(sections, t).len() > 0);
    lemma_selected_is_titled(sections, t);
    text::lemma_trimmed(text::joined(section_lines(sections, t)->0, "\n"@));
    assert(text::is_tight(want)) by {
        assert(want[0] == t[0]);
        assert(want.last() == body_of(sections, t).last());
    }
    text::lemma_trimmed_keeps(joined, want, at);
    lemma_blocks_len(plain, sections, budget);
    reveal_strlit("\n\n");
    text::lemma_trimmed_part(joined);
    let whole = text::trimmed(joined);
    assert(whole.len() > 0);
    assert(whole.len() <= budget);
    assert(b.len() > 0) by {
        if b.len() == 0 {
            assert(text::line_list(b) =~= seq![]);
            assert(sections =~= seq![]);
        }
    }
}

proof fn lemma_whole_blocks(
    titles: Seq<Seq<char>>,
    sections: Seq<(Seq<char>, Seq<Seq<char>>)>,
    left: int,
)
    requires
        room_for(titles, sections) <= left,
    ensures
        body_blocks(titles, sections, left).0 == Seq::new(
            titles.len(),
            |i: int| titles[i] + "\n"@ + body_of(sections, titles[i]),
        ),
    decreases titles.len(),
{
    let want = Seq::new(titles.len(), |i: int| titles[i] + "\n"@ + body_of(sections, titles[i]));
    if titles.len() > 0 {
        let t = titles[0];
        let width = text::byte_len(t);
        let own = body_of(sections, t);
        let rest = titles.drop_first();
        text::lemma_bytes_of_chars(t);
        reveal_strlit("\n\n[... ");
        reveal_strlit(" truncated ...]");
        reveal_strlit("\n");
        assert(cut_note(t).len() == t.len() + 22);
        assert(section_cut(t, own, left - width - 1) == own);
        let b = block(t, own);
        let next = less(left, b.len() as int + 2);
        assert(room_for(rest, sections) <= next);
        if next == 0 {
            assert(rest.len() == 0);
            assert(body_blocks(titles, sections, left).0 =~= want);
        } else {
            lemma_whole_blocks(rest, sections, next);
            assert(body_blocks(titles, sections, left).0 =~= want);
        }
    } else {
        assert(body_blocks(titles, sections, left).0 =~= want);
    }
}

proof fn lemma_blocks_len(
    titles: Seq<Seq<char>>,
    sections: Seq<(Seq<char>, Seq<Seq<char>>)>,
    left: int,
)
    requires
        room_for(titles, sections) <= left,
    ensures
        text::joined(body_blocks(titles, sections, left).0, "\n\n"@).len() <= left,
    decreases titles.len(),
{
    lemma_whole_blocks(titles, sections, left);
    reveal_strlit("\n\n");
    reveal_strlit("\n");
    let blocks = body_blocks(titles, sections, left).0;
    if titles.len() > 0 {
        let t = titles[0];
        let rest = titles.drop_first();
        text::lemma_bytes_of_chars(t);
        let first = blocks[0];
        assert(first.len() == t.len() + 1 + body_of(sections, t).len());
        if titles.len() == 1 {
            assert(blocks =~= seq![first]);
        } else {
            let next = left - first.len() - 2;
            assert(room_for(rest, sections) <= next);
            lemma_blocks_len(rest, sections, next);
            lemma_whole_blocks(rest, sections, next);
            let more = body_blocks(rest, sections, next).0;
            assert(blocks =~= seq![first] + more);
            text::lemma_joined_concat(seq![first], more, "\n\n"@);
            assert(text::joined(seq![first], "\n\n"@) == first);
        }
    } else {
        assert(blocks =~= seq![]);
    }
}

proof fn lemma_titles_are_tight(
    lines: Seq<Seq<char>>,
    title: Seq<char>,
    held: Seq<Seq<char>>,
)
    requires
        title.len() > 0,
        text::is_tight(title),
    ensures
        forall|k: int|
            0 <= k < sections_in(lines, title, held).len() ==> (#[trigger] sections_in(
                lines,
                title,
                held,
            )[k]).0.len() > 0 && text::is_tight(sections_in(lines, title, held)[k].0),
    decreases lines.len(),
{
    let all = sections_in(lines, title, held);
    let done = if held.len() > 0 {
        seq![(title, held)]
    } else {
        seq![]
    };
    if lines.len() > 0 {
        let line = text::rtrimmed(lines[0]);
        match section_title(text::trimmed(line)) {
            Some(next) => {
                let u = without_colon(text::trimmed(text::trimmed(line)));
                text::lemma_trimmed(u);
                text::lemma_blank(u);
                assert(!text::is_white(u[0]));
                lemma_titles_are_tight(lines.drop_first(), next, seq![]);
                let rest = sections_in(lines.drop_first(), next, seq![]);
                assert forall|k: int| 0 <= k < all.len() implies (#[trigger] all[k]).0.len() > 0
                    && text::is_tight(all[k].0) by {
                    if k >= done.len() {
                        assert(all[k] == rest[k - done.len()]);
                    }
                }
            },
            None => {
                lemma_titles_are_tight(lines.drop_first(), title, held.push(line));
                assert(all == sections_in(lines.drop_first(), title, held.push(line)));
            },
        }
    } else {
        assert(all == done);
    }
}

proof fn lemma_selected_is_titled(sections: Seq<(Seq<char>, Seq<Seq<char>>)>, t: Seq<char>)
    requires
        body_of(sections, t).len() > 0,
        forall|k: int|
            0 <= k < sections.len() ==> (#[trigger] sections[k]).0.len() > 0 && text::is_tight(
                sections[k].0,
            ),
    ensures
        t.len() > 0,
        text::is_tight(t),
        section_lines(sections, t) is Some,
    decreases sections.len(),
{
    if sections.len() > 0 && sections[0].0 != t {
        let rest = sections.drop_first();
        assert forall|k: int| 0 <= k < rest.len() implies (#[trigger] rest[k]).0.len() > 0
            && text::is_tight(rest[k].0) by {
            assert(rest[k] == sections[k + 1]);
        }
        lemma_selected_is_titled(rest, t);
    }
}

/// A manual without titles that fits the budget is taken as it is.
pub proof fn law_untitled_manual_is_taken_whole(body: Seq<char>, budget: int)
    requires
        text::trimmed(body).len() <= budget,
        forall|k: int|
            0 <= k < text::line_list(text::trimmed(body)).len() ==> section_title(
                text::trimmed(text::rtrimmed(#[trigger] text::line_list(text::trimmed(body))[k])),
            ) is None,
    ensures
        manual_excerpt(body, budget) == text::trimmed(body),
{
    let b = text::trimmed(body);
    let lines = text::line_list(b);
    if b.len() > 0 && lines.len() > 0 {
        lemma_rows_held(lines, seq![], "Reference"@, seq![]);
        assert(lines + Seq::<Seq<char>>::empty() =~= lines);
        lemma_one_section(lines, "Reference"@, seq![]);
    } else if b.len() == 0 {
        assert(b =~= seq![]);
    }
}

proof fn lemma_one_section(lines: Seq<Seq<char>>, title: Seq<char>, held: Seq<Seq<char>>)
    requires
        forall|k: int|
            0 <= k < lines.len() ==> section_title(
                text::trimmed(text::rtrimmed(#[trigger] lines[k])),
            ) is None,
    ensures
        sections_in(lines, title, held).len() <= 1,
    decreases lines.len(),
{
    if lines.len() > 0 {
        let rest = lines.drop_first();
        assert forall|k: int| 0 <= k < rest.len() implies section_title(
            text::trimmed(text::rtrimmed(#[trigger] rest[k])),
        ) is None by {
            assert(rest[k] == lines[k + 1]);
        }
        assert(lines[0] == lines[0 as int]);
        lemma_one_section(rest, title, held.push(text::rtrimmed(lines[0])));
    }
}

/// A reference is the manual where that says anything, else what the package manager says, else
/// the documentation.
pub proof fn law_best_reference(
    program: Seq<char>,
    budget: nat,
    source: Seq<char>,
    manual: Seq<char>,
    package: Seq<char>,
    docs: Seq<char>,
)
    requires
        text::trimmed(program).len() > 0,
    ensures
        text::trimmed(manual_excerpt(manual, budget as int)).len() > 0 ==> best_reference(
            program,
            budget,
            Some((source, manual)),
            Some(package),
            Some(docs),
        ).body == manual_excerpt(manual, budget as int),
        text::trimmed(package).len() > 0 && package.len() <= budget ==> best_reference(
            program,
            budget,
            None,
            Some(package),
            Some(docs),
        ).body == package,
        text::trimmed(docs).len() > 0 && docs.len() <= budget ==> best_reference(
            program,
            budget,
            None,
            None,
            Some(docs),
        ).body == docs,
        best_reference(program, budget, Some((source, manual)), Some(package), Some(docs)).program
            == text::trimmed(program),
{
}

/// What a program writes about itself is read from both of its streams, one after the other; a
/// manual page is read from the first alone.
pub proof fn law_probed(program: Seq<char>, probe: ManualProbe)
    requires
        text::trimmed(program).len() > 0,
    ensures
        probe.man is None ==> (probe.long_help matches Some(o) ==> ({
            let t = text::trimmed(
                cleaned(text::lossy_text(o.stdout@) + text::lossy_text(o.stderr@)),
            );
            t.len() > 50 ==> probed(program, probe) == Some(("help"@, t))
        })),
        probe.man is None && probe.long_help is None ==> (probe.short_help matches Some(o) ==> ({
            let t = text::trimmed(
                cleaned(text::lossy_text(o.stdout@) + text::lossy_text(o.stderr@)),
            );
            t.len() > 50 ==> probed(program, probe) == Some(("help"@, t))
        })),
        probe.man matches Some(o) ==> ({
            let t = text::trimmed(cleaned(text::lossy_text(o.stdout@)));
            t.len() > 100 ==> probed(program, probe) == Some(("man"@, t))
        }),
        probe.man is None && probe.long_help is None && probe.short_help is None ==> probed(
            program,
            probe,
        ) is None,
{
}

/// A section that fits is quoted in full; of another the start is, as much as there is room for,
/// with a note that names the section.
pub proof fn law_section_cut(name: Seq<char>, text: Seq<char>, max: int)
    requires
        cut_note(name).len() <= max,
    ensures
        text.len() + cut_note(name).len() <= max ==> section_cut(name, text, max) == text,
        text.len() + cut_note(name).len() > max ==> exists|n: int|
            #![trigger text.take(n)]
            0 <= n <= text.len() && section_cut(name, text, max) == text.take(n) + cut_note(name)
                && forall|k: int|
                n <= k < text.len() && k < max - cut_note(name).len() ==> text::is_white(
                    #[trigger] text[k],
                ),
        text::has_sub(cut_note(name), name),
        section_cut(name, text, max).len() <= max,
{
    let note = cut_note(name);
    text::lemma_occurs("\n\n[... "@, name, " truncated ...]"@);
    if text.len() + note.len() > max {
        let m = less(max, note.len() as int);
        let head = text::first_chars(text, m as nat);
        text::lemma_rtrimmed(head);
        let n = text::rtrimmed(head).len() as int;
        assert(text.take(n) =~= text::rtrimmed(head));
        assert forall|k: int| n <= k < text.len() && k < max - note.len() implies text::is_white(
            #[trigger] text[k],
        ) by {
            assert(head[k] == text[k]);
        }
    }
}

/// A title may be of several words in capitals, with digits and hyphens in them.
pub proof fn law_title_of_words(first: Seq<char>, c: char, rest: Seq<char>)
    requires
        first.len() >= 2,
        rest.len() > 0,
        first.len() + rest.len() <= 40,
        c == ' ' || c == '-',
        forall|k: int| 0 <= k < first.len() ==> 'A' <= #[trigger] first[k] <= 'Z',
        forall|k: int|
            0 <= k < rest.len() ==> 'A' <= #[trigger] rest[k] <= 'Z' || '0' <= rest[k] <= '9',
    ensures
        section_title(first + seq![c] + rest) == Some(first + seq![c] + rest),
{
    let t = first + seq![c] + rest;
    assert(t[0] == first[0] && t[1] == first[1]);
    assert(t.last() == rest.last());
    assert(rest[rest.len() - 1] == rest.last());
    text::lemma_trimmed_same(t);
    assert forall|i: int| 2 <= i < t.len() implies is_title_char(#[trigger] t[i]) by {
        if i < first.len() {
            assert(t[i] == first[i]);
        } else if i > first.len() {
            assert(t[i] == rest[i - first.len() - 1]);
        }
    }
}

/// Where a reference comes from is told: from the manual, from the help, from the package manager
/// or from the official pages, in this order; where nothing is found, that is told.
pub proof fn law_source_is_told(
    program: Seq<char>,
    budget: nat,
    manual: Seq<char>,
    package: Seq<char>,
    docs: Seq<char>,
)
    requires
        text::trimmed(program).len() > 0,
    ensures
        text::trimmed(manual_excerpt(manual, budget as int)).len() > 0 ==> best_reference(
            program,
            budget,
            Some(("man"@, manual)),
            Some(package),
            Some(docs),
        ).source == ReferenceSource::Man && best_reference(
            program,
            budget,
            Some(("help"@, manual)),
            Some(package),
            Some(docs),
        ).source == ReferenceSource::Help,
        text::trimmed(package).len() > 0 && package.len() <= budget ==> best_reference(
            program,
            budget,
            None,
            Some(package),
            Some(docs),
        ).source == ReferenceSource::Package,
        text::trimmed(docs).len() > 0 && docs.len() <= budget ==> best_reference(
            program,
            budget,
            None,
            None,
            Some(docs),
        ).source == ReferenceSource::Docs,
        best_reference(program, budget, None, None, None).source == ReferenceSource::Absent,
        best_reference(program, budget, None, None, None).body.len() == 0,
{
    reveal_strlit("man");
    reveal_strlit("help");
    assert("man"@.len() == 3 && "help"@.len() == 4);
}

/// The sections on options are quoted in full as far as there is room: each that takes no more
/// than its share, while what is left is enough.
pub proof fn law_options_are_quoted(
    titles: Seq<Seq<char>>,
    sections: Seq<(Seq<char>, Seq<Seq<char>>)>,
    share: int,
    left: int,
    i: int,
)
    requires
        0 <= i < titles.len(),
        room_for(titles, sections) + 230 <= left,
        share >= 230,
        forall|k: int|
            0 <= k < titles.len() ==> 2 * text::byte_len(#[trigger] titles[k]) + body_of(
                sections,
                titles[k],
            ).len() + 30 <= share,
        body_of(sections, titles[i]).len() > 0,
    ensures
        option_blocks(titles, sections, share, left).contains(
            titles[i] + "\n"@ + body_of(sections, titles[i]),
        ),
    decreases titles.len(),
{
    let t = titles[0];
    let body = body_of(sections, t);
    let rest = titles.drop_first();
    let all = option_blocks(titles, sections, share, left);
    let want = titles[i] + "\n"@ + body_of(sections, titles[i]);
    assert(2 * text::byte_len(t) + body.len() + 30 <= share);
    assert forall|k: int| 0 <= k < rest.len() implies 2 * text::byte_len(#[trigger] rest[k])
        + body_of(sections, rest[k]).len() + 30 <= share by {
        assert(rest[k] == titles[k + 1]);
    }
    if body.len() == 0 {
        assert(rest[i - 1] == titles[i]);
        law_options_are_quoted(rest, sections, share, left, i - 1);
    } else {
        let room = if share < left {
            share
        } else {
            left
        };
        let width = text::byte_len(t) as int;
        text::lemma_bytes_of_chars(t);
        reveal_strlit("\n\n[... ");
        reveal_strlit(" truncated ...]");
        reveal_strlit("\n");
        assert(cut_note(t).len() == t.len() + 22);
        assert(section_cut(t, body, less(room, width + 1)) == body);
        let b = block(t, body);
        assert(b.len() == t.len() + 1 + body.len());
        assert(all[0] == b);
        if i > 0 {
            let more = less(left, b.len() as int + 2);
            assert(rest[i - 1] == titles[i]);
            law_options_are_quoted(rest, sections, share, more, i - 1);
            let tail = option_blocks(rest, sections, share, more);
            let j = tail.index_of(want);
            assert(all[j + 1] == want);
        }
    }
}

/// Behind the other sections of a manual stand those on its options, as far as there is room.
pub proof fn law_options_follow(
    order: Seq<Seq<char>>,
    sections: Seq<(Seq<char>, Seq<Seq<char>>)>,
    budget: int,
    i: int,
)
    requires
        ({
            let options = titles_by_kind(order, true);
            let left = body_blocks(titles_by_kind(order, false), sections, budget).1;
            &&& 0 <= i < options.len()
            &&& room_for(options, sections) + 301 <= left
            &&& room_for(options, sections) + 301 <= 12_000
            &&& body_of(sections, options[i]).len() > 0
            &&& forall|k: int|
                0 <= k < options.len() ==> 2 * text::byte_len(#[trigger] options[k]) + body_of(
                    sections,
                    options[k],
                ).len() + 30 <= 400
        }),
    ensures
        ({
            let t = titles_by_kind(order, true)[i];
            context_blocks(order, sections, budget).contains(t + "\n"@ + body_of(sections, t))
        }),
{
    let options = titles_by_kind(order, true);
    let t = options[i];
    let body = body_blocks(titles_by_kind(order, false), sections, budget);
    let left = if body.1 < OPTIONS_CONTEXT_BUDGET {
        body.1
    } else {
        OPTIONS_CONTEXT_BUDGET as int
    };
    let even = left / options.len() as int;
    let share = if even > 400 {
        even
    } else {
        400
    };
    law_options_are_quoted(options, sections, share, left, i);
    let tail = option_blocks(options, sections, share, left);
    let want = t + "\n"@ + body_of(sections, t);
    let j = tail.index_of(want);
    assert(context_blocks(order, sections, budget)[body.0.len() + j] == want);
}

} // verus!
