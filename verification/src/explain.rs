//! Answers of the explanation backend: what they hold, the styled lines they become, and
//! the shell commands that the user can act on.

use crate::layout;
use crate::layout::{DisplayLine, LineStyle, LineView};
use crate::text;
use crate::text::CharSet;
use vstd::prelude::*;
use vstd::string::*;

verus! {

broadcast use vstd::string::group_string_axioms;

/// Most actionable commands that are kept.
pub const HUD_MAX_ITEMS: usize = 5;

/// Heading of the general part of an explanation.
pub const SECTION_GENERAL: &'static str = "General";

/// Heading of the part on the command in its context.
pub const SECTION_CONTEXT: &'static str = "Context";

/// Heading of the part on the command's flags.
pub const SECTION_FLAGS: &'static str = "Flags";

/// Heading of the suggested fix.
pub const SECTION_FIX: &'static str = "Suggested fix";

/// Heading of the list of similar commands.
pub const SECTION_SIMILAR: &'static str = "Similar commands";

// ── What the backend answers ─────────────────────────────────────────────────

/// One flag of a command, what it means and an example.
#[derive(Debug, Clone, PartialEq, Eq)]
pub struct FlagExplanation {
    pub flag: String,
    pub meaning: String,
    pub example: String,
}

/// What a [`FlagExplanation`] says.
pub ghost struct FlagView {
    pub flag: Seq<char>,
    pub meaning: Seq<char>,
    pub example: Seq<char>,
}

impl View for FlagExplanation {
    type V = FlagView;

    open spec fn view(&self) -> FlagView {
        FlagView { flag: self.flag@, meaning: self.meaning@, example: self.example@ }
    }
}

/// A structured explanation of one command.
#[derive(Debug, Clone, PartialEq, Eq)]
pub struct ExplainResponse {
    pub command_name: String,
    pub flags_explained: Vec<FlagExplanation>,
    pub general_utility: String,
    pub contextual_usage: String,
    pub error_fix: Option<String>,
    pub similar_commands: Vec<String>,
    pub tool_calls_made: Vec<String>,
    pub actionable_items: Vec<String>,
}

/// What an [`ExplainResponse`] says.
pub ghost struct ExplainView {
    pub command_name: Seq<char>,
    pub flags_explained: Seq<FlagView>,
    pub general_utility: Seq<char>,
    pub contextual_usage: Seq<char>,
    pub error_fix: Option<Seq<char>>,
    pub similar_commands: Seq<Seq<char>>,
    pub tool_calls_made: Seq<Seq<char>>,
    pub actionable_items: Seq<Seq<char>>,
}

/// What each of the flags says.
pub open spec fn flag_views(flags: Seq<FlagExplanation>) -> Seq<FlagView> {
    Seq::new(flags.len(), |i: int| flags[i]@)
}

impl View for ExplainResponse {
    type V = ExplainView;

    open spec fn view(&self) -> ExplainView {
        ExplainView {
            command_name: self.command_name@,
            flags_explained: flag_views(self.flags_explained@),
            general_utility: self.general_utility@,
            contextual_usage: self.contextual_usage@,
            error_fix: text::opt_string(self.error_fix),
            similar_commands: text::views(self.similar_commands@),
            tool_calls_made: text::views(self.tool_calls_made@),
            actionable_items: text::views(self.actionable_items@),
        }
    }
}

/// A titled part of a command reference.
#[derive(Debug, Clone, PartialEq, Eq)]
pub struct ReferenceSection {
    pub name: String,
    pub lines: Vec<String>,
}

/// What a [`ReferenceSection`] says.
pub ghost struct SectionView {
    pub name: Seq<char>,
    pub lines: Seq<Seq<char>>,
}

impl View for ReferenceSection {
    type V = SectionView;

    open spec fn view(&self) -> SectionView {
        SectionView { name: self.name@, lines: text::views(self.lines@) }
    }
}

/// A formatted man page or `--help` text.
#[derive(Debug, Clone, PartialEq, Eq)]
pub struct CommandReferenceResponse {
    pub title: String,
    pub source: String,
    pub sections: Vec<ReferenceSection>,
}

/// What a [`CommandReferenceResponse`] says.
pub ghost struct CommandReferenceView {
    pub title: Seq<char>,
    pub source: Seq<char>,
    pub sections: Seq<SectionView>,
}

/// What each of the sections says.
pub open spec fn section_views(sections: Seq<ReferenceSection>) -> Seq<SectionView> {
    Seq::new(sections.len(), |i: int| sections[i]@)
}

impl View for CommandReferenceResponse {
    type V = CommandReferenceView;

    open spec fn view(&self) -> CommandReferenceView {
        CommandReferenceView {
            title: self.title@,
            source: self.source@,
            sections: section_views(self.sections@),
        }
    }
}

// ── Actionable commands ──────────────────────────────────────────────────────

/// `kept`, and after it those of `items`, trimmed, that are neither empty nor there
/// already, up to [`HUD_MAX_ITEMS`] in all.
pub open spec fn deduped(items: Seq<Seq<char>>, kept: Seq<Seq<char>>) -> Seq<Seq<char>>
    decreases items.len(),
{
    if items.len() == 0 || kept.len() >= HUD_MAX_ITEMS {
        kept
    } else {
        let key = text::trimmed(items[0]);
        let rest = items.drop_first();
        if key.len() == 0 || kept.contains(key) {
            deduped(rest, kept)
        } else {
            deduped(rest, kept.push(key))
        }
    }
}

/// What holds of a list of actionable commands: it is short, and no command is empty or
/// occurs twice.
pub open spec fn presentable(items: Seq<Seq<char>>) -> bool {
    &&& items.len() <= HUD_MAX_ITEMS
    &&& items.no_duplicates()
    &&& forall|i: int| 0 <= i < items.len() ==> (#[trigger] items[i]).len() > 0
}

/// Whether `item` is one of `all`, trimmed.
pub open spec fn came_from(item: Seq<char>, all: Seq<Seq<char>>) -> bool {
    exists|j: int| 0 <= j < all.len() && text::trimmed(#[trigger] all[j]) == item
}

/// At most [`HUD_MAX_ITEMS`] commands are kept, none empty, none twice, and each is one of
/// those given, trimmed.
pub proof fn law_deduped(items: Seq<Seq<char>>)
    ensures
        presentable(deduped(items, seq![])),
        forall|i: int|
            0 <= i < deduped(items, seq![]).len() ==> came_from(
                #[trigger] deduped(items, seq![])[i],
                items,
            ),
{
    lemma_deduped(items, seq![], items);
}

proof fn lemma_deduped(items: Seq<Seq<char>>, kept: Seq<Seq<char>>, all: Seq<Seq<char>>)
    requires
        presentable(kept),
        forall|i: int|
            0 <= i < kept.len() ==> came_from(#[trigger] kept[i], all),
        forall|i: int| 0 <= i < items.len() ==> all.contains(#[trigger] items[i]),
    ensures
        presentable(deduped(items, kept)),
        forall|i: int|
            0 <= i < deduped(items, kept).len() ==> came_from(
                #[trigger] deduped(items, kept)[i],
                all,
            ),
    decreases items.len(),
{
    if items.len() > 0 && kept.len() < HUD_MAX_ITEMS {
        let key = text::trimmed(items[0]);
        let rest = items.drop_first();
        assert(all.contains(items[0]));
        if key.len() == 0 || kept.contains(key) {
            lemma_deduped(rest, kept, all);
        } else {
            let more = kept.push(key);
            assert forall|i: int| 0 <= i < more.len() implies came_from(
                #[trigger] more[i],
                all,
            ) by {
                if i < kept.len() {
                    assert(more[i] == kept[i]);
                } else {
                    let j = choose|j: int| 0 <= j < all.len() && all[j] == items[0];
                    assert(text::trimmed(all[j]) == more[i]);
                }
            }
            lemma_deduped(rest, more, all);
        }
    }
}

/// The first [`HUD_MAX_ITEMS`] of `items`, trimmed, without what is empty or repeated.
pub fn dedupe_actionable_items(items: Vec<String>) -> (r: Vec<String>)
    ensures
        text::views(r@) == deduped(text::views(items@), seq![]),
{
    let ghost all = text::views(items@);
    let mut out: Vec<String> = Vec::new();
    let mut i: usize = 0;
    assert(text::views(out@) =~= seq![]);
    assert(all.skip(0) =~= all);
    while i < items.len() && out.len() < HUD_MAX_ITEMS
        invariant
            all == text::views(items@),
            i <= items@.len(),
            deduped(all.skip(i as int), text::views(out@)) == deduped(all, seq![]),
        decreases items@.len() - i,
    {
        assert(all[i as int] == items@[i as int]@);
        assert(all.skip(i as int).drop_first() =~= all.skip(i + 1));
        let key = text::trim(items[i].as_str());
        if key.unicode_len() > 0 && !text::list_contains(out.as_slice(), key) {
            text::push_text(&mut out, key.to_owned());
        }
        i += 1;
    }
    out
}

/// Whether `s` may be a shell command rather than a sentence.
pub open spec fn command_like(s: Seq<char>) -> bool {
    let t = text::trimmed(s);
    &&& t.len() > 0
    &&& text::byte_len(t) <= 200
    &&& !text::has_sub(t, " should "@)
    &&& !text::has_sub(t, " because "@)
    &&& t[0] == '$' || text::has_sub(t, "git "@) || text::has_sub(t, "sudo "@) || text::is_alnum(
        t[0],
    ) || t[0] == '.' || t[0] == '/'
}

/// Whether `s` may be a shell command rather than a sentence.
pub fn looks_like_command(s: &str) -> (r: bool)
    ensures
        r == command_like(s@),
{
    let t = text::trim(s);
    if t.unicode_len() == 0 || text::len_bytes(t) > 200 {
        return false;
    }
    if text::contains(t, " should ") || text::contains(t, " because ") {
        return false;
    }
    let c = t.get_char(0);
    c == '$' || text::contains(t, "git ") || text::contains(t, "sudo ")
        || text::is_ascii_alphanumeric(c) || c == '.' || c == '/'
}

/// The command in a line that starts with a number.
pub open spec fn numbered_item(line: Seq<char>) -> Option<Seq<char>> {
    let n = text::lead(line, CharSet::Digits) as int;
    let rest = text::trimmed(text::trimmed_start(line.skip(n), CharSet::ListMark));
    if n > 0 && command_like(rest) {
        Some(rest)
    } else {
        None
    }
}

/// The command in a line that starts with a number: what follows the number and the
/// dots or brackets after it.
pub fn parse_numbered_list_line(trimmed: &str) -> (r: Option<String>)
    ensures
        text::opt_string(r) == numbered_item(trimmed@),
{
    let chars = text::chars_of(trimmed);
    let n = text::run_length(chars.as_slice(), 0, CharSet::Digits);
    assert(chars@.skip(0) =~= trimmed@);
    if n == 0 {
        return None;
    }
    let rest = text::trim(text::trim_start_of(text::skip(trimmed, n), CharSet::ListMark));
    if looks_like_command(rest) {
        Some(rest.to_owned())
    } else {
        None
    }
}

/// Whether a trimmed line opens or closes a code block.
pub open spec fn is_fence(line: Seq<char>) -> bool {
    "```"@.is_prefix_of(line)
}

/// The command that a trimmed line of prose holds.
pub open spec fn prose_item(line: Seq<char>, in_fence: bool) -> Option<Seq<char>> {
    if in_fence && line.len() > 0 {
        Some(line)
    } else if numbered_item(line) is Some {
        numbered_item(line)
    } else if "- "@.is_prefix_of(line) && command_like(line.skip(2)) {
        Some(line.skip(2))
    } else {
        None
    }
}

/// The commands that lines of prose hold: all lines of code blocks, and of the list items
/// those that may be commands.
pub open spec fn prose_items(lines: Seq<Seq<char>>, in_fence: bool) -> Seq<Seq<char>>
    decreases lines.len(),
{
    if lines.len() == 0 {
        seq![]
    } else {
        let line = text::trimmed(lines[0]);
        let rest = lines.drop_first();
        if is_fence(line) {
            prose_items(rest, !in_fence)
        } else {
            match prose_item(line, in_fence) {
                Some(item) => seq![item] + prose_items(rest, in_fence),
                None => prose_items(rest, in_fence),
            }
        }
    }
}

/// The actionable commands in `prose`.
pub open spec fn actionable(prose: Seq<char>) -> Seq<Seq<char>> {
    deduped(prose_items(text::line_list(prose), false), seq![])
}

/// The command that a trimmed line of prose holds.
fn read_prose_line(line: &str, in_fence: bool) -> (r: Option<String>)
    ensures
        text::opt_string(r) == prose_item(line@, in_fence),
{
    if in_fence && line.unicode_len() > 0 {
        return Some(line.to_owned());
    }
    match parse_numbered_list_line(line) {
        Some(item) => Some(item),
        None => {
            if text::starts_with(line, "- ") {
                proof {
                    reveal_strlit("- ");
                }
                let rest = text::skip(line, 2);
                if looks_like_command(rest) {
                    return Some(rest.to_owned());
                }
            }
            None
        },
    }
}

/// The shell commands in prose: code blocks, and numbered or bulleted lines.
pub fn extract_actionable_from_prose(prose: Option<&str>) -> (r: Vec<String>)
    ensures
        text::views(r@) == (match prose {
            Some(p) => actionable(p@),
            None => seq![],
        }),
{
    match prose {
        None => {
            let out: Vec<String> = Vec::new();
            assert(text::views(out@) =~= seq![]);
            out
        },
        Some(p) => {
            let lines = text::lines(p);
            let ghost all = text::line_list(p@);
            let mut items: Vec<String> = Vec::new();
            let mut in_fence: bool = false;
            let mut i: usize = 0;
            assert(all.skip(0) =~= all);
            assert(text::views(items@) + prose_items(all, false) =~= prose_items(all, false));
            while i < lines.len()
                invariant
                    all == text::views(lines@),
                    i <= lines@.len(),
                    text::views(items@) + prose_items(all.skip(i as int), in_fence) == prose_items(
                        all,
                        false,
                    ),
                decreases lines@.len() - i,
            {
                assert(all[i as int] == lines@[i as int]@);
                assert(all.skip(i as int).drop_first() =~= all.skip(i + 1));
                let line = text::trim(lines[i].as_str());
                if text::starts_with(line, "```") {
                    in_fence = !in_fence;
                } else {
                    match read_prose_line(line, in_fence) {
                        Some(item) => {
                            let ghost before = text::views(items@);
                            let ghost held = item@;
                            text::push_text(&mut items, item);
                            assert(before.push(held) + prose_items(all.skip(i + 1), in_fence)
                                =~= before + (seq![held] + prose_items(all.skip(i + 1), in_fence)));
                        },
                        None => {},
                    }
                }
                i += 1;
            }
            assert(all.skip(i as int) =~= seq![]);
            assert(text::views(items@) + seq![] =~= text::views(items@));
            dedupe_actionable_items(items)
        },
    }
}

/// The examples of `flags` that are not empty.
pub open spec fn flag_examples(flags: Seq<FlagView>) -> Seq<Seq<char>>
    decreases flags.len(),
{
    if flags.len() == 0 {
        seq![]
    } else {
        let before = flag_examples(flags.drop_last());
        let example = flags.last().example;
        if example.len() == 0 {
            before
        } else {
            before.push(example)
        }
    }
}

/// The actionable commands of an explanation: those it lists, else those of its suggested
/// fix and the examples of its flags.
pub open spec fn response_items(response: ExplainView) -> Seq<Seq<char>> {
    if response.actionable_items.len() > 0 {
        deduped(response.actionable_items, seq![])
    } else {
        let fix = match response.error_fix {
            Some(fix) => actionable(fix),
            None => seq![],
        };
        deduped(fix + flag_examples(response.flags_explained), seq![])
    }
}

/// The same strings once more.
pub fn copy_list(list: &[String]) -> (r: Vec<String>)
    ensures
        text::views(r@) == text::views(list@),
{
    let mut out: Vec<String> = Vec::new();
    let mut i: usize = 0;
    assert(text::views(out@) =~= text::views(list@).take(0));
    while i < list.len()
        invariant
            i <= list@.len(),
            text::views(out@) == text::views(list@).take(i as int),
        decreases list@.len() - i,
    {
        text::push_text(&mut out, list[i].clone());
        i += 1;
        assert(text::views(list@).take(i as int) =~= text::views(list@).take(i - 1).push(
            list@[i - 1]@,
        ));
    }
    assert(text::views(list@).take(i as int) =~= text::views(list@));
    out
}

/// The actionable commands of an explanation: those it lists, else those of its suggested
/// fix and the examples of its flags.
pub fn actionable_items_from_response(response: &ExplainResponse) -> (r: Vec<String>)
    ensures
        text::views(r@) == response_items(response@),
{
    if response.actionable_items.len() > 0 {
        return dedupe_actionable_items(copy_list(response.actionable_items.as_slice()));
    }
    let fix: Option<&str> = match &response.error_fix {
        Some(fix) => Some(fix.as_str()),
        None => None,
    };
    let mut items = extract_actionable_from_prose(fix);
    let ghost found = text::views(items@);
    let ghost flags = flag_views(response.flags_explained@);
    let mut i: usize = 0;
    assert(found + flag_examples(flags.take(0)) =~= found);
    while i < response.flags_explained.len()
        invariant
            flags == flag_views(response.flags_explained@),
            i <= response.flags_explained@.len(),
            text::views(items@) == found + flag_examples(flags.take(i as int)),
        decreases response.flags_explained@.len() - i,
    {
        let example = &response.flags_explained[i].example;
        let ghost before = flag_examples(flags.take(i as int));
        assert(flags.take(i + 1).drop_last() =~= flags.take(i as int));
        if example.as_str().unicode_len() > 0 {
            text::push_text(&mut items, example.clone());
            assert((found + before).push(example@) =~= found + before.push(example@));
        }
        i += 1;
    }
    assert(flags.take(i as int) =~= flags);
    dedupe_actionable_items(items)
}

/// Those of `lines`, trimmed, that may be commands.
pub open spec fn command_lines(lines: Seq<Seq<char>>) -> Seq<Seq<char>>
    decreases lines.len(),
{
    if lines.len() == 0 {
        seq![]
    } else {
        let before = command_lines(lines.drop_last());
        let t = text::trimmed(lines.last());
        if command_like(t) {
            before.push(t)
        } else {
            before
        }
    }
}

/// The first of `lines`, trimmed, that is not empty.
pub open spec fn first_filled(lines: Seq<Seq<char>>) -> Seq<Seq<char>>
    decreases lines.len(),
{
    if lines.len() == 0 {
        seq![]
    } else if text::trimmed(lines[0]).len() > 0 {
        seq![text::trimmed(lines[0])]
    } else {
        first_filled(lines.drop_first())
    }
}

/// Whether a section has this title, in whichever case.
pub open spec fn titled(section: SectionView, title: Seq<char>) -> bool {
    text::lowered(section.name) == text::lowered(title)
}

/// The commands in the example sections.
pub open spec fn example_items(sections: Seq<SectionView>) -> Seq<Seq<char>>
    decreases sections.len(),
{
    if sections.len() == 0 {
        seq![]
    } else {
        let last = sections.last();
        example_items(sections.drop_last()) + if titled(last, "EXAMPLES"@) {
            command_lines(last.lines)
        } else {
            seq![]
        }
    }
}

/// The first line of each synopsis section.
pub open spec fn synopsis_items(sections: Seq<SectionView>) -> Seq<Seq<char>>
    decreases sections.len(),
{
    if sections.len() == 0 {
        seq![]
    } else {
        let last = sections.last();
        synopsis_items(sections.drop_last()) + if titled(last, "SYNOPSIS"@) {
            first_filled(last.lines)
        } else {
            seq![]
        }
    }
}

/// The actionable commands of a command reference: its examples, else its synopsis.
pub open spec fn reference_items(sections: Seq<SectionView>) -> Seq<Seq<char>> {
    let examples = example_items(sections);
    deduped(
        if examples.len() > 0 {
            examples
        } else {
            synopsis_items(sections)
        },
        seq![],
    )
}

/// Adds to `items` those of `lines`, trimmed, that may be commands.
fn push_command_lines(items: &mut Vec<String>, lines: &[String])
    ensures
        text::views(final(items)@) == text::views(old(items)@) + command_lines(text::views(lines@)),
{
    let ghost all = text::views(lines@);
    let mut i: usize = 0;
    assert(text::views(items@) + command_lines(all.take(0)) =~= text::views(items@));
    while i < lines.len()
        invariant
            all == text::views(lines@),
            i <= lines@.len(),
            text::views(items@) == text::views(old(items)@) + command_lines(all.take(i as int)),
        decreases lines@.len() - i,
    {
        let ghost before = command_lines(all.take(i as int));
        assert(all.take(i + 1).drop_last() =~= all.take(i as int));
        assert(all[i as int] == lines@[i as int]@);
        let t = text::trim(lines[i].as_str());
        if looks_like_command(t) {
            text::push_text(items, t.to_owned());
            assert((text::views(old(items)@) + before).push(t@) =~= text::views(old(items)@)
                + before.push(t@));
        }
        i += 1;
    }
    assert(all.take(i as int) =~= all);
}

/// Adds to `items` the first of `lines`, trimmed, that is not empty.
fn push_first_filled(items: &mut Vec<String>, lines: &[String])
    ensures
        text::views(final(items)@) == text::views(old(items)@) + first_filled(text::views(lines@)),
{
    let ghost all = text::views(lines@);
    let mut i: usize = 0;
    assert(all.skip(0) =~= all);
    while i < lines.len()
        invariant
            all == text::views(lines@),
            i <= lines@.len(),
            first_filled(all.skip(i as int)) == first_filled(all),
            items@ == old(items)@,
        decreases lines@.len() - i,
    {
        assert(all.skip(i as int).drop_first() =~= all.skip(i + 1));
        assert(all[i as int] == lines@[i as int]@);
        let t = text::trim(lines[i].as_str());
        if t.unicode_len() > 0 {
            text::push_text(items, t.to_owned());
            assert(text::views(old(items)@) + seq![t@] =~= text::views(old(items)@).push(t@));
            return;
        }
        i += 1;
    }
    assert(all.skip(i as int) =~= seq![]);
    assert(text::views(items@) + seq![] =~= text::views(items@));
}

/// The actionable commands of a command reference: its examples, else its synopsis.
pub fn actionable_items_from_command_reference(response: &CommandReferenceResponse) -> (r: Vec<
    String,
>)
    ensures
        text::views(r@) == reference_items(response@.sections),
{
    let ghost all = section_views(response.sections@);
    let mut items: Vec<String> = Vec::new();
    let mut i: usize = 0;
    assert(text::views(items@) =~= example_items(all.take(0)));
    while i < response.sections.len()
        invariant
            all == section_views(response.sections@),
            i <= response.sections@.len(),
            text::views(items@) == example_items(all.take(i as int)),
        decreases response.sections@.len() - i,
    {
        let section = &response.sections[i];
        assert(all.take(i + 1).drop_last() =~= all.take(i as int));
        if text::eq_ignore_ascii_case(section.name.as_str(), "EXAMPLES") {
            push_command_lines(&mut items, section.lines.as_slice());
        } else {
            assert(text::views(items@) + seq![] =~= text::views(items@));
        }
        i += 1;
    }
    assert(all.take(i as int) =~= all);
    if items.len() == 0 {
        let mut j: usize = 0;
        assert(text::views(items@) =~= synopsis_items(all.take(0)));
        while j < response.sections.len()
            invariant
                all == section_views(response.sections@),
                j <= response.sections@.len(),
                text::views(items@) == synopsis_items(all.take(j as int)),
            decreases response.sections@.len() - j,
        {
            let section = &response.sections[j];
            assert(all.take(j + 1).drop_last() =~= all.take(j as int));
            if text::eq_ignore_ascii_case(section.name.as_str(), "SYNOPSIS") {
                push_first_filled(&mut items, section.lines.as_slice());
            } else {
                assert(text::views(items@) + seq![] =~= text::views(items@));
            }
            j += 1;
        }
        assert(all.take(j as int) =~= all);
    }
    dedupe_actionable_items(items)
}

// ── Styled lines ─────────────────────────────────────────────────────────────

/// An empty line.
pub open spec fn blank() -> LineView {
    layout::styled(seq![], LineStyle::Body)
}

/// A heading.
pub open spec fn heading(title: Seq<char>) -> LineView {
    layout::styled(title, LineStyle::SectionHeader)
}

/// Lines of prose with `indent` before each: those of a code block in the style of code,
/// the lines that open and close one left out.
pub open spec fn prose_lines(
    lines: Seq<Seq<char>>,
    in_code: bool,
    indent: Seq<char>,
) -> Seq<LineView>
    decreases lines.len(),
{
    if lines.len() == 0 {
        seq![]
    } else {
        let line = lines[0];
        let rest = lines.drop_first();
        if is_fence(text::trimmed_start(line, CharSet::White)) {
            prose_lines(rest, !in_code, indent)
        } else {
            let style = if in_code {
                LineStyle::Code
            } else {
                LineStyle::Body
            };
            seq![layout::styled(indent + line, style)] + prose_lines(rest, in_code, indent)
        }
    }
}

/// The lines of `prose`, each two columns in.
pub open spec fn body_lines(prose: Seq<char>) -> Seq<LineView> {
    prose_lines(text::line_list(prose), false, "  "@)
}

/// Two lines for each flag: its meaning, and an example.
pub open spec fn flag_lines(flags: Seq<FlagView>) -> Seq<LineView>
    decreases flags.len(),
{
    if flags.len() == 0 {
        seq![]
    } else {
        let last = flags.last();
        flag_lines(flags.drop_last()) + seq![
            layout::styled("  "@ + last.flag + " — "@ + last.meaning, LineStyle::Body),
            layout::styled("    e.g. "@ + last.example, LineStyle::Muted),
        ]
    }
}

/// One line for each of `commands`.
pub open spec fn bullet_lines(commands: Seq<Seq<char>>) -> Seq<LineView> {
    Seq::new(commands.len(), |i: int| layout::styled("  • "@ + commands[i], LineStyle::Muted))
}

/// The line that names the explained command, filled up with a rule.
pub open spec fn title_line(name: Seq<char>) -> LineView {
    let rule = if name.len() < 20 {
        (20 - name.len()) as nat
    } else {
        0
    };
    heading("── Command: "@ + name + " "@ + text::repeated('─', rule))
}

/// The section on the flags, where there are any.
pub open spec fn flag_section(flags: Seq<FlagView>) -> Seq<LineView> {
    if flags.len() == 0 {
        seq![]
    } else {
        seq![blank(), heading("Flags"@)] + flag_lines(flags)
    }
}

/// The section on the suggested fix, where there is one.
pub open spec fn fix_section(fix: Option<Seq<char>>) -> Seq<LineView> {
    match fix {
        Some(fix) => seq![blank(), heading("Suggested fix"@)] + body_lines(fix),
        None => seq![],
    }
}

/// The section on similar commands, where there are any.
pub open spec fn similar_section(commands: Seq<Seq<char>>) -> Seq<LineView> {
    if commands.len() == 0 {
        seq![]
    } else {
        seq![blank(), heading("Similar commands"@)] + bullet_lines(commands)
    }
}

/// The parts that every explanation has.
pub open spec fn main_sections(response: ExplainView) -> Seq<LineView> {
    seq![title_line(response.command_name), blank(), heading("General"@)] + body_lines(
        response.general_utility,
    ) + seq![blank(), heading("Context"@)] + body_lines(response.contextual_usage)
}

/// An explanation in styled lines.
pub open spec fn explained(response: ExplainView) -> Seq<LineView> {
    main_sections(response) + flag_section(response.flags_explained) + fix_section(
        response.error_fix,
    ) + similar_section(response.similar_commands)
}

/// Adds the lines of `prose`, with `indent` before each, at the end of `out`: those of a
/// code block in the style of code, the lines that open and close one left out.
pub fn push_prose_with_code_fences(out: &mut Vec<DisplayLine>, prose: &str, indent: &str)
    ensures
        layout::line_views(final(out)@) == layout::line_views(old(out)@) + prose_lines(
            text::line_list(prose@),
            false,
            indent@,
        ),
{
    let lines = text::lines(prose);
    let ghost all = text::line_list(prose@);
    let ghost goal = layout::line_views(out@) + prose_lines(all, false, indent@);
    let mut in_code: bool = false;
    let mut i: usize = 0;
    assert(all.skip(0) =~= all);
    while i < lines.len()
        invariant
            all == text::views(lines@),
            i <= lines@.len(),
            layout::line_views(out@) + prose_lines(all.skip(i as int), in_code, indent@) == goal,
        decreases lines@.len() - i,
    {
        assert(all[i as int] == lines@[i as int]@);
        assert(all.skip(i as int).drop_first() =~= all.skip(i + 1));
        let line = lines[i].as_str();
        if text::starts_with(text::trim_start(line), "```") {
            in_code = !in_code;
        } else {
            let style = if in_code {
                LineStyle::Code
            } else {
                LineStyle::Body
            };
            let ghost before = layout::line_views(out@);
            layout::push_line(out, text::concat(indent, line).as_str(), style);
            proof {
                let one = layout::styled(indent@ + line@, style);
                let tail = prose_lines(all.skip(i + 1), in_code, indent@);
                assert(before.push(one) + tail =~= before + (seq![one] + tail));
            }
        }
        i += 1;
    }
    assert(all.skip(i as int) =~= seq![]);
    assert(layout::line_views(out@) + seq![] =~= layout::line_views(out@));
}

/// Adds two lines for each flag at the end of `out`: its meaning, and an example.
fn push_flag_lines(out: &mut Vec<DisplayLine>, flags: &[FlagExplanation])
    ensures
        layout::line_views(final(out)@) == layout::line_views(old(out)@) + flag_lines(
            flag_views(flags@),
        ),
{
    let ghost all = flag_views(flags@);
    let ghost start = layout::line_views(out@);
    let mut i: usize = 0;
    assert(start + flag_lines(all.take(0)) =~= start);
    while i < flags.len()
        invariant
            all == flag_views(flags@),
            i <= flags@.len(),
            layout::line_views(out@) == start + flag_lines(all.take(i as int)),
        decreases flags@.len() - i,
    {
        let f = &flags[i];
        let ghost before = flag_lines(all.take(i as int));
        assert(all.take(i + 1).drop_last() =~= all.take(i as int));
        let mut meaning = text::concat3("  ", f.flag.as_str(), " — ");
        meaning.append(f.meaning.as_str());
        layout::push_line(out, meaning.as_str(), LineStyle::Body);
        layout::push_line(
            out,
            text::concat("    e.g. ", f.example.as_str()).as_str(),
            LineStyle::Muted,
        );
        i += 1;
        assert(layout::line_views(out@) =~= start + flag_lines(all.take(i as int)));
    }
    assert(all.take(i as int) =~= all);
}

/// Adds one line for each of `commands` at the end of `out`.
fn push_bullet_lines(out: &mut Vec<DisplayLine>, commands: &[String])
    ensures
        layout::line_views(final(out)@) == layout::line_views(old(out)@) + bullet_lines(
            text::views(commands@),
        ),
{
    let ghost all = text::views(commands@);
    let ghost start = layout::line_views(out@);
    let mut i: usize = 0;
    assert(start + bullet_lines(all.take(0)) =~= start);
    while i < commands.len()
        invariant
            all == text::views(commands@),
            i <= commands@.len(),
            layout::line_views(out@) == start + bullet_lines(all.take(i as int)),
        decreases commands@.len() - i,
    {
        layout::push_line(
            out,
            text::concat("  • ", commands[i].as_str()).as_str(),
            LineStyle::Muted,
        );
        i += 1;
        assert(layout::line_views(out@) =~= start + bullet_lines(all.take(i as int)));
    }
    assert(all.take(i as int) =~= all);
}

/// Adds an empty line and the heading `title` at the end of `out`.
fn push_heading(out: &mut Vec<DisplayLine>, title: &str)
    ensures
        layout::line_views(final(out)@) == layout::line_views(old(out)@) + seq![
            blank(),
            heading(title@),
        ],
{
    proof {
        reveal_strlit("");
        assert(""@ =~= seq![]);
    }
    layout::push_line(out, "", LineStyle::Body);
    layout::push_line(out, title, LineStyle::SectionHeader);
    assert(layout::line_views(out@) =~= layout::line_views(old(out)@) + seq![
        blank(),
        heading(title@),
    ]);
}

/// An explanation in styled lines: a title, then the sections, each that holds something
/// under its heading.
pub fn format_structured_response(response: &ExplainResponse) -> (r: Vec<DisplayLine>)
    ensures
        layout::line_views(r@) == explained(response@),
{
    let mut lines: Vec<DisplayLine> = Vec::new();
    let n = response.command_name.as_str().unicode_len();
    let rule: usize = if n < 20 {
        20 - n
    } else {
        0
    };
    let mut title = text::concat3("── Command: ", response.command_name.as_str(), " ");
    title.append(text::repeat('─', rule).as_str());
    layout::push_line(&mut lines, title.as_str(), LineStyle::SectionHeader);
    push_heading(&mut lines, SECTION_GENERAL);
    assert(layout::line_views(lines@) =~= seq![
        title_line(response@.command_name),
        blank(),
        heading("General"@),
    ]);
    push_prose_with_code_fences(&mut lines, response.general_utility.as_str(), "  ");
    push_heading(&mut lines, SECTION_CONTEXT);
    push_prose_with_code_fences(&mut lines, response.contextual_usage.as_str(), "  ");
    assert(layout::line_views(lines@) =~= main_sections(response@));
    let ghost main = layout::line_views(lines@);
    if response.flags_explained.len() > 0 {
        push_heading(&mut lines, SECTION_FLAGS);
        push_flag_lines(&mut lines, response.flags_explained.as_slice());
    }
    assert(layout::line_views(lines@) =~= main + flag_section(response@.flags_explained));
    let ghost more = layout::line_views(lines@);
    match &response.error_fix {
        Some(fix) => {
            push_heading(&mut lines, SECTION_FIX);
            push_prose_with_code_fences(&mut lines, fix.as_str(), "  ");
        },
        None => {},
    }
    assert(layout::line_views(lines@) =~= more + fix_section(response@.error_fix));
    let ghost most = layout::line_views(lines@);
    if response.similar_commands.len() > 0 {
        push_heading(&mut lines, SECTION_SIMILAR);
        push_bullet_lines(&mut lines, response.similar_commands.as_slice());
    }
    assert(layout::line_views(lines@) =~= most + similar_section(response@.similar_commands));
    lines
}

/// `lines`, those that are not empty two columns in.
pub open spec fn indented_lines(lines: Seq<Seq<char>>) -> Seq<LineView> {
    Seq::new(
        lines.len(),
        |i: int|
            if lines[i].len() == 0 {
                blank()
            } else {
                layout::styled("  "@ + lines[i], LineStyle::Body)
            },
    )
}

/// Adds `lines` at the end of `out`, those that are not empty two columns in.
pub fn push_indented_lines(out: &mut Vec<DisplayLine>, lines: &[String])
    ensures
        layout::line_views(final(out)@) == layout::line_views(old(out)@) + indented_lines(
            text::views(lines@),
        ),
{
    proof {
        reveal_strlit("");
        assert(""@ =~= seq![]);
    }
    let ghost all = text::views(lines@);
    let ghost start = layout::line_views(out@);
    let mut i: usize = 0;
    assert(start + indented_lines(all.take(0)) =~= start);
    while i < lines.len()
        invariant
            ""@ == Seq::<char>::empty(),
            all == text::views(lines@),
            i <= lines@.len(),
            layout::line_views(out@) == start + indented_lines(all.take(i as int)),
        decreases lines@.len() - i,
    {
        let line = lines[i].as_str();
        assert(all[i as int] == line@);
        if line.unicode_len() == 0 {
            layout::push_line(out, "", LineStyle::Body);
        } else {
            layout::push_line(out, text::concat("  ", line).as_str(), LineStyle::Body);
        }
        i += 1;
        assert(layout::line_views(out@) =~= start + indented_lines(all.take(i as int)));
    }
    assert(all.take(i as int) =~= all);
}

/// A heading, the lines and an empty line for each section.
pub open spec fn section_lines(sections: Seq<SectionView>) -> Seq<LineView>
    decreases sections.len(),
{
    if sections.len() == 0 {
        seq![]
    } else {
        let last = sections.last();
        section_lines(sections.drop_last()) + seq![heading(last.name)] + indented_lines(last.lines)
            + seq![blank()]
    }
}

/// A command reference in styled lines.
pub open spec fn reference_lines(response: CommandReferenceView) -> Seq<LineView> {
    let title = heading("── "@ + response.title + " "@ + text::repeated('─', 12));
    let source = if response.source == "none"@ {
        seq![]
    } else {
        seq![layout::styled("  (from "@ + response.source + ")"@, LineStyle::Muted)]
    };
    seq![title] + source + seq![blank()] + section_lines(response.sections)
}

/// A command reference in styled lines: a title, where it comes from, and its sections.
pub fn format_command_reference(response: &CommandReferenceResponse) -> (r: Vec<DisplayLine>)
    ensures
        layout::line_views(r@) == reference_lines(response@),
{
    proof {
        reveal_strlit("");
        assert(""@ =~= seq![]);
    }
    let mut lines: Vec<DisplayLine> = Vec::new();
    let mut title = text::concat3("── ", response.title.as_str(), " ");
    title.append(text::repeat('─', 12).as_str());
    layout::push_line(&mut lines, title.as_str(), LineStyle::SectionHeader);
    if !text::same(response.source.as_str(), "none") {
        layout::push_line(
            &mut lines,
            text::concat3("  (from ", response.source.as_str(), ")").as_str(),
            LineStyle::Muted,
        );
    }
    layout::push_line(&mut lines, "", LineStyle::Body);
    let ghost all = section_views(response.sections@);
    let ghost start = layout::line_views(lines@);
    let mut i: usize = 0;
    assert(start + section_lines(all.take(0)) =~= start);
    while i < response.sections.len()
        invariant
            ""@ == Seq::<char>::empty(),
            all == section_views(response.sections@),
            i <= response.sections@.len(),
            layout::line_views(lines@) == start + section_lines(all.take(i as int)),
        decreases response.sections@.len() - i,
    {
        let section = &response.sections[i];
        assert(all.take(i + 1).drop_last() =~= all.take(i as int));
        layout::push_line(&mut lines, section.name.as_str(), LineStyle::SectionHeader);
        push_indented_lines(&mut lines, section.lines.as_slice());
        layout::push_line(&mut lines, "", LineStyle::Body);
        i += 1;
        assert(layout::line_views(lines@) =~= start + section_lines(all.take(i as int)));
    }
    assert(all.take(i as int) =~= all);
    assert(layout::line_views(lines@) =~= reference_lines(response@));
    lines
}

// ── What an explanation shows ────────────────────────────────────────────────

/// Whether one of `lines` is exactly `needle`.
pub open spec fn shows(lines: Seq<LineView>, needle: Seq<char>) -> bool {
    exists|i: int| 0 <= i < lines.len() && (#[trigger] lines[i]).text == needle
}

/// Whether all of `lines` are two columns in.
spec fn all_indented(lines: Seq<LineView>) -> bool {
    forall|i: int| 0 <= i < lines.len() ==> (#[trigger] lines[i]).text.len() > 0 && lines[i].text[0] == ' '
}

proof fn lemma_shows_concat(a: Seq<LineView>, b: Seq<LineView>, needle: Seq<char>)
    ensures
        shows(a + b, needle) == (shows(a, needle) || shows(b, needle)),
{
    if shows(a, needle) {
        let i = choose|i: int| 0 <= i < a.len() && (#[trigger] a[i]).text == needle;
        assert((a + b)[i].text == needle);
    }
    if shows(b, needle) {
        let i = choose|i: int| 0 <= i < b.len() && (#[trigger] b[i]).text == needle;
        assert((a + b)[a.len() + i].text == needle);
    }
    if shows(a + b, needle) {
        let i = choose|i: int| 0 <= i < (a + b).len() && (#[trigger] (a + b)[i]).text == needle;
        if i < a.len() {
            assert(a[i].text == needle);
        } else {
            assert(b[i - a.len()].text == needle);
        }
    }
}

proof fn lemma_prose_is_indented(lines: Seq<Seq<char>>, in_code: bool)
    ensures
        all_indented(prose_lines(lines, in_code, "  "@)),
    decreases lines.len(),
{
    reveal_strlit("  ");
    if lines.len() > 0 {
        if is_fence(text::trimmed_start(lines[0], CharSet::White)) {
            lemma_prose_is_indented(lines.drop_first(), !in_code);
        } else {
            lemma_prose_is_indented(lines.drop_first(), in_code);
        }
    }
}

proof fn lemma_flags_are_indented(flags: Seq<FlagView>)
    ensures
        all_indented(flag_lines(flags)),
    decreases flags.len(),
{
    reveal_strlit("  ");
    reveal_strlit("    e.g. ");
    if flags.len() > 0 {
        lemma_flags_are_indented(flags.drop_last());
    }
}

/// What an explanation shows under `needle`, where `needle` is no indented line.
proof fn lemma_shows_explained(response: ExplainView, needle: Seq<char>)
    requires
        needle.len() > 0,
        needle[0] != ' ',
        needle[0] != '─',
    ensures
        shows(explained(response), needle) == (needle == "General"@ || needle == "Context"@ || (
        response.flags_explained.len() > 0 && needle == "Flags"@) || (response.error_fix is Some
            && needle == "Suggested fix"@) || (response.similar_commands.len() > 0 && needle
            == "Similar commands"@)),
{
    let general = seq![title_line(response.command_name), blank(), heading("General"@)];
    let context = seq![blank(), heading("Context"@)];
    let flags = flag_section(response.flags_explained);
    let fix = fix_section(response.error_fix);
    let similar = similar_section(response.similar_commands);
    lemma_prose_is_indented(text::line_list(response.general_utility), false);
    lemma_prose_is_indented(text::line_list(response.contextual_usage), false);
    lemma_flags_are_indented(response.flags_explained);
    reveal_strlit("── Command: ");
    assert(general[2].text == "General"@);
    assert(context[1].text == "Context"@);
    lemma_shows_concat(general, body_lines(response.general_utility), needle);
    lemma_shows_concat(general + body_lines(response.general_utility), context, needle);
    lemma_shows_concat(
        general + body_lines(response.general_utility) + context,
        body_lines(response.contextual_usage),
        needle,
    );
    lemma_shows_concat(main_sections(response), flags, needle);
    lemma_shows_concat(main_sections(response) + flags, fix, needle);
    lemma_shows_concat(main_sections(response) + flags + fix, similar, needle);
    if response.flags_explained.len() > 0 {
        let head = seq![blank(), heading("Flags"@)];
        assert(head[1].text == "Flags"@);
        lemma_shows_concat(head, flag_lines(response.flags_explained), needle);
    }
    if let Some(prose) = response.error_fix {
        let head = seq![blank(), heading("Suggested fix"@)];
        assert(head[1].text == "Suggested fix"@);
        lemma_prose_is_indented(text::line_list(prose), false);
        lemma_shows_concat(head, body_lines(prose), needle);
    }
    if response.similar_commands.len() > 0 {
        let head = seq![blank(), heading("Similar commands"@)];
        let bullets = bullet_lines(response.similar_commands);
        assert(head[1].text == "Similar commands"@);
        reveal_strlit("  • ");
        assert(all_indented(bullets));
        lemma_shows_concat(head, bullets, needle);
    }
}

/// The heading of a section stands in an explanation exactly where there is something to
/// show under it; the general section and the one on the context are always there.
pub proof fn law_sections_shown(response: ExplainView)
    ensures
        shows(explained(response), "General"@),
        shows(explained(response), "Context"@),
        shows(explained(response), "Flags"@) == (response.flags_explained.len() > 0),
        shows(explained(response), "Suggested fix"@) == (response.error_fix is Some),
        shows(explained(response), "Similar commands"@) == (response.similar_commands.len() > 0),
{
    reveal_strlit("General");
    reveal_strlit("Context");
    reveal_strlit("Flags");
    reveal_strlit("Suggested fix");
    reveal_strlit("Similar commands");
    assert("General"@[0] == 'G' && "Context"@[0] == 'C' && "Flags"@[0] == 'F');
    assert("Suggested fix"@[0] == 'S' && "Similar commands"@[0] == 'S');
    assert("Suggested fix"@[1] == 'u' && "Similar commands"@[1] == 'i');
    lemma_shows_explained(response, "General"@);
    lemma_shows_explained(response, "Context"@);
    lemma_shows_explained(response, "Flags"@);
    lemma_shows_explained(response, "Suggested fix"@);
    lemma_shows_explained(response, "Similar commands"@);
}

/// Whether a line of `lines` holds `needle`.
pub open spec fn mentions(lines: Seq<LineView>, needle: Seq<char>) -> bool {
    exists|i: int| 0 <= i < lines.len() && text::has_sub((#[trigger] lines[i]).text, needle)
}

proof fn lemma_mentions_concat(a: Seq<LineView>, b: Seq<LineView>, needle: Seq<char>)
    ensures
        mentions(a, needle) || mentions(b, needle) ==> mentions(a + b, needle),
{
    if mentions(a, needle) {
        let i = choose|i: int| 0 <= i < a.len() && text::has_sub((#[trigger] a[i]).text, needle);
        assert((a + b)[i] == a[i]);
    } else if mentions(b, needle) {
        let i = choose|i: int| 0 <= i < b.len() && text::has_sub((#[trigger] b[i]).text, needle);
        assert((a + b)[a.len() + i] == b[i]);
    }
}

proof fn lemma_prose_is_mentioned(
    lines: Seq<Seq<char>>,
    in_code: bool,
    indent: Seq<char>,
    k: int,
)
    requires
        0 <= k < lines.len(),
        !"```"@.is_prefix_of(text::trimmed_start(lines[k], CharSet::White)),
    ensures
        mentions(prose_lines(lines, in_code, indent), lines[k]),
    decreases lines.len(),
{
    let rest = lines.drop_first();
    let all = prose_lines(lines, in_code, indent);
    if k == 0 {
        text::lemma_occurs(indent, lines[0], seq![]);
        assert(indent + lines[0] + seq![] =~= indent + lines[0]);
        assert(all[0].text == indent + lines[0]);
    } else {
        assert(rest[k - 1] == lines[k]);
        if is_fence(text::trimmed_start(lines[0], CharSet::White)) {
            lemma_prose_is_mentioned(rest, !in_code, indent, k - 1);
        } else {
            lemma_prose_is_mentioned(rest, in_code, indent, k - 1);
            let tail = prose_lines(rest, in_code, indent);
            lemma_mentions_concat(all.take(1), tail, lines[k]);
            assert(all.take(1) + tail =~= all);
        }
    }
}

proof fn lemma_flag_is_mentioned(flags: Seq<FlagView>, k: int)
    requires
        0 <= k < flags.len(),
    ensures
        mentions(flag_lines(flags), flags[k].flag),
        mentions(flag_lines(flags), flags[k].meaning),
        mentions(flag_lines(flags), flags[k].example),
    decreases flags.len(),
{
    let last = flags.last();
    let before = flag_lines(flags.drop_last());
    let all = flag_lines(flags);
    if k < flags.len() - 1 {
        lemma_flag_is_mentioned(flags.drop_last(), k);
        let two = all.skip(before.len() as int);
        assert(before + two =~= all);
        lemma_mentions_concat(before, two, flags[k].flag);
        lemma_mentions_concat(before, two, flags[k].meaning);
        lemma_mentions_concat(before, two, flags[k].example);
    } else {
        let n = before.len() as int;
        text::lemma_occurs("  "@, last.flag, " — "@ + last.meaning);
        assert("  "@ + last.flag + (" — "@ + last.meaning) =~= all[n].text);
        text::lemma_occurs("  "@ + last.flag + " — "@, last.meaning, seq![]);
        assert("  "@ + last.flag + " — "@ + last.meaning + seq![] =~= all[n].text);
        text::lemma_occurs("    e.g. "@, last.example, seq![]);
        assert("    e.g. "@ + last.example + seq![] =~= all[n + 1].text);
    }
}

/// An explanation shows all that it was given: the name of the command, every line of the general
/// part and of the part on the context but the fences, every flag with its meaning and its
/// example, every line of the fix, and every similar command.
pub proof fn law_explanation_shows_all(response: ExplainView, k: int)
    ensures
        mentions(explained(response), response.command_name),
        0 <= k < response.flags_explained.len() ==> {
            let f = response.flags_explained[k];
            &&& mentions(explained(response), f.flag)
            &&& mentions(explained(response), f.meaning)
            &&& mentions(explained(response), f.example)
        },
        0 <= k < response.similar_commands.len() ==> mentions(
            explained(response),
            response.similar_commands[k],
        ),
{
    let all = explained(response);
    let main = main_sections(response);
    let flags = flag_section(response.flags_explained);
    let fix = fix_section(response.error_fix);
    let similar = similar_section(response.similar_commands);
    let name = response.command_name;
    let title = title_line(name).text;
    let rule = title.skip(("── Command: "@ + name).len() as int);
    text::lemma_occurs("── Command: "@, name, rule);
    assert("── Command: "@ + name + rule =~= title);
    assert(all[0].text == title);
    if 0 <= k < response.flags_explained.len() {
        let f = response.flags_explained[k];
        lemma_flag_is_mentioned(response.flags_explained, k);
        let head = seq![blank(), heading("Flags"@)];
        lemma_part_is_mentioned(response, head, flag_lines(response.flags_explained), f.flag);
        lemma_part_is_mentioned(response, head, flag_lines(response.flags_explained), f.meaning);
        lemma_part_is_mentioned(response, head, flag_lines(response.flags_explained), f.example);
    }
    if 0 <= k < response.similar_commands.len() {
        let c = response.similar_commands[k];
        let n = (main + flags + fix).len() as int;
        text::lemma_occurs("  • "@, c, seq![]);
        assert("  • "@ + c + seq![] =~= "  • "@ + c);
        assert(all[n + 2 + k] == bullet_lines(response.similar_commands)[k]);
    }
}

proof fn lemma_part_is_mentioned(
    response: ExplainView,
    head: Seq<LineView>,
    part: Seq<LineView>,
    needle: Seq<char>,
)
    requires
        mentions(part, needle),
        ({
            ||| head + part == flag_section(response.flags_explained)
            ||| head + part == fix_section(response.error_fix)
        }),
    ensures
        mentions(explained(response), needle),
{
    let main = main_sections(response);
    let flags = flag_section(response.flags_explained);
    let fix = fix_section(response.error_fix);
    lemma_mentions_concat(head, part, needle);
    lemma_mentions_concat(main, flags, needle);
    lemma_mentions_concat(main + flags, fix, needle);
    lemma_mentions_concat(
        main + flags + fix,
        similar_section(response.similar_commands),
        needle,
    );
}

/// Every line of the prose in an explanation is shown, but for the fences around code.
pub proof fn law_explanation_shows_prose(response: ExplainView, prose: Seq<char>, k: int)
    requires
        ({
            ||| prose == response.general_utility
            ||| prose == response.contextual_usage
            ||| response.error_fix == Some(prose)
        }),
        0 <= k < text::line_list(prose).len(),
        !"```"@.is_prefix_of(text::trimmed_start(text::line_list(prose)[k], CharSet::White)),
    ensures
        mentions(explained(response), text::line_list(prose)[k]),
{
    let lines = text::line_list(prose);
    let needle = lines[k];
    lemma_prose_is_mentioned(lines, false, "  "@, k);
    if response.error_fix == Some(prose) {
        lemma_part_is_mentioned(
            response,
            seq![blank(), heading("Suggested fix"@)],
            body_lines(prose),
            needle,
        );
    } else {
        let head = seq![title_line(response.command_name), blank(), heading("General"@)];
        let general = body_lines(response.general_utility);
        let context = seq![blank(), heading("Context"@)];
        lemma_mentions_concat(head, general, needle);
        lemma_mentions_concat(head + general, context, needle);
        lemma_mentions_concat(
            head + general + context,
            body_lines(response.contextual_usage),
            needle,
        );
        let main = main_sections(response);
        let flags = flag_section(response.flags_explained);
        let fix = fix_section(response.error_fix);
        lemma_mentions_concat(main, flags, needle);
        lemma_mentions_concat(main + flags, fix, needle);
        lemma_mentions_concat(
            main + flags + fix,
            similar_section(response.similar_commands),
            needle,
        );
    }
}

/// Prose is shown line by line behind the indent; lines between fences are shown as code, and the
/// fences are not shown.
pub proof fn law_fenced_lines_are_code(
    before: Seq<Seq<char>>,
    open: Seq<char>,
    code: Seq<Seq<char>>,
    close: Seq<char>,
    indent: Seq<char>,
)
    requires
        "```"@.is_prefix_of(text::trimmed_start(open, CharSet::White)),
        "```"@.is_prefix_of(text::trimmed_start(close, CharSet::White)),
        forall|k: int|
            0 <= k < before.len() ==> !"```"@.is_prefix_of(
                text::trimmed_start(#[trigger] before[k], CharSet::White),
            ),
        forall|k: int|
            0 <= k < code.len() ==> !"```"@.is_prefix_of(
                text::trimmed_start(#[trigger] code[k], CharSet::White),
            ),
    ensures
        prose_lines(before + (seq![open] + (code + seq![close])), false, indent) == Seq::new(
            before.len(),
            |k: int| LineView { text: indent + before[k], style: LineStyle::Body },
        ) + Seq::new(
            code.len(),
            |k: int| LineView { text: indent + code[k], style: LineStyle::Code },
        ),
{
    let tail = seq![open] + (code + seq![close]);
    lemma_plain_prose(before, tail, false, indent);
    lemma_plain_prose(code, seq![close], true, indent);
    assert(tail.drop_first() =~= code + seq![close]);
    assert(seq![close].drop_first() =~= Seq::<Seq<char>>::empty());
    reveal_with_fuel(prose_lines, 2);
}

proof fn lemma_plain_prose(
    lines: Seq<Seq<char>>,
    tail: Seq<Seq<char>>,
    in_code: bool,
    indent: Seq<char>,
)
    requires
        forall|k: int|
            0 <= k < lines.len() ==> !"```"@.is_prefix_of(
                text::trimmed_start(#[trigger] lines[k], CharSet::White),
            ),
    ensures
        prose_lines(lines + tail, in_code, indent) == Seq::new(
            lines.len(),
            |k: int|
                LineView {
                    text: indent + lines[k],
                    style: if in_code {
                        LineStyle::Code
                    } else {
                        LineStyle::Body
                    },
                },
        ) + prose_lines(tail, in_code, indent),
    decreases lines.len(),
{
    if lines.len() == 0 {
        assert(lines + tail =~= tail);
    } else {
        let rest = lines.drop_first();
        assert((lines + tail).drop_first() =~= rest + tail);
        assert((lines + tail)[0] == lines[0]);
        assert forall|k: int| 0 <= k < rest.len() implies !"```"@.is_prefix_of(
            text::trimmed_start(#[trigger] rest[k], CharSet::White),
        ) by {
            assert(rest[k] == lines[k + 1]);
        }
        lemma_plain_prose(rest, tail, in_code, indent);
    }
}

/// A reference shows its title, where it comes from, and every section with its lines.
pub proof fn law_reference_shows_all(response: CommandReferenceView, s: int, k: int)
    requires
        0 <= s < response.sections.len(),
        0 <= k < response.sections[s].lines.len(),
    ensures
        mentions(reference_lines(response), response.title),
        response.source != "none"@ ==> mentions(reference_lines(response), response.source),
        mentions(reference_lines(response), response.sections[s].name),
        mentions(reference_lines(response), response.sections[s].lines[k]),
{
    let all = reference_lines(response);
    let title = all[0].text;
    let rule = title.skip(("── "@ + response.title).len() as int);
    text::lemma_occurs("── "@, response.title, rule);
    assert("── "@ + response.title + rule =~= title);
    if response.source != "none"@ {
        text::lemma_occurs("  (from "@, response.source, ")"@);
        assert(all[1].text == "  (from "@ + response.source + ")"@);
    }
    lemma_section_is_mentioned(response.sections, s, k);
    let parts = section_lines(response.sections);
    let head = all.take(all.len() - parts.len());
    assert(head + parts =~= all);
    lemma_mentions_concat(head, parts, response.sections[s].name);
    lemma_mentions_concat(head, parts, response.sections[s].lines[k]);
}

proof fn lemma_section_is_mentioned(sections: Seq<SectionView>, s: int, k: int)
    requires
        0 <= s < sections.len(),
        0 <= k < sections[s].lines.len(),
    ensures
        mentions(section_lines(sections), sections[s].name),
        mentions(section_lines(sections), sections[s].lines[k]),
    decreases sections.len(),
{
    let last = sections.last();
    let init = sections.drop_last();
    let before = section_lines(init);
    let all = section_lines(sections);
    let n = before.len() as int;
    let name = sections[s].name;
    let line = sections[s].lines[k];
    if s < init.len() {
        assert(init[s] == sections[s]);
        lemma_section_is_mentioned(init, s, k);
        assert(before + all.skip(n) =~= all);
        lemma_mentions_concat(before, all.skip(n), name);
        lemma_mentions_concat(before, all.skip(n), line);
    } else {
        text::lemma_occurs(seq![], name, seq![]);
        assert(Seq::<char>::empty() + name + seq![] =~= name);
        assert(all[n].text == name);
        assert(all[n + 1 + k] == indented_lines(last.lines)[k]);
        let shown = all[n + 1 + k].text;
        if line.len() == 0 {
            text::lemma_occurs(seq![], line, shown);
            assert(Seq::<char>::empty() + line + shown =~= shown);
        } else {
            text::lemma_occurs("  "@, line, seq![]);
            assert("  "@ + line + seq![] =~= shown);
        }
    }
}

/// An item that is not blank is offered, unless five others are.
pub proof fn law_items_are_offered(items: Seq<Seq<char>>, k: int)
    requires
        0 <= k < items.len(),
        text::trimmed(items[k]).len() > 0,
    ensures
        deduped(items, seq![]).contains(text::trimmed(items[k])) || deduped(items, seq![]).len()
            >= 5,
{
    lemma_offered(items, seq![], k);
}

proof fn lemma_offered(items: Seq<Seq<char>>, kept: Seq<Seq<char>>, k: int)
    requires
        0 <= k < items.len(),
        text::trimmed(items[k]).len() > 0,
    ensures
        deduped(items, kept).contains(text::trimmed(items[k])) || deduped(items, kept).len() >= 5,
        kept.len() <= deduped(items, kept).len(),
    decreases items.len(),
{
    if kept.len() < HUD_MAX_ITEMS {
        let key = text::trimmed(items[0]);
        let rest = items.drop_first();
        let next = if key.len() == 0 || kept.contains(key) {
            kept
        } else {
            kept.push(key)
        };
        lemma_kept_stays(rest, next);
        if k > 0 {
            assert(rest[k - 1] == items[k]);
            lemma_offered(rest, next, k - 1);
        } else {
            if !kept.contains(key) {
                assert(next[next.len() - 1] == key);
            }
            let i = next.index_of(key);
            assert(deduped(rest, next)[i] == key);
        }
    }
}

proof fn lemma_kept_stays(items: Seq<Seq<char>>, kept: Seq<Seq<char>>)
    ensures
        kept.is_prefix_of(deduped(items, kept)),
    decreases items.len(),
{
    if items.len() > 0 && kept.len() < HUD_MAX_ITEMS {
        let key = text::trimmed(items[0]);
        let rest = items.drop_first();
        if key.len() == 0 || kept.contains(key) {
            lemma_kept_stays(rest, kept);
        } else {
            lemma_kept_stays(rest, kept.push(key));
            let all = deduped(rest, kept.push(key));
            assert(kept =~= kept.push(key).take(kept.len() as int));
            assert(kept =~= all.take(kept.len() as int)) by {
                assert forall|i: int| 0 <= i < kept.len() implies kept[i] == all[i] by {
                    assert(kept.push(key)[i] == all[i]);
                }
            }
        }
    }
}

/// Up to five items, none of them blank or there twice, are all offered, in their order.
pub proof fn law_few_items_are_all_offered(items: Seq<Seq<char>>)
    requires
        items.len() <= 5,
        items.no_duplicates(),
        forall|k: int|
            0 <= k < items.len() ==> (#[trigger] items[k]).len() > 0 && text::is_tight(items[k]),
    ensures
        deduped(items, seq![]) == items,
{
    lemma_few_offered(items, seq![]);
    assert(Seq::<Seq<char>>::empty() + items =~= items);
}

proof fn lemma_few_offered(items: Seq<Seq<char>>, kept: Seq<Seq<char>>)
    requires
        (kept + items).len() <= 5,
        (kept + items).no_duplicates(),
        forall|k: int|
            0 <= k < items.len() ==> (#[trigger] items[k]).len() > 0 && text::is_tight(items[k]),
    ensures
        deduped(items, kept) == kept + items,
    decreases items.len(),
{
    if items.len() == 0 {
        assert(kept + items =~= kept);
    } else {
        text::lemma_trimmed_same(items[0]);
        let rest = items.drop_first();
        let all = kept + items;
        if kept.contains(items[0]) {
            let i = kept.index_of(items[0]);
            assert(all[i] == all[kept.len() as int]);
        }
        assert(kept.push(items[0]) + rest =~= all);
        assert forall|k: int| 0 <= k < rest.len() implies (#[trigger] rest[k]).len() > 0
            && text::is_tight(rest[k]) by {
            assert(rest[k] == items[k + 1]);
        }
        lemma_few_offered(rest, kept.push(items[0]));
    }
}

/// A line that reads like a command: a word at its start, nothing that explains, not too long.
pub open spec fn is_plain_command(line: Seq<char>) -> bool {
    &&& line.len() > 0
    &&& text::is_tight(line)
    &&& text::is_alnum(line[0])
    &&& text::byte_len(line) <= 200
    &&& !text::has_sub(line, " should "@)
    &&& !text::has_sub(line, " because "@)
}

/// A command in a numbered list or in a list of bullets is offered as an item, without the mark
/// in front of it; a line of prose that begins with anything else is not.
pub proof fn law_listed_commands_are_items(number: Seq<char>, command: Seq<char>)
    requires
        is_plain_command(command),
        number.len() > 0,
        forall|k: int| 0 <= k < number.len() ==> '0' <= #[trigger] number[k] <= '9',
    ensures
        prose_item(number + ". "@ + command, false) == Some(command),
        prose_item(number + ") "@ + command, false) == Some(command),
        prose_item("- "@ + command, false) == Some(command),
        !('0' <= command[0] <= '9') ==> prose_item(command, false) is None,
        prose_item(command, true) == Some(command),
{
    reveal_strlit(". ");
    reveal_strlit(") ");
    reveal_strlit("- ");
    text::lemma_trimmed_same(command);
    lemma_numbered(number, '.', command);
    lemma_numbered(number, ')', command);
    assert(". "@ =~= seq!['.', ' ']);
    assert(") "@ =~= seq![')', ' ']);
    let bullet = "- "@ + command;
    assert(bullet.skip(2) =~= command);
    assert(text::lead(bullet, CharSet::Digits) == 0);
    assert("- "@.is_prefix_of(bullet)) by {
        assert(bullet.take(2) =~= "- "@);
    }
    if !('0' <= command[0] <= '9') {
        assert(text::lead(command, CharSet::Digits) == 0);
        if "- "@.is_prefix_of(command) {
            assert("- "@[0] == command[0]);
        }
    }
}

proof fn lemma_numbered(number: Seq<char>, mark: char, command: Seq<char>)
    requires
        is_plain_command(command),
        mark == '.' || mark == ')',
        number.len() > 0,
        forall|k: int| 0 <= k < number.len() ==> '0' <= #[trigger] number[k] <= '9',
    ensures
        numbered_item(number + seq![mark, ' '] + command) == Some(command),
{
    let line = number + seq![mark, ' '] + command;
    let n = number.len() as int;
    assert forall|k: int| 0 <= k < n implies CharSet::Digits.has(#[trigger] line[k]) by {
        assert(line[k] == number[k]);
    }
    assert(line[n] == mark);
    text::lemma_lead_is(line, CharSet::Digits, n);
    let tail = line.skip(n);
    assert(tail =~= seq![mark, ' '] + command);
    text::lemma_trimmed_same(command);
    text::lemma_lead_is(tail, CharSet::ListMark, 1);
    assert(tail.skip(1) =~= seq![' '] + command + seq![]);
    text::law_trimmed_core(seq![' '], command, seq![]);
}

/// The lines of a fenced block are all items, in their order.
pub proof fn law_fenced_lines_are_items(
    open: Seq<char>,
    code: Seq<Seq<char>>,
    close: Seq<char>,
)
    requires
        "```"@.is_prefix_of(text::trimmed(open)),
        "```"@.is_prefix_of(text::trimmed(close)),
        forall|k: int|
            0 <= k < code.len() ==> (#[trigger] code[k]).len() > 0 && text::is_tight(code[k])
                && !"```"@.is_prefix_of(code[k]),
    ensures
        prose_items(seq![open] + (code + seq![close]), false) == code,
{
    let tail = code + seq![close];
    assert((seq![open] + tail).drop_first() =~= tail);
    lemma_fenced(code, close);
}

proof fn lemma_fenced(code: Seq<Seq<char>>, close: Seq<char>)
    requires
        "```"@.is_prefix_of(text::trimmed(close)),
        forall|k: int|
            0 <= k < code.len() ==> (#[trigger] code[k]).len() > 0 && text::is_tight(code[k])
                && !"```"@.is_prefix_of(code[k]),
    ensures
        prose_items(code + seq![close], true) == code,
    decreases code.len(),
{
    if code.len() == 0 {
        assert(code + seq![close] =~= seq![close]);
        assert(seq![close].drop_first() =~= Seq::<Seq<char>>::empty());
        reveal_with_fuel(prose_items, 2);
    } else {
        let rest = code.drop_first();
        text::lemma_trimmed_same(code[0]);
        assert((code + seq![close]).drop_first() =~= rest + seq![close]);
        assert((code + seq![close])[0] == code[0]);
        assert forall|k: int| 0 <= k < rest.len() implies (#[trigger] rest[k]).len() > 0
            && text::is_tight(rest[k]) && !"```"@.is_prefix_of(rest[k]) by {
            assert(rest[k] == code[k + 1]);
        }
        lemma_fenced(rest, close);
        assert(seq![code[0]] + rest =~= code);
    }
}

/// The items that an answer names are those on offer. Where it names none, the example of a flag
/// is on offer, unless five other items are.
pub proof fn law_response_items(response: ExplainView, k: int)
    ensures
        0 <= k < response.actionable_items.len() && text::trimmed(
            response.actionable_items[k],
        ).len() > 0 ==> response_items(response).contains(
            text::trimmed(response.actionable_items[k]),
        ) || response_items(response).len() >= 5,
        response.actionable_items.len() == 0 && 0 <= k < response.flags_explained.len()
            && text::trimmed(response.flags_explained[k].example).len() > 0 ==> response_items(
            response,
        ).contains(text::trimmed(response.flags_explained[k].example)) || response_items(
            response,
        ).len() >= 5,
{
    if 0 <= k < response.actionable_items.len() && text::trimmed(
        response.actionable_items[k],
    ).len() > 0 {
        law_items_are_offered(response.actionable_items, k);
    }
    if response.actionable_items.len() == 0 && 0 <= k < response.flags_explained.len()
        && text::trimmed(response.flags_explained[k].example).len() > 0 {
        let fix = match response.error_fix {
            Some(fix) => actionable(fix),
            None => seq![],
        };
        let examples = flag_examples(response.flags_explained);
        let example = response.flags_explained[k].example;
        assert(example.len() > 0) by {
            text::law_trimmed_takes_white_space(example);
        }
        lemma_example_is_listed(response.flags_explained, k);
        let i = examples.index_of(example);
        assert((fix + examples)[fix.len() + i] == example);
        law_items_are_offered(fix + examples, fix.len() + i);
    }
}

proof fn lemma_example_is_listed(flags: Seq<FlagView>, k: int)
    requires
        0 <= k < flags.len(),
        flags[k].example.len() > 0,
    ensures
        flag_examples(flags).contains(flags[k].example),
    decreases flags.len(),
{
    let init = flags.drop_last();
    let before = flag_examples(init);
    let all = flag_examples(flags);
    if k < init.len() {
        lemma_example_is_listed(init, k);
        let i = before.index_of(flags[k].example);
        assert(all[i] == flags[k].example);
    } else {
        assert(all[before.len() as int] == flags[k].example);
    }
}

/// A command among the examples of a reference is on offer, unless five others are.
pub proof fn law_reference_items(sections: Seq<SectionView>, s: int, k: int)
    requires
        0 <= s < sections.len(),
        sections[s].name == "EXAMPLES"@,
        0 <= k < sections[s].lines.len(),
        is_plain_command(sections[s].lines[k]),
    ensures
        reference_items(sections).contains(sections[s].lines[k]) || reference_items(sections).len()
            >= 5,
{
    let command = sections[s].lines[k];
    lemma_example_line(sections, s, k);
    let items = example_items(sections);
    let i = items.index_of(command);
    text::lemma_trimmed_same(command);
    law_items_are_offered(items, i);
}

proof fn lemma_example_line(sections: Seq<SectionView>, s: int, k: int)
    requires
        0 <= s < sections.len(),
        sections[s].name == "EXAMPLES"@,
        0 <= k < sections[s].lines.len(),
        is_plain_command(sections[s].lines[k]),
    ensures
        example_items(sections).contains(sections[s].lines[k]),
    decreases sections.len(),
{
    let init = sections.drop_last();
    let before = example_items(init);
    let all = example_items(sections);
    let command = sections[s].lines[k];
    if s < init.len() {
        assert(init[s] == sections[s]);
        lemma_example_line(init, s, k);
        let i = before.index_of(command);
        assert(all[i] == command);
    } else {
        lemma_command_line(sections[s].lines, k);
        let i = command_lines(sections[s].lines).index_of(command);
        assert(all[before.len() + i] == command);
    }
}

proof fn lemma_command_line(lines: Seq<Seq<char>>, k: int)
    requires
        0 <= k < lines.len(),
        is_plain_command(lines[k]),
    ensures
        command_lines(lines).contains(lines[k]),
    decreases lines.len(),
{
    let init = lines.drop_last();
    let before = command_lines(init);
    let all = command_lines(lines);
    if k < init.len() {
        lemma_command_line(init, k);
        let i = before.index_of(lines[k]);
        assert(all[i] == lines[k]);
    } else {
        text::lemma_trimmed_same(lines[k]);
        assert(all[before.len() as int] == lines[k]);
    }
}

/// Where a reference has no examples, its synopsis is on offer: the first line that is not
/// blank.
pub proof fn law_reference_synopsis(section: SectionView)
    requires
        section.name == "SYNOPSIS"@,
        section.lines.len() > 0,
        section.lines[0].len() > 0,
        text::is_tight(section.lines[0]),
    ensures
        reference_items(seq![section]) == seq![section.lines[0]],
{
    let sections = seq![section];
    let line = section.lines[0];
    reveal_strlit("EXAMPLES");
    reveal_strlit("SYNOPSIS");
    assert(text::lowered("EXAMPLES"@)[0] == 'e');
    assert(text::lowered("SYNOPSIS"@)[0] == 's');
    assert(sections.drop_last() =~= Seq::<SectionView>::empty());
    reveal_with_fuel(example_items, 2);
    reveal_with_fuel(synopsis_items, 2);
    assert(example_items(sections) =~= Seq::<Seq<char>>::empty());
    text::lemma_trimmed_same(line);
    assert(synopsis_items(sections) =~= seq![line]);
    law_few_items_are_all_offered(seq![line]);
}

/// What may begin a command: a word, a path or the sign of a prompt; a line that explains is none,
/// nor is an empty or an overlong one.
pub proof fn law_what_looks_like_a_command(line: Seq<char>)
    requires
        text::is_tight(line),
    ensures
        line.len() > 0 && text::byte_len(line) <= 200 && !text::has_sub(line, " should "@)
            && !text::has_sub(line, " because "@) && (line[0] == '$' || line[0] == '.' || line[0]
            == '/' || 'a' <= line[0] <= 'z' || 'A' <= line[0] <= 'Z' || '0' <= line[0] <= '9')
            ==> command_like(line),
        line.len() == 0 || text::byte_len(line) > 200 || text::has_sub(line, " should "@)
            || text::has_sub(line, " because "@) ==> !command_like(line),
        line.len() > 0 && text::byte_len(line) <= 200 && !text::has_sub(line, " should "@)
            && !text::has_sub(line, " because "@) && (text::has_sub(line, "git "@) || text::has_sub(
            line,
            "sudo "@,
        )) ==> command_like(line),
{
    if line.len() > 0 {
        text::lemma_trimmed_same(line);
    } else {
        text::lemma_blank(line);
    }
}

} // verus!
