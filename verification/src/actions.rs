//! Actionable items extracted from a finished assistant reply.
//!
//! After the chat answer has fully streamed, the model is asked to re-read its
//! own answer and register the commands it mentioned via a `list_actions` tool
//! call. The result is a short list of `(command, goal)` pairs shown in the
//! top-right Actions panel.
//!
//! Every failure path here is best-effort and yields an empty list — the
//! feature must never break the chat flow.
use vstd::prelude::*;
use vstd::string::*;

use crate::json;
use crate::json::{Json, JsonView};
use crate::ollama;
use crate::text;
use crate::text::CharSet;
use crate::types;

verus! {

broadcast use vstd::string::group_string_axioms;

/// Tool the model calls to register runnable commands.
pub const TOOL_NAME: &'static str = "list_actions";

/// Maximum items shown in the panel.
pub const MAX_ACTIONS: usize = 5;

/// Commands longer than this are almost certainly prose, not a command.
pub const MAX_COMMAND_LEN: usize = 120;

/// Blurbs are meant to be a couple of words.
pub const MAX_GOAL_LEN: usize = 32;

/// Cap on how much of the reply is fed back for extraction.
pub const REPLY_BUDGET_CHARS: usize = 4_000;

/// A single runnable command plus a few words on what it is for.
#[derive(Debug, Clone, PartialEq, Eq)]
pub struct ActionItem {
    /// Single-line shell command, ready to run.
    pub command: String,
    /// Two-to-four word summary of the command's goal.
    pub goal: String,
}

/// What an [`ActionItem`] says.
pub ghost struct ActionView {
    pub command: Seq<char>,
    pub goal: Seq<char>,
}

impl View for ActionItem {
    type V = ActionView;

    open spec fn view(&self) -> ActionView {
        ActionView { command: self.command@, goal: self.goal@ }
    }
}

/// What each of the items says.
pub open spec fn action_views(items: Seq<ActionItem>) -> Seq<ActionView> {
    Seq::new(items.len(), |i: int| items[i]@)
}

/// Whether action extraction is enabled, by the value of `LEARNMINAL_ACTIONS`: it is, unless
/// that is `0`, `false`, `off` or `no`.
pub fn actions_enabled(value: Option<&str>) -> (r: bool)
    ensures
        r == types::switched_on(text::opt_text(value)),
{
    types::switch_is_on(value)
}

// ── Asking ───────────────────────────────────────────────────────────────────

/// What the model is told about listing actions.
pub open spec fn extraction_rules() -> Seq<char> {
    "You are extracting runnable shell commands from an answer that was just given to a terminal user.\n\nCall the list_actions tool with the commands the answer tells the user to run.\n\nRules:\n- Only include commands that appear in the answer, or that the answer directly instructs the user to run. Do not invent commands or flags.\n- Each command must be a single line that can be pasted into a shell as-is. No placeholders in angle brackets unless the answer used them.\n- Each goal must be a 2-4 word lowercase phrase describing what the command achieves, for example \"show as a list\" or \"check dir sizes\".\n- At most 5 commands, most useful first.\n- If the answer contains no runnable command, call list_actions with an empty list.\n\n"@
}

/// The prompt that asks for the actions in a reply.
pub open spec fn extraction_prompt(reply: Seq<char>, last_command: Seq<char>) -> Seq<char> {
    extraction_rules() + (if text::trimmed(last_command).len() > 0 {
        "The user's last command was: "@ + text::trimmed(last_command) + "\n\n"@
    } else {
        seq![]
    }) + "Answer to extract from:\n"@ + text::first_chars(
        text::trimmed(reply),
        REPLY_BUDGET_CHARS as nat,
    ) + "\n"@
}

/// The prompt that asks for the actions in a reply.
pub fn build_extraction_prompt(reply: &str, last_command: &str) -> (r: String)
    ensures
        r@ == extraction_prompt(reply@, last_command@),
{
    let mut prompt =
        "You are extracting runnable shell commands from an answer that was just given to a terminal user.\n\nCall the list_actions tool with the commands the answer tells the user to run.\n\nRules:\n- Only include commands that appear in the answer, or that the answer directly instructs the user to run. Do not invent commands or flags.\n- Each command must be a single line that can be pasted into a shell as-is. No placeholders in angle brackets unless the answer used them.\n- Each goal must be a 2-4 word lowercase phrase describing what the command achieves, for example \"show as a list\" or \"check dir sizes\".\n- At most 5 commands, most useful first.\n- If the answer contains no runnable command, call list_actions with an empty list.\n\n".to_owned();
    let ghost rules = prompt@;
    let command = text::trim(last_command);
    if !command.is_empty() {
        prompt.append("The user's last command was: ");
        prompt.append(command);
        prompt.append("\n\n");
        assert(prompt@ =~= rules + ("The user's last command was: "@ + command@ + "\n\n"@));
    } else {
        assert(rules + seq![] =~= rules);
    }
    prompt.append("Answer to extract from:\n");
    prompt.append(text::take(text::trim(reply), REPLY_BUDGET_CHARS));
    prompt.append("\n");
    prompt
}

// ── Reading ──────────────────────────────────────────────────────────────────

/// The list of items in whatever shape the model produced: a list as it is, an object by the
/// first of four keys that leads to any item or as a single item, a string by the JSON embedded
/// in it.
pub open spec fn items_in(raw: JsonView, depth: int) -> Seq<JsonView>
    decreases 3 - depth,
{
    if depth > 2 {
        seq![]
    } else {
        match raw {
            JsonView::List(items) => items,
            JsonView::Object(_) => {
                let a = match raw.get("actions"@) {
                    Some(nested) => items_in(nested, depth + 1),
                    None => seq![],
                };
                let b = match raw.get("items"@) {
                    Some(nested) => items_in(nested, depth + 1),
                    None => seq![],
                };
                let c = match raw.get("commands"@) {
                    Some(nested) => items_in(nested, depth + 1),
                    None => seq![],
                };
                let d = match raw.get("list"@) {
                    Some(nested) => items_in(nested, depth + 1),
                    None => seq![],
                };
                if a.len() > 0 {
                    a
                } else if b.len() > 0 {
                    b
                } else if c.len() > 0 {
                    c
                } else if d.len() > 0 {
                    d
                } else if raw.get("command"@) is Some || raw.get("cmd"@) is Some {
                    seq![raw]
                } else {
                    seq![]
                }
            },
            JsonView::Text(t) => match ollama::embedded_json(t) {
                Some(parsed) => items_in(parsed, depth + 1),
                None => seq![],
            },
            _ => seq![],
        }
    }
}

fn copy_all(items: &[Json]) -> (r: Vec<Json>)
    ensures
        json::json_views(r@) == json::json_views(items@),
{
    let mut out: Vec<Json> = Vec::new();
    let mut i: usize = 0;
    while i < items.len()
        invariant
            i <= items@.len(),
            out@.len() == i,
            forall|k: int| 0 <= k < i ==> #[trigger] out@[k]@ == items@[k]@,
        decreases items@.len() - i,
    {
        out.push(items[i].copy());
        i += 1;
    }
    assert(json::json_views(out@) =~= json::json_views(items@));
    out
}

fn nested_items(raw: &Json, key: &str, depth: usize) -> (r: Vec<Json>)
    requires
        depth <= 2,
    ensures
        json::json_views(r@) == match raw@.get(key@) {
            Some(nested) => items_in(nested, depth + 1),
            None => seq![],
        },
    decreases 3 - depth, 0nat,
{
    match raw.get(key) {
        Some(nested) => actions_array(nested, depth + 1),
        None => {
            let none: Vec<Json> = Vec::new();
            assert(json::json_views(none@) =~= seq![]);
            none
        },
    }
}

/// Dig the list of items out of whatever shape the model produced.
pub fn actions_array(raw: &Json, depth: usize) -> (r: Vec<Json>)
    ensures
        json::json_views(r@) == items_in(raw@, depth as int),
    decreases (if depth > 3 {
        0
    } else {
        3 - depth
    }), 1nat,
{
    let none: Vec<Json> = Vec::new();
    assert(json::json_views(none@) =~= seq![]);
    if depth > 2 {
        return none;
    }
    match raw {
        Json::List(items) => {
            let out = copy_all(items.as_slice());
            proof {
                reveal_with_fuel(Json::said, 2);
                assert(raw@->List_0 =~= json::json_views(items@));
            }
            out
        },
        Json::Object(_) => {
            let a = nested_items(raw, "actions", depth);
            if a.len() > 0 {
                return a;
            }
            let b = nested_items(raw, "items", depth);
            if b.len() > 0 {
                return b;
            }
            let c = nested_items(raw, "commands", depth);
            if c.len() > 0 {
                return c;
            }
            let d = nested_items(raw, "list", depth);
            if d.len() > 0 {
                return d;
            }
            // A single item passed as a bare object.
            if raw.get("command").is_some() || raw.get("cmd").is_some() {
                let mut one: Vec<Json> = Vec::new();
                one.push(raw.copy());
                assert(json::json_views(one@) =~= seq![raw@]);
                return one;
            }
            none
        },
        Json::Text(t) => match ollama::parse_embedded_json(t.as_str()) {
            Some(parsed) => actions_array(&parsed, depth + 1),
            None => none,
        },
        _ => none,
    }
}

// ── Items ────────────────────────────────────────────────────────────────────

/// `s` without a prompt marker in front.
pub open spec fn without_marker(s: Seq<char>, marker: Seq<char>) -> Seq<char> {
    if marker.is_prefix_of(s) {
        text::trimmed_start(s.skip(marker.len() as int), CharSet::White)
    } else {
        s
    }
}

/// A candidate command without prompt markers and backticks.
pub open spec fn bare_command(raw: Seq<char>) -> Seq<char> {
    let a = without_marker(text::trimmed(raw), "$ "@);
    let b = without_marker(a, "> "@);
    let c = without_marker(b, "% "@);
    let d = without_marker(c, "# "@);
    text::trimmed(text::trimmed_of(d, CharSet::Just('`')))
}

/// A candidate command, where it is a single runnable line.
pub open spec fn clean_command(raw: Seq<char>) -> Option<Seq<char>> {
    let line = text::trimmed(raw);
    if line.contains('\n') || line.contains('\r') {
        None
    } else if 0 < bare_command(raw).len() <= MAX_COMMAND_LEN {
        Some(bare_command(raw))
    } else {
        None
    }
}

fn strip_marker<'a>(s: &'a str, marker: &str) -> (r: &'a str)
    ensures
        r@ == without_marker(s@, marker@),
{
    if text::starts_with(s, marker) {
        let n = s.unicode_len();
        let m = marker.unicode_len();
        let rest = s.substring_char(m, n);
        assert(rest@ =~= s@.skip(marker@.len() as int));
        text::trim_start(rest)
    } else {
        s
    }
}

/// Normalize a candidate command, rejecting anything that is not a single runnable line.
pub fn sanitize_command(raw: &str) -> (r: Option<String>)
    ensures
        text::opt_string(r) == clean_command(raw@),
{
    let line = text::trim(raw);
    if text::contains_char(line, '\n') || text::contains_char(line, '\r') {
        return None;
    }
    // Models often echo the prompt marker along with the command.
    let a = strip_marker(line, "$ ");
    let b = strip_marker(a, "> ");
    let c = strip_marker(b, "% ");
    let d = strip_marker(c, "# ");
    let command = text::trim(text::trim_of(d, CharSet::Just('`')));
    if command.is_empty() || command.unicode_len() > MAX_COMMAND_LEN {
        return None;
    }
    Some(command.to_owned())
}

/// A goal with its white space closed up, without full stops behind it, cut to its room.
pub open spec fn clean_goal(raw: Seq<char>) -> Seq<char> {
    let goal = text::trimmed(
        text::trimmed_end(text::joined(text::word_list(raw), " "@), CharSet::Just('.')),
    );
    if goal.len() <= MAX_GOAL_LEN {
        goal
    } else {
        text::rtrimmed(goal.take(MAX_GOAL_LEN - 1)) + "…"@
    }
}

/// Collapse whitespace and clip the blurb to a couple of words' worth of room.
pub fn sanitize_goal(raw: &str) -> (r: String)
    ensures
        r@ == clean_goal(raw@),
        r@.len() <= MAX_GOAL_LEN,
{
    let words = text::words(raw);
    let collapsed = text::join(words.as_slice(), " ");
    let goal = text::trim(text::trim_end_of(collapsed.as_str(), CharSet::Just('.')));
    if goal.unicode_len() <= MAX_GOAL_LEN {
        return goal.to_owned();
    }
    let kept = goal.substring_char(0, MAX_GOAL_LEN - 1);
    assert(kept@ =~= goal@.take(MAX_GOAL_LEN - 1));
    proof {
        reveal_strlit("…");
        text::lemma_trail(kept@, CharSet::White);
    }
    text::concat(text::trim_end(kept), "…")
}

/// The text under the first of `keys` that has one, trimmed, where it is not blank.
pub open spec fn first_text(v: JsonView, keys: Seq<Seq<char>>) -> Option<Seq<char>>
    decreases keys.len(),
{
    if keys.len() == 0 {
        None
    } else if v.text_at(keys[0]) is Some {
        ollama::filled(v.text_at(keys[0]))
    } else {
        first_text(v, keys.drop_first())
    }
}

/// The keys of a command.
pub open spec fn command_keys() -> Seq<Seq<char>> {
    seq!["command"@, "cmd"@, "action"@]
}

/// The keys of a goal.
pub open spec fn goal_keys() -> Seq<Seq<char>> {
    seq!["goal"@, "description"@, "purpose"@, "blurb"@, "summary"@]
}

/// The item that a value is, where it has a runnable command.
pub open spec fn item_of(v: JsonView) -> Option<ActionView> {
    match first_text(v, command_keys()) {
        None => None,
        Some(raw) => match clean_command(raw) {
            None => None,
            Some(command) => Some(
                ActionView {
                    command,
                    goal: clean_goal(ollama::or_empty(first_text(v, goal_keys()))),
                },
            ),
        },
    }
}

fn find_text(v: &Json, keys: &[String]) -> (r: Option<String>)
    ensures
        text::opt_string(r) == first_text(v@, text::views(keys@)),
{
    let ghost all = text::views(keys@);
    let mut i: usize = 0;
    assert(all.skip(0) =~= all);
    while i < keys.len()
        invariant
            i <= keys@.len(),
            all == text::views(keys@),
            first_text(v@, all) == first_text(v@, all.skip(i as int)),
        decreases keys@.len() - i,
    {
        assert(all.skip(i as int)[0] == keys@[i as int]@);
        assert(all.skip(i as int).drop_first() =~= all.skip(i + 1));
        if let Some(member) = v.get(keys[i].as_str()) {
            if let Some(t) = member.as_str() {
                let t = text::trim(t);
                if t.is_empty() {
                    return None;
                }
                return Some(t.to_owned());
            }
        }
        i += 1;
    }
    None
}

/// The item that a value is, where it has a runnable command.
pub fn parse_item(v: &Json) -> (r: Option<ActionItem>)
    ensures
        match r {
            Some(item) => item_of(v@) == Some(item@),
            None => item_of(v@) is None,
        },
{
    let mut keys: Vec<String> = Vec::new();
    text::push_text(&mut keys, "command".to_owned());
    text::push_text(&mut keys, "cmd".to_owned());
    text::push_text(&mut keys, "action".to_owned());
    assert(text::views(keys@) =~= command_keys());
    let raw = match find_text(v, keys.as_slice()) {
        Some(raw) => raw,
        None => {
            return None;
        },
    };
    let command = match sanitize_command(raw.as_str()) {
        Some(command) => command,
        None => {
            return None;
        },
    };
    let mut keys: Vec<String> = Vec::new();
    text::push_text(&mut keys, "goal".to_owned());
    text::push_text(&mut keys, "description".to_owned());
    text::push_text(&mut keys, "purpose".to_owned());
    text::push_text(&mut keys, "blurb".to_owned());
    text::push_text(&mut keys, "summary".to_owned());
    assert(text::views(keys@) =~= goal_keys());
    let goal = match find_text(v, keys.as_slice()) {
        Some(goal) => goal,
        None => String::new(),
    };
    Some(ActionItem { command, goal: sanitize_goal(goal.as_str()) })
}

/// Whether an item with this command is among `items`.
pub open spec fn has_command(items: Seq<ActionView>, command: Seq<char>) -> bool {
    exists|i: int| 0 <= i < items.len() && #[trigger] items[i].command == command
}

/// `items` with those of `values` behind them, each command once, up to the most that is shown.
pub open spec fn with_items(values: Seq<JsonView>, items: Seq<ActionView>) -> Seq<ActionView>
    decreases values.len(),
{
    if values.len() == 0 || items.len() >= MAX_ACTIONS {
        items
    } else {
        match item_of(values[0]) {
            Some(item) => with_items(
                values.drop_first(),
                if has_command(items, item.command) {
                    items
                } else {
                    items.push(item)
                },
            ),
            None => with_items(values.drop_first(), items),
        }
    }
}

/// The actions in the arguments of the tool.
pub open spec fn actions_in(raw: JsonView) -> Seq<ActionView> {
    with_items(items_in(raw, 0), seq![])
}

/// Whether an item is fit to be shown: a single line that is not too long, and a short goal.
pub open spec fn is_fit(item: ActionView) -> bool {
    &&& 0 < item.command.len() <= MAX_COMMAND_LEN
    &&& !item.command.contains('\n')
    &&& !item.command.contains('\r')
    &&& item.goal.len() <= MAX_GOAL_LEN
}

/// At most [`MAX_ACTIONS`] actions are listed, no command twice, each a single runnable line
/// with a short goal.
pub proof fn law_actions(raw: JsonView)
    ensures
        actions_in(raw).len() <= MAX_ACTIONS,
        forall|i: int| 0 <= i < actions_in(raw).len() ==> is_fit(#[trigger] actions_in(raw)[i]),
        forall|i: int, j: int|
            0 <= i < j < actions_in(raw).len() ==> (#[trigger] actions_in(raw)[i]).command != (
            #[trigger] actions_in(raw)[j]).command,
{
    lemma_with_items(items_in(raw, 0), seq![]);
}

proof fn lemma_with_items(values: Seq<JsonView>, items: Seq<ActionView>)
    requires
        items.len() <= MAX_ACTIONS,
        forall|i: int| 0 <= i < items.len() ==> is_fit(#[trigger] items[i]),
        forall|i: int, j: int|
            0 <= i < j < items.len() ==> (#[trigger] items[i]).command != (
            #[trigger] items[j]).command,
    ensures
        with_items(values, items).len() <= MAX_ACTIONS,
        forall|i: int|
            0 <= i < with_items(values, items).len() ==> is_fit(
                #[trigger] with_items(values, items)[i],
            ),
        forall|i: int, j: int|
            0 <= i < j < with_items(values, items).len() ==> (#[trigger] with_items(
                values,
                items,
            )[i]).command != (#[trigger] with_items(values, items)[j]).command,
    decreases values.len(),
{
    if values.len() > 0 && items.len() < MAX_ACTIONS {
        match item_of(values[0]) {
            Some(item) => {
                let next = if has_command(items, item.command) {
                    items
                } else {
                    items.push(item)
                };
                lemma_item_fit(values[0]);
                lemma_with_items(values.drop_first(), next);
            },
            None => {
                lemma_with_items(values.drop_first(), items);
            },
        }
    }
}

proof fn lemma_item_fit(v: JsonView)
    ensures
        item_of(v) matches Some(item) ==> is_fit(item),
{
    if let Some(item) = item_of(v) {
        let raw = first_text(v, command_keys())->0;
        let line = text::trimmed(raw);
        lemma_bare_without(raw, '\n');
        lemma_bare_without(raw, '\r');
        lemma_goal_len(ollama::or_empty(first_text(v, goal_keys())));
    }
}

proof fn lemma_goal_len(raw: Seq<char>)
    ensures
        clean_goal(raw).len() <= MAX_GOAL_LEN,
{
    reveal_strlit("…");
    let goal = text::trimmed(
        text::trimmed_end(text::joined(text::word_list(raw), " "@), CharSet::Just('.')),
    );
    if goal.len() > MAX_GOAL_LEN {
        text::lemma_trail(goal.take(MAX_GOAL_LEN - 1), CharSet::White);
    }
}

proof fn lemma_part_without(whole: Seq<char>, from: int, to: int, c: char)
    requires
        0 <= from <= to <= whole.len(),
        !whole.contains(c),
    ensures
        !whole.subrange(from, to).contains(c),
{
    let part = whole.subrange(from, to);
    if part.contains(c) {
        let k = part.index_of(c);
        assert(whole[from + k] == c);
    }
}

proof fn lemma_marker_without(s: Seq<char>, marker: Seq<char>, c: char)
    requires
        !s.contains(c),
    ensures
        !without_marker(s, marker).contains(c),
{
    if marker.is_prefix_of(s) {
        let rest = s.skip(marker.len() as int);
        text::lemma_lead(rest, CharSet::White);
        lemma_part_without(s, marker.len() as int, s.len() as int, c);
        lemma_part_without(rest, text::lead(rest, CharSet::White) as int, rest.len() as int, c);
    }
}

proof fn lemma_bare_without(raw: Seq<char>, c: char)
    requires
        !text::trimmed(raw).contains(c),
    ensures
        !bare_command(raw).contains(c),
{
    let a = without_marker(text::trimmed(raw), "$ "@);
    let b = without_marker(a, "> "@);
    let d = without_marker(b, "% "@);
    let e = without_marker(d, "# "@);
    lemma_marker_without(text::trimmed(raw), "$ "@, c);
    lemma_marker_without(a, "> "@, c);
    lemma_marker_without(b, "% "@, c);
    lemma_marker_without(d, "# "@, c);
    let set = CharSet::Just('`');
    let f = text::trimmed_start(e, set);
    text::lemma_lead(e, set);
    lemma_part_without(e, text::lead(e, set) as int, e.len() as int, c);
    text::lemma_trail(f, set);
    lemma_part_without(f, 0, f.len() - text::trail(f, set), c);
    text::lemma_trimmed_without(text::trimmed_of(e, set), c);
}

fn already_listed(items: &[ActionItem], command: &str) -> (r: bool)
    ensures
        r == has_command(action_views(items@), command@),
{
    let mut i: usize = 0;
    while i < items.len()
        invariant
            i <= items@.len(),
            forall|k: int|
                0 <= k < i ==> #[trigger] action_views(items@)[k].command != command@,
        decreases items@.len() - i,
    {
        if text::same(items[i].command.as_str(), command) {
            assert(action_views(items@)[i as int].command == command@);
            return true;
        }
        i += 1;
    }
    false
}

/// Tolerant parse of the tool arguments into action items.
///
/// Accepts a bare array, `{"actions": [...]}` (or `items`/`commands`), and any
/// of those nested inside a JSON string, since small models are inconsistent.
pub fn parse_actions(raw: &Json) -> (r: Vec<ActionItem>)
    ensures
        action_views(r@) == actions_in(raw@),
{
    let values = actions_array(raw, 0);
    let ghost all = json::json_views(values@);
    let mut out: Vec<ActionItem> = Vec::new();
    let mut i: usize = 0;
    assert(all.skip(0) =~= all);
    assert(action_views(out@) =~= seq![]);
    while i < values.len() && out.len() < MAX_ACTIONS
        invariant
            i <= values@.len(),
            all == json::json_views(values@),
            with_items(all.skip(i as int), action_views(out@)) == with_items(all, seq![]),
        decreases values@.len() - i,
    {
        let ghost before = action_views(out@);
        assert(all.skip(i as int)[0] == values@[i as int]@);
        assert(all.skip(i as int).drop_first() =~= all.skip(i + 1));
        if let Some(item) = parse_item(&values[i]) {
            if !already_listed(out.as_slice(), item.command.as_str()) {
                let ghost iv = item@;
                out.push(item);
                assert(action_views(out@) =~= before.push(iv));
            }
        }
        i += 1;
    }
    out
}

/// The actions that a reply to the request for them gives: none where the request failed, the
/// answer was blank or the reply lists none.
pub open spec fn extracted(answer: Seq<char>, response: Option<JsonView>) -> Seq<ActionView> {
    if text::trimmed(answer).len() == 0 || response is None {
        seq![]
    } else {
        match ollama::answer_arguments(response->0, TOOL_NAME@) {
            Ok(Some(arguments)) => actions_in(arguments),
            _ => seq![],
        }
    }
}

/// The runnable commands contained in `answer`, out of the model's reply to the request for
/// them, where there is one.
pub fn extract_actions(answer: &str, response: Option<&Json>) -> (r: Vec<ActionItem>)
    ensures
        action_views(r@) == extracted(
            answer@,
            match response {
                Some(v) => Some(v@),
                None => None,
            },
        ),
{
    let none: Vec<ActionItem> = Vec::new();
    assert(action_views(none@) =~= seq![]);
    if text::trim(answer).is_empty() {
        return none;
    }
    match response {
        None => none,
        Some(v) => match ollama::tool_arguments(v, TOOL_NAME) {
            Ok(Some(arguments)) => parse_actions(&arguments),
            _ => none,
        },
    }
}

/// The model is shown the answer, as far as the budget goes, and the last command.
pub proof fn law_extraction_prompt(reply: Seq<char>, last_command: Seq<char>)
    ensures
        text::trimmed(reply).len() <= 4000 ==> text::has_sub(
            extraction_prompt(reply, last_command),
            text::trimmed(reply),
        ),
        text::trimmed(reply).len() > 4000 ==> text::has_sub(
            extraction_prompt(reply, last_command),
            text::trimmed(reply).take(4000),
        ),
        text::trimmed(last_command).len() > 0 ==> text::has_sub(
            extraction_prompt(reply, last_command),
            text::trimmed(last_command),
        ),
{
    let whole = extraction_prompt(reply, last_command);
    let shown = text::first_chars(text::trimmed(reply), 4000);
    let command = text::trimmed(last_command);
    let middle = if command.len() > 0 {
        "The user's last command was: "@ + command + "\n\n"@
    } else {
        seq![]
    };
    let before = extraction_rules() + middle + "Answer to extract from:\n"@;
    text::lemma_occurs(before, shown, "\n"@);
    assert(before + shown + "\n"@ =~= whole);
    if command.len() > 0 {
        let lead = extraction_rules() + "The user's last command was: "@;
        let rest = "\n\n"@ + "Answer to extract from:\n"@ + shown + "\n"@;
        text::lemma_occurs(lead, command, rest);
        assert(lead + command + rest =~= whole);
    }
}

/// Whether a text is a command as it would be typed, without a mark of a prompt or a quote around
/// it.
pub open spec fn is_bare(command: Seq<char>) -> bool {
    &&& 0 < command.len() <= 120
    &&& text::is_tight(command)
    &&& !command.contains('\n')
    &&& !command.contains('\r')
    &&& command[0] != '$' && command[0] != '>' && command[0] != '%' && command[0] != '#'
    &&& command[0] != '`' && command.last() != '`'
}

proof fn lemma_bare(d: Seq<char>, command: Seq<char>)
    requires
        is_bare(command),
        d == command || d == seq!['`'] + command + seq!['`'],
    ensures
        text::trimmed(text::trimmed_of(d, CharSet::Just('`'))) == command,
{
    let quote = CharSet::Just('`');
    let n: int = if d == command {
        0
    } else {
        1
    };
    assert(d.skip(n)[0] == command[0]);
    text::lemma_lead_is(d, quote, n);
    let t = d.skip(n);
    assert(t =~= if n == 0 {
        command
    } else {
        command + seq!['`']
    });
    text::lemma_trail(t, quote);
    let m = text::trail(t, quote) as int;
    if m < n {
        assert(t[t.len() - m - 1] == '`');
    }
    if m > n {
        assert(t[t.len() - n - 1] == command.last());
    }
    assert(t.take(t.len() - m) =~= command);
    text::lemma_trimmed_same(command);
}

/// A command is taken as it is, and without the mark of the prompt or the quotes that it comes
/// with; one of several lines or too long is not taken.
pub proof fn law_command_is_cleaned(command: Seq<char>, mark: char, other: Seq<char>)
    requires
        is_bare(command),
        mark == '$' || mark == '>' || mark == '%' || mark == '#',
        text::is_tight(other),
        other.contains('\n') || other.contains('\r'),
    ensures
        clean_command(command) == Some(command),
        clean_command(seq![mark, ' '] + command) == Some(command),
        clean_command(seq!['`'] + command + seq!['`']) == Some(command),
        clean_command(other) is None,
{
    text::lemma_trimmed_same(other);
    lemma_cleaned(command, command, command);
    lemma_cleaned(
        seq!['`'] + command + seq!['`'],
        command,
        seq!['`'] + command + seq!['`'],
    );
    lemma_marked(command, mark);
}

proof fn lemma_not_marked(s: Seq<char>)
    requires
        s.len() > 0,
        s[0] != '$' && s[0] != '>' && s[0] != '%' && s[0] != '#',
    ensures
        without_marker(s, "$ "@) == s,
        without_marker(s, "> "@) == s,
        without_marker(s, "% "@) == s,
        without_marker(s, "# "@) == s,
{
    reveal_strlit("$ ");
    reveal_strlit("> ");
    reveal_strlit("% ");
    reveal_strlit("# ");
    assert("$ "@[0] == '$' && "> "@[0] == '>' && "% "@[0] == '%' && "# "@[0] == '#');
}

proof fn lemma_cleaned(raw: Seq<char>, command: Seq<char>, line: Seq<char>)
    requires
        is_bare(command),
        raw == line,
        line == command || line == seq!['`'] + command + seq!['`'],
    ensures
        clean_command(raw) == Some(command),
{
    text::lemma_trimmed_same(raw);
    lemma_not_marked(raw);
    lemma_bare(raw, command);
    if raw.contains('\n') {
        let k = raw.index_of('\n');
        if raw != command {
            assert(command[k - 1] == '\n');
        }
    }
    if raw.contains('\r') {
        let k = raw.index_of('\r');
        if raw != command {
            assert(command[k - 1] == '\r');
        }
    }
}

proof fn lemma_without_mark(command: Seq<char>, mark: Seq<char>)
    requires
        is_bare(command),
        mark.len() == 2,
        mark[1] == ' ',
    ensures
        without_marker(mark + command, mark) == command,
{
    let s = mark + command;
    assert(s.take(2) =~= mark);
    assert(s.skip(2) =~= command);
    text::lemma_lead_is(command, CharSet::White, 0);
    assert(command.skip(0) =~= command);
}

proof fn lemma_marked(command: Seq<char>, mark: char)
    requires
        is_bare(command),
        mark == '$' || mark == '>' || mark == '%' || mark == '#',
    ensures
        clean_command(seq![mark, ' '] + command) == Some(command),
{
    reveal_strlit("$ ");
    reveal_strlit("> ");
    reveal_strlit("% ");
    reveal_strlit("# ");
    let raw = seq![mark, ' '] + command;
    text::lemma_trimmed_same(raw);
    lemma_not_marked(command);
    lemma_bare(command, command);
    assert("$ "@ =~= seq!['$', ' ']);
    assert("> "@ =~= seq!['>', ' ']);
    assert("% "@ =~= seq!['%', ' ']);
    assert("# "@ =~= seq!['#', ' ']);
    lemma_without_mark(command, "$ "@);
    lemma_without_mark(command, "> "@);
    lemma_without_mark(command, "% "@);
    lemma_without_mark(command, "# "@);
    assert(without_marker(raw, "$ "@) == if mark == '$' {
        command
    } else {
        raw
    });
    assert(raw[0] == mark);
    if raw.contains('\n') {
        let k = raw.index_of('\n');
        assert(command[k - 2] == '\n');
    }
    if raw.contains('\r') {
        let k = raw.index_of('\r');
        assert(command[k - 2] == '\r');
    }
    assert(bare_command(raw) == command);
}

/// A short goal of words with single spaces between them is taken as it is, and without the full
/// stop at its end; a long one is cut, and an ellipsis shows that it was.
pub proof fn law_goal_is_cleaned(goal: Seq<char>)
    requires
        goal.len() > 0,
        text::is_tight(goal),
        goal.last() != '.',
        text::joined(text::word_list(goal), " "@) == goal,
    ensures
        goal.len() <= 32 ==> clean_goal(goal) == goal,
        goal.len() > 32 ==> exists|n: int|
            #![trigger goal.take(n)]
            0 <= n <= 31 && clean_goal(goal) == goal.take(n) + "…"@ && forall|k: int|
                n <= k < 31 ==> text::is_white(#[trigger] goal[k]),
{
    text::lemma_trail(goal, CharSet::Just('.'));
    assert(text::trail(goal, CharSet::Just('.')) == 0);
    assert(goal.take(goal.len() - 0) =~= goal);
    text::lemma_trimmed_same(goal);
    if goal.len() > 32 {
        let head = goal.take(31);
        text::lemma_rtrimmed(head);
        let n = text::rtrimmed(head).len() as int;
        assert(goal.take(n) =~= text::rtrimmed(head));
        assert forall|k: int| n <= k < 31 implies text::is_white(#[trigger] goal[k]) by {
            assert(head[k] == goal[k]);
        }
    }
}

/// Whether an entry names `command`, under one of the keys that models use for it.
pub open spec fn names_command(v: JsonView, command: Seq<char>) -> bool {
    ||| v.text_at("command"@) == Some(command)
    ||| v.text_at("command"@) is None && v.text_at("cmd"@) == Some(command)
    ||| v.text_at("command"@) is None && v.text_at("cmd"@) is None && v.text_at("action"@) == Some(
        command,
    )
}

/// Whether an entry names `goal`, under one of the keys that models use for it.
pub open spec fn names_goal(v: JsonView, goal: Seq<char>) -> bool {
    ||| v.text_at("goal"@) == Some(goal)
    ||| v.text_at("goal"@) is None && v.text_at("description"@) == Some(goal)
    ||| v.text_at("goal"@) is None && v.text_at("description"@) is None && v.text_at("purpose"@)
        == Some(goal)
    ||| v.text_at("goal"@) is None && v.text_at("description"@) is None && v.text_at("purpose"@)
        is None && v.text_at("blurb"@) == Some(goal)
    ||| v.text_at("goal"@) is None && v.text_at("description"@) is None && v.text_at("purpose"@)
        is None && v.text_at("blurb"@) is None && v.text_at("summary"@) == Some(goal)
}

proof fn lemma_first_text(v: JsonView, keys: Seq<Seq<char>>, i: int, t: Seq<char>)
    requires
        0 <= i < keys.len(),
        forall|k: int| 0 <= k < i ==> v.text_at(#[trigger] keys[k]) is None,
        v.text_at(keys[i]) == Some(t),
        t.len() > 0,
        text::is_tight(t),
    ensures
        first_text(v, keys) == Some(t),
    decreases keys.len(),
{
    if i == 0 {
        text::lemma_trimmed_same(t);
    } else {
        let rest = keys.drop_first();
        assert(v.text_at(keys[0]) is None);
        assert(rest[i - 1] == keys[i]);
        assert forall|k: int| 0 <= k < i - 1 implies v.text_at(#[trigger] rest[k]) is None by {
            assert(rest[k] == keys[k + 1]);
        }
        lemma_first_text(v, rest, i - 1, t);
    }
}

/// An entry that names a command and a goal becomes an item with both.
pub proof fn law_entry_becomes_item(v: JsonView, command: Seq<char>, goal: Seq<char>)
    requires
        names_command(v, command),
        is_bare(command),
        names_goal(v, goal),
        0 < goal.len() <= 32,
        text::is_tight(goal),
        goal.last() != '.',
        text::joined(text::word_list(goal), " "@) == goal,
    ensures
        item_of(v) == Some(ActionView { command, goal }),
{
    let keys = command_keys();
    let i: int = if v.text_at(keys[0]) is Some {
        0
    } else if v.text_at(keys[1]) is Some {
        1
    } else {
        2
    };
    lemma_first_text(v, keys, i, command);
    let more = goal_keys();
    let j: int = if v.text_at(more[0]) is Some {
        0
    } else if v.text_at(more[1]) is Some {
        1
    } else if v.text_at(more[2]) is Some {
        2
    } else if v.text_at(more[3]) is Some {
        3
    } else {
        4
    };
    lemma_first_text(v, more, j, goal);
    lemma_cleaned(command, command, command);
    law_goal_is_cleaned(goal);
}

/// Up to five entries that become items with different commands are all taken, in their order.
pub proof fn law_all_actions_are_taken(raw: JsonView, items: Seq<ActionView>)
    requires
        raw matches JsonView::List(values) ==> values.len() == items.len(),
        raw is List,
        items.len() <= 5,
        forall|i: int|
            0 <= i < items.len() ==> item_of(#[trigger] raw->List_0[i]) == Some(items[i]),
        forall|i: int, j: int|
            0 <= i < j < items.len() ==> (#[trigger] items[i]).command != (
            #[trigger] items[j]).command,
    ensures
        actions_in(raw) == items,
{
    lemma_all_taken(raw->List_0, items, seq![]);
    assert(Seq::<ActionView>::empty() + items =~= items);
}

proof fn lemma_all_taken(
    values: Seq<JsonView>,
    items: Seq<ActionView>,
    before: Seq<ActionView>,
)
    requires
        values.len() == items.len(),
        before.len() + items.len() <= 5,
        forall|i: int| 0 <= i < items.len() ==> item_of(#[trigger] values[i]) == Some(items[i]),
        forall|i: int, j: int|
            0 <= i < j < (before + items).len() ==> (#[trigger] (before + items)[i]).command != (
            #[trigger] (before + items)[j]).command,
    ensures
        with_items(values, before) == before + items,
    decreases values.len(),
{
    if values.len() == 0 {
        assert(before + items =~= before);
    } else {
        let rest = values.drop_first();
        let more = items.drop_first();
        let next = before.push(items[0]);
        let all = before + items;
        assert(next + more =~= all);
        assert(item_of(values[0]) == Some(items[0]));
        if has_command(before, items[0].command) {
            let i = choose|i: int|
                0 <= i < before.len() && #[trigger] before[i].command == items[0].command;
            assert(all[i] == before[i]);
            assert(all[before.len() as int] == items[0]);
        }
        assert forall|i: int| 0 <= i < more.len() implies item_of(#[trigger] rest[i]) == Some(
            more[i],
        ) by {
            assert(rest[i] == values[i + 1]);
        }
        lemma_all_taken(rest, more, next);
    }
}

/// The entries of a reply are found whether they stand alone or under the key that a model put
/// them under, and a single entry counts as a list of one.
pub proof fn law_entries_are_found(raw: JsonView, entries: Seq<JsonView>)
    requires
        entries.len() > 0,
    ensures
        raw == JsonView::List(entries) ==> items_in(raw, 0) == entries,
        raw.get("actions"@) == Some(JsonView::List(entries)) ==> items_in(raw, 0) == entries,
        raw.get("actions"@) is None && raw.get("items"@) == Some(JsonView::List(entries))
            ==> items_in(raw, 0) == entries,
        raw.get("actions"@) is None && raw.get("items"@) is None && raw.get("commands"@) == Some(
            JsonView::List(entries),
        ) ==> items_in(raw, 0) == entries,
        raw.get("actions"@) is None && raw.get("items"@) is None && raw.get("commands"@) is None
            && raw.get("list"@) == Some(JsonView::List(entries)) ==> items_in(raw, 0) == entries,
        raw.get("actions"@) is None && raw.get("items"@) is None && raw.get("commands"@) is None
            && raw.get("list"@) is None && (raw.get("command"@) is Some || raw.get("cmd"@) is Some)
            ==> items_in(raw, 0) == seq![raw],
{
    reveal_with_fuel(items_in, 2);
}

/// The actions of an answer are those that the model lists when it calls the tool; there are none
/// without an answer or without a reply.
pub proof fn law_extracted(
    answer: Seq<char>,
    response: JsonView,
    args: JsonView,
)
    requires
        text::trimmed(answer).len() > 0,
        args !is Text,
        ollama::asks_for_all(response, seq!["list_actions"@], seq![args]),
    ensures
        extracted(answer, Some(response)) == actions_in(args),
        extracted(answer, None) == Seq::<ActionView>::empty(),
        extracted(seq![], Some(response)) == Seq::<ActionView>::empty(),
{
    reveal_strlit("list_actions");
    let names = seq!["list_actions"@];
    assert(names[0] == "list_actions"@);
    assert("list_actions"@.len() == 12);
    assert("list_actions"@[0] == 'l' && "list_actions"@.last() == 's');
    ollama::law_answer_arguments(response, names, seq![args], 0, seq![]);
    text::lemma_blank(Seq::<char>::empty());
}

} // verus!
