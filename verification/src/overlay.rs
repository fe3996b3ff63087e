//! The overlay panel: what it shows, how it follows the backend, and what each key does.
//!
//! A panel is one value. Each operation is described by a function from the panel before
//! to the panel after, so that a sequence of operations can be followed step by step.

use crate::actions;
use crate::actions::ActionItem;
use crate::explain;
use crate::explain::{CommandReferenceResponse, CommandReferenceView, ExplainResponse, ExplainView};
use crate::layout;
use crate::layout::{DisplayLine, LineStyle, LineView};
use crate::settings::ExperienceLevel;
use crate::text;
use crate::text::CharSet;
use crate::types::{manager_names, SystemInfo};
use vstd::prelude::*;
use vstd::string::*;

verus! {

broadcast use vstd::string::group_string_axioms;

/// Chunks that arrive within this time of each other are drawn together.
pub const BATCH_INTERVAL_NANOS: u64 = 16_000_000;

/// Most lines that one repeat of an arrow key scrolls.
pub const SCROLL_REPEAT_MAX_LINES: usize = 12;

/// Most bytes that the input field holds.
pub const INPUT_MAX_LEN: usize = 256;

/// An error panel goes away by itself after this time.
pub const ERROR_AUTO_DISMISS_SECS: u64 = 8;

/// Shown where the backend cannot be reached.
pub const MSG_BACKEND_NOT_RUNNING: &'static str =
    "AI backend not running. Start with: uv sync && uv run --directory ai-backend python server.py";

/// Shown where the backend takes too long.
pub const MSG_TIMEOUT: &'static str =
    "Response timed out. The model may be overloaded. Try a shorter selection.";

/// Shown where there is nothing to explain.
pub const MSG_EMPTY_CONTEXT: &'static str =
    "Could not read terminal content. Try selecting text manually.";

// ── Slash commands ───────────────────────────────────────────────────────────

/// A command typed into the input field of the overlay.
#[derive(Debug, Clone, PartialEq, Eq)]
pub enum SlashCommand {
    /// Show OS, package managers, and detected installed tools.
    Info { refresh: bool },
    /// List available slash commands (handled locally).
    Help,
    /// Clear the Chat mode transcript (handled locally).
    Clear,
    /// Switch the active model, or show the installed ones where none is named.
    Model { name: Option<String> },
    /// Set the experience level, or show the levels where none is named (handled locally).
    Level { level: Option<ExperienceLevel> },
    /// List the current actions in the transcript, or dismiss them (handled locally).
    Actions { clear: bool },
}

/// What a [`SlashCommand`] asks for.
pub ghost enum CommandView {
    Info { refresh: bool },
    Help,
    Clear,
    Model { name: Option<Seq<char>> },
    Level { level: Option<ExperienceLevel> },
    Actions { clear: bool },
}

impl View for SlashCommand {
    type V = CommandView;

    open spec fn view(&self) -> CommandView {
        match self {
            SlashCommand::Info { refresh } => CommandView::Info { refresh: *refresh },
            SlashCommand::Help => CommandView::Help,
            SlashCommand::Clear => CommandView::Clear,
            SlashCommand::Model { name } => CommandView::Model { name: text::opt_string(*name) },
            SlashCommand::Level { level } => CommandView::Level { level: *level },
            SlashCommand::Actions { clear } => CommandView::Actions { clear: *clear },
        }
    }
}

/// What a slash command was read as: a command, or what is wrong with it.
pub ghost enum SlashView {
    Command(CommandView),
    Wrong(Seq<char>),
}

/// Whether one of `words` after the first is `word`, in whichever case.
pub open spec fn later_word(words: Seq<Seq<char>>, word: Seq<char>) -> bool {
    exists|i: int| 1 <= i < words.len() && text::lowered(#[trigger] words[i]) == text::lowered(word)
}

/// How `/model` is read: the word behind it names a model, unless it is `list`.
pub open spec fn model_command(words: Seq<Seq<char>>) -> SlashView {
    SlashView::Command(
        CommandView::Model {
            name: if words.len() > 1 && text::lowered(words[1]) != text::lowered("list"@) {
                Some(words[1])
            } else {
                None
            },
        },
    )
}

/// How `/level` is read: the word behind it has to name a level.
pub open spec fn level_command(words: Seq<Seq<char>>) -> SlashView {
    if words.len() < 2 {
        SlashView::Command(CommandView::Level { level: None })
    } else {
        match ExperienceLevel::named(words[1]) {
            Some(level) => SlashView::Command(CommandView::Level { level: Some(level) }),
            None => SlashView::Wrong(
                "Unknown level '"@ + words[1] + "'. Type /level to see the levels."@,
            ),
        }
    }
}

/// How a slash command is read, after its slashes.
pub open spec fn slash_command(rest: Seq<char>) -> SlashView {
    let words = text::word_list(rest);
    let name = if words.len() > 0 {
        text::lowered(words[0])
    } else {
        seq![]
    };
    if rest.len() == 0 {
        SlashView::Wrong("Empty command. Type /help for available commands."@)
    } else if name == "info"@ {
        SlashView::Command(CommandView::Info { refresh: later_word(words, "refresh"@) })
    } else if name == "help"@ {
        SlashView::Command(CommandView::Help)
    } else if name == "clear"@ {
        SlashView::Command(CommandView::Clear)
    } else if name == "model"@ {
        model_command(words)
    } else if name == "level"@ {
        level_command(words)
    } else if name == "actions"@ {
        SlashView::Command(CommandView::Actions { clear: later_word(words, "clear"@) })
    } else {
        SlashView::Wrong(
            "Unknown command '/"@ + name + "'. Type /help for available commands."@,
        )
    }
}

/// How the input is read as a slash command: `None` where it does not start with a slash.
pub open spec fn slash(input: Seq<char>) -> Option<SlashView> {
    let t = text::trimmed(input);
    if t.len() == 0 || t[0] != '/' {
        None
    } else {
        Some(slash_command(text::trimmed(text::trimmed_start(t, CharSet::Just('/')))))
    }
}

/// What an outcome of reading a slash command says.
pub open spec fn outcome_view(r: Result<SlashCommand, String>) -> SlashView {
    match r {
        Ok(command) => SlashView::Command(command@),
        Err(message) => SlashView::Wrong(message@),
    }
}

/// What an outcome of [`SlashCommand::parse`] says.
pub open spec fn slash_view(r: Option<Result<SlashCommand, String>>) -> Option<SlashView> {
    match r {
        None => None,
        Some(outcome) => Some(outcome_view(outcome)),
    }
}

/// Whether one of `words` after the first is `word`, in whichever case.
fn has_later_word(words: &[String], word: &str) -> (r: bool)
    ensures
        r == later_word(text::views(words@), word@),
{
    let ghost all = text::views(words@);
    let mut i: usize = 1;
    while i < words.len()
        invariant
            all == text::views(words@),
            1 <= i,
            forall|k: int|
                1 <= k < i && k < words@.len() ==> text::lowered(#[trigger] all[k])
                    != text::lowered(word@),
        decreases words@.len() - i,
    {
        assert(all[i as int] == words@[i as int]@);
        if text::eq_ignore_ascii_case(words[i].as_str(), word) {
            return true;
        }
        i += 1;
    }
    false
}

/// Reads `/model` with the words behind it.
fn read_model_command(words: &[String]) -> (r: SlashCommand)
    ensures
        SlashView::Command(r@) == model_command(text::views(words@)),
{
    if words.len() > 1 {
        assert(text::views(words@)[1] == words@[1]@);
        if !text::eq_ignore_ascii_case(words[1].as_str(), "list") {
            return SlashCommand::Model { name: Some(words[1].clone()) };
        }
    }
    SlashCommand::Model { name: None }
}

/// Reads `/level` with the words behind it.
fn read_level_command(words: &[String]) -> (r: Result<SlashCommand, String>)
    ensures
        outcome_view(r) == level_command(text::views(words@)),
{
    if words.len() < 2 {
        return Ok(SlashCommand::Level { level: None });
    }
    assert(text::views(words@)[1] == words@[1]@);
    match ExperienceLevel::parse_name(words[1].as_str()) {
        Some(level) => Ok(SlashCommand::Level { level: Some(level) }),
        None => Err(
            text::concat3(
                "Unknown level '",
                words[1].as_str(),
                "'. Type /level to see the levels.",
            ),
        ),
    }
}

impl SlashCommand {
    /// Parse `/info`, `/info refresh`, `/help`, etc. Returns `None` if not a slash command.
    pub fn parse(input: &str) -> (r: Option<Result<Self, String>>)
        ensures
            slash_view(r) == slash(input@),
    {
        let t = text::trim(input);
        if t.unicode_len() == 0 || t.get_char(0) != '/' {
            return None;
        }
        let rest = text::trim(text::trim_start_of(t, CharSet::Just('/')));
        if rest.unicode_len() == 0 {
            return Some(Err("Empty command. Type /help for available commands.".to_owned()));
        }
        let words = text::words(rest);
        let name = if words.len() > 0 {
            assert(text::word_list(rest@)[0] == words@[0]@);
            text::to_ascii_lowercase(words[0].as_str())
        } else {
            String::new()
        };
        if text::same(name.as_str(), "info") {
            let refresh = has_later_word(words.as_slice(), "refresh");
            Some(Ok(SlashCommand::Info { refresh }))
        } else if text::same(name.as_str(), "help") {
            Some(Ok(SlashCommand::Help))
        } else if text::same(name.as_str(), "clear") {
            Some(Ok(SlashCommand::Clear))
        } else if text::same(name.as_str(), "model") {
            Some(Ok(read_model_command(words.as_slice())))
        } else if text::same(name.as_str(), "level") {
            Some(read_level_command(words.as_slice()))
        } else if text::same(name.as_str(), "actions") {
            let clear = has_later_word(words.as_slice(), "clear");
            Some(Ok(SlashCommand::Actions { clear }))
        } else {
            Some(
                Err(
                    text::concat3(
                        "Unknown command '/",
                        name.as_str(),
                        "'. Type /help for available commands.",
                    ),
                ),
            )
        }
    }
}

// ── Keys and actions ─────────────────────────────────────────────────────────

/// A key with a name that the overlay knows.
#[derive(Debug, Clone, Copy, PartialEq, Eq, Structural)]
pub enum NamedKey {
    Escape,
    ArrowUp,
    ArrowDown,
    Backspace,
    Tab,
    Enter,
    Space,
    /// Any other named key.
    Other,
}

/// The key that was pressed.
#[derive(Debug, Clone, PartialEq, Eq)]
pub enum Key {
    Named(NamedKey),
    Character(String),
    /// A dead key or one that could not be told.
    Unknown,
}

/// What a [`Key`] is.
pub ghost enum KeyView {
    Named(NamedKey),
    Character(Seq<char>),
    Unknown,
}

impl View for Key {
    type V = KeyView;

    open spec fn view(&self) -> KeyView {
        match self {
            Key::Named(k) => KeyView::Named(*k),
            Key::Character(s) => KeyView::Character(s@),
            Key::Unknown => KeyView::Unknown,
        }
    }
}

/// The modifier keys held down.
#[derive(Debug, Clone, Copy, PartialEq, Eq, Structural)]
pub struct Modifiers {
    pub control: bool,
    pub alt: bool,
    pub shift: bool,
}

/// A key going down or up.
#[derive(Debug, Clone, PartialEq, Eq)]
pub struct KeyPress {
    pub logical_key: Key,
    /// Whether the key went down rather than up.
    pub pressed: bool,
    /// The text that the key produces.
    pub text: Option<String>,
    /// Whether the key is being held.
    pub repeat: bool,
}

/// What the caller has to do after a key.
#[derive(Debug, Clone, PartialEq, Eq)]
pub enum OverlayAction {
    /// Nothing.
    Nothing,
    Close,
    CopySelection(String),
    ScrollUp,
    ScrollDown,
    /// User pressed Enter in Chat mode.
    SubmitChat(String),
    /// User entered a slash command in the overlay input.
    RunSlashCommand(SlashCommand),
    /// Tab toggled between Command and Chat mode.
    ToggleMode,
}

/// What an [`OverlayAction`] asks for.
pub ghost enum ActionView {
    Nothing,
    Close,
    CopySelection(Seq<char>),
    ScrollUp,
    ScrollDown,
    SubmitChat(Seq<char>),
    RunSlashCommand(CommandView),
    ToggleMode,
}

impl View for OverlayAction {
    type V = ActionView;

    open spec fn view(&self) -> ActionView {
        match self {
            OverlayAction::Nothing => ActionView::Nothing,
            OverlayAction::Close => ActionView::Close,
            OverlayAction::CopySelection(s) => ActionView::CopySelection(s@),
            OverlayAction::ScrollUp => ActionView::ScrollUp,
            OverlayAction::ScrollDown => ActionView::ScrollDown,
            OverlayAction::SubmitChat(s) => ActionView::SubmitChat(s@),
            OverlayAction::RunSlashCommand(c) => ActionView::RunSlashCommand(c@),
            OverlayAction::ToggleMode => ActionView::ToggleMode,
        }
    }
}

// ── The panel ────────────────────────────────────────────────────────────────

/// Which of its two transcripts the panel shows.
#[derive(Debug, Clone, Copy, PartialEq, Eq, Structural)]
pub enum InteractionMode {
    Command,
    Chat,
}

impl Default for InteractionMode {
    fn default() -> (r: Self)
        ensures
            r == InteractionMode::Command,
    {
        InteractionMode::Command
    }
}

/// Whether keyboard input goes to the overlay panel or the shell.
#[derive(Debug, Clone, Copy, PartialEq, Eq, Structural)]
pub enum InputFocus {
    Overlay,
    Terminal,
}

impl Default for InputFocus {
    fn default() -> (r: Self)
        ensures
            r == InputFocus::Overlay,
    {
        InputFocus::Overlay
    }
}

/// Whether the panel shows an error.
#[derive(Debug, Clone, Copy, PartialEq, Eq, Structural)]
pub enum OverlayMode {
    Normal,
    Error,
}

/// Floating explanation panel drawn inside the terminal window.
#[derive(Debug, Clone)]
pub struct OverlayPanel {
    pub visible: bool,
    pub mode: OverlayMode,
    pub interaction_mode: InteractionMode,
    pub command_lines: Vec<DisplayLine>,
    pub chat_lines: Vec<DisplayLine>,
    pub scroll_offset: usize,
    /// When true, drawing pins the viewport to the newest content (bottom).
    pub stick_to_bottom: bool,
    /// Counts consecutive arrow key repeats for scroll acceleration.
    pub scroll_burst: u32,
    pub input_buffer: String,
    pub input_focus: InputFocus,
    pub input_focused: bool,
    /// Shell-ready commands for the top-right HUD.
    pub actionable_items: Vec<String>,
    /// What each of these commands is for, as far as that is known.
    pub action_goals: Vec<String>,
    pub context_selection: Option<String>,
    pub context_command: String,
    pub pending_redraw: bool,
    /// When the last chunk came, in nanoseconds on the caller's clock.
    pub last_append: Option<u64>,
    pub has_chunks: bool,
    pub needs_redraw: bool,
    /// Raw tokens of the stream; not shown until [`OverlayPanel::finalize`].
    pub stream_buffer: String,
    /// True while streaming a chat answer.
    pub chat_active: bool,
    /// Index in `chat_lines` of the in-progress assistant reply (for live token append).
    pub chat_stream_line: Option<usize>,
    /// Line count before an error was appended (chat path).
    pub lines_before_error: Option<usize>,
    /// True when the overlay shows only an error (no prior explanation content).
    pub error_only: bool,
}

/// What an [`OverlayPanel`] holds.
#[verifier::ext_equal]
pub ghost struct PanelView {
    pub visible: bool,
    pub mode: OverlayMode,
    pub interaction_mode: InteractionMode,
    pub command_lines: Seq<LineView>,
    pub chat_lines: Seq<LineView>,
    pub scroll_offset: usize,
    pub stick_to_bottom: bool,
    pub scroll_burst: u32,
    pub input_buffer: Seq<char>,
    pub input_focus: InputFocus,
    pub input_focused: bool,
    pub actionable_items: Seq<Seq<char>>,
    pub action_goals: Seq<Seq<char>>,
    pub context_selection: Option<Seq<char>>,
    pub context_command: Seq<char>,
    pub pending_redraw: bool,
    pub last_append: Option<u64>,
    pub has_chunks: bool,
    pub needs_redraw: bool,
    pub stream_buffer: Seq<char>,
    pub chat_active: bool,
    pub chat_stream_line: Option<usize>,
    pub lines_before_error: Option<usize>,
    pub error_only: bool,
}

impl View for OverlayPanel {
    type V = PanelView;

    open spec fn view(&self) -> PanelView {
        PanelView {
            visible: self.visible,
            mode: self.mode,
            interaction_mode: self.interaction_mode,
            command_lines: layout::line_views(self.command_lines@),
            chat_lines: layout::line_views(self.chat_lines@),
            scroll_offset: self.scroll_offset,
            stick_to_bottom: self.stick_to_bottom,
            scroll_burst: self.scroll_burst,
            input_buffer: self.input_buffer@,
            input_focus: self.input_focus,
            input_focused: self.input_focused,
            actionable_items: text::views(self.actionable_items@),
            action_goals: text::views(self.action_goals@),
            context_selection: text::opt_string(self.context_selection),
            context_command: self.context_command@,
            pending_redraw: self.pending_redraw,
            last_append: self.last_append,
            has_chunks: self.has_chunks,
            needs_redraw: self.needs_redraw,
            stream_buffer: self.stream_buffer@,
            chat_active: self.chat_active,
            chat_stream_line: self.chat_stream_line,
            lines_before_error: self.lines_before_error,
            error_only: self.error_only,
        }
    }
}

/// Whether a line is one of those shown while an answer is awaited.
pub open spec fn is_loading(line: LineView) -> bool {
    line.style == LineStyle::Loading
}

/// `lines` without those shown while an answer is awaited.
pub open spec fn without_loading(lines: Seq<LineView>) -> Seq<LineView>
    decreases lines.len(),
{
    if lines.len() == 0 {
        seq![]
    } else {
        let before = without_loading(lines.drop_last());
        if is_loading(lines.last()) {
            before
        } else {
            before.push(lines.last())
        }
    }
}

/// The lines shown while an answer is awaited.
pub open spec fn loading_lines(label: Seq<char>) -> Seq<LineView> {
    seq![explain::blank(), layout::styled(label, LineStyle::Loading), explain::blank()]
}

/// `lines` with `text` in place of that of line `at`, where there is such a line.
pub open spec fn with_text_at(lines: Seq<LineView>, at: usize, text: Seq<char>) -> Seq<LineView> {
    if at < lines.len() {
        lines.update(at as int, layout::styled(text, lines[at as int].style))
    } else {
        lines
    }
}

/// `buffer`, and after it the characters of `text` that are no control characters, until
/// one does not fit.
pub open spec fn typed(buffer: Seq<char>, text: Seq<char>) -> Seq<char>
    decreases text.len(),
{
    if text.len() == 0 {
        buffer
    } else if text::is_ctrl(text[0]) {
        typed(buffer, text.drop_first())
    } else if text::byte_len(buffer) + text::char_bytes(text[0]) > INPUT_MAX_LEN {
        buffer
    } else {
        typed(buffer.push(text[0]), text.drop_first())
    }
}

/// The actionable commands of a chat answer: those that came with it, as far as the HUD
/// holds them, else those that it speaks of.
pub open spec fn answer_items(reply: Seq<char>, items: Seq<Seq<char>>) -> Seq<Seq<char>> {
    if items.len() == 0 {
        explain::actionable(reply)
    } else if items.len() > explain::HUD_MAX_ITEMS {
        items.take(explain::HUD_MAX_ITEMS as int)
    } else {
        items
    }
}

/// The lines that `/help` shows.
pub open spec fn help_lines() -> Seq<Seq<char>> {
    seq![
        "/info — OS, shell, package managers, installed packages, tools"@,
        "/info refresh — re-scan system and refresh package inventory"@,
        "/model list — show installed Ollama models"@,
        "/model <name> — switch the active model"@,
        "/level — show experience levels"@,
        "/level <beginner|novice|professional|expert> — set experience level for explanations"@,
        "/actions — list the current actions in the transcript"@,
        "/actions clear — dismiss the Actions panel"@,
        "/clear — clear the Chat transcript"@,
        "/help — show this list"@,
        ""@,
        "Tab → Chat mode to ask the agent about your command."@,
    ]
}

/// What `/level` lists: each level with whom it is for.
pub open spec fn level_lines() -> Seq<Seq<char>> {
    let levels = ExperienceLevel::in_order();
    Seq::new(levels.len(), |i: int| levels[i].name() + " — "@ + levels[i].audience())
}

/// What `/actions` says of one action: its number, the command and what it is for, where that is
/// known.
pub open spec fn action_line(items: Seq<Seq<char>>, goals: Seq<Seq<char>>, i: int) -> Seq<char> {
    text::decimal((i + 1) as nat) + ". "@ + items[i] + if i < goals.len() && goals[i].len() > 0 {
        " — "@ + goals[i]
    } else {
        seq![]
    }
}

/// What `/actions` lists: the actions under their numbers.
pub open spec fn action_lines(items: Seq<Seq<char>>, goals: Seq<Seq<char>>) -> Seq<Seq<char>> {
    if items.len() == 0 {
        seq!["No actions."@]
    } else {
        Seq::new(items.len(), |i: int| action_line(items, goals, i))
    }
}

impl PanelView {
    /// A panel that was never shown.
    pub open spec fn fresh() -> PanelView {
        PanelView {
            visible: false,
            mode: OverlayMode::Normal,
            interaction_mode: InteractionMode::Command,
            command_lines: seq![],
            chat_lines: seq![],
            scroll_offset: 0,
            stick_to_bottom: true,
            scroll_burst: 0,
            input_buffer: seq![],
            input_focus: InputFocus::Overlay,
            input_focused: true,
            actionable_items: seq![],
            action_goals: seq![],
            context_selection: None,
            context_command: seq![],
            pending_redraw: false,
            last_append: None,
            has_chunks: false,
            needs_redraw: false,
            stream_buffer: seq![],
            chat_active: false,
            chat_stream_line: None,
            lines_before_error: None,
            error_only: false,
        }
    }

    /// What every panel keeps: the input field is not overfull and holds no control
    /// characters, it is focused exactly where the overlay has the focus, and the
    /// actionable commands fit the HUD, with no more goals than commands.
    pub open spec fn well_formed(self) -> bool {
        &&& text::byte_len(self.input_buffer) <= INPUT_MAX_LEN
        &&& forall|i: int|
            0 <= i < self.input_buffer.len() ==> !text::is_ctrl(#[trigger] self.input_buffer[i])
        &&& self.input_focused == (self.input_focus == InputFocus::Overlay)
        &&& self.actionable_items.len() <= explain::HUD_MAX_ITEMS
        &&& self.action_goals.len() <= self.actionable_items.len()
    }

    /// The lines of the transcript that is shown.
    pub open spec fn view_lines(self) -> Seq<LineView> {
        match self.interaction_mode {
            InteractionMode::Command => self.command_lines,
            InteractionMode::Chat => self.chat_lines,
        }
    }

    /// The panel with other lines in the transcript that is shown.
    pub open spec fn with_view_lines(self, lines: Seq<LineView>) -> PanelView {
        match self.interaction_mode {
            InteractionMode::Command => PanelView { command_lines: lines, ..self },
            InteractionMode::Chat => PanelView { chat_lines: lines, ..self },
        }
    }

    /// The panel without loading lines.
    pub open spec fn settled(self) -> PanelView {
        PanelView {
            command_lines: without_loading(self.command_lines),
            chat_lines: without_loading(self.chat_lines),
            ..self
        }
    }

    /// The panel with the focus on `focus`.
    pub open spec fn focused(self, focus: InputFocus) -> PanelView {
        if self.input_focus == focus {
            self
        } else {
            PanelView {
                input_focus: focus,
                input_focused: focus == InputFocus::Overlay,
                needs_redraw: true,
                ..self
            }
        }
    }

    /// The panel with the focus on the other side.
    pub open spec fn focus_toggled(self) -> PanelView {
        let focus = match self.input_focus {
            InputFocus::Overlay => InputFocus::Terminal,
            InputFocus::Terminal => InputFocus::Overlay,
        };
        PanelView {
            input_focus: focus,
            input_focused: focus == InputFocus::Overlay,
            needs_redraw: true,
            ..self
        }
    }

    /// The panel with the other transcript shown.
    pub open spec fn mode_toggled(self) -> PanelView {
        PanelView {
            interaction_mode: match self.interaction_mode {
                InteractionMode::Command => InteractionMode::Chat,
                InteractionMode::Chat => InteractionMode::Command,
            },
            scroll_offset: 0,
            stick_to_bottom: true,
            scroll_burst: 0,
            needs_redraw: true,
            ..self
        }
    }

    /// The panel shown anew: only the terminal context stays.
    pub open spec fn shown(self) -> PanelView {
        PanelView {
            visible: true,
            needs_redraw: true,
            context_selection: self.context_selection,
            context_command: self.context_command,
            ..PanelView::fresh()
        }
    }

    /// The panel hidden. The list of actions stays up.
    pub open spec fn hidden(self) -> PanelView {
        PanelView {
            visible: false,
            mode: OverlayMode::Normal,
            command_lines: seq![],
            chat_lines: seq![],
            stream_buffer: seq![],
            input_buffer: seq![],
            lines_before_error: None,
            error_only: false,
            needs_redraw: true,
            ..self
        }
    }

    /// The panel without the list of actions.
    pub open spec fn actions_dismissed(self) -> PanelView {
        PanelView {
            actionable_items: seq![],
            action_goals: seq![],
            needs_redraw: true,
            ..self
        }
    }

    /// The panel with the actions that were found in an answer, as far as the HUD holds them,
    /// each with its goal. Where none was found, the list stays as it is.
    pub open spec fn with_actions(self, items: Seq<actions::ActionView>) -> PanelView {
        let n = if items.len() > explain::HUD_MAX_ITEMS {
            explain::HUD_MAX_ITEMS as nat
        } else {
            items.len()
        };
        if n == 0 {
            self
        } else {
            PanelView {
                actionable_items: Seq::new(n, |i: int| items[i].command),
                action_goals: Seq::new(n, |i: int| items[i].goal),
                needs_redraw: true,
                ..self
            }
        }
    }

    /// The panel without its error: the chat as it was before, where the error interrupted
    /// one, else hidden.
    pub open spec fn error_dismissed(self) -> PanelView {
        if !self.visible || self.mode != OverlayMode::Error {
            self
        } else {
            match self.lines_before_error {
                Some(n) => {
                    PanelView {
                        chat_lines: if n < self.chat_lines.len() {
                            self.chat_lines.take(n as int)
                        } else {
                            self.chat_lines
                        },
                        lines_before_error: None,
                        mode: OverlayMode::Normal,
                        error_only: false,
                        needs_redraw: true,
                        ..self
                    }
                },
                None => self.hidden(),
            }
        }
    }

    /// The panel while an answer is awaited.
    pub open spec fn loading(self) -> PanelView {
        let label = match self.interaction_mode {
            InteractionMode::Command => "  ◐  Loading command reference…"@,
            InteractionMode::Chat => "  ◐  Loading answer…"@,
        };
        PanelView { needs_redraw: true, ..self.with_view_lines(loading_lines(label)) }
    }

    /// The panel after a chunk of the stream that came at `now`.
    pub open spec fn with_chunk(self, text: Seq<char>, now: u64) -> PanelView {
        if text.len() == 0 {
            self
        } else {
            PanelView {
                has_chunks: true,
                stream_buffer: self.stream_buffer + text,
                pending_redraw: true,
                last_append: Some(now),
                ..self
            }
        }
    }

    /// The panel with an explanation.
    pub open spec fn with_explanation(self, response: ExplainView) -> PanelView {
        PanelView {
            stream_buffer: seq![],
            command_lines: explain::explained(response),
            actionable_items: explain::response_items(response),
            action_goals: seq![],
            has_chunks: true,
            stick_to_bottom: true,
            scroll_burst: 0,
            pending_redraw: false,
            last_append: None,
            needs_redraw: true,
            ..self.settled()
        }
    }

    /// The panel while a slash command runs.
    pub open spec fn running(self, label: Seq<char>) -> PanelView {
        let begun = PanelView {
            chat_active: false,
            has_chunks: false,
            stream_buffer: seq![],
            pending_redraw: false,
            last_append: None,
            input_buffer: seq![],
            stick_to_bottom: true,
            scroll_burst: 0,
            needs_redraw: true,
            ..self
        };
        begun.with_view_lines(
            self.view_lines() + seq![
                explain::blank(),
                layout::styled("Running "@ + label + "…"@, LineStyle::Muted),
            ] + loading_lines("  ◐  Loading…"@),
        )
    }

    /// The panel with a command reference.
    pub open spec fn with_reference(self, response: CommandReferenceView) -> PanelView {
        PanelView {
            interaction_mode: InteractionMode::Command,
            has_chunks: true,
            stick_to_bottom: true,
            scroll_burst: 0,
            stream_buffer: seq![],
            command_lines: explain::reference_lines(response),
            actionable_items: explain::reference_items(response.sections),
            action_goals: seq![],
            needs_redraw: true,
            ..self.settled()
        }
    }

    /// The panel with an empty chat.
    pub open spec fn chat_cleared(self) -> PanelView {
        PanelView {
            chat_lines: seq![],
            chat_active: false,
            chat_stream_line: None,
            lines_before_error: None,
            stream_buffer: seq![],
            pending_redraw: false,
            last_append: None,
            scroll_offset: 0,
            stick_to_bottom: true,
            scroll_burst: 0,
            interaction_mode: InteractionMode::Chat,
            needs_redraw: true,
            ..self
        }
    }

    /// The panel after the user asked `query`.
    pub open spec fn asked(self, query: Seq<char>) -> PanelView {
        PanelView {
            interaction_mode: InteractionMode::Chat,
            chat_active: true,
            chat_stream_line: None,
            has_chunks: false,
            stream_buffer: seq![],
            pending_redraw: false,
            last_append: None,
            input_buffer: seq![],
            stick_to_bottom: true,
            scroll_burst: 0,
            chat_lines: self.chat_lines + seq![
                explain::blank(),
                explain::heading("You: "@ + query),
            ] + loading_lines("  ◐  Loading…"@),
            needs_redraw: true,
            ..self
        }
    }

    /// The line of the chat that the answer is streamed into, where it has one.
    pub open spec fn answer_line(self) -> Option<usize> {
        match self.chat_stream_line {
            Some(at) => if at < self.chat_lines.len() {
                Some(at)
            } else {
                None
            },
            None => None,
        }
    }

    /// The panel after a piece of the chat answer.
    pub open spec fn with_chat_chunk(self, text: Seq<char>) -> PanelView {
        if text.len() == 0 {
            self
        } else {
            let p = self.settled();
            let lines = p.chat_lines;
            let (lines, at) = match p.answer_line() {
                Some(at) => (
                    with_text_at(lines, at, lines[at as int].text + text),
                    Some(at),
                ),
                None => (
                    lines.push(layout::styled("Learnminal: "@ + text, LineStyle::Body)),
                    Some(lines.len() as usize),
                ),
            };
            PanelView {
                has_chunks: true,
                chat_lines: lines,
                chat_stream_line: at,
                stick_to_bottom: true,
                needs_redraw: true,
                ..p
            }
        }
    }

    /// The panel with the whole chat answer.
    pub open spec fn answered(self, reply: Seq<char>, items: Seq<Seq<char>>) -> PanelView {
        let p = self.settled();
        let said = "Learnminal: "@ + reply;
        let lines = match p.answer_line() {
            Some(at) => with_text_at(p.chat_lines, at, said),
            None => p.chat_lines.push(layout::styled(said, LineStyle::Body)),
        };
        PanelView {
            chat_active: false,
            chat_stream_line: None,
            chat_lines: lines.push(explain::blank()),
            actionable_items: answer_items(reply, items),
            action_goals: seq![],
            has_chunks: true,
            stick_to_bottom: true,
            needs_redraw: true,
            ..p
        }
    }

    /// The panel with a message: a title and lines under it.
    pub open spec fn with_message(self, title: Seq<char>, body: Seq<Seq<char>>) -> PanelView {
        let p = self.settled();
        PanelView {
            chat_active: false,
            has_chunks: true,
            stick_to_bottom: true,
            scroll_burst: 0,
            needs_redraw: true,
            ..p.with_view_lines(
                p.view_lines() + seq![explain::blank(), explain::heading(title)]
                    + explain::indented_lines(body),
            )
        }
    }

    /// The panel with an error: after the chat while one is going on, else alone.
    pub open spec fn with_error(self, message: Seq<char>, ollama: bool) -> PanelView {
        let error = layout::styled(message, LineStyle::Error);
        let lines = if ollama {
            seq![error, layout::styled("Start with: ollama serve"@, LineStyle::Muted)]
        } else {
            seq![error]
        };
        if self.chat_active {
            let p = self.settled();
            PanelView {
                visible: true,
                mode: OverlayMode::Error,
                has_chunks: true,
                lines_before_error: Some(p.chat_lines.len() as usize),
                error_only: false,
                chat_lines: p.chat_lines + lines,
                chat_active: false,
                chat_stream_line: None,
                needs_redraw: true,
                ..p
            }
        } else {
            PanelView {
                visible: true,
                mode: OverlayMode::Error,
                has_chunks: true,
                lines_before_error: None,
                error_only: true,
                command_lines: lines,
                chat_lines: seq![],
                needs_redraw: true,
                ..self
            }
        }
    }

    /// How many lines an arrow key scrolls: more while it is held.
    pub open spec fn scroll_lines(self, repeat: bool) -> int {
        if !repeat {
            1
        } else {
            let extra = self.scroll_counted(true).scroll_burst / 4;
            if 1 + extra < SCROLL_REPEAT_MAX_LINES {
                1 + extra
            } else {
                SCROLL_REPEAT_MAX_LINES as int
            }
        }
    }

    /// The panel after an arrow key was counted.
    pub open spec fn scroll_counted(self, repeat: bool) -> PanelView {
        let burst = if !repeat {
            0u32
        } else if self.scroll_burst < u32::MAX {
            (self.scroll_burst + 1) as u32
        } else {
            u32::MAX
        };
        PanelView { scroll_burst: burst, ..self }
    }

    /// The panel scrolled toward older lines.
    pub open spec fn scrolled_up(self, repeat: bool) -> PanelView {
        let step = self.scroll_lines(repeat);
        PanelView {
            stick_to_bottom: false,
            scroll_offset: if self.scroll_offset >= step {
                (self.scroll_offset - step) as usize
            } else {
                0
            },
            needs_redraw: true,
            ..self.scroll_counted(repeat)
        }
    }

    /// The panel scrolled toward newer lines.
    pub open spec fn scrolled_down(self, repeat: bool) -> PanelView {
        let step = self.scroll_lines(repeat);
        PanelView {
            scroll_offset: if self.scroll_offset + step <= usize::MAX {
                (self.scroll_offset + step) as usize
            } else {
                usize::MAX
            },
            needs_redraw: true,
            ..self.scroll_counted(repeat)
        }
    }

    /// The panel without the last character of the input.
    pub open spec fn erased(self) -> PanelView {
        PanelView {
            input_buffer: if self.input_buffer.len() > 0 {
                self.input_buffer.drop_last()
            } else {
                self.input_buffer
            },
            needs_redraw: true,
            ..self
        }
    }

    /// The panel after Escape, and what the caller has to do: the focus comes back from
    /// the shell, or the panel is closed.
    pub open spec fn escaped(self) -> (PanelView, ActionView) {
        if self.input_focus == InputFocus::Terminal {
            (self.focused(InputFocus::Overlay), ActionView::Nothing)
        } else {
            (self.hidden(), ActionView::Close)
        }
    }

    /// The panel after `text` was typed, and whether any of it was taken.
    pub open spec fn with_input(self, text: Seq<char>) -> (PanelView, bool) {
        let buffer = typed(self.input_buffer, text);
        let taken = buffer.len() > self.input_buffer.len();
        (
            PanelView { input_buffer: buffer, needs_redraw: self.needs_redraw || taken, ..self },
            taken,
        )
    }

    /// The panel after a key was offered to the input field: the text of the key, or, where
    /// none of it is taken, the key itself.
    pub open spec fn with_key_text(self, key: KeyView, text: Option<Seq<char>>) -> (PanelView, bool) {
        let (p, taken) = match text {
            Some(t) => self.with_input(t),
            None => (self, false),
        };
        if taken {
            (p, true)
        } else {
            match key {
                KeyView::Named(NamedKey::Space) => p.with_input(" "@),
                KeyView::Character(c) => p.with_input(c),
                _ => (p, false),
            }
        }
    }

    /// Whether keys go to the input field.
    pub open spec fn takes_input(self) -> bool {
        self.input_focus == InputFocus::Overlay && self.input_focused
    }

    /// The panel after Enter in the input field, and what the caller has to do.
    pub open spec fn entered(self) -> (PanelView, ActionView) {
        let query = text::trimmed(self.input_buffer);
        let p = PanelView { input_buffer: seq![], needs_redraw: true, ..self };
        if query.len() == 0 {
            (self, ActionView::Nothing)
        } else {
            match slash(query) {
                Some(SlashView::Command(CommandView::Help)) => (
                    p.with_message("Slash commands"@, help_lines()),
                    ActionView::Nothing,
                ),
                Some(SlashView::Command(CommandView::Clear)) => (
                    p.chat_cleared(),
                    ActionView::Nothing,
                ),
                Some(SlashView::Command(CommandView::Level { level: None })) => (
                    p.with_message("Experience levels"@, level_lines()),
                    ActionView::Nothing,
                ),
                Some(SlashView::Command(CommandView::Actions { clear: true })) => (
                    p.actions_dismissed(),
                    ActionView::Nothing,
                ),
                Some(SlashView::Command(CommandView::Actions { clear: false })) => (
                    p.with_message("Actions"@, action_lines(p.actionable_items, p.action_goals)),
                    ActionView::Nothing,
                ),
                Some(SlashView::Command(command)) => (p, ActionView::RunSlashCommand(command)),
                Some(SlashView::Wrong(message)) => (
                    p.with_message("Command error"@, seq![message]),
                    ActionView::Nothing,
                ),
                None => if self.interaction_mode != InteractionMode::Chat {
                    (self, ActionView::Nothing)
                } else {
                    (self.asked(query), ActionView::SubmitChat(query))
                },
            }
        }
    }

    /// The panel after a key that is neither navigation nor control, and what the caller
    /// has to do: Shift+Y copies the command, other keys are typed.
    pub open spec fn character_pressed(
        self,
        key: KeyView,
        mods: Modifiers,
        text: Option<Seq<char>>,
    ) -> (PanelView, ActionView) {
        let plain = !mods.control && !mods.alt;
        let is_y = match key {
            KeyView::Character(c) => text::lowered(c) == text::lowered("y"@),
            _ => false,
        };
        if mods.shift && plain && is_y {
            (
                self,
                if self.context_command.len() > 0 {
                    ActionView::CopySelection(self.context_command)
                } else {
                    ActionView::Nothing
                },
            )
        } else if self.takes_input() && plain {
            (self.with_key_text(key, text).0, ActionView::Nothing)
        } else {
            (self, ActionView::Nothing)
        }
    }

    /// The panel after a key, and what the caller has to do.
    pub open spec fn pressed(
        self,
        key: KeyView,
        mods: Modifiers,
        text: Option<Seq<char>>,
        repeat: bool,
    ) -> (PanelView, ActionView) {
        if key == KeyView::Named(NamedKey::Escape) {
            self.escaped()
        } else if key == KeyView::Named(NamedKey::ArrowUp) && !mods.control {
            (self.scrolled_up(repeat), ActionView::ScrollUp)
        } else if key == KeyView::Named(NamedKey::ArrowDown) && !mods.control {
            (self.scrolled_down(repeat), ActionView::ScrollDown)
        } else if key == KeyView::Named(NamedKey::Backspace) && self.takes_input() && !mods.control {
            (self.erased(), ActionView::Nothing)
        } else if key == KeyView::Named(NamedKey::Tab) && mods.control && mods.shift && !mods.alt {
            (self.focus_toggled(), ActionView::Nothing)
        } else if key == KeyView::Named(NamedKey::Tab) && !mods.control && !mods.alt {
            (self.mode_toggled(), ActionView::ToggleMode)
        } else if key == KeyView::Named(NamedKey::Enter) && self.takes_input() && !mods.control {
            self.entered()
        } else {
            self.character_pressed(key, mods, text)
        }
    }
}

// ── Operations ───────────────────────────────────────────────────────────────

/// `lines` without those shown while an answer is awaited.
fn keep_settled(lines: &[DisplayLine]) -> (r: Vec<DisplayLine>)
    ensures
        layout::line_views(r@) == without_loading(layout::line_views(lines@)),
{
    let ghost all = layout::line_views(lines@);
    let mut out: Vec<DisplayLine> = Vec::new();
    let mut i: usize = 0;
    assert(layout::line_views(out@) =~= without_loading(all.take(0)));
    while i < lines.len()
        invariant
            all == layout::line_views(lines@),
            i <= lines@.len(),
            layout::line_views(out@) == without_loading(all.take(i as int)),
        decreases lines@.len() - i,
    {
        let line = &lines[i];
        let ghost before = layout::line_views(out@);
        assert(all.take(i + 1).drop_last() =~= all.take(i as int));
        if !matches!(line.style, LineStyle::Loading) {
            out.push(line.copy());
            assert(layout::line_views(out@) =~= before.push(line@));
        }
        i += 1;
    }
    assert(all.take(i as int) =~= all);
    out
}

/// Adds the lines shown while an answer is awaited at the end of `lines`.
fn push_loading(lines: &mut Vec<DisplayLine>, label: &str)
    ensures
        layout::line_views(final(lines)@) == layout::line_views(old(lines)@) + loading_lines(label@),
{
    proof {
        reveal_strlit("");
        assert(""@ =~= seq![]);
    }
    layout::push_line(lines, "", LineStyle::Body);
    layout::push_line(lines, label, LineStyle::Loading);
    layout::push_line(lines, "", LineStyle::Body);
    assert(layout::line_views(lines@) =~= layout::line_views(old(lines)@) + loading_lines(label@));
}

/// Puts `text` in place of that of line `at`, where there is such a line.
fn set_text_at(lines: &mut Vec<DisplayLine>, at: usize, text: String)
    ensures
        layout::line_views(final(lines)@) == with_text_at(layout::line_views(old(lines)@), at, text@),
{
    if at < lines.len() {
        let style = lines[at].style;
        lines.set(at, DisplayLine::new(text, style));
        assert(layout::line_views(lines@) =~= with_text_at(
            layout::line_views(old(lines)@),
            at,
            text@,
        ));
    }
}

/// The first `n` of `lines`, or all where there are fewer.
fn first_lines(lines: &[DisplayLine], n: usize) -> (r: Vec<DisplayLine>)
    ensures
        layout::line_views(r@) == (if n < lines@.len() {
            layout::line_views(lines@).take(n as int)
        } else {
            layout::line_views(lines@)
        }),
{
    let ghost all = layout::line_views(lines@);
    let mut out: Vec<DisplayLine> = Vec::new();
    let mut i: usize = 0;
    assert(layout::line_views(out@) =~= all.take(0));
    while i < lines.len() && i < n
        invariant
            all == layout::line_views(lines@),
            i <= lines@.len(),
            i <= n,
            layout::line_views(out@) == all.take(i as int),
        decreases lines@.len() - i,
    {
        layout::push_line(&mut out, lines[i].text.as_str(), lines[i].style);
        i += 1;
        assert(all.take(i as int) =~= all.take(i - 1).push(lines@[i - 1]@));
    }
    assert(i == lines@.len() ==> all.take(i as int) =~= all);
    out
}

/// The actionable commands of a chat answer: those that came with it, as far as the HUD
/// holds them, else those that it speaks of.
fn chat_items(reply: &str, items: &[String]) -> (r: Vec<String>)
    ensures
        text::views(r@) == answer_items(reply@, text::views(items@)),
{
    if items.len() == 0 {
        return explain::extract_actionable_from_prose(Some(reply));
    }
    let ghost all = text::views(items@);
    let mut kept: Vec<String> = Vec::new();
    let mut i: usize = 0;
    assert(text::views(kept@) =~= all.take(0));
    while i < items.len() && i < explain::HUD_MAX_ITEMS
        invariant
            all == text::views(items@),
            i <= items@.len(),
            i <= explain::HUD_MAX_ITEMS,
            text::views(kept@) == all.take(i as int),
        decreases items@.len() - i,
    {
        text::push_text(&mut kept, items[i].clone());
        i += 1;
        assert(all.take(i as int) =~= all.take(i - 1).push(items@[i - 1]@));
    }
    assert(i == all.len() ==> all.take(i as int) =~= all);
    kept
}

impl Default for OverlayPanel {
    fn default() -> (r: Self)
        ensures
            r@ == PanelView::fresh(),
    {
        Self::new()
    }
}

impl OverlayPanel {
    /// A panel that was never shown.
    pub fn new() -> (r: Self)
        ensures
            r@ == PanelView::fresh(),
    {
        OverlayPanel {
            visible: false,
            mode: OverlayMode::Normal,
            interaction_mode: InteractionMode::Command,
            command_lines: Vec::new(),
            chat_lines: Vec::new(),
            scroll_offset: 0,
            stick_to_bottom: true,
            scroll_burst: 0,
            input_buffer: String::new(),
            input_focus: InputFocus::Overlay,
            input_focused: true,
            actionable_items: Vec::new(),
            action_goals: Vec::new(),
            context_selection: None,
            context_command: String::new(),
            pending_redraw: false,
            last_append: None,
            has_chunks: false,
            needs_redraw: false,
            stream_buffer: String::new(),
            chat_active: false,
            chat_stream_line: None,
            lines_before_error: None,
            error_only: false,
        }
    }

    pub fn interaction_mode(&self) -> (r: InteractionMode)
        ensures
            r == self@.interaction_mode,
    {
        self.interaction_mode
    }

    pub fn input_focus(&self) -> (r: InputFocus)
        ensures
            r == self@.input_focus,
    {
        self.input_focus
    }

    pub fn is_visible(&self) -> (r: bool)
        ensures
            r == self@.visible,
    {
        self.visible
    }

    pub fn needs_redraw(&self) -> (r: bool)
        ensures
            r == self@.needs_redraw,
    {
        self.needs_redraw
    }

    pub fn is_error_mode(&self) -> (r: bool)
        ensures
            r == (self@.mode == OverlayMode::Error),
    {
        matches!(self.mode, OverlayMode::Error)
    }

    pub fn clear_needs_redraw(&mut self)
        ensures
            final(self)@ == (PanelView { needs_redraw: false, ..old(self)@ }),
    {
        self.needs_redraw = false;
    }

    /// Request a fresh layout pass after the window or cell metrics change.
    pub fn on_window_resize(&mut self)
        ensures
            final(self)@ == (PanelView {
                needs_redraw: old(self)@.needs_redraw || old(self)@.visible
                    || old(self)@.actionable_items.len() > 0,
                ..old(self)@
            }),
    {
        if self.visible || self.actionable_items.len() > 0 {
            self.needs_redraw = true;
        }
    }

    /// Moves the focus to the other side.
    pub fn toggle_input_focus(&mut self)
        ensures
            final(self)@ == old(self)@.focus_toggled(),
    {
        self.input_focus = match self.input_focus {
            InputFocus::Overlay => InputFocus::Terminal,
            InputFocus::Terminal => InputFocus::Overlay,
        };
        self.input_focused = self.input_focus == InputFocus::Overlay;
        self.needs_redraw = true;
    }

    /// Moves the focus to `focus`.
    pub fn set_input_focus(&mut self, focus: InputFocus)
        ensures
            final(self)@ == old(self)@.focused(focus),
    {
        if self.input_focus == focus {
            return;
        }
        self.input_focus = focus;
        self.input_focused = focus == InputFocus::Overlay;
        self.needs_redraw = true;
    }

    /// Attach terminal context shown in the highlighted block at the top.
    pub fn set_context(&mut self, selection: Option<String>, command: String)
        ensures
            final(self)@ == (PanelView {
                context_selection: match selection {
                    Some(s) => if s@.len() > 0 {
                        Some(s@)
                    } else {
                        None
                    },
                    None => None,
                },
                context_command: command@,
                ..old(self)@
            }),
    {
        self.context_selection = match selection {
            Some(s) => if s.as_str().unicode_len() > 0 {
                Some(s)
            } else {
                None
            },
            None => None,
        };
        self.context_command = command;
    }

    /// Shows the panel anew: only the terminal context stays.
    pub fn show(&mut self)
        ensures
            final(self)@ == old(self)@.shown(),
    {
        self.visible = true;
        self.mode = OverlayMode::Normal;
        self.interaction_mode = InteractionMode::Command;
        self.command_lines = Vec::new();
        self.chat_lines = Vec::new();
        self.scroll_offset = 0;
        self.stick_to_bottom = true;
        self.scroll_burst = 0;
        self.input_buffer = String::new();
        self.input_focus = InputFocus::Overlay;
        self.input_focused = true;
        self.actionable_items = Vec::new();
        self.action_goals = Vec::new();
        self.has_chunks = false;
        self.stream_buffer = String::new();
        self.chat_active = false;
        self.chat_stream_line = None;
        self.lines_before_error = None;
        self.error_only = false;
        self.pending_redraw = false;
        self.last_append = None;
        self.needs_redraw = true;
    }

    /// Hides the panel. The list of actions stays up.
    pub fn hide_panel(&mut self)
        ensures
            final(self)@ == old(self)@.hidden(),
    {
        self.visible = false;
        self.mode = OverlayMode::Normal;
        self.command_lines = Vec::new();
        self.chat_lines = Vec::new();
        self.stream_buffer = String::new();
        self.input_buffer = String::new();
        self.lines_before_error = None;
        self.error_only = false;
        self.needs_redraw = true;
    }

    /// Dismisses the list of actions.
    pub fn clear_actions(&mut self)
        ensures
            final(self)@ == old(self)@.actions_dismissed(),
    {
        self.actionable_items = Vec::new();
        self.action_goals = Vec::new();
        self.needs_redraw = true;
        assert(self@ =~= old(self)@.actions_dismissed());
    }

    /// Lists the actions that were found in an answer, each with its goal. Where none was found,
    /// the list stays as it is.
    pub fn list_actions(&mut self, items: &[ActionItem])
        ensures
            final(self)@ == old(self)@.with_actions(actions::action_views(items@)),
    {
        if items.len() == 0 {
            return;
        }
        let ghost all = actions::action_views(items@);
        let ghost want = self@.with_actions(all);
        let mut commands: Vec<String> = Vec::new();
        let mut goals: Vec<String> = Vec::new();
        let mut i: usize = 0;
        assert(text::views(commands@) =~= want.actionable_items.take(0));
        assert(text::views(goals@) =~= want.action_goals.take(0));
        while i < items.len() && i < explain::HUD_MAX_ITEMS
            invariant
                all == actions::action_views(items@),
                items@.len() > 0,
                want == old(self)@.with_actions(all),
                i <= items@.len(),
                i <= explain::HUD_MAX_ITEMS,
                text::views(commands@) == want.actionable_items.take(i as int),
                text::views(goals@) == want.action_goals.take(i as int),
            decreases items@.len() - i,
        {
            assert(all[i as int] == items@[i as int]@);
            text::push_text(&mut commands, items[i].command.clone());
            text::push_text(&mut goals, items[i].goal.clone());
            i += 1;
            assert(want.actionable_items.take(i as int) =~= want.actionable_items.take(i - 1).push(
                all[i - 1].command,
            ));
            assert(want.action_goals.take(i as int) =~= want.action_goals.take(i - 1).push(
                all[i - 1].goal,
            ));
        }
        assert(want.actionable_items.take(i as int) =~= want.actionable_items);
        assert(want.action_goals.take(i as int) =~= want.action_goals);
        self.actionable_items = commands;
        self.action_goals = goals;
        self.needs_redraw = true;
        assert(self@ =~= want);
    }

    /// Removes a transient error panel. Restores prior content or hides the overlay.
    pub fn dismiss_error(&mut self)
        ensures
            final(self)@ == old(self)@.error_dismissed(),
    {
        if !self.visible || !self.is_error_mode() {
            return;
        }
        match self.lines_before_error {
            Some(n) => {
                self.lines_before_error = None;
                self.chat_lines = first_lines(self.chat_lines.as_slice(), n);
                self.mode = OverlayMode::Normal;
                self.error_only = false;
            },
            None => {
                self.hide_panel();
            },
        }
        self.needs_redraw = true;
    }

    /// Shows that an answer is awaited, in place of the transcript.
    pub fn set_loading(&mut self)
        ensures
            final(self)@ == old(self)@.loading(),
    {
        let mut lines: Vec<DisplayLine> = Vec::new();
        match self.interaction_mode {
            InteractionMode::Command => {
                push_loading(&mut lines, "  ◐  Loading command reference…");
                self.command_lines = lines;
            },
            InteractionMode::Chat => {
                push_loading(&mut lines, "  ◐  Loading answer…");
                self.chat_lines = lines;
            },
        }
        self.needs_redraw = true;
        assert(self@ =~= old(self)@.loading());
    }

    /// Keeps a chunk of the stream that came at `now`, in nanoseconds. Nothing of it is
    /// shown: the transcripts stay as they are until [`OverlayPanel::finalize`].
    pub fn append_chunk(&mut self, text: &str, now: u64)
        ensures
            final(self)@ == old(self)@.with_chunk(text@, now),
    {
        if text.unicode_len() == 0 {
            return;
        }
        self.has_chunks = true;
        self.stream_buffer.append(text);
        self.pending_redraw = true;
        self.last_append = Some(now);
    }

    /// Asks for a redraw where chunks are waiting for one.
    pub fn flush_pending(&mut self)
        ensures
            final(self)@ == (PanelView {
                pending_redraw: false,
                needs_redraw: old(self)@.needs_redraw || old(self)@.pending_redraw,
                ..old(self)@
            }),
    {
        if self.pending_redraw {
            self.pending_redraw = false;
            self.needs_redraw = true;
        }
    }

    /// Whether a redraw is better left until more chunks have come.
    pub fn should_batch(&self, now: u64) -> (r: bool)
        ensures
            r == (self@.pending_redraw && (self@.last_append matches Some(t) && now - t
                < BATCH_INTERVAL_NANOS)),
    {
        match self.last_append {
            Some(t) => self.pending_redraw && (now < t || now - t < BATCH_INTERVAL_NANOS),
            None => false,
        }
    }

    /// Takes the explanation that the stream was read as, where the structured end of the
    /// stream did not come: `None` where the stream could not be read.
    pub fn try_finalize_from_stream_buffer(&mut self, response: Option<&ExplainResponse>) -> (r: bool)
        ensures
            r == (old(self)@.stream_buffer.len() > 0 && response is Some),
            final(self)@ == (if r {
                old(self)@.with_explanation(response->0@)
            } else {
                old(self)@
            }),
    {
        if self.stream_buffer.as_str().unicode_len() == 0 {
            return false;
        }
        match response {
            Some(response) => {
                self.finalize(response);
                true
            },
            None => false,
        }
    }

    /// Shows an explanation.
    pub fn finalize(&mut self, response: &ExplainResponse)
        ensures
            final(self)@ == old(self)@.with_explanation(response@),
    {
        self.remove_loading_lines();
        self.stream_buffer = String::new();
        self.command_lines = explain::format_structured_response(response);
        self.actionable_items = explain::actionable_items_from_response(response);
        self.action_goals = Vec::new();
        self.has_chunks = true;
        self.stick_to_bottom = true;
        self.scroll_burst = 0;
        self.pending_redraw = false;
        self.last_append = None;
        self.needs_redraw = true;
    }

    /// Show a loading state while a slash command fetches from the backend.
    pub fn begin_slash_command(&mut self, label: &str)
        ensures
            final(self)@ == old(self)@.running(label@),
    {
        proof {
            reveal_strlit("");
            assert(""@ =~= seq![]);
        }
        self.chat_active = false;
        self.has_chunks = false;
        self.stream_buffer = String::new();
        self.pending_redraw = false;
        self.last_append = None;
        self.input_buffer = String::new();
        self.stick_to_bottom = true;
        self.scroll_burst = 0;
        let running = text::concat3("Running ", label, "…");
        match self.interaction_mode {
            InteractionMode::Command => {
                layout::push_line(&mut self.command_lines, "", LineStyle::Body);
                layout::push_line(&mut self.command_lines, running.as_str(), LineStyle::Muted);
                push_loading(&mut self.command_lines, "  ◐  Loading…");
            },
            InteractionMode::Chat => {
                layout::push_line(&mut self.chat_lines, "", LineStyle::Body);
                layout::push_line(&mut self.chat_lines, running.as_str(), LineStyle::Muted);
                push_loading(&mut self.chat_lines, "  ◐  Loading…");
            },
        }
        self.needs_redraw = true;
        assert(self@ =~= old(self)@.running(label@));
    }

    /// Show formatted man/--help reference (Command mode).
    pub fn show_command_reference(&mut self, response: &CommandReferenceResponse)
        ensures
            final(self)@ == old(self)@.with_reference(response@),
    {
        self.remove_loading_lines();
        self.interaction_mode = InteractionMode::Command;
        self.has_chunks = true;
        self.stick_to_bottom = true;
        self.scroll_burst = 0;
        self.stream_buffer = String::new();
        self.command_lines = explain::format_command_reference(response);
        self.actionable_items = explain::actionable_items_from_command_reference(response);
        self.action_goals = Vec::new();
        self.needs_redraw = true;
    }

    /// Clear Chat mode content; leaves Command mode explanation unchanged.
    pub fn clear_chat_output(&mut self)
        ensures
            final(self)@ == old(self)@.chat_cleared(),
    {
        self.chat_lines = Vec::new();
        self.chat_active = false;
        self.chat_stream_line = None;
        self.lines_before_error = None;
        self.stream_buffer = String::new();
        self.pending_redraw = false;
        self.last_append = None;
        self.scroll_offset = 0;
        self.stick_to_bottom = true;
        self.scroll_burst = 0;
        self.interaction_mode = InteractionMode::Chat;
        self.needs_redraw = true;
    }

    /// Prepare Chat mode for a user question.
    pub fn begin_chat_message(&mut self, query: &str)
        ensures
            final(self)@ == old(self)@.asked(query@),
    {
        proof {
            reveal_strlit("");
            assert(""@ =~= seq![]);
        }
        self.interaction_mode = InteractionMode::Chat;
        self.chat_active = true;
        self.chat_stream_line = None;
        self.has_chunks = false;
        self.stream_buffer = String::new();
        self.pending_redraw = false;
        self.last_append = None;
        self.input_buffer = String::new();
        self.stick_to_bottom = true;
        self.scroll_burst = 0;
        layout::push_line(&mut self.chat_lines, "", LineStyle::Body);
        layout::push_line(
            &mut self.chat_lines,
            text::concat("You: ", query).as_str(),
            LineStyle::SectionHeader,
        );
        push_loading(&mut self.chat_lines, "  ◐  Loading…");
        self.needs_redraw = true;
        assert(self@ =~= old(self)@.asked(query@));
    }

    /// The line of the chat that the answer is streamed into, where it has one.
    fn streamed_line(&self) -> (r: Option<usize>)
        ensures
            r == self@.answer_line(),
    {
        match self.chat_stream_line {
            Some(at) => if at < self.chat_lines.len() {
                Some(at)
            } else {
                None
            },
            None => None,
        }
    }

    /// Append streaming chat tokens (visible immediately).
    pub fn append_chat_chunk(&mut self, text: &str)
        ensures
            final(self)@ == old(self)@.with_chat_chunk(text@),
    {
        if text.unicode_len() == 0 {
            return;
        }
        self.remove_loading_lines();
        self.has_chunks = true;
        match self.streamed_line() {
            Some(at) => {
                let more = text::concat(self.chat_lines[at].text.as_str(), text);
                set_text_at(&mut self.chat_lines, at, more);
            },
            None => {
                let at = self.chat_lines.len();
                layout::push_line(
                    &mut self.chat_lines,
                    text::concat("Learnminal: ", text).as_str(),
                    LineStyle::Body,
                );
                self.chat_stream_line = Some(at);
            },
        }
        self.stick_to_bottom = true;
        self.needs_redraw = true;
    }

    /// Shows the whole chat answer in place of what was streamed of it.
    pub fn finalize_chat(&mut self, reply: &str, actionable_items: &[String])
        ensures
            final(self)@ == old(self)@.answered(reply@, text::views(actionable_items@)),
    {
        proof {
            reveal_strlit("");
            assert(""@ =~= seq![]);
        }
        self.remove_loading_lines();
        self.chat_active = false;
        let said = text::concat("Learnminal: ", reply);
        match self.streamed_line() {
            Some(at) => {
                set_text_at(&mut self.chat_lines, at, said);
            },
            None => {
                layout::push_line(&mut self.chat_lines, said.as_str(), LineStyle::Body);
            },
        }
        self.chat_stream_line = None;
        layout::push_line(&mut self.chat_lines, "", LineStyle::Body);
        self.actionable_items = chat_items(reply, actionable_items);
        self.action_goals = Vec::new();
        self.has_chunks = true;
        self.stick_to_bottom = true;
        self.needs_redraw = true;
    }

    /// Shows the other transcript.
    pub fn toggle_interaction_mode(&mut self)
        ensures
            final(self)@ == old(self)@.mode_toggled(),
    {
        self.interaction_mode = match self.interaction_mode {
            InteractionMode::Command => InteractionMode::Chat,
            InteractionMode::Chat => InteractionMode::Command,
        };
        self.scroll_offset = 0;
        self.stick_to_bottom = true;
        self.scroll_burst = 0;
        self.needs_redraw = true;
    }

    /// Removes the lines shown while an answer is awaited.
    fn remove_loading_lines(&mut self)
        ensures
            final(self)@ == old(self)@.settled(),
    {
        self.command_lines = keep_settled(self.command_lines.as_slice());
        self.chat_lines = keep_settled(self.chat_lines.as_slice());
    }
}

// ── Messages ─────────────────────────────────────────────────────────────────

/// The lowercase form of a text.
pub uninterp spec fn lowercase_text(s: Seq<char>) -> Seq<char>;

/// `str::to_lowercase` of the standard library.
///
/// Trusted: the result is a function of the text, by the Unicode rules for lower case. Of
/// a text of ASCII characters it is that with each capital replaced. What it is of other
/// texts is not spelled out.
#[verifier::external_body]
fn to_lowercase(s: &str) -> (r: String)
    ensures
        r@ == lowercase_text(s@),
        (forall|i: int| 0 <= i < s@.len() ==> (#[trigger] s@[i]) as u32 <= 0x7f) ==> r@
            == text::lowered(s@),
{
    s.to_lowercase()
}

/// How many packages there are in all.
pub open spec fn package_count(packages: Seq<(String, Vec<String>)>) -> nat
    decreases packages.len(),
{
    if packages.len() == 0 {
        0
    } else {
        package_count(packages.drop_last()) + packages.last().1@.len()
    }
}

/// The packages of the manager called `name`.
pub open spec fn packages_of(packages: Seq<(String, Vec<String>)>, name: Seq<char>) -> Option<
    Seq<Seq<char>>,
>
    decreases packages.len(),
{
    if packages.len() == 0 {
        None
    } else if packages[0].0@ == name {
        Some(text::views(packages[0].1@))
    } else {
        packages_of(packages.drop_first(), name)
    }
}

/// What is said of one manager's packages: how many, the first eight, how many more.
pub open spec fn package_line(name: Seq<char>, packages: Seq<Seq<char>>) -> Seq<char> {
    let sample = if packages.len() > 8 {
        packages.take(8)
    } else {
        packages
    };
    let suffix = if packages.len() > 8 {
        " … +"@ + text::decimal((packages.len() - 8) as nat) + " more"@
    } else {
        seq![]
    };
    "  "@ + name + " ("@ + text::decimal(packages.len()) + "): "@ + text::joined(sample, ", "@)
        + suffix
}

/// What is said of the packages of the managers `names`.
pub open spec fn package_lines(
    packages: Seq<(String, Vec<String>)>,
    names: Seq<Seq<char>>,
) -> Seq<Seq<char>>
    decreases names.len(),
{
    if names.len() == 0 {
        seq![]
    } else {
        let before = package_lines(packages, names.drop_last());
        match packages_of(packages, names.last()) {
            Some(list) => before.push(package_line(names.last(), list)),
            None => before,
        }
    }
}

/// What `/info` says of the installed packages.
pub open spec fn package_report(info: SystemInfo) -> Seq<Seq<char>> {
    let packages = info.installed_packages@;
    if packages.len() == 0 {
        seq!["Installed packages: none enumerated (run /info refresh)"@]
    } else {
        let total = match info.installed_packages_total {
            Some(n) => n as nat,
            None => package_count(packages),
        };
        seq!["Installed packages: "@ + text::decimal(total) + " total across managers"@]
            + package_lines(packages, text::sorted(manager_names(packages)))
    }
}

/// What `/info` says of the machine.
pub open spec fn machine_report(info: SystemInfo) -> Seq<Seq<char>> {
    seq![
        "OS: "@ + info.os@,
        "Architecture: "@ + info.arch@,
        "Shell: "@ + info.shell@,
        if info.package_managers@.len() == 0 {
            "Package managers: none detected"@
        } else {
            "Package managers: "@ + text::joined(text::views(info.package_managers@), ", "@)
        },
    ]
}

/// What `/info` says of the tools.
pub open spec fn tool_report(info: SystemInfo) -> Seq<Seq<char>> {
    if info.installed_tools@.len() == 0 {
        seq!["Installed tools: none detected"@]
    } else {
        seq![
            "Installed tools ("@ + text::decimal(info.installed_tools@.len()) + "): "@
                + text::joined(text::views(info.installed_tools@), ", "@),
        ]
    }
}

/// What `/info` says of the time of the scan.
pub open spec fn age_report(info: SystemInfo) -> Seq<Seq<char>> {
    match (info.collected_at_display, info.collected_at) {
        (Some(display), _) => seq!["Last collected: "@ + display@],
        (None, Some(at)) => seq!["Last collected: "@ + text::signed_decimal(at as int)],
        (None, None) => seq![],
    }
}

/// The lines that `/info` shows.
pub open spec fn info_lines(info: SystemInfo) -> Seq<Seq<char>> {
    machine_report(info) + package_report(info) + tool_report(info) + age_report(info)
}

/// How many packages there are in all.
fn count_packages(packages: &[(String, Vec<String>)]) -> (r: u128)
    ensures
        r == package_count(packages@),
{
    let mut total: u128 = 0;
    let mut i: usize = 0;
    assert(packages@.take(0) =~= seq![]);
    while i < packages.len()
        invariant
            i <= packages@.len(),
            total == package_count(packages@.take(i as int)),
            total <= i * usize::MAX,
        decreases packages@.len() - i,
    {
        let n = packages[i].1.len();
        assert(packages@.take(i + 1).drop_last() =~= packages@.take(i as int));
        assert((i + 1) * usize::MAX == i * usize::MAX + usize::MAX && (i + 1) * usize::MAX
            <= u128::MAX) by (nonlinear_arith)
            requires
                i + 1 <= usize::MAX,
                usize::MAX <= 0xffff_ffff_ffff_ffff,
        ;
        total = total + n as u128;
        i += 1;
    }
    assert(packages@.take(i as int) =~= packages@);
    total
}

/// What is said of one manager's packages: how many, the first eight, how many more.
fn describe_packages(name: &str, packages: &[String]) -> (r: String)
    ensures
        r@ == package_line(name@, text::views(packages@)),
{
    let ghost all = text::views(packages@);
    let n = packages.len();
    let mut sample: Vec<String> = Vec::new();
    let mut i: usize = 0;
    assert(text::views(sample@) =~= all.take(0));
    while i < n && i < 8
        invariant
            n == packages@.len(),
            all == text::views(packages@),
            i <= n,
            i <= 8,
            text::views(sample@) == all.take(i as int),
        decreases n - i,
    {
        text::push_text(&mut sample, packages[i].clone());
        i += 1;
        assert(all.take(i as int) =~= all.take(i - 1).push(packages@[i - 1]@));
    }
    assert(n <= 8 ==> all.take(i as int) =~= all);
    let mut out = text::concat3("  ", name, " (");
    out.append(text::usize_text(n).as_str());
    out.append("): ");
    out.append(text::join(sample.as_slice(), ", ").as_str());
    if n > 8 {
        out.append(" … +");
        out.append(text::usize_text(n - 8).as_str());
        out.append(" more");
    }
    assert(out@ =~= package_line(name@, all));
    out
}

/// Adds what is said of the packages of the manager `name` at the end of `out`.
fn push_package_line(out: &mut Vec<String>, packages: &[(String, Vec<String>)], name: &str)
    ensures
        text::views(final(out)@) == (match packages_of(packages@, name@) {
            Some(list) => text::views(old(out)@).push(package_line(name@, list)),
            None => text::views(old(out)@),
        }),
{
    let mut i: usize = 0;
    assert(packages@.skip(0) =~= packages@);
    while i < packages.len()
        invariant
            i <= packages@.len(),
            out@ == old(out)@,
            packages_of(packages@.skip(i as int), name@) == packages_of(packages@, name@),
        decreases packages@.len() - i,
    {
        assert(packages@.skip(i as int).drop_first() =~= packages@.skip(i + 1));
        if text::same(packages[i].0.as_str(), name) {
            text::push_text(out, describe_packages(name, packages[i].1.as_slice()));
            return;
        }
        i += 1;
    }
}

/// Adds what `/info` says of the installed packages at the end of `out`.
fn push_package_report(out: &mut Vec<String>, info: &SystemInfo)
    ensures
        text::views(final(out)@) == text::views(old(out)@) + package_report(*info),
{
    let ghost start = text::views(out@);
    let ghost packages = info.installed_packages@;
    if info.installed_packages.len() == 0 {
        text::push_text(
            out,
            "Installed packages: none enumerated (run /info refresh)".to_owned(),
        );
        assert(text::views(out@) =~= start + package_report(*info));
        return;
    }
    let total: u128 = match info.installed_packages_total {
        Some(n) => n as u128,
        None => count_packages(info.installed_packages.as_slice()),
    };
    text::push_text(
        out,
        text::concat3(
            "Installed packages: ",
            text::u128_text(total).as_str(),
            " total across managers",
        ),
    );
    let ghost head = text::views(out@);
    let mut names: Vec<String> = Vec::new();
    let mut i: usize = 0;
    assert(text::views(names@) =~= manager_names(packages).take(0));
    while i < info.installed_packages.len()
        invariant
            packages == info.installed_packages@,
            i <= packages.len(),
            text::views(names@) == manager_names(packages).take(i as int),
        decreases packages.len() - i,
    {
        text::push_text(&mut names, info.installed_packages[i].0.clone());
        i += 1;
        assert(manager_names(packages).take(i as int) =~= manager_names(packages).take(i - 1).push(
            packages[i - 1].0@,
        ));
    }
    assert(manager_names(packages).take(i as int) =~= manager_names(packages));
    let names = text::sort(names);
    let ghost all = text::views(names@);
    let mut j: usize = 0;
    assert(head + package_lines(packages, all.take(0)) =~= head);
    while j < names.len()
        invariant
            packages == info.installed_packages@,
            all == text::views(names@),
            j <= names@.len(),
            text::views(out@) == head + package_lines(packages, all.take(j as int)),
        decreases names@.len() - j,
    {
        assert(all.take(j + 1).drop_last() =~= all.take(j as int));
        assert(all[j as int] == names@[j as int]@);
        push_package_line(out, info.installed_packages.as_slice(), names[j].as_str());
        j += 1;
        assert(text::views(out@) =~= head + package_lines(packages, all.take(j as int)));
    }
    assert(all.take(j as int) =~= all);
    assert(text::views(out@) =~= start + package_report(*info));
}

/// Each manager has one line, on its own packages: no list is shown twice and none is left out.
pub proof fn law_each_manager_is_listed_once(info: SystemInfo)
    requires
        info.well_formed(),
    ensures
        ({
            let packages = info.installed_packages@;
            let lines = package_lines(packages, text::sorted(manager_names(packages)));
            &&& lines.len() == packages.len()
            &&& forall|i: int|
                0 <= i < packages.len() ==> lines.contains(
                    package_line(packages[i].0@, text::views((#[trigger] packages[i]).1@)),
                )
        }),
{
    let packages = info.installed_packages@;
    let names = manager_names(packages);
    let order = text::sorted(names);
    text::law_sorted(names);
    assert forall|k: int| 0 <= k < order.len() implies names.contains(#[trigger] order[k]) by {
        order.to_multiset_ensures();
        names.to_multiset_ensures();
        assert(order.contains(order[k]));
        assert(order.to_multiset().count(order[k]) > 0);
        assert(names.to_multiset().contains(order[k]));
    }
    lemma_package_lines(packages, order);
    let lines = package_lines(packages, order);
    assert forall|i: int| 0 <= i < packages.len() implies lines.contains(
        package_line(packages[i].0@, text::views((#[trigger] packages[i]).1@)),
    ) by {
        order.to_multiset_ensures();
        names.to_multiset_ensures();
        assert(names[i] == packages[i].0@);
        assert(names.contains(names[i]));
        assert(order.to_multiset().contains(names[i]));
        assert(order.contains(names[i]));
        let k = order.index_of(names[i]);
        lemma_packages_of(packages, i);
        assert(lines[k] == package_line(packages[i].0@, text::views(packages[i].1@)));
    }
}

proof fn lemma_packages_of(packages: Seq<(String, Vec<String>)>, i: int)
    requires
        manager_names(packages).no_duplicates(),
        0 <= i < packages.len(),
    ensures
        packages_of(packages, packages[i].0@) == Some(text::views(packages[i].1@)),
    decreases packages.len(),
{
    let names = manager_names(packages);
    assert(names[0] == packages[0].0@ && names[i] == packages[i].0@);
    if i > 0 {
        let rest = packages.drop_first();
        assert(names[0] != names[i]);
        assert forall|a: int, b: int|
            0 <= a < rest.len() && 0 <= b < rest.len() && a != b implies manager_names(rest)[a]
            != manager_names(rest)[b] by {
            assert(manager_names(rest)[a] == names[a + 1]);
            assert(manager_names(rest)[b] == names[b + 1]);
        }
        lemma_packages_of(rest, i - 1);
        assert(rest[i - 1] == packages[i]);
    }
}

proof fn lemma_package_lines(packages: Seq<(String, Vec<String>)>, order: Seq<Seq<char>>)
    requires
        manager_names(packages).no_duplicates(),
        forall|k: int|
            0 <= k < order.len() ==> manager_names(packages).contains(#[trigger] order[k]),
    ensures
        package_lines(packages, order).len() == order.len(),
        forall|k: int|
            0 <= k < order.len() ==> #[trigger] package_lines(packages, order)[k] == package_line(
                order[k],
                packages_of(packages, order[k])->0,
            ),
    decreases order.len(),
{
    if order.len() > 0 {
        let init = order.drop_last();
        assert forall|k: int| 0 <= k < init.len() implies manager_names(packages).contains(
            #[trigger] init[k],
        ) by {
            assert(init[k] == order[k]);
        }
        lemma_package_lines(packages, init);
        let names = manager_names(packages);
        let m = order.len() - 1;
        assert(names.contains(order[m]));
        let i = names.index_of(order.last());
        assert(names[i] == packages[i].0@);
        lemma_packages_of(packages, i);
        let before = package_lines(packages, init);
        let all = package_lines(packages, order);
        assert(all == before.push(
            package_line(order.last(), packages_of(packages, order.last())->0),
        ));
        assert forall|k: int| 0 <= k < order.len() implies #[trigger] all[k] == package_line(
            order[k],
            packages_of(packages, order[k])->0,
        ) by {
            if k < m {
                assert(all[k] == before[k]);
                assert(init[k] == order[k]);
            }
        }
    }
}

/// The lines that `/info` shows.
pub fn system_info_lines(info: &SystemInfo) -> (r: Vec<String>)
    requires
        info.well_formed(),
    ensures
        text::views(r@) == info_lines(*info),
{
    let mut lines: Vec<String> = Vec::new();
    text::push_text(&mut lines, text::concat("OS: ", info.os.as_str()));
    text::push_text(&mut lines, text::concat("Architecture: ", info.arch.as_str()));
    text::push_text(&mut lines, text::concat("Shell: ", info.shell.as_str()));
    if info.package_managers.len() == 0 {
        text::push_text(&mut lines, "Package managers: none detected".to_owned());
    } else {
        text::push_text(
            &mut lines,
            text::concat(
                "Package managers: ",
                text::join(info.package_managers.as_slice(), ", ").as_str(),
            ),
        );
    }
    assert(text::views(lines@) =~= machine_report(*info));
    push_package_report(&mut lines, info);
    let ghost some = text::views(lines@);
    if info.installed_tools.len() == 0 {
        text::push_text(&mut lines, "Installed tools: none detected".to_owned());
    } else {
        let mut line = text::concat3(
            "Installed tools (",
            text::usize_text(info.installed_tools.len()).as_str(),
            "): ",
        );
        line.append(text::join(info.installed_tools.as_slice(), ", ").as_str());
        text::push_text(&mut lines, line);
    }
    assert(text::views(lines@) =~= some + tool_report(*info));
    let ghost most = text::views(lines@);
    match &info.collected_at_display {
        Some(display) => {
            text::push_text(&mut lines, text::concat("Last collected: ", display.as_str()));
        },
        None => match info.collected_at {
            Some(at) => {
                text::push_text(
                    &mut lines,
                    text::concat("Last collected: ", text::i64_text(at).as_str()),
                );
            },
            None => {},
        },
    }
    assert(text::views(lines@) =~= most + age_report(*info));
    lines
}

impl OverlayPanel {
    pub fn show_backend_not_running(&mut self)
        ensures
            final(self)@ == old(self)@.with_error(MSG_BACKEND_NOT_RUNNING@, false),
    {
        self.show_error(MSG_BACKEND_NOT_RUNNING, false);
    }

    pub fn show_timeout(&mut self)
        ensures
            final(self)@ == old(self)@.with_error(MSG_TIMEOUT@, false),
    {
        self.show_error(MSG_TIMEOUT, false);
    }

    /// Shows what went wrong in the stream, with advice where it concerns Ollama.
    pub fn show_sse_error(&mut self, message: &str)
        ensures
            final(self)@ == old(self)@.with_error(
                message@,
                text::has_sub(lowercase_text(message@), "ollama"@),
            ),
            (forall|i: int| 0 <= i < message@.len() ==> (#[trigger] message@[i]) as u32 <= 0x7f)
                ==> final(self)@ == old(self)@.with_error(
                message@,
                text::has_sub(text::lowered(message@), "ollama"@),
            ),
    {
        let lower = to_lowercase(message);
        self.show_reported_error(message, lower.as_str());
    }

    /// Shows what went wrong, with advice where its lowercase form speaks of Ollama.
    pub fn show_reported_error(&mut self, message: &str, lowercase: &str)
        ensures
            final(self)@ == old(self)@.with_error(message@, text::has_sub(lowercase@, "ollama"@)),
    {
        self.show_error(message, text::contains(lowercase, "ollama"));
    }

    pub fn show_empty_context(&mut self)
        ensures
            final(self)@ == old(self)@.with_error(MSG_EMPTY_CONTEXT@, false),
    {
        self.show_error(MSG_EMPTY_CONTEXT, false);
    }

    /// List slash commands (local; no backend call).
    pub fn show_slash_help(&mut self)
        ensures
            final(self)@ == old(self)@.with_message("Slash commands"@, help_lines()),
    {
        let mut lines: Vec<String> = Vec::new();
        text::push_text(
            &mut lines,
            "/info — OS, shell, package managers, installed packages, tools".to_owned(),
        );
        text::push_text(
            &mut lines,
            "/info refresh — re-scan system and refresh package inventory".to_owned(),
        );
        text::push_text(&mut lines, "/model list — show installed Ollama models".to_owned());
        text::push_text(&mut lines, "/model <name> — switch the active model".to_owned());
        text::push_text(&mut lines, "/level — show experience levels".to_owned());
        text::push_text(
            &mut lines,
            "/level <beginner|novice|professional|expert> — set experience level for explanations".to_owned(),
        );
        text::push_text(
            &mut lines,
            "/actions — list the current actions in the transcript".to_owned(),
        );
        text::push_text(&mut lines, "/actions clear — dismiss the Actions panel".to_owned());
        text::push_text(&mut lines, "/clear — clear the Chat transcript".to_owned());
        text::push_text(&mut lines, "/help — show this list".to_owned());
        text::push_text(&mut lines, "".to_owned());
        text::push_text(
            &mut lines,
            "Tab → Chat mode to ask the agent about your command.".to_owned(),
        );
        assert(text::views(lines@) =~= help_lines());
        self.show_slash_message("Slash commands", lines.as_slice());
    }

    /// Lists the experience levels.
    pub fn show_levels(&mut self)
        ensures
            final(self)@ == old(self)@.with_message("Experience levels"@, level_lines()),
    {
        let levels = ExperienceLevel::all();
        let mut lines: Vec<String> = Vec::new();
        let mut i: usize = 0;
        assert(text::views(lines@) =~= level_lines().take(0));
        while i < levels.len()
            invariant
                levels@ == ExperienceLevel::in_order(),
                i <= levels@.len(),
                text::views(lines@) == level_lines().take(i as int),
            decreases levels@.len() - i,
        {
            text::push_text(
                &mut lines,
                text::concat3(levels[i].as_str(), " — ", levels[i].description()),
            );
            i += 1;
            assert(level_lines().take(i as int) =~= level_lines().take(i - 1).push(
                level_lines()[i - 1],
            ));
        }
        assert(level_lines().take(i as int) =~= level_lines());
        self.show_slash_message("Experience levels", lines.as_slice());
    }

    /// Lists the current actions.
    pub fn show_actions(&mut self)
        ensures
            final(self)@ == old(self)@.with_message(
                "Actions"@,
                action_lines(old(self)@.actionable_items, old(self)@.action_goals),
            ),
    {
        let ghost items = self@.actionable_items;
        let ghost goals = self@.action_goals;
        let ghost want = action_lines(items, goals);
        let mut lines: Vec<String> = Vec::new();
        if self.actionable_items.len() == 0 {
            text::push_text(&mut lines, "No actions.".to_owned());
            assert(text::views(lines@) =~= want);
        } else {
            let mut i: usize = 0;
            assert(text::views(lines@) =~= want.take(0));
            while i < self.actionable_items.len()
                invariant
                    self == old(self),
                    items == text::views(self.actionable_items@),
                    items.len() > 0,
                    goals == text::views(self.action_goals@),
                    want == action_lines(items, goals),
                    i <= items.len(),
                    text::views(lines@) == want.take(i as int),
                decreases items.len() - i,
            {
                let item = self.actionable_items[i].as_str();
                assert(items[i as int] == item@);
                let mut line = text::concat3(text::usize_text(i + 1).as_str(), ". ", item);
                let ghost numbered = line@;
                if i < self.action_goals.len() && !self.action_goals[i].as_str().is_empty() {
                    assert(goals[i as int] == self.action_goals@[i as int]@);
                    line.append(" — ");
                    line.append(self.action_goals[i].as_str());
                    assert(line@ =~= numbered + (" — "@ + goals[i as int]));
                } else {
                    assert(i < goals.len() ==> goals[i as int] == self.action_goals@[i as int]@);
                    assert(line@ =~= numbered + seq![]);
                }
                assert(line@ == action_line(items, goals, i as int));
                text::push_text(&mut lines, line);
                i += 1;
                assert(want.take(i as int) =~= want.take(i - 1).push(want[i - 1]));
            }
            assert(want.take(i as int) =~= want);
        }
        self.show_slash_message("Actions", lines.as_slice());
    }

    /// Shows what is known of the machine.
    pub fn show_system_info(&mut self, info: &SystemInfo)
        requires
            info.well_formed(),
        ensures
            final(self)@ == old(self)@.with_message(
                "System environment (known to the agent)"@,
                info_lines(*info),
            ),
    {
        let lines = system_info_lines(info);
        self.show_slash_message("System environment (known to the agent)", lines.as_slice());
    }

    /// Shows a message: a title and lines under it.
    pub fn show_slash_message(&mut self, title: &str, body_lines: &[String])
        ensures
            final(self)@ == old(self)@.with_message(title@, text::views(body_lines@)),
    {
        proof {
            reveal_strlit("");
            assert(""@ =~= seq![]);
        }
        self.remove_loading_lines();
        self.chat_active = false;
        self.has_chunks = true;
        self.stick_to_bottom = true;
        self.scroll_burst = 0;
        match self.interaction_mode {
            InteractionMode::Command => {
                layout::push_line(&mut self.command_lines, "", LineStyle::Body);
                layout::push_line(&mut self.command_lines, title, LineStyle::SectionHeader);
                explain::push_indented_lines(&mut self.command_lines, body_lines);
            },
            InteractionMode::Chat => {
                layout::push_line(&mut self.chat_lines, "", LineStyle::Body);
                layout::push_line(&mut self.chat_lines, title, LineStyle::SectionHeader);
                explain::push_indented_lines(&mut self.chat_lines, body_lines);
            },
        }
        self.needs_redraw = true;
        assert(self@ =~= old(self)@.with_message(title@, text::views(body_lines@)));
    }

    /// Shows an error: after the chat while one is going on, else alone.
    pub fn show_error(&mut self, message: &str, ollama: bool)
        ensures
            final(self)@ == old(self)@.with_error(message@, ollama),
    {
        self.visible = true;
        self.mode = OverlayMode::Error;
        self.has_chunks = true;
        if self.chat_active {
            self.remove_loading_lines();
            self.lines_before_error = Some(self.chat_lines.len());
            self.error_only = false;
            self.chat_active = false;
            self.chat_stream_line = None;
            layout::push_line(&mut self.chat_lines, message, LineStyle::Error);
            if ollama {
                layout::push_line(
                    &mut self.chat_lines,
                    "Start with: ollama serve",
                    LineStyle::Muted,
                );
            }
        } else {
            let mut lines: Vec<DisplayLine> = Vec::new();
            layout::push_line(&mut lines, message, LineStyle::Error);
            if ollama {
                layout::push_line(&mut lines, "Start with: ollama serve", LineStyle::Muted);
            }
            self.lines_before_error = None;
            self.error_only = true;
            self.command_lines = lines;
            self.chat_lines = Vec::new();
        }
        self.needs_redraw = true;
        assert(self@ =~= old(self)@.with_error(message@, ollama));
    }
}

// ── Keys ─────────────────────────────────────────────────────────────────────

impl OverlayPanel {
    /// What a key does while the panel is visible: nothing where it goes up.
    pub fn handle_key(&mut self, key: &KeyPress, mods: Modifiers) -> (r: OverlayAction)
        ensures
            (final(self)@, r@) == (if !old(self)@.visible || !key.pressed {
                (old(self)@, ActionView::Nothing)
            } else {
                old(self)@.pressed(key.logical_key@, mods, text::opt_string(key.text), key.repeat)
            }),
    {
        if !self.visible || !key.pressed {
            return OverlayAction::Nothing;
        }
        let text: Option<&str> = match &key.text {
            Some(t) => Some(t.as_str()),
            None => None,
        };
        self.dispatch_key(&key.logical_key, mods, text, key.repeat)
    }

    /// Lines to scroll per arrow press; accelerates while the key is held (repeat).
    pub fn scroll_step(&mut self, repeat: bool) -> (r: usize)
        ensures
            r == old(self)@.scroll_lines(repeat),
            1 <= r <= SCROLL_REPEAT_MAX_LINES,
            final(self)@ == old(self)@.scroll_counted(repeat),
    {
        if !repeat {
            self.scroll_burst = 0;
            return 1;
        }
        if self.scroll_burst < u32::MAX {
            self.scroll_burst = self.scroll_burst + 1;
        }
        let extra: usize = (self.scroll_burst / 4) as usize;
        if extra < SCROLL_REPEAT_MAX_LINES - 1 {
            1 + extra
        } else {
            SCROLL_REPEAT_MAX_LINES
        }
    }

    /// What Enter does in the input field.
    fn press_enter(&mut self) -> (r: OverlayAction)
        ensures
            (final(self)@, r@) == old(self)@.entered(),
    {
        let query = text::trim(self.input_buffer.as_str()).to_owned();
        if query.as_str().unicode_len() == 0 {
            return OverlayAction::Nothing;
        }
        match SlashCommand::parse(query.as_str()) {
            Some(parsed) => {
                self.input_buffer = String::new();
                self.needs_redraw = true;
                match parsed {
                    Ok(SlashCommand::Help) => {
                        self.show_slash_help();
                        OverlayAction::Nothing
                    },
                    Ok(SlashCommand::Clear) => {
                        self.clear_chat_output();
                        OverlayAction::Nothing
                    },
                    Ok(SlashCommand::Level { level: None }) => {
                        self.show_levels();
                        OverlayAction::Nothing
                    },
                    Ok(SlashCommand::Actions { clear: true }) => {
                        self.clear_actions();
                        OverlayAction::Nothing
                    },
                    Ok(SlashCommand::Actions { clear: false }) => {
                        self.show_actions();
                        OverlayAction::Nothing
                    },
                    Ok(command) => OverlayAction::RunSlashCommand(command),
                    Err(message) => {
                        let mut body: Vec<String> = Vec::new();
                        let ghost said = message@;
                        text::push_text(&mut body, message);
                        assert(text::views(body@) =~= seq![said]);
                        self.show_slash_message("Command error", body.as_slice());
                        OverlayAction::Nothing
                    },
                }
            },
            None => {
                if self.interaction_mode != InteractionMode::Chat {
                    return OverlayAction::Nothing;
                }
                self.begin_chat_message(query.as_str());
                OverlayAction::SubmitChat(query)
            },
        }
    }

    /// What a key does.
    ///
    /// Navigation and control keys come first, then copying, then typing.
    pub fn dispatch_key(
        &mut self,
        logical_key: &Key,
        mods: Modifiers,
        text: Option<&str>,
        repeat: bool,
    ) -> (r: OverlayAction)
        ensures
            (final(self)@, r@) == old(self)@.pressed(
                logical_key@,
                mods,
                text::opt_text(text),
                repeat,
            ),
    {
        let ctrl = mods.control;
        let alt = mods.alt;
        let shift = mods.shift;
        let takes_input = self.input_focus == InputFocus::Overlay && self.input_focused;
        match logical_key {
            Key::Named(NamedKey::Escape) => self.press_escape(),
            Key::Named(NamedKey::ArrowUp) if !ctrl => {
                self.scroll_up(repeat);
                OverlayAction::ScrollUp
            },
            Key::Named(NamedKey::ArrowDown) if !ctrl => {
                self.scroll_down(repeat);
                OverlayAction::ScrollDown
            },
            Key::Named(NamedKey::Backspace) if takes_input && !ctrl => {
                self.press_backspace();
                OverlayAction::Nothing
            },
            Key::Named(NamedKey::Tab) if ctrl && shift && !alt => {
                self.toggle_input_focus();
                OverlayAction::Nothing
            },
            Key::Named(NamedKey::Tab) if !ctrl && !alt => {
                self.toggle_interaction_mode();
                OverlayAction::ToggleMode
            },
            Key::Named(NamedKey::Enter) if takes_input && !ctrl => self.press_enter(),
            _ => self.press_character(logical_key, mods, text),
        }
    }

    /// What Escape does.
    fn press_escape(&mut self) -> (r: OverlayAction)
        ensures
            (final(self)@, r@) == old(self)@.escaped(),
    {
        if self.input_focus == InputFocus::Terminal {
            self.set_input_focus(InputFocus::Overlay);
            return OverlayAction::Nothing;
        }
        self.hide_panel();
        OverlayAction::Close
    }

    /// Scrolls toward older lines.
    fn scroll_up(&mut self, repeat: bool)
        ensures
            final(self)@ == old(self)@.scrolled_up(repeat),
    {
        let step = self.scroll_step(repeat);
        self.stick_to_bottom = false;
        self.scroll_offset = if self.scroll_offset >= step {
            self.scroll_offset - step
        } else {
            0
        };
        self.needs_redraw = true;
    }

    /// Scrolls toward newer lines.
    fn scroll_down(&mut self, repeat: bool)
        ensures
            final(self)@ == old(self)@.scrolled_down(repeat),
    {
        let step = self.scroll_step(repeat);
        self.scroll_offset = if step <= usize::MAX - self.scroll_offset {
            self.scroll_offset + step
        } else {
            usize::MAX
        };
        self.needs_redraw = true;
    }

    /// What Backspace does in the input field.
    fn press_backspace(&mut self)
        ensures
            final(self)@ == old(self)@.erased(),
    {
        let n = self.input_buffer.as_str().unicode_len();
        if n > 0 {
            self.input_buffer = text::take(self.input_buffer.as_str(), n - 1).to_owned();
        }
        self.needs_redraw = true;
    }

    /// What a key does that is neither navigation nor control: Shift+Y copies the command,
    /// other keys are typed.
    fn press_character(
        &mut self,
        logical_key: &Key,
        mods: Modifiers,
        text: Option<&str>,
    ) -> (r: OverlayAction)
        ensures
            (final(self)@, r@) == old(self)@.character_pressed(
                logical_key@,
                mods,
                text::opt_text(text),
            ),
    {
        let plain = !mods.control && !mods.alt;
        if mods.shift && plain {
            if let Key::Character(ch) = logical_key {
                if text::eq_ignore_ascii_case(ch.as_str(), "y") {
                    if self.context_command.as_str().unicode_len() > 0 {
                        return OverlayAction::CopySelection(self.context_command.clone());
                    }
                    return OverlayAction::Nothing;
                }
            }
        }
        if self.input_focus == InputFocus::Overlay && self.input_focused && plain {
            self.try_insert_key_text(logical_key, text);
        }
        OverlayAction::Nothing
    }

    /// Insert printable text from a key event (Space is often a named key, not a character).
    pub fn try_insert_key_text(&mut self, logical_key: &Key, text: Option<&str>) -> (r: bool)
        ensures
            (final(self)@, r) == old(self)@.with_key_text(logical_key@, text::opt_text(text)),
    {
        if let Some(t) = text {
            if self.push_input_str(t) {
                return true;
            }
        }
        match logical_key {
            Key::Named(NamedKey::Space) => self.push_input_str(" "),
            Key::Character(ch) => self.push_input_str(ch.as_str()),
            _ => false,
        }
    }

    /// Types `text` into the input field, without control characters, as far as it fits.
    /// Whether any of it was taken.
    pub fn push_input_str(&mut self, text: &str) -> (r: bool)
        ensures
            (final(self)@, r) == old(self)@.with_input(text@),
    {
        let chars = text::chars_of(text);
        let mut inserted: bool = false;
        let mut buffer = self.input_buffer.clone();
        let ghost start = buffer@;
        let mut i: usize = 0;
        assert(text@.skip(0) =~= text@);
        while i < chars.len()
            invariant_except_break
                typed(buffer@, text@.skip(i as int)) == typed(start, text@),
            invariant
                chars@ == text@,
                i <= chars@.len(),
                buffer@.len() >= start.len(),
                inserted == (buffer@.len() > start.len()),
            ensures
                buffer@ == typed(start, text@),
            decreases chars@.len() - i,
        {
            let c = chars[i];
            assert(text@.skip(i as int).drop_first() =~= text@.skip(i + 1));
            if !text::is_control(c) {
                let held = text::len_bytes(buffer.as_str());
                let more = text::len_utf8(c);
                if held > INPUT_MAX_LEN || more > INPUT_MAX_LEN - held {
                    break;
                }
                buffer.push(c);
                inserted = true;
            }
            i += 1;
        }
        self.input_buffer = buffer;
        if inserted {
            self.needs_redraw = true;
        }
        inserted
    }
}

// ── Laws ─────────────────────────────────────────────────────────────────────

/// Whether an input field holds no more than it may, and no control characters.
spec fn input_ok(buffer: Seq<char>) -> bool {
    &&& text::byte_len(buffer) <= INPUT_MAX_LEN
    &&& forall|i: int| 0 <= i < buffer.len() ==> !text::is_ctrl(#[trigger] buffer[i])
}

proof fn lemma_typed(buffer: Seq<char>, text: Seq<char>)
    requires
        input_ok(buffer),
    ensures
        input_ok(typed(buffer, text)),
    decreases text.len(),
{
    if text.len() > 0 {
        let c = text[0];
        if text::is_ctrl(c) {
            lemma_typed(buffer, text.drop_first());
        } else if text::byte_len(buffer) + text::char_bytes(c) <= INPUT_MAX_LEN {
            text::lemma_byte_len_push(buffer, c);
            lemma_typed(buffer.push(c), text.drop_first());
        }
    }
}

/// A key leaves a panel well formed: what is typed is cut to what the input field holds,
/// and the field is focused exactly where the overlay has the focus.
pub proof fn law_keys_keep_panel_well_formed(
    p: PanelView,
    key: KeyView,
    mods: Modifiers,
    text: Option<Seq<char>>,
    repeat: bool,
)
    requires
        p.well_formed(),
    ensures
        p.pressed(key, mods, text, repeat).0.well_formed(),
{
    lemma_typed(p.input_buffer, " "@);
    if let Some(t) = text {
        lemma_typed(p.input_buffer, t);
        lemma_typed(p.with_input(t).0.input_buffer, " "@);
        if let KeyView::Character(c) = key {
            lemma_typed(p.with_input(t).0.input_buffer, c);
        }
    }
    if let KeyView::Character(c) = key {
        lemma_typed(p.input_buffer, c);
    }
    if p.input_buffer.len() > 0 {
        text::lemma_byte_len_push(p.input_buffer.drop_last(), p.input_buffer.last());
        assert(p.input_buffer.drop_last().push(p.input_buffer.last()) =~= p.input_buffer);
    }
}

/// A fresh panel is well formed, and each operation leaves one well formed that was.
pub proof fn law_operations_keep_panel_well_formed(
    p: PanelView,
    focus: InputFocus,
    text: Seq<char>,
    now: u64,
    items: Seq<Seq<char>>,
    lines: Seq<Seq<char>>,
    flag: bool,
    explanation: ExplainView,
    reference: CommandReferenceView,
    found: Seq<actions::ActionView>,
)
    requires
        p.well_formed(),
    ensures
        PanelView::fresh().well_formed(),
        p.focused(focus).well_formed(),
        p.focus_toggled().well_formed(),
        p.mode_toggled().well_formed(),
        p.shown().well_formed(),
        p.hidden().well_formed(),
        p.actions_dismissed().well_formed(),
        p.with_actions(found).well_formed(),
        p.error_dismissed().well_formed(),
        p.loading().well_formed(),
        p.with_chunk(text, now).well_formed(),
        p.with_explanation(explanation).well_formed(),
        p.running(text).well_formed(),
        p.with_reference(reference).well_formed(),
        p.chat_cleared().well_formed(),
        p.asked(text).well_formed(),
        p.with_chat_chunk(text).well_formed(),
        p.answered(text, items).well_formed(),
        p.with_message(text, lines).well_formed(),
        p.with_error(text, flag).well_formed(),
{
    explain::law_deduped(explanation.actionable_items);
    let fix = match explanation.error_fix {
        Some(fix) => explain::actionable(fix),
        None => seq![],
    };
    explain::law_deduped(fix + explain::flag_examples(explanation.flags_explained));
    explain::law_deduped(explain::example_items(reference.sections));
    explain::law_deduped(explain::synopsis_items(reference.sections));
    explain::law_deduped(explain::prose_items(text::line_list(text), false));
}

/// Moving the focus twice, or changing the transcript twice, comes back to where it was.
pub proof fn law_toggles(p: PanelView)
    requires
        p.well_formed(),
    ensures
        p.focus_toggled().focus_toggled() == (PanelView { needs_redraw: true, ..p }),
        p.mode_toggled().mode_toggled() == (PanelView {
            scroll_offset: 0,
            stick_to_bottom: true,
            scroll_burst: 0,
            needs_redraw: true,
            ..p
        }),
{
}

/// Pressing Escape closes the panel, at the second time where the shell had the focus.
pub proof fn law_escape_closes(p: PanelView, mods: Modifiers, text: Option<Seq<char>>, repeat: bool)
    ensures
        ({
            let esc = KeyView::Named(NamedKey::Escape);
            let (once, action) = p.pressed(esc, mods, text, repeat);
            let (twice, next) = once.pressed(esc, mods, text, repeat);
            if p.input_focus == InputFocus::Overlay {
                !once.visible && action == ActionView::Close
            } else {
                once.visible == p.visible && action == ActionView::Nothing && !twice.visible
                    && next == ActionView::Close
            }
        }),
{
}

/// Chunks of the stream are kept and not shown: the transcripts stay as they are.
pub proof fn law_chunks_are_not_shown(p: PanelView, text: Seq<char>, now: u64)
    ensures
        p.with_chunk(text, now).stream_buffer == p.stream_buffer + text,
        p.with_chunk(text, now).command_lines == p.command_lines,
        p.with_chunk(text, now).chat_lines == p.chat_lines,
{
    assert(p.stream_buffer + Seq::<char>::empty() =~= p.stream_buffer);
    assert(text.len() == 0 ==> text =~= seq![]);
}

/// Enter hands on only the slash commands that the panel cannot carry out by itself, and asks
/// the model only in Chat mode and only what is no slash command. `/clear` leaves the Command
/// transcript as it is.
pub proof fn law_enter(p: PanelView)
    ensures
        p.entered().1 matches ActionView::RunSlashCommand(c) ==> c is Info || c is Model || (
        c matches CommandView::Level { level } && level is Some),
        p.entered().1 matches ActionView::SubmitChat(q) ==> p.interaction_mode
            == InteractionMode::Chat && q == text::trimmed(p.input_buffer) && q.len() > 0 && slash(q)
            is None,
        slash(text::trimmed(p.input_buffer)) == Some(SlashView::Command(CommandView::Clear)) && text::trimmed(
            p.input_buffer,
        ).len() > 0 ==> p.entered().0.command_lines == p.command_lines
            && p.entered().0.chat_lines.len() == 0,
{
}

/// The list of actions stays up when the panel is closed, by Escape or otherwise, and while the
/// user types, scrolls and changes focus or transcript; `/actions clear` dismisses it.
pub proof fn law_actions_stay_up(
    p: PanelView,
    key: KeyView,
    mods: Modifiers,
    text: Option<Seq<char>>,
    repeat: bool,
)
    ensures
        p.hidden().actionable_items == p.actionable_items,
        p.hidden().action_goals == p.action_goals,
        p.error_dismissed().actionable_items == p.actionable_items,
        p.error_dismissed().action_goals == p.action_goals,
        slash(text::trimmed(p.input_buffer)) != Some(
            SlashView::Command(CommandView::Actions { clear: true }),
        ) ==> p.pressed(key, mods, text, repeat).0.actionable_items == p.actionable_items && p.pressed(
            key,
            mods,
            text,
            repeat,
        ).0.action_goals == p.action_goals,
        text::trimmed(p.input_buffer).len() > 0 && slash(text::trimmed(p.input_buffer)) == Some(
            SlashView::Command(CommandView::Actions { clear: true }),
        ) ==> p.entered().0.actionable_items.len() == 0,
{
}

proof fn lemma_without_loading(lines: Seq<LineView>)
    ensures
        without_loading(without_loading(lines)) == without_loading(lines),
        without_loading(lines).len() <= lines.len(),
    decreases lines.len(),
{
    if lines.len() > 0 {
        lemma_without_loading(lines.drop_last());
        let before = without_loading(lines.drop_last());
        if !is_loading(lines.last()) {
            assert(before.push(lines.last()).drop_last() =~= before);
        }
    }
}

/// Dismissing an error brings back what was shown before it: the chat it interrupted, without
/// its loading lines, whichever transcript is shown now. An error that stood alone leaves
/// nothing to show.
pub proof fn law_dismissed_error_restores(p: PanelView, message: Seq<char>, ollama: bool)
    requires
        p.chat_lines.len() <= usize::MAX,
    ensures
        p.chat_active ==> ({
            let after = p.with_error(message, ollama).error_dismissed();
            let toggled = p.with_error(message, ollama).mode_toggled().error_dismissed();
            &&& after.visible
            &&& after.mode == OverlayMode::Normal
            &&& after.chat_lines == without_loading(p.chat_lines)
            &&& after.command_lines == without_loading(p.command_lines)
            &&& toggled.mode == OverlayMode::Normal
            &&& toggled.chat_lines == without_loading(p.chat_lines)
            &&& toggled.command_lines == without_loading(p.command_lines)
        }),
        !p.chat_active ==> !p.with_error(message, ollama).error_dismissed().visible,
{
    lemma_without_loading(p.chat_lines);
    if p.chat_active {
        let shown = p.with_error(message, ollama).chat_lines;
        let kept = without_loading(p.chat_lines);
        assert(shown.take(kept.len() as int) =~= kept);
    }
}

/// The pieces of a chat answer end up in one line, in their order, and the whole answer
/// takes their place, whatever they say.
pub proof fn law_chat_answer(
    p: PanelView,
    first: Seq<char>,
    second: Seq<char>,
    reply: Seq<char>,
    items: Seq<Seq<char>>,
)
    requires
        p.chat_stream_line is None,
        p.chat_lines.len() < usize::MAX,
        first.len() > 0,
        second.len() > 0,
    ensures
        ({
            let kept = without_loading(p.chat_lines);
            let streamed = p.with_chat_chunk(first);
            &&& streamed.chat_lines == kept.push(
                layout::styled("Learnminal: "@ + first, LineStyle::Body),
            )
            &&& streamed.with_chat_chunk(second).chat_lines == kept.push(
                layout::styled("Learnminal: "@ + first + second, LineStyle::Body),
            )
            &&& streamed.answered(reply, items).chat_lines == kept.push(
                layout::styled("Learnminal: "@ + reply, LineStyle::Body),
            ).push(explain::blank())
        }),
{
    let kept = without_loading(p.chat_lines);
    let line = layout::styled("Learnminal: "@ + first, LineStyle::Body);
    lemma_without_loading(p.chat_lines);
    let streamed = p.with_chat_chunk(first);
    assert(kept.push(line).drop_last() =~= kept);
    assert(without_loading(kept.push(line)) =~= kept.push(line));
    assert(streamed.with_chat_chunk(second).chat_lines =~= kept.push(
        layout::styled("Learnminal: "@ + first + second, LineStyle::Body),
    ));
    assert(streamed.answered(reply, items).chat_lines =~= kept.push(
        layout::styled("Learnminal: "@ + reply, LineStyle::Body),
    ).push(explain::blank()));
}

/// Whether words are such that white space parts them.
pub open spec fn are_words(words: Seq<Seq<char>>) -> bool {
    forall|k: int|
        0 <= k < words.len() ==> (#[trigger] words[k]).len() > 0 && (forall|i: int|
            0 <= i < words[k].len() ==> !text::is_white(#[trigger] words[k][i]))
}

/// A line of words behind a slash is read as the command that its first word names, in whatever
/// case, with the words behind it as its arguments; a line without a slash is no command.
pub proof fn law_slash_commands(words: Seq<Seq<char>>, i: int)
    requires
        words.len() > 0,
        are_words(words),
        words[0][0] != '/',
    ensures
        ({
            let line = text::joined(words, seq![' ']);
            let read = slash(seq!['/'] + line);
            let name = text::lowered(words[0]);
            &&& slash(line) is None
            &&& name == "help"@ ==> read == Some(SlashView::Command(CommandView::Help))
            &&& name == "clear"@ ==> read == Some(SlashView::Command(CommandView::Clear))
            &&& name == "info"@ && words.len() == 1 ==> read == Some(
                SlashView::Command(CommandView::Info { refresh: false }),
            )
            &&& name == "info"@ && 1 <= i < words.len() && text::lowered(words[i]) == "refresh"@
                ==> read == Some(SlashView::Command(CommandView::Info { refresh: true }))
            &&& name == "actions"@ && words.len() == 1 ==> read == Some(
                SlashView::Command(CommandView::Actions { clear: false }),
            )
            &&& name == "actions"@ && 1 <= i < words.len() && text::lowered(words[i]) == "clear"@
                ==> read == Some(SlashView::Command(CommandView::Actions { clear: true }))
            &&& name == "model"@ && words.len() == 1 ==> read == Some(
                SlashView::Command(CommandView::Model { name: None }),
            )
            &&& name == "model"@ && words.len() > 1 && text::lowered(words[1]) == "list"@ ==> read
                == Some(SlashView::Command(CommandView::Model { name: None }))
            &&& name == "model"@ && words.len() > 1 && text::lowered(words[1]) != "list"@ ==> read
                == Some(SlashView::Command(CommandView::Model { name: Some(words[1]) }))
            &&& name == "level"@ && words.len() == 1 ==> read == Some(
                SlashView::Command(CommandView::Level { level: None }),
            )
            &&& name == "level"@ && words.len() > 1 ==> (match ExperienceLevel::named(words[1]) {
                Some(level) => read == Some(
                    SlashView::Command(CommandView::Level { level: Some(level) }),
                ),
                None => read matches Some(SlashView::Wrong(_)),
            })
        }),
{
    let line = text::joined(words, seq![' ']);
    let whole = seq!['/'] + line;
    lemma_slash_line(words);
    reveal_strlit("info");
    reveal_strlit("help");
    reveal_strlit("clear");
    reveal_strlit("model");
    reveal_strlit("level");
    reveal_strlit("actions");
    reveal_strlit("refresh");
    reveal_strlit("list");
    assert("info"@.len() == 4 && "help"@.len() == 4 && "clear"@.len() == 5 && "model"@.len() == 5
        && "level"@.len() == 5 && "actions"@.len() == 7);
    assert("info"@[0] == 'i' && "help"@[0] == 'h');
    assert("clear"@[0] == 'c' && "model"@[0] == 'm' && "level"@[0] == 'l');
    assert(text::lowered("refresh"@) =~= "refresh"@);
    assert(text::lowered("clear"@) =~= "clear"@);
    assert(text::lowered("list"@) =~= "list"@);
}

proof fn lemma_slash_line(words: Seq<Seq<char>>)
    requires
        words.len() > 0,
        are_words(words),
        words[0][0] != '/',
    ensures
        ({
            let line = text::joined(words, seq![' ']);
            &&& slash(line) is None
            &&& line.len() > 0
            &&& slash(seq!['/'] + line) == Some(slash_command(line))
            &&& text::word_list(line) == words
        }),
{
    let line = text::joined(words, seq![' ']);
    let whole = seq!['/'] + line;
    text::law_join_and_read_words(words);
    lemma_line_ends(words);
    text::lemma_trimmed_same(line);
    text::lemma_trimmed_same(whole);
    text::lemma_lead_is(whole, CharSet::Just('/'), 1);
    assert(whole.skip(1) =~= line);
}

proof fn lemma_line_ends(words: Seq<Seq<char>>)
    requires
        words.len() > 0,
        are_words(words),
    ensures
        text::joined(words, seq![' ']).len() > 0,
        text::joined(words, seq![' '])[0] == words[0][0],
        text::joined(words, seq![' ']).last() == words.last().last(),
        text::is_tight(text::joined(words, seq![' '])),
    decreases words.len(),
{
    if words.len() > 1 {
        let init = words.drop_last();
        assert forall|k: int| 0 <= k < init.len() implies (#[trigger] init[k]).len() > 0 && (forall|
            i: int,
        |
            0 <= i < init[k].len() ==> !text::is_white(#[trigger] init[k][i])) by {
            assert(init[k] == words[k]);
        }
        lemma_line_ends(init);
    }
    let first = words[0];
    let last = words[words.len() - 1];
    assert(!text::is_white(first[0]));
    assert(!text::is_white(last[last.len() - 1]));
}

/// Text without control characters is typed behind what stands in the input, where there is room
/// for it, and the last key takes away what was typed last.
pub proof fn law_typing(p: PanelView, text: Seq<char>, c: char)
    requires
        forall|i: int| 0 <= i < text.len() ==> !text::is_ctrl(#[trigger] text[i]),
        text.len() > 0,
        text::byte_len(p.input_buffer + text) <= 256,
        text::is_ctrl(c),
    ensures
        p.with_input(text).0.input_buffer == p.input_buffer + text,
        p.with_input(text).1,
        p.with_input(text).0.needs_redraw,
        p.with_input(seq![c]) == (p, false),
        text.len() == 1 ==> p.with_input(text).0.erased().input_buffer == p.input_buffer,
{
    lemma_typed_whole(p.input_buffer, text);
    if text.len() == 1 {
        assert((p.input_buffer + text).drop_last() =~= p.input_buffer);
    }
    assert(seq![c].drop_first() =~= Seq::<char>::empty());
    reveal_with_fuel(typed, 2);
}

proof fn lemma_typed_whole(buffer: Seq<char>, text: Seq<char>)
    requires
        forall|i: int| 0 <= i < text.len() ==> !text::is_ctrl(#[trigger] text[i]),
        text::byte_len(buffer + text) <= 256,
    ensures
        typed(buffer, text) == buffer + text,
    decreases text.len(),
{
    if text.len() == 0 {
        assert(buffer + text =~= buffer);
    } else {
        let rest = text.drop_first();
        let next = buffer.push(text[0]);
        assert(next + rest =~= buffer + text);
        text::lemma_byte_len_push(buffer, text[0]);
        text::lemma_byte_len_concat(next, rest);
        assert forall|i: int| 0 <= i < rest.len() implies !text::is_ctrl(#[trigger] rest[i]) by {
            assert(rest[i] == text[i + 1]);
        }
        lemma_typed_whole(next, rest);
    }
}

/// Lines that stand for an awaited answer are taken out, and all others stay, in their order.
pub proof fn law_loading_lines_are_taken_out(lines: Seq<LineView>, label: Seq<char>)
    requires
        forall|i: int| 0 <= i < lines.len() ==> (#[trigger] lines[i]).style != LineStyle::Loading,
    ensures
        without_loading(lines) == lines,
        without_loading(lines.push(layout::styled(label, LineStyle::Loading))) == lines,
        exists|i: int|
            0 <= i < loading_lines(label).len() && (#[trigger] loading_lines(label)[i]).style
                == LineStyle::Loading && loading_lines(label)[i].text == label,
    decreases lines.len(),
{
    let more = lines.push(layout::styled(label, LineStyle::Loading));
    assert(more.drop_last() =~= lines);
    if lines.len() > 0 {
        let init = lines.drop_last();
        assert forall|i: int| 0 <= i < init.len() implies (#[trigger] init[i]).style
            != LineStyle::Loading by {
            assert(init[i] == lines[i]);
        }
        law_loading_lines_are_taken_out(init, label);
        assert(lines[lines.len() - 1].style != LineStyle::Loading);
        assert(init.push(lines.last()) =~= lines);
    } else {
        assert(without_loading(lines) =~= lines);
    }
    assert(loading_lines(label)[1].text == label);
}

/// A message is shown under what stood there before: its title, and every line of it.
pub proof fn law_message_is_shown(
    p: PanelView,
    title: Seq<char>,
    body: Seq<Seq<char>>,
    i: int,
)
    requires
        forall|k: int|
            0 <= k < p.view_lines().len() ==> (#[trigger] p.view_lines()[k]).style
                != LineStyle::Loading,
        0 <= i < body.len(),
    ensures
        ({
            let lines = p.with_message(title, body).view_lines();
            let n = p.view_lines().len() as int;
            &&& p.view_lines().is_prefix_of(lines)
            &&& lines[n + 1].text == title
            &&& lines[n + 1].style == LineStyle::SectionHeader
            &&& body[i].is_suffix_of(lines[n + 2 + i].text)
            &&& lines.len() == n + 2 + body.len()
        }),
        p.with_message(title, body).stick_to_bottom,
        p.with_message(title, body).needs_redraw,
        p.with_message(title, body).interaction_mode == p.interaction_mode,
{
    law_loading_lines_are_taken_out(p.view_lines(), seq![]);
    let lines = p.with_message(title, body).view_lines();
    let n = p.view_lines().len() as int;
    assert(lines.take(n) =~= p.view_lines());
    let row = lines[n + 2 + i].text;
    assert(row.subrange(row.len() - body[i].len(), row.len() as int) =~= body[i]);
}

/// A question is shown in the conversation, under what was said before, and an answer is awaited;
/// the input is empty again.
pub proof fn law_question_is_shown(p: PanelView, query: Seq<char>)
    ensures
        p.chat_lines.is_prefix_of(p.asked(query).chat_lines),
        ({
            let line = p.asked(query).chat_lines[p.chat_lines.len() as int + 1];
            &&& text::has_sub(line.text, query)
            &&& line.style == LineStyle::SectionHeader
        }),
        exists|i: int|
            0 <= i < p.asked(query).chat_lines.len() && (#[trigger] p.asked(
                query,
            ).chat_lines[i]).style == LineStyle::Loading,
        p.asked(query).interaction_mode == InteractionMode::Chat,
        p.asked(query).chat_active,
        p.asked(query).input_buffer.len() == 0,
        p.asked(query).command_lines == p.command_lines,
{
    let lines = p.asked(query).chat_lines;
    let n = p.chat_lines.len() as int;
    assert(lines.take(n) =~= p.chat_lines);
    text::lemma_occurs("You: "@, query, seq![]);
    assert("You: "@ + query + seq![] =~= lines[n + 1].text);
    assert(lines[n + 3].style == LineStyle::Loading);
}

/// A command that runs is named, under what was shown before, and its result is awaited.
pub proof fn law_running_is_shown(p: PanelView, label: Seq<char>)
    ensures
        p.view_lines().is_prefix_of(p.running(label).view_lines()),
        text::has_sub(p.running(label).view_lines()[p.view_lines().len() as int + 1].text, label),
        p.running(label).view_lines().last().style == LineStyle::Body,
        p.running(label).view_lines()[p.view_lines().len() as int + 3].style == LineStyle::Loading,
        p.loading().view_lines().len() == 3,
        p.loading().view_lines()[1].style == LineStyle::Loading,
        p.running(label).input_buffer.len() == 0,
{
    let lines = p.running(label).view_lines();
    let n = p.view_lines().len() as int;
    assert(lines.take(n) =~= p.view_lines());
    text::lemma_occurs("Running "@, label, "…"@);
    assert(lines[n + 1].text == "Running "@ + label + "…"@);
}

/// An error is shown as one, with its message; in a conversation it stands under what was said,
/// and otherwise alone. How the model server is started is told where that helps.
pub proof fn law_error_is_shown(p: PanelView, message: Seq<char>, ollama: bool)
    requires
        forall|k: int|
            0 <= k < p.chat_lines.len() ==> (#[trigger] p.chat_lines[k]).style
                != LineStyle::Loading,
    ensures
        ({
            let q = p.with_error(message, ollama);
            let lines = if p.chat_active {
                q.chat_lines
            } else {
                q.command_lines
            };
            let n = if p.chat_active {
                p.chat_lines.len() as int
            } else {
                0
            };
            &&& q.visible
            &&& q.mode == OverlayMode::Error
            &&& p.chat_active ==> p.chat_lines.is_prefix_of(lines)
            &&& lines[n].text == message
            &&& lines[n].style == LineStyle::Error
            &&& lines.len() == n + if ollama {
                2int
            } else {
                1int
            }
            &&& ollama ==> text::has_sub(lines[n + 1].text, "ollama serve"@)
        }),
{
    law_loading_lines_are_taken_out(p.chat_lines, seq![]);
    let q = p.with_error(message, ollama);
    reveal_strlit("Start with: ollama serve");
    reveal_strlit("ollama serve");
    let hint = "Start with: ollama serve"@;
    assert(hint.subrange(12, 24) =~= "ollama serve"@);
    assert(text::occurs_at(hint, "ollama serve"@, 12));
    if p.chat_active {
        assert(q.chat_lines.take(p.chat_lines.len() as int) =~= p.chat_lines);
    }
}

/// What is explained, or looked up, is what the panel shows, with the commands in it on offer.
pub proof fn law_results_are_shown(
    p: PanelView,
    explanation: ExplainView,
    reference: CommandReferenceView,
)
    ensures
        p.with_explanation(explanation).command_lines == explain::explained(explanation),
        p.with_explanation(explanation).actionable_items == explain::response_items(explanation),
        p.with_explanation(explanation).stream_buffer.len() == 0,
        p.with_reference(reference).command_lines == explain::reference_lines(reference),
        p.with_reference(reference).actionable_items == explain::reference_items(
            reference.sections,
        ),
        p.with_reference(reference).view_lines() == p.with_reference(reference).command_lines,
{
}

/// The arrows scroll by a row, up not beyond the start, and leave the bottom; up and down again
/// leads back. A held key scrolls faster and faster, up to twelve rows.
pub proof fn law_scrolling(p: PanelView)
    ensures
        p.scroll_lines(false) == 1,
        1 <= p.scroll_lines(true) <= 12,
        p.scroll_lines(true) <= p.scroll_counted(true).scroll_lines(true),
        !p.scrolled_up(false).stick_to_bottom,
        p.scroll_offset > 0 ==> p.scrolled_up(false).scroll_offset == p.scroll_offset - 1,
        p.scroll_offset == 0 ==> p.scrolled_up(false).scroll_offset == 0,
        p.scroll_offset < usize::MAX ==> p.scrolled_down(false).scroll_offset == p.scroll_offset
            + 1,
        p.scroll_offset > 0 ==> p.scrolled_up(false).scrolled_down(false).scroll_offset
            == p.scroll_offset,
        p.scrolled_up(true).scroll_offset <= p.scroll_offset <= p.scrolled_down(
            true,
        ).scroll_offset,
        p.scroll_counted(false).scroll_burst == 0,
        p.scroll_burst < u32::MAX ==> p.scroll_counted(true).scroll_burst == p.scroll_burst + 1,
        p.scrolled_up(false).view_lines() == p.view_lines(),
        p.scrolled_down(false).view_lines() == p.view_lines(),
{
}

/// What each key does: the arrows scroll, Tab changes the mode, Ctrl+Shift+Tab moves the focus,
/// Backspace takes away a character, and Shift+Y copies the command.
pub proof fn law_keys(p: PanelView, mods: Modifiers, text: Option<Seq<char>>, repeat: bool)
    ensures
        ({
            let plain = !mods.control && !mods.alt;
            let up = p.pressed(KeyView::Named(NamedKey::ArrowUp), mods, text, repeat);
            let down = p.pressed(KeyView::Named(NamedKey::ArrowDown), mods, text, repeat);
            let tab = p.pressed(KeyView::Named(NamedKey::Tab), mods, text, repeat);
            let back = p.pressed(KeyView::Named(NamedKey::Backspace), mods, text, repeat);
            let y = p.pressed(KeyView::Character("y"@), mods, text, repeat);
            let capital = p.pressed(KeyView::Character("Y"@), mods, text, repeat);
            &&& plain ==> up == (p.scrolled_up(repeat), ActionView::ScrollUp)
            &&& plain ==> down == (p.scrolled_down(repeat), ActionView::ScrollDown)
            &&& plain ==> tab == (p.mode_toggled(), ActionView::ToggleMode)
            &&& mods.control && mods.shift && !mods.alt ==> tab == (
                p.focus_toggled(),
                ActionView::Nothing,
            )
            &&& plain && p.input_focus == InputFocus::Overlay && p.input_focused ==> back == (
                p.erased(),
                ActionView::Nothing,
            )
            &&& plain && mods.shift && p.context_command.len() > 0 ==> y == (
                p,
                ActionView::CopySelection(p.context_command),
            ) && capital == y
        }),
        p.mode_toggled().interaction_mode != p.interaction_mode,
        p.focus_toggled().input_focus != p.input_focus,
        p.focused(InputFocus::Terminal).input_focus == InputFocus::Terminal,
        p.focused(InputFocus::Overlay).input_focus == InputFocus::Overlay,
        p.mode_toggled().command_lines == p.command_lines,
        p.mode_toggled().chat_lines == p.chat_lines,
        p.input_buffer.len() > 0 ==> p.erased().input_buffer == p.input_buffer.drop_last(),
{
    reveal_strlit("y");
    reveal_strlit("Y");
    assert(text::lowered("Y"@) =~= text::lowered("y"@));
}

/// A key that is no command to the panel types what it produces, where the keys go to the panel.
pub proof fn law_characters_are_typed(
    p: PanelView,
    key: Seq<char>,
    text: Seq<char>,
    mods: Modifiers,
    repeat: bool,
)
    requires
        p.input_focus == InputFocus::Overlay,
        p.input_focused,
        !mods.control,
        !mods.alt,
        !mods.shift,
        text.len() > 0,
        forall|i: int| 0 <= i < text.len() ==> !text::is_ctrl(#[trigger] text[i]),
        text::byte_len(p.input_buffer + text) <= 256,
        text::byte_len(p.input_buffer + seq![' ']) <= 256,
    ensures
        ({
            let typed_text = p.pressed(KeyView::Character(key), mods, Some(text), repeat);
            let typed_key = p.pressed(KeyView::Character(text), mods, None, repeat);
            let space = p.pressed(KeyView::Named(NamedKey::Space), mods, None, repeat);
            &&& typed_text.0.input_buffer == p.input_buffer + text
            &&& typed_text.1 == ActionView::Nothing
            &&& typed_key.0.input_buffer == p.input_buffer + text
            &&& space.0.input_buffer == p.input_buffer + seq![' ']
        }),
{
    reveal_strlit(" ");
    assert(" "@ =~= seq![' ']);
    lemma_typed_whole(p.input_buffer, text);
    lemma_typed_whole(p.input_buffer, seq![' ']);
}

/// Enter sends a question in a conversation, and leaves a line that is no command alone
/// otherwise; a command that is carried out elsewhere is handed on, and what is wrong with one is
/// told.
pub proof fn law_enter_sends(p: PanelView, mods: Modifiers, text: Option<Seq<char>>, repeat: bool)
    requires
        p.input_focus == InputFocus::Overlay,
        p.input_focused,
        !mods.control,
        !mods.alt,
    ensures
        ({
            let query = text::trimmed(p.input_buffer);
            let done = p.pressed(KeyView::Named(NamedKey::Enter), mods, text, repeat);
            &&& query.len() == 0 ==> done == (p, ActionView::Nothing)
            &&& query.len() > 0 && query[0] != '/' && p.interaction_mode == InteractionMode::Chat
                ==> done == (p.asked(query), ActionView::SubmitChat(query))
            &&& query.len() > 0 && query[0] != '/' && p.interaction_mode == InteractionMode::Command
                ==> done == (p, ActionView::Nothing)
            &&& query.len() > 0 ==> (slash(query) matches Some(SlashView::Wrong(m)) ==> (done.1
                == ActionView::Nothing && done.0.input_buffer.len() == 0 && explain::mentions(
                done.0.view_lines(),
                m,
            )))
            &&& query.len() > 0 ==> (slash(query) matches Some(SlashView::Command(c)) ==> (c is Info
                || c is Model || (c is Level && c->level is Some) ==> done.1
                == ActionView::RunSlashCommand(c)))
            &&& query.len() > 0 && slash(query) == Some(SlashView::Command(CommandView::Clear))
                ==> done.0 == (PanelView { input_buffer: seq![], ..p }).chat_cleared()
        }),
        p.chat_cleared().chat_lines.len() == 0,
        p.chat_cleared().command_lines == p.command_lines,
        p.chat_cleared().actionable_items == p.actionable_items,
{
    let query = text::trimmed(p.input_buffer);
    text::law_trimmed_takes_white_space(p.input_buffer);
    if query.len() > 0 {
        text::lemma_trimmed_same(query);
        if let Some(SlashView::Wrong(m)) = slash(query) {
            let q = PanelView { input_buffer: seq![], needs_redraw: true, ..p };
            let lines = q.with_message("Command error"@, seq![m]).view_lines();
            let last = lines.last();
            assert(last == explain::indented_lines(seq![m])[0]);
            assert(text::has_sub(last.text, m)) by {
                if m.len() == 0 {
                    text::lemma_occurs(seq![], m, last.text);
                    assert(Seq::<char>::empty() + m + last.text =~= last.text);
                } else {
                    text::lemma_occurs("  "@, m, seq![]);
                    assert("  "@ + m + seq![] =~= last.text);
                }
            }
            assert(lines[lines.len() - 1] == last);
        }
    }
}

/// The actions that were found are on offer, up to five, each with its goal; without any, those
/// on offer stay.
pub proof fn law_actions_are_offered(
    p: PanelView,
    items: Seq<actions::ActionView>,
    reply: Seq<char>,
    given: Seq<Seq<char>>,
    i: int,
)
    requires
        0 <= i < 5,
    ensures
        i < items.len() ==> p.with_actions(items).actionable_items[i] == items[i].command
            && p.with_actions(items).action_goals[i] == items[i].goal,
        items.len() <= 5 && items.len() > 0 ==> p.with_actions(items).actionable_items.len()
            == items.len(),
        p.with_actions(seq![]) == p,
        i < given.len() ==> answer_items(reply, given)[i] == given[i],
        0 < given.len() <= 5 ==> answer_items(reply, given) == given,
        answer_items(reply, seq![]) == explain::actionable(reply),
        p.actions_dismissed().actionable_items.len() == 0,
        p.actions_dismissed().view_lines() == p.view_lines(),
{
}

/// Opening the panel keeps what is known of the last command and begins anew; closing it keeps
/// the actions.
pub proof fn law_show_and_hide(p: PanelView)
    ensures
        p.shown().visible,
        p.shown().context_command == p.context_command,
        p.shown().context_selection == p.context_selection,
        p.shown().command_lines.len() == 0,
        p.shown().chat_lines.len() == 0,
        p.shown().input_buffer.len() == 0,
        p.shown().interaction_mode == InteractionMode::Command,
        !p.hidden().visible,
        p.hidden().view_lines().len() == 0,
        p.hidden().input_buffer.len() == 0,
        p.hidden().actionable_items == p.actionable_items,
        p.hidden().context_command == p.context_command,
{
}

/// Each level is listed with its name and what it is for.
pub proof fn law_levels_are_listed(i: int)
    requires
        0 <= i < 4,
    ensures
        level_lines().len() == 4,
        text::in_order(
            level_lines()[i],
            seq![
                ExperienceLevel::in_order()[i].name(),
                ExperienceLevel::in_order()[i].audience(),
            ],
        ),
{
    let level = ExperienceLevel::in_order()[i];
    lemma_two_parts(seq![], level.name(), " — "@, level.audience(), seq![]);
    assert(Seq::<char>::empty() + level.name() + " — "@ + level.audience() + seq![]
        =~= level_lines()[i]);
}

proof fn lemma_two_parts(
    head: Seq<char>,
    a: Seq<char>,
    middle: Seq<char>,
    b: Seq<char>,
    tail: Seq<char>,
)
    ensures
        text::in_order(head + a + middle + b + tail, seq![a, b]),
{
    text::lemma_in_order_one(a);
    text::lemma_in_order_around(head, a, seq![], seq![a]);
    assert(head + a + seq![] =~= head + a);
    text::lemma_in_order_one(b);
    text::lemma_in_order_around(middle, b, tail, seq![b]);
    text::lemma_in_order_concat(head + a, middle + b + tail, seq![a], seq![b]);
    assert(head + a + (middle + b + tail) =~= head + a + middle + b + tail);
    assert(seq![a] + seq![b] =~= seq![a, b]);
}

/// Each action is listed under its number, with its goal where it has one.
pub proof fn law_actions_are_listed(items: Seq<Seq<char>>, goals: Seq<Seq<char>>, i: int)
    requires
        0 <= i < items.len(),
    ensures
        action_lines(items, goals).len() == items.len(),
        text::in_order(
            action_lines(items, goals)[i],
            seq![text::decimal((i + 1) as nat), items[i]],
        ),
        i < goals.len() && goals[i].len() > 0 ==> goals[i].is_suffix_of(
            action_lines(items, goals)[i],
        ),
        action_lines(seq![], goals).len() == 1,
{
    let line = action_lines(items, goals)[i];
    let n = text::decimal((i + 1) as nat);
    let tail = line.skip((n + ". "@ + items[i]).len() as int);
    lemma_two_parts(seq![], n, ". "@, items[i], tail);
    assert(Seq::<char>::empty() + n + ". "@ + items[i] + tail =~= line);
    if i < goals.len() && goals[i].len() > 0 {
        assert(line.subrange(line.len() - goals[i].len(), line.len() as int) =~= goals[i]);
    }
}

/// Whether a line holds `needle`.
pub open spec fn told_in(lines: Seq<Seq<char>>, needle: Seq<char>) -> bool {
    exists|i: int| 0 <= i < lines.len() && text::has_sub(#[trigger] lines[i], needle)
}

proof fn lemma_told_concat(a: Seq<Seq<char>>, b: Seq<Seq<char>>, needle: Seq<char>)
    ensures
        told_in(a, needle) || told_in(b, needle) ==> told_in(a + b, needle),
{
    if told_in(a, needle) {
        let i = choose|i: int| 0 <= i < a.len() && text::has_sub(#[trigger] a[i], needle);
        assert((a + b)[i] == a[i]);
    } else if told_in(b, needle) {
        let i = choose|i: int| 0 <= i < b.len() && text::has_sub(#[trigger] b[i], needle);
        assert((a + b)[a.len() + i] == b[i]);
    }
}

proof fn lemma_told_info(info: SystemInfo, needle: Seq<char>)
    ensures
        told_in(machine_report(info), needle) || told_in(package_report(info), needle) || told_in(
            tool_report(info),
            needle,
        ) || told_in(age_report(info), needle) ==> told_in(info_lines(info), needle),
{
    let a = machine_report(info);
    let b = package_report(info);
    let c = tool_report(info);
    let d = age_report(info);
    lemma_told_concat(a, b, needle);
    lemma_told_concat(a + b, c, needle);
    lemma_told_concat(a + b + c, d, needle);
}

proof fn lemma_end_stands(head: Seq<char>, tail: Seq<char>)
    ensures
        text::has_sub(head + tail, tail),
{
    text::lemma_occurs(head, tail, seq![]);
    assert(head + tail + seq![] =~= head + tail);
}

/// What is known of the machine is listed: the system, the architecture, the shell, every package
/// manager and every tool.
pub proof fn law_machine_is_listed(info: SystemInfo, i: int)
    ensures
        told_in(info_lines(info), info.os@),
        told_in(info_lines(info), info.arch@),
        told_in(info_lines(info), info.shell@),
        0 <= i < info.package_managers@.len() ==> told_in(
            info_lines(info),
            info.package_managers@[i]@,
        ),
        0 <= i < info.installed_tools@.len() ==> told_in(
            info_lines(info),
            info.installed_tools@[i]@,
        ),
        info.collected_at_display matches Some(display) ==> told_in(info_lines(info), display@),
        info.collected_at_display is None ==> (info.collected_at matches Some(at) ==> told_in(
            info_lines(info),
            text::signed_decimal(at as int),
        )),
{
    let machine = machine_report(info);
    lemma_end_stands("OS: "@, info.os@);
    assert(text::has_sub(machine[0], info.os@));
    lemma_told_info(info, info.os@);
    lemma_end_stands("Architecture: "@, info.arch@);
    assert(text::has_sub(machine[1], info.arch@));
    lemma_told_info(info, info.arch@);
    lemma_end_stands("Shell: "@, info.shell@);
    assert(text::has_sub(machine[2], info.shell@));
    lemma_told_info(info, info.shell@);
    if 0 <= i < info.package_managers@.len() {
        let list = text::views(info.package_managers@);
        let all = text::joined(list, ", "@);
        text::law_joined_holds_all(list, ", "@);
        text::lemma_in_order_each(all, list, i);
        lemma_end_stands("Package managers: "@, all);
        text::lemma_sub_within(machine[3], all, list[i]);
        lemma_told_info(info, list[i]);
    }
    if 0 <= i < info.installed_tools@.len() {
        let list = text::views(info.installed_tools@);
        let all = text::joined(list, ", "@);
        text::law_joined_holds_all(list, ", "@);
        text::lemma_in_order_each(all, list, i);
        let head = "Installed tools ("@ + text::decimal(info.installed_tools@.len()) + "): "@;
        lemma_end_stands(head, all);
        text::lemma_sub_within(tool_report(info)[0], all, list[i]);
        lemma_told_info(info, list[i]);
    }
    if let Some(display) = info.collected_at_display {
        lemma_end_stands("Last collected: "@, display@);
        assert(text::has_sub(age_report(info)[0], display@));
        lemma_told_info(info, display@);
    } else if let Some(at) = info.collected_at {
        let shown = text::signed_decimal(at as int);
        lemma_end_stands("Last collected: "@, shown);
        assert(text::has_sub(age_report(info)[0], shown));
        lemma_told_info(info, shown);
    }
}

/// The packages of every manager are listed under its name: how many there are, the first eight
/// of them, and how many more there are.
pub proof fn law_packages_are_listed(info: SystemInfo, m: int, k: int)
    requires
        info.well_formed(),
        0 <= m < info.installed_packages@.len(),
    ensures
        ({
            let name = info.installed_packages@[m].0@;
            let list = text::views(info.installed_packages@[m].1@);
            exists|line: Seq<char>|
                #[trigger] info_lines(info).contains(line) && text::has_sub(line, name)
                    && text::has_sub(line, text::decimal(list.len())) && (0 <= k < list.len() && k
                    < 8 ==> text::has_sub(line, list[k])) && (list.len() > 8 ==> text::has_sub(
                    line,
                    text::decimal((list.len() - 8) as nat) + " more"@,
                ))
        }),
{
    law_each_manager_is_listed_once(info);
    let packages = info.installed_packages@;
    let name = packages[m].0@;
    let list = text::views(packages[m].1@);
    let line = package_line(name, list);
    let lines = package_lines(packages, text::sorted(manager_names(packages)));
    assert(lines.contains(line));
    let r = lines.index_of(line);
    let report = package_report(info);
    assert(report[1 + r] == line);
    let all = info_lines(info);
    assert(all[4 + 1 + r] == line);
    assert(info_lines(info).contains(line));
    lemma_package_line(name, list, k);
}

proof fn lemma_package_line(name: Seq<char>, list: Seq<Seq<char>>, k: int)
    ensures
        ({
            let line = package_line(name, list);
            &&& text::has_sub(line, name)
            &&& text::has_sub(line, text::decimal(list.len()))
            &&& 0 <= k < list.len() && k < 8 ==> text::has_sub(line, list[k])
            &&& list.len() > 8 ==> text::has_sub(
                line,
                text::decimal((list.len() - 8) as nat) + " more"@,
            )
        }),
{
    let sample = if list.len() > 8 {
        list.take(8)
    } else {
        list
    };
    let n = text::decimal(list.len());
    let shown = text::joined(sample, ", "@);
    let rest = if list.len() > 8 {
        text::decimal((list.len() - 8) as nat) + " more"@
    } else {
        seq![]
    };
    let suffix = if list.len() > 8 {
        " … +"@ + text::decimal((list.len() - 8) as nat) + " more"@
    } else {
        seq![]
    };
    assert(suffix =~= (if list.len() > 8 {
        " … +"@
    } else {
        seq![]
    }) + rest);
    lemma_line_parts("  "@, name, " ("@, n, "): "@, shown, suffix);
    if 0 <= k < list.len() && k < 8 {
        text::law_joined_holds_all(sample, ", "@);
        text::lemma_in_order_each(shown, sample, k);
        text::lemma_sub_within(package_line(name, list), shown, list[k]);
    }
    if list.len() > 8 {
        lemma_end_stands(" … +"@, rest);
        text::lemma_sub_within(package_line(name, list), suffix, rest);
    }
}

proof fn lemma_line_parts(
    a: Seq<char>,
    b: Seq<char>,
    c: Seq<char>,
    d: Seq<char>,
    e: Seq<char>,
    f: Seq<char>,
    g: Seq<char>,
)
    ensures
        text::has_sub(a + b + c + d + e + f + g, b),
        text::has_sub(a + b + c + d + e + f + g, d),
        text::has_sub(a + b + c + d + e + f + g, f),
        text::has_sub(a + b + c + d + e + f + g, g),
{
    let s = a + b + c + d + e + f + g;
    assert(text::occurs_at(s, b, a.len() as int)) by {
        assert(s.subrange(a.len() as int, a.len() as int + b.len()) =~= b);
    }
    let i = (a + b + c).len() as int;
    assert(text::occurs_at(s, d, i)) by {
        assert(s.subrange(i, i + d.len()) =~= d);
    }
    let j = (a + b + c + d + e).len() as int;
    assert(text::occurs_at(s, f, j)) by {
        assert(s.subrange(j, j + f.len()) =~= f);
    }
    let k = (a + b + c + d + e + f).len() as int;
    assert(text::occurs_at(s, g, k)) by {
        assert(s.subrange(k, k + g.len()) =~= g);
    }
}

/// Every command that is known behind a slash is named in the help.
pub proof fn law_help_names_every_command()
    ensures
        told_in(help_lines(), "/info"@),
        told_in(help_lines(), "/model"@),
        told_in(help_lines(), "/level"@),
        told_in(help_lines(), "/actions"@),
        told_in(help_lines(), "/clear"@),
        told_in(help_lines(), "/help"@),
{
    let lines = help_lines();
    reveal_strlit("/info");
    reveal_strlit("/info refresh — re-scan system and refresh package inventory");
    assert(lines[1].subrange(0, 5) =~= "/info"@);
    assert(text::occurs_at(lines[1], "/info"@, 0));
    reveal_strlit("/model");
    reveal_strlit("/model list — show installed Ollama models");
    assert(lines[2].subrange(0, 6) =~= "/model"@);
    assert(text::occurs_at(lines[2], "/model"@, 0));
    reveal_strlit("/level");
    reveal_strlit("/level — show experience levels");
    assert(lines[4].subrange(0, 6) =~= "/level"@);
    assert(text::occurs_at(lines[4], "/level"@, 0));
    reveal_strlit("/actions");
    reveal_strlit("/actions clear — dismiss the Actions panel");
    assert(lines[7].subrange(0, 8) =~= "/actions"@);
    assert(text::occurs_at(lines[7], "/actions"@, 0));
    reveal_strlit("/clear");
    reveal_strlit("/clear — clear the Chat transcript");
    assert(lines[8].subrange(0, 6) =~= "/clear"@);
    assert(text::occurs_at(lines[8], "/clear"@, 0));
    reveal_strlit("/help");
    reveal_strlit("/help — show this list");
    assert(lines[9].subrange(0, 5) =~= "/help"@);
    assert(text::occurs_at(lines[9], "/help"@, 0));
}

/// Whether what is known of the last command, where the keys go to, and what was typed are the
/// same in two panels.
pub open spec fn same_surroundings(p: PanelView, q: PanelView) -> bool {
    &&& q.context_command == p.context_command
    &&& q.context_selection == p.context_selection
    &&& q.input_focus == p.input_focus
    &&& q.input_focused == p.input_focused
}

/// Nothing that is shown changes what is known of the last command, or where the keys go to; and
/// whatever is shown anew is drawn.
pub proof fn law_surroundings_stay(
    p: PanelView,
    text: Seq<char>,
    now: u64,
    items: Seq<Seq<char>>,
    lines: Seq<Seq<char>>,
    flag: bool,
    explanation: ExplainView,
    reference: CommandReferenceView,
    found: Seq<actions::ActionView>,
)
    ensures
        same_surroundings(p, p.hidden()),
        same_surroundings(p, p.actions_dismissed()),
        same_surroundings(p, p.with_actions(found)),
        same_surroundings(p, p.error_dismissed()),
        same_surroundings(p, p.loading()),
        same_surroundings(p, p.with_chunk(text, now)),
        same_surroundings(p, p.with_explanation(explanation)),
        same_surroundings(p, p.running(text)),
        same_surroundings(p, p.with_reference(reference)),
        same_surroundings(p, p.chat_cleared()),
        same_surroundings(p, p.asked(text)),
        same_surroundings(p, p.with_chat_chunk(text)),
        same_surroundings(p, p.answered(text, items)),
        same_surroundings(p, p.with_message(text, lines)),
        same_surroundings(p, p.with_error(text, flag)),
        same_surroundings(p, p.mode_toggled()),
        same_surroundings(p, p.scrolled_up(flag)),
        same_surroundings(p, p.scrolled_down(flag)),
        same_surroundings(p, p.erased()),
        p.loading().needs_redraw && p.with_explanation(explanation).needs_redraw && p.running(
            text,
        ).needs_redraw && p.with_reference(reference).needs_redraw && p.chat_cleared().needs_redraw
            && p.asked(text).needs_redraw && p.answered(text, items).needs_redraw && p.with_error(
            text,
            flag,
        ).needs_redraw && p.mode_toggled().needs_redraw && p.hidden().needs_redraw
            && p.shown().needs_redraw && p.scrolled_up(flag).needs_redraw && p.scrolled_down(
            flag,
        ).needs_redraw && p.erased().needs_redraw && p.actions_dismissed().needs_redraw,
{
}

/// A question begins an answer, and only the answer, an error or another command ends it; what
/// comes in brings the newest line into view.
pub proof fn law_answer_is_awaited(
    p: PanelView,
    text: Seq<char>,
    items: Seq<Seq<char>>,
    lines: Seq<Seq<char>>,
    flag: bool,
)
    ensures
        p.asked(text).chat_active,
        !p.asked(text).has_chunks,
        p.asked(text).stream_buffer.len() == 0,
        p.with_chat_chunk(text).chat_active == p.chat_active,
        text.len() > 0 ==> p.with_chat_chunk(text).has_chunks,
        !p.answered(text, items).chat_active,
        p.answered(text, items).chat_stream_line is None,
        !p.with_error(text, flag).chat_active,
        !p.running(text).chat_active,
        !p.chat_cleared().chat_active,
        !p.with_message(text, lines).chat_active,
        p.asked(text).stick_to_bottom,
        p.answered(text, items).stick_to_bottom,
        p.running(text).stick_to_bottom,
        p.mode_toggled().stick_to_bottom,
        p.chat_cleared().stick_to_bottom,
        p.answered(text, items).command_lines == without_loading(p.command_lines),
        p.asked(text).actionable_items == p.actionable_items,
        p.with_message(text, lines).actionable_items == p.actionable_items,
        p.with_error(text, flag).actionable_items == p.actionable_items,
{
}

/// How many packages there are is told: as it was counted, or the sum over the managers.
pub proof fn law_package_total(info: SystemInfo)
    requires
        info.installed_packages@.len() > 0,
    ensures
        info.installed_packages_total matches Some(n) ==> told_in(
            info_lines(info),
            text::decimal(n as nat),
        ),
        info.installed_packages_total is None && info.installed_packages@.len() == 1 ==> told_in(
            info_lines(info),
            text::decimal(info.installed_packages@[0].1@.len()),
        ),
        info.installed_packages_total is None && info.installed_packages@.len() == 2 ==> told_in(
            info_lines(info),
            text::decimal(
                info.installed_packages@[0].1@.len() + info.installed_packages@[1].1@.len(),
            ),
        ),
        forall|all: Seq<(String, Vec<String>)>, more: (String, Vec<String>)| #[trigger]
            package_count(all.push(more)) == package_count(all) + more.1@.len(),
{
    let packages = info.installed_packages@;
    let total = match info.installed_packages_total {
        Some(n) => n as nat,
        None => package_count(packages),
    };
    let head = "Installed packages: "@;
    let tail = " total across managers"@;
    text::lemma_occurs(head, text::decimal(total), tail);
    assert(package_report(info)[0] == head + text::decimal(total) + tail);
    lemma_told_info(info, text::decimal(total));
    reveal_with_fuel(package_count, 3);
    if packages.len() == 1 {
        assert(packages.drop_last().len() == 0);
    }
    if packages.len() == 2 {
        assert(packages.drop_last().drop_last().len() == 0);
        assert(packages.drop_last().last() == packages[0]);
    }
    assert forall|all: Seq<(String, Vec<String>)>, more: (String, Vec<String>)| #[trigger]
        package_count(all.push(more)) == package_count(all) + more.1@.len() by {
        assert(all.push(more).drop_last() =~= all);
    }
}

/// Where the input is full, what fits is typed, and the rest is not.
pub proof fn law_typing_stops_when_full(
    buffer: Seq<char>,
    text: Seq<char>,
    c: char,
    rest: Seq<char>,
)
    requires
        forall|i: int| 0 <= i < text.len() ==> !text::is_ctrl(#[trigger] text[i]),
        !text::is_ctrl(c),
        text::byte_len(buffer + text) <= 256,
        text::byte_len(buffer + text) + text::char_bytes(c) > 256,
    ensures
        typed(buffer, text + (seq![c] + rest)) == buffer + text,
    decreases text.len(),
{
    let all = text + (seq![c] + rest);
    if text.len() == 0 {
        assert(all[0] == c);
        assert(buffer + text =~= buffer);
    } else {
        let more = text.drop_first();
        let next = buffer.push(text[0]);
        assert(next + more =~= buffer + text);
        assert(all.drop_first() =~= more + (seq![c] + rest));
        text::lemma_byte_len_push(buffer, text[0]);
        text::lemma_byte_len_concat(next, more);
        assert forall|i: int| 0 <= i < more.len() implies !text::is_ctrl(#[trigger] more[i]) by {
            assert(more[i] == text[i + 1]);
        }
        law_typing_stops_when_full(next, more, c, rest);
        assert(all[0] == text[0]);
    }
}

} // verus!
