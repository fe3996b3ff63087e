use learnminal::actions::ActionItem;
use learnminal::draw::{
    append_actionable_hud, hud_line_count, HudPlace, OverlayText, PanelGrid, Rgb, Theme,
};
use learnminal::explain::{
    actionable_items_from_command_reference, actionable_items_from_response,
    dedupe_actionable_items, extract_actionable_from_prose, format_structured_response,
    looks_like_command, parse_numbered_list_line, CommandReferenceResponse, ExplainResponse,
    FlagExplanation, ReferenceSection, HUD_MAX_ITEMS, SECTION_CONTEXT, SECTION_FIX, SECTION_FLAGS,
    SECTION_GENERAL, SECTION_SIMILAR,
};
use learnminal::layout::{
    char_display_width, pad_line, split_leading_whitespace, text_display_width,
    truncate_to_width, wrap_display_lines, wrap_line, wrap_line_respecting_indent,
    wrap_word_by_chars, DisplayLine, LineStyle,
};
use learnminal::overlay::{
    system_info_lines, InputFocus, InteractionMode, Key, KeyPress, Modifiers, NamedKey,
    OverlayAction, OverlayMode, OverlayPanel, SlashCommand, BATCH_INTERVAL_NANOS, INPUT_MAX_LEN,
    SCROLL_REPEAT_MAX_LINES,
};
use learnminal::settings::ExperienceLevel;
use learnminal::types::SystemInfo;

const NO_MODS: Modifiers = Modifiers { control: false, alt: false, shift: false };
const SHIFT: Modifiers = Modifiers { control: false, alt: false, shift: true };
const CONTROL: Modifiers = Modifiers { control: true, alt: false, shift: false };
const CONTROL_SHIFT: Modifiers = Modifiers { control: true, alt: false, shift: true };

fn key_char(s: &str) -> Key {
    Key::Character(s.to_string())
}

fn dispatch(panel: &mut OverlayPanel, key: Key, mods: Modifiers) -> OverlayAction {
    panel.dispatch_key(&key, mods, None, false)
}

fn dispatch_with_text(
    panel: &mut OverlayPanel,
    key: Key,
    mods: Modifiers,
    text: &str,
) -> OverlayAction {
    panel.dispatch_key(&key, mods, Some(text), false)
}

fn make_response() -> ExplainResponse {
    ExplainResponse {
        command_name: "git".into(),
        flags_explained: Vec::new(),
        general_utility: "general utility".into(),
        contextual_usage: "contextual usage".into(),
        error_fix: None,
        similar_commands: Vec::new(),
        tool_calls_made: Vec::new(),
        actionable_items: Vec::new(),
    }
}

fn line(text: &str) -> DisplayLine {
    DisplayLine { text: text.into(), style: LineStyle::Body }
}

fn theme() -> Theme {
    let color = |r: u8| Rgb { r, g: 0, b: 0 };
    Theme {
        panel_bg: color(1),
        header_bg: color(2),
        accent: color(3),
        title_fg: color(4),
        hint_fg: color(5),
        section_fg: color(6),
        body_fg: color(7),
        muted_fg: color(8),
        code_fg: color(9),
        selection_label_fg: color(10),
        selection_bg: color(11),
        selection_fg: color(12),
        input_bg: color(13),
        input_field_bg: color(14),
        input_fg: color(15),
        error_fg: color(16),
    }
}

fn panel_grid() -> PanelGrid {
    PanelGrid { start_row: 22, start_col: 60, cols: 39, rows: 18 }
}

#[test]
fn push_input_str_accepts_spaces() {
    let mut panel = OverlayPanel::new();
    panel.show();
    assert!(panel.push_input_str("hello world"));
    assert_eq!(panel.input_buffer, "hello world");
}

#[test]
fn wrap_line_breaks_long_words_instead_of_truncating() {
    let wrapped = wrap_line("abcdefghij", 4);
    assert!(wrapped.len() >= 2);
    assert!(wrapped.iter().all(|l| text_display_width(l) <= 4));
    assert_eq!(wrapped.concat(), "abcdefghij");
}

#[test]
fn wrap_display_lines_preserves_indent_on_continuations() {
    let lines =
        vec![DisplayLine { text: "  hello world foo bar".into(), style: LineStyle::Body }];
    let wrapped = wrap_display_lines(&lines, 10);
    assert!(wrapped.len() > 1);
    assert!(wrapped.iter().all(|l| l.text.starts_with("  ")));
    assert!(wrapped.iter().all(|l| text_display_width(&l.text) <= 10));
}

#[test]
fn pad_line_truncates_utf8_on_char_boundary() {
    // Each '─' is 3 bytes but 1 display column; byte-truncate at col 5 would panic.
    let line = "── Context ─────────────────";
    let padded = pad_line(line, 10);
    assert!(text_display_width(&padded) <= 10);
    assert!(std::str::from_utf8(padded.as_bytes()).is_ok());
}

#[test]
fn prepare_draw_includes_header_and_input() {
    let mut panel = OverlayPanel::new();
    panel.show();
    panel.set_context(Some("git status".into()), "git status".into());
    panel.set_loading();
    let texts = panel.prepare_draw(panel_grid(), &theme());
    assert!(texts.iter().any(|t| t.text.contains("Learnminal")));
    assert!(texts.iter().any(|t| t.text.contains('>')));
}

#[test]
fn actionable_hud_is_top_right_of_terminal_region() {
    let items = vec!["git status".to_string(), "git add -p".to_string()];
    let mut texts: Vec<OverlayText> = Vec::new();
    let place = HudPlace { row: 0, column: 49, cols: 50 };
    append_actionable_hud(&mut texts, &items, place, &theme(), Rgb { r: 0, g: 0, b: 0 });
    let actions = texts.iter().find(|t| t.text.contains("Actions")).expect("HUD title");
    assert!(actions.column > 1);
    assert_eq!(actions.line, 0);
    assert_eq!(texts.len(), 3);
    assert!(texts[1].text.starts_with(" 1. git status"));
    assert!(texts[2].text.starts_with(" 2. git add -p"));
    assert!(texts.iter().all(|t| text_display_width(&t.text) == 50));
    assert_eq!(hud_line_count(&items), 3);
}

#[test]
fn dispatch_key_escape_closes_overlay() {
    let mut panel = OverlayPanel::new();
    panel.show();
    let action = dispatch(&mut panel, Key::Named(NamedKey::Escape), NO_MODS);
    assert_eq!(action, OverlayAction::Close);
    assert!(!panel.is_visible());
}

#[test]
fn dispatch_key_escape_from_terminal_focus_returns_to_overlay() {
    let mut panel = OverlayPanel::new();
    panel.show();
    panel.set_input_focus(InputFocus::Terminal);
    let action = dispatch(&mut panel, Key::Named(NamedKey::Escape), NO_MODS);
    assert_eq!(action, OverlayAction::Nothing);
    assert!(panel.is_visible());
    assert_eq!(panel.input_focus(), InputFocus::Overlay);
}

#[test]
fn toggle_input_focus_switches_modes() {
    let mut panel = OverlayPanel::new();
    panel.show();
    assert_eq!(panel.input_focus(), InputFocus::Overlay);
    panel.toggle_input_focus();
    assert_eq!(panel.input_focus(), InputFocus::Terminal);
    assert!(!panel.input_focused);
    panel.toggle_input_focus();
    assert_eq!(panel.input_focus(), InputFocus::Overlay);
    assert!(panel.input_focused);
}

#[test]
fn dispatch_key_ctrl_shift_tab_toggles_input_focus() {
    let mut panel = OverlayPanel::new();
    panel.show();
    let action = dispatch(&mut panel, Key::Named(NamedKey::Tab), CONTROL_SHIFT);
    assert_eq!(action, OverlayAction::Nothing);
    assert_eq!(panel.input_focus(), InputFocus::Terminal);
    dispatch(&mut panel, Key::Named(NamedKey::Tab), CONTROL_SHIFT);
    assert_eq!(panel.input_focus(), InputFocus::Overlay);
}

#[test]
fn actionable_items_from_error_fix() {
    let mut response = make_response();
    response.error_fix =
        Some("Try:\n1. git status\n2. git add .\n```\ngit commit -m fix\n```".into());
    let items = actionable_items_from_response(&response);
    assert!(items.iter().any(|i| i.contains("git status")));
    assert!(items.iter().any(|i| i.contains("git commit")));
}

#[test]
fn dismiss_error_hides_error_only_overlay() {
    let mut panel = OverlayPanel::new();
    panel.show_backend_not_running();
    assert!(panel.is_error_mode());
    panel.dismiss_error();
    assert!(!panel.is_visible());
}

#[test]
fn dismiss_error_restores_content_after_follow_up_failure() {
    let mut panel = OverlayPanel::new();
    panel.show();
    panel.chat_lines.push(line("prior answer"));
    panel.chat_active = true;
    panel.interaction_mode = InteractionMode::Chat;
    panel.show_sse_error("backend down");
    assert!(panel.is_visible());
    assert!(panel.chat_lines.iter().any(|l| l.text.contains("backend down")));
    panel.dismiss_error();
    assert!(!panel.is_error_mode());
    assert!(panel.chat_lines.iter().any(|l| l.text.contains("prior answer")));
    assert!(!panel.chat_lines.iter().any(|l| l.text.contains("backend down")));
}

#[test]
fn dispatch_key_arrow_up_scrolls_toward_older_content() {
    let mut panel = OverlayPanel::new();
    panel.show();
    panel.scroll_offset = 5;
    panel.stick_to_bottom = false;
    let action = dispatch(&mut panel, Key::Named(NamedKey::ArrowUp), NO_MODS);
    assert_eq!(action, OverlayAction::ScrollUp);
    assert_eq!(panel.scroll_offset, 4);
    assert!(!panel.stick_to_bottom);
}

#[test]
fn dispatch_key_arrow_down_scrolls_toward_newer_content() {
    let mut panel = OverlayPanel::new();
    panel.show();
    panel.stick_to_bottom = false;
    let action = dispatch(&mut panel, Key::Named(NamedKey::ArrowDown), NO_MODS);
    assert_eq!(action, OverlayAction::ScrollDown);
    assert_eq!(panel.scroll_offset, 1);
}

#[test]
fn scroll_step_accelerates_on_repeat() {
    let mut panel = OverlayPanel::new();
    assert_eq!(panel.scroll_step(false), 1);
    assert_eq!(panel.scroll_step(true), 1);
    for _ in 0..8 {
        panel.scroll_step(true);
    }
    assert!(panel.scroll_step(true) > 1);
}

#[test]
fn begin_chat_message_sticks_to_bottom() {
    let mut panel = OverlayPanel::new();
    panel.show();
    panel.scroll_offset = 0;
    panel.stick_to_bottom = false;
    panel.begin_chat_message("what is rebase?");
    assert!(panel.stick_to_bottom);
}

#[test]
fn dispatch_key_shift_y_copies_command_not_explanation() {
    let mut panel = OverlayPanel::new();
    panel.show();
    panel.set_context(None, "git rebase -i HEAD~3".into());
    panel.has_chunks = true;
    panel.finalize(&make_response());
    let action = dispatch(&mut panel, key_char("y"), SHIFT);
    match action {
        OverlayAction::CopySelection(text) => {
            assert_eq!(text, "git rebase -i HEAD~3", "should copy only the command");
        },
        other => panic!("expected CopySelection, got {other:?}"),
    }
}

#[test]
fn dispatch_key_shift_y_with_no_command_returns_none() {
    let mut panel = OverlayPanel::new();
    panel.show();
    // No context_command set — nothing to copy.
    let action = dispatch(&mut panel, key_char("Y"), SHIFT);
    assert_eq!(action, OverlayAction::Nothing);
}

#[test]
fn dispatch_key_unhandled_navigation_returns_none() {
    let mut panel = OverlayPanel::new();
    panel.show();
    // A key that is not in the routing table falls through without typing.
    let action = dispatch(&mut panel, Key::Named(NamedKey::Other), NO_MODS);
    assert_eq!(action, OverlayAction::Nothing);
    assert!(panel.input_buffer.is_empty());
}

#[test]
fn dispatch_key_arrow_up_returns_none_with_ctrl() {
    let mut panel = OverlayPanel::new();
    panel.show();
    let action = dispatch(&mut panel, Key::Named(NamedKey::ArrowUp), CONTROL);
    assert_eq!(action, OverlayAction::Nothing);
}

#[test]
fn dispatch_key_when_hidden_short_circuits() {
    let mut panel = OverlayPanel::new();
    assert!(!panel.is_visible());
    let press = KeyPress {
        logical_key: key_char("a"),
        pressed: true,
        text: Some("a".to_string()),
        repeat: false,
    };
    assert_eq!(panel.handle_key(&press, NO_MODS), OverlayAction::Nothing);
    assert!(panel.input_buffer.is_empty());
    panel.show();
    panel.handle_key(&press, NO_MODS);
    assert_eq!(panel.input_buffer, "a");
    let release = KeyPress { pressed: false, ..press };
    panel.handle_key(&release, NO_MODS);
    assert_eq!(panel.input_buffer, "a");
}

#[test]
fn dispatch_key_plain_y_inserts_into_input_buffer() {
    let mut panel = OverlayPanel::new();
    panel.show();
    // Without Shift, plain "y" should be typed into the input field, not copied.
    let action = dispatch_with_text(&mut panel, key_char("y"), NO_MODS, "y");
    assert_eq!(action, OverlayAction::Nothing);
    assert_eq!(panel.input_buffer, "y");
}

#[test]
fn dispatch_key_backspace_removes_last_input_char() {
    let mut panel = OverlayPanel::new();
    panel.show();
    panel.push_input_str("hi");
    let action = dispatch(&mut panel, Key::Named(NamedKey::Backspace), NO_MODS);
    assert_eq!(action, OverlayAction::Nothing);
    assert_eq!(panel.input_buffer, "h");
}

#[test]
fn dispatch_key_enter_in_command_mode_does_not_submit() {
    let mut panel = OverlayPanel::new();
    panel.show();
    panel.push_input_str("what is rebase?");
    let action = dispatch(&mut panel, Key::Named(NamedKey::Enter), NO_MODS);
    assert_eq!(action, OverlayAction::Nothing);
}

#[test]
fn dispatch_key_enter_in_chat_mode_submits() {
    let mut panel = OverlayPanel::new();
    panel.show();
    panel.interaction_mode = InteractionMode::Chat;
    panel.push_input_str("what is rebase?");
    let action = dispatch(&mut panel, Key::Named(NamedKey::Enter), NO_MODS);
    assert_eq!(action, OverlayAction::SubmitChat("what is rebase?".into()));
    assert!(panel.input_buffer.is_empty());
    assert!(panel.chat_active);
    assert!(panel.chat_lines.iter().any(|l| l.text.contains("what is rebase?")));
}

#[test]
fn dispatch_key_tab_toggles_interaction_mode() {
    let mut panel = OverlayPanel::new();
    panel.show();
    assert_eq!(panel.interaction_mode, InteractionMode::Command);
    let action = dispatch(&mut panel, Key::Named(NamedKey::Tab), NO_MODS);
    assert_eq!(action, OverlayAction::ToggleMode);
    assert_eq!(panel.interaction_mode, InteractionMode::Chat);
}

#[test]
fn dispatch_key_enter_slash_help_is_local() {
    let mut panel = OverlayPanel::new();
    panel.show();
    panel.push_input_str("/help");
    let action = dispatch(&mut panel, Key::Named(NamedKey::Enter), NO_MODS);
    assert_eq!(action, OverlayAction::Nothing);
    assert!(panel.command_lines.iter().any(|l| l.text.contains("/info")));
}

#[test]
fn dispatch_key_enter_slash_info_triggers_command() {
    let mut panel = OverlayPanel::new();
    panel.show();
    panel.push_input_str("/info");
    let action = dispatch(&mut panel, Key::Named(NamedKey::Enter), NO_MODS);
    assert_eq!(action, OverlayAction::RunSlashCommand(SlashCommand::Info { refresh: false }));
}

#[test]
fn slash_command_parse_info_refresh() {
    let parsed = SlashCommand::parse("/info refresh").unwrap().unwrap();
    assert_eq!(parsed, SlashCommand::Info { refresh: true });
}

#[test]
fn slash_command_parse_clear() {
    assert_eq!(SlashCommand::parse("/clear").unwrap().unwrap(), SlashCommand::Clear);
}

#[test]
fn dispatch_key_enter_slash_clear_empties_chat() {
    let mut panel = OverlayPanel::new();
    panel.show();
    panel.interaction_mode = InteractionMode::Chat;
    panel.chat_lines.push(line("Learnminal: old reply"));
    panel.command_lines.push(line("Command explanation"));
    panel.push_input_str("/clear");
    let action = dispatch(&mut panel, Key::Named(NamedKey::Enter), NO_MODS);
    assert_eq!(action, OverlayAction::Nothing);
    assert!(panel.chat_lines.is_empty());
    assert_eq!(panel.interaction_mode(), InteractionMode::Chat);
    assert!(panel.command_lines.iter().any(|l| l.text.contains("Command explanation")));
}

#[test]
fn append_chunk_buffers_json_without_flashing_raw_tokens() {
    let mut panel = OverlayPanel::new();
    panel.show();
    panel.set_loading();
    panel.append_chunk("{\"command_name\":", 5);
    assert!(panel.stream_buffer.contains("command_name"));
    assert!(!panel.command_lines.iter().any(|l| l.text.contains("command_name")));
    assert!(panel.command_lines.iter().any(|l| l.text.contains("Loading")));
}

#[test]
fn finalize_marks_code_fences_with_code_style() {
    let mut panel = OverlayPanel::new();
    panel.show();
    panel.has_chunks = true;
    let mut response = make_response();
    response.general_utility = "intro\n```\ngit status\n```\noutro".into();
    panel.finalize(&response);

    // The fenced "git status" should be styled as Code; bookend lines as Body.
    let code_line = panel.command_lines.iter().find(|l| l.text.contains("git status")).unwrap();
    assert_eq!(code_line.style, LineStyle::Code);
    let intro_line = panel.command_lines.iter().find(|l| l.text.trim() == "intro").unwrap();
    assert_eq!(intro_line.style, LineStyle::Body);
    // Fence markers themselves are dropped.
    assert!(panel.command_lines.iter().all(|l| !l.text.contains("```")));
}

#[test]
fn sections_are_shown_where_there_is_something_to_show() {
    for with_fix in [false, true] {
        for flags in 0..3usize {
            for similar in 0..3usize {
                let mut response = make_response();
                response.command_name = "rsync".into();
                response.error_fix = if with_fix { Some("fix it".into()) } else { None };
                response.similar_commands = (0..similar).map(|i| format!("cmd{i}")).collect();
                response.flags_explained = (0..flags)
                    .map(|i| FlagExplanation {
                        flag: format!("--f{i}"),
                        meaning: format!("meaning{i}"),
                        example: format!("ex{i}"),
                    })
                    .collect();
                let lines = format_structured_response(&response);
                let has = |needle: &str| lines.iter().any(|l| l.text == needle);
                assert!(has(SECTION_GENERAL));
                assert!(has(SECTION_CONTEXT));
                assert!(lines[0].text.contains("rsync"));
                assert_eq!(has(SECTION_FIX), with_fix);
                assert_eq!(has(SECTION_SIMILAR), similar > 0);
                assert_eq!(has(SECTION_FLAGS), flags > 0);
            }
        }
    }
}

// ── Widths ──────────────────────────────────────────────────────────────────

#[test]
fn widths_follow_the_unicode_tables() {
    assert_eq!(char_display_width('a'), 1);
    assert_eq!(char_display_width('日'), 2);
    assert_eq!(char_display_width('\u{301}'), 0);
    assert_eq!(char_display_width('\n'), 0);
    assert_eq!(text_display_width("日本 a"), 6);
}

#[test]
fn cutting_never_splits_a_wide_character() {
    assert_eq!(truncate_to_width("日本", 3), "日");
    assert_eq!(truncate_to_width("abc", 0), "");
    assert_eq!(truncate_to_width("abc", 9), "abc");
    assert_eq!(pad_line("日本", 3), "日 ");
    assert_eq!(pad_line("ab", 4), "ab  ");
}

#[test]
fn wrapping_keeps_words_and_breaks_what_does_not_fit() {
    assert_eq!(wrap_line("a bb  ccc", 4), vec!["a bb", "ccc"]);
    assert_eq!(wrap_line("", 4), vec![""]);
    assert_eq!(wrap_line("   ", 4), vec![""]);
    assert_eq!(wrap_line("x abcdef y", 3), vec!["x", "abc", "def", "y"]);
    assert_eq!(wrap_word_by_chars("日本", 1), vec!["日", "本"]);
    assert_eq!(wrap_word_by_chars("", 3), vec![""]);
    assert_eq!(wrap_line_respecting_indent("  aa bb", 4), vec!["  aa", "  bb"]);
    assert_eq!(wrap_line_respecting_indent("     x", 3), vec!["   "]);
    assert_eq!(split_leading_whitespace("\t x"), ("\t ".to_string(), "x"));
}

// ── Actionable commands ─────────────────────────────────────────────────────

#[test]
fn actionable_commands_are_distinct_and_few() {
    let items: Vec<String> = vec![" a ".into(), "a".into(), "".into(), "b".into()];
    assert_eq!(dedupe_actionable_items(items), vec!["a", "b"]);
    let many: Vec<String> = (0..20).map(|i| format!("c{i}")).collect();
    assert_eq!(dedupe_actionable_items(many).len(), HUD_MAX_ITEMS);
    assert!(extract_actionable_from_prose(None).is_empty());
    assert_eq!(
        extract_actionable_from_prose(Some("- git pull\n- You should not, because it breaks")),
        vec!["git pull"]
    );
}

#[test]
fn commands_are_told_from_sentences() {
    assert!(looks_like_command("./run.sh"));
    assert!(looks_like_command("$ ls"));
    assert!(!looks_like_command("this should work"));
    assert!(!looks_like_command(&"a".repeat(201)));
    assert!(!looks_like_command("   "));
    assert_eq!(parse_numbered_list_line("12) ls -l").as_deref(), Some("ls -l"));
    assert_eq!(parse_numbered_list_line("ls"), None);
}

#[test]
fn references_offer_their_examples_or_their_synopsis() {
    let section = |name: &str, lines: &[&str]| ReferenceSection {
        name: name.to_string(),
        lines: lines.iter().map(|l| l.to_string()).collect(),
    };
    let mut reference = CommandReferenceResponse {
        title: "ls".to_string(),
        source: "man".to_string(),
        sections: vec![section("SYNOPSIS", &["", "ls [OPTION]"]), section("Examples", &["ls -l"])],
    };
    assert_eq!(actionable_items_from_command_reference(&reference), vec!["ls -l"]);
    reference.sections.pop();
    assert_eq!(actionable_items_from_command_reference(&reference), vec!["ls [OPTION]"]);

    let mut panel = OverlayPanel::new();
    panel.show();
    panel.toggle_interaction_mode();
    panel.show_command_reference(&reference);
    assert_eq!(panel.interaction_mode(), InteractionMode::Command);
    assert_eq!(panel.command_lines[1].text, "  (from man)");
    assert_eq!(panel.actionable_items, vec!["ls [OPTION]"]);
}

#[test]
fn listed_actions_win_over_the_suggested_fix() {
    let mut response = make_response();
    response.error_fix = Some("1. git status".into());
    response.flags_explained = vec![FlagExplanation {
        flag: "-p".into(),
        meaning: "patch".into(),
        example: "git add -p".into(),
    }];
    assert_eq!(actionable_items_from_response(&response), vec!["git status", "git add -p"]);
    response.actionable_items = vec!["git log".into()];
    assert_eq!(actionable_items_from_response(&response), vec!["git log"]);
}

// ── The panel over several operations ───────────────────────────────────────

#[test]
fn a_chat_answer_streams_into_one_line() {
    let mut panel = OverlayPanel::new();
    panel.show();
    panel.begin_chat_message("why?");
    assert!(panel.chat_lines.iter().any(|l| l.text.contains("Loading")));
    panel.append_chat_chunk("Hel");
    panel.append_chat_chunk("lo");
    assert!(!panel.chat_lines.iter().any(|l| l.text.contains("Loading")));
    assert_eq!(panel.chat_lines.last().unwrap().text, "Learnminal: Hello");
    panel.finalize_chat("Hello.\n1. ls -l", &[]);
    assert_eq!(panel.actionable_items, vec!["ls -l"]);
    assert!(!panel.chat_active);
    let n = panel.chat_lines.len();
    assert_eq!(panel.chat_lines[n - 2].text, "Learnminal: Hello.\n1. ls -l");
    assert_eq!(panel.chat_lines[n - 1].text, "");
}

#[test]
fn chunks_are_batched_for_a_moment() {
    let mut panel = OverlayPanel::new();
    panel.append_chunk("", 100);
    assert!(!panel.should_batch(100));
    panel.append_chunk("x", 100);
    assert!(panel.should_batch(100));
    assert!(!panel.should_batch(100 + BATCH_INTERVAL_NANOS));
    panel.flush_pending();
    assert!(panel.needs_redraw());
    assert!(!panel.should_batch(100));
    panel.clear_needs_redraw();
    panel.on_window_resize();
    assert!(!panel.needs_redraw());
}

#[test]
fn an_unfinished_stream_is_used_where_it_can_be_read() {
    let mut panel = OverlayPanel::new();
    panel.show();
    assert!(!panel.try_finalize_from_stream_buffer(Some(&make_response())));
    panel.append_chunk("{}", 1);
    assert!(!panel.try_finalize_from_stream_buffer(None));
    assert!(panel.try_finalize_from_stream_buffer(Some(&make_response())));
    assert!(panel.stream_buffer.is_empty());
    assert!(panel.command_lines[0].text.contains("git"));
}

#[test]
fn errors_about_ollama_come_with_advice() {
    let mut panel = OverlayPanel::new();
    panel.show_sse_error("OLLAMA is down");
    assert_eq!(panel.command_lines.len(), 2);
    assert_eq!(panel.command_lines[1].text, "Start with: ollama serve");
    panel.show_sse_error("backend down");
    assert_eq!(panel.command_lines.len(), 1);
    panel.show_reported_error("x", "about ollama");
    assert_eq!(panel.command_lines.len(), 2);
    panel.show_timeout();
    assert!(panel.command_lines[0].text.contains("timed out"));
    panel.show_empty_context();
    assert!(panel.command_lines[0].text.contains("selecting text"));
    assert_eq!(panel.mode, OverlayMode::Error);
    panel.hide_panel();
    assert_eq!(panel.mode, OverlayMode::Normal);
}

#[test]
fn the_input_field_is_bounded_and_holds_no_control_characters() {
    let mut panel = OverlayPanel::new();
    panel.show();
    assert!(!panel.push_input_str("\n\t"));
    assert!(panel.push_input_str("a\nb"));
    assert_eq!(panel.input_buffer, "ab");
    panel.push_input_str(&"é".repeat(400));
    assert_eq!(panel.input_buffer.len(), INPUT_MAX_LEN);
    assert!(!panel.push_input_str("x"));
    assert!(panel.try_insert_key_text(&Key::Named(NamedKey::Space), None) == false);
}

#[test]
fn slash_commands_report_what_is_wrong() {
    assert!(SlashCommand::parse("hello").is_none());
    assert_eq!(
        SlashCommand::parse("/").unwrap().unwrap_err(),
        "Empty command. Type /help for available commands."
    );
    assert_eq!(
        SlashCommand::parse(" /Nope now ").unwrap().unwrap_err(),
        "Unknown command '/nope'. Type /help for available commands."
    );
    assert_eq!(SlashCommand::parse("//INFO x REFRESH"), Some(Ok(SlashCommand::Info { refresh: true })));
    let mut panel = OverlayPanel::new();
    panel.show();
    panel.push_input_str("/nope");
    dispatch(&mut panel, Key::Named(NamedKey::Enter), NO_MODS);
    assert!(panel.command_lines.iter().any(|l| l.text.contains("Unknown command")));
    assert!(panel.input_buffer.is_empty());
}

#[test]
fn scrolling_is_faster_while_a_key_is_held_but_bounded() {
    let mut panel = OverlayPanel::new();
    for _ in 0..500 {
        let step = panel.scroll_step(true);
        assert!(1 <= step && step <= SCROLL_REPEAT_MAX_LINES);
    }
    assert_eq!(panel.scroll_step(true), SCROLL_REPEAT_MAX_LINES);
    assert_eq!(panel.scroll_step(false), 1);
}

#[test]
fn system_information_is_listed_by_manager() {
    let mut info = SystemInfo {
        os: "Linux".into(),
        arch: "x86_64".into(),
        shell: "zsh".into(),
        package_managers: vec!["apt".into(), "pip".into()],
        installed_packages: vec![
            ("pip".into(), vec!["b".into()]),
            ("apt".into(), (0..10).map(|i| format!("p{i}")).collect()),
        ],
        installed_packages_total: None,
        installed_tools: vec!["git".into()],
        collected_at: Some(-5),
        collected_at_display: None,
    };
    let lines = system_info_lines(&info);
    assert_eq!(
        lines,
        vec![
            "OS: Linux",
            "Architecture: x86_64",
            "Shell: zsh",
            "Package managers: apt, pip",
            "Installed packages: 11 total across managers",
            "  apt (10): p0, p1, p2, p3, p4, p5, p6, p7 … +2 more",
            "  pip (1): b",
            "Installed tools (1): git",
            "Last collected: -5",
        ]
    );
    info.installed_packages.clear();
    info.package_managers.clear();
    info.installed_tools.clear();
    info.collected_at_display = Some("today".into());
    let lines = system_info_lines(&info);
    assert!(lines.contains(&"Package managers: none detected".to_string()));
    assert!(lines.contains(&"Installed tools: none detected".to_string()));
    assert_eq!(lines.last().unwrap(), "Last collected: today");
    let mut panel = OverlayPanel::new();
    panel.show();
    panel.begin_slash_command("/info");
    assert!(panel.command_lines.iter().any(|l| l.text == "Running /info…"));
    panel.show_system_info(&info);
    assert!(panel.command_lines.iter().any(|l| l.text == "  OS: Linux"));
    assert!(!panel.command_lines.iter().any(|l| l.text.contains("Loading")));
}

// ── Drawing ─────────────────────────────────────────────────────────────────

#[test]
fn every_row_fills_the_panel_and_keeps_its_place() {
    let mut panel = OverlayPanel::new();
    panel.show();
    panel.set_context(Some("sel".into()), "git status".into());
    for i in 0..60 {
        panel.command_lines.push(line(&format!("line {i} with 日本 and some more words to wrap")));
    }
    let grid = panel_grid();
    let texts = panel.prepare_draw(grid, &theme());
    assert!(texts.iter().all(|t| text_display_width(&t.text) == grid.cols));
    assert!(texts.iter().all(|t| t.column == grid.start_col));
    assert!(texts.iter().all(|t| grid.start_row <= t.line && t.line <= grid.start_row + grid.rows));
    // The newest content is in view.
    assert!(texts.iter().any(|t| t.text.contains("line 59")));
    assert!(!texts.iter().any(|t| t.text.contains("line 0 ")));
    let again = panel.prepare_draw(grid, &theme());
    assert_eq!(texts, again);
}

#[test]
fn scrolling_up_shows_older_content_and_down_sticks_again() {
    let mut panel = OverlayPanel::new();
    panel.show();
    for i in 0..60 {
        panel.command_lines.push(line(&format!("line {i}")));
    }
    let grid = panel_grid();
    panel.prepare_draw(grid, &theme());
    let bottom = panel.scroll_offset;
    assert_eq!(bottom, 60 - (grid.rows - 5));
    dispatch(&mut panel, Key::Named(NamedKey::ArrowUp), NO_MODS);
    panel.prepare_draw(grid, &theme());
    assert_eq!(panel.scroll_offset, bottom - 1);
    assert!(!panel.stick_to_bottom);
    dispatch(&mut panel, Key::Named(NamedKey::ArrowDown), NO_MODS);
    panel.prepare_draw(grid, &theme());
    assert!(panel.stick_to_bottom);
}

#[test]
fn a_hidden_panel_draws_nothing() {
    let mut panel = OverlayPanel::new();
    assert!(panel.prepare_draw(panel_grid(), &theme()).is_empty());
}

#[test]
fn tiny_panels_still_draw_their_frame() {
    let mut panel = OverlayPanel::new();
    panel.show();
    let grid = PanelGrid { start_row: 0, start_col: 0, cols: 1, rows: 0 };
    let texts = panel.prepare_draw(grid, &theme());
    assert!(texts.len() >= 5);
}

#[test]
fn lines_have_the_colours_of_their_style() {
    let t = theme();
    assert_eq!(t.colors(LineStyle::Body, OverlayMode::Normal), (t.body_fg, t.panel_bg));
    assert_eq!(t.colors(LineStyle::Error, OverlayMode::Error), (t.error_fg, t.panel_bg));
    assert_eq!(
        t.colors(LineStyle::SelectionText, OverlayMode::Normal),
        (t.selection_fg, t.selection_bg)
    );
}

#[test]
fn more_actions_than_fit_end_in_an_ellipsis() {
    let items: Vec<String> = (0..7).map(|i| format!("cmd{i}")).collect();
    let mut texts: Vec<OverlayText> = Vec::new();
    let place = HudPlace { row: 3, column: 2, cols: 12 };
    append_actionable_hud(&mut texts, &items, place, &theme(), Rgb { r: 0, g: 0, b: 0 });
    assert_eq!(texts.len(), 1 + HUD_MAX_ITEMS + 1);
    assert!(texts.last().unwrap().text.starts_with(" …"));
    assert_eq!(texts.last().unwrap().line, 3 + 1 + HUD_MAX_ITEMS);
    assert_eq!(hud_line_count(&items), 7);
    let mut none: Vec<OverlayText> = Vec::new();
    append_actionable_hud(&mut none, &[], place, &theme(), Rgb { r: 0, g: 0, b: 0 });
    assert!(none.is_empty());
}

// ── Slash commands, actions and errors ──────────────────────────────────────

fn enter(panel: &mut OverlayPanel, input: &str) -> OverlayAction {
    panel.push_input_str(input);
    dispatch(panel, Key::Named(NamedKey::Enter), NO_MODS)
}

#[test]
fn slash_commands_for_models_levels_and_actions() {
    let parsed = |input: &str| SlashCommand::parse(input).unwrap();
    assert_eq!(parsed("/model"), Ok(SlashCommand::Model { name: None }));
    assert_eq!(parsed("/model list"), Ok(SlashCommand::Model { name: None }));
    assert_eq!(
        parsed("/model Gemma:2b"),
        Ok(SlashCommand::Model { name: Some("Gemma:2b".into()) })
    );
    assert_eq!(parsed("/level"), Ok(SlashCommand::Level { level: None }));
    assert_eq!(
        parsed("/level expert"),
        Ok(SlashCommand::Level { level: Some(ExperienceLevel::Expert) })
    );
    assert_eq!(
        parsed("/level guru"),
        Err("Unknown level 'guru'. Type /level to see the levels.".to_string())
    );
    assert_eq!(parsed("/actions"), Ok(SlashCommand::Actions { clear: false }));
    assert_eq!(parsed("/actions clear"), Ok(SlashCommand::Actions { clear: true }));
}

#[test]
fn models_and_levels_are_handed_on_where_something_has_to_be_done() {
    let mut panel = OverlayPanel::new();
    panel.show();
    assert_eq!(
        enter(&mut panel, "/model list"),
        OverlayAction::RunSlashCommand(SlashCommand::Model { name: None })
    );
    assert_eq!(
        enter(&mut panel, "/level novice"),
        OverlayAction::RunSlashCommand(SlashCommand::Level {
            level: Some(ExperienceLevel::Novice)
        })
    );
    assert_eq!(enter(&mut panel, "/level"), OverlayAction::Nothing);
    assert!(panel
        .command_lines
        .iter()
        .any(|l| l.text == "  expert — deep terminal knowledge; terse and high-signal"));
}

#[test]
fn the_actions_panel_stays_up_until_it_is_dismissed() {
    let mut panel = OverlayPanel::new();
    panel.show();
    assert_eq!(enter(&mut panel, "/actions"), OverlayAction::Nothing);
    assert!(panel.command_lines.iter().any(|l| l.text == "  No actions."));
    panel.begin_chat_message("q");
    panel.finalize_chat("Try:\n1. ls -l\n2. du -sh *", &[]);
    assert_eq!(enter(&mut panel, "/actions"), OverlayAction::Nothing);
    assert!(panel.chat_lines.iter().any(|l| l.text == "  2. du -sh *"));
    let place = HudPlace { row: 0, column: 4, cols: 30 };
    let bg = Rgb { r: 0, g: 0, b: 0 };
    let before = panel.draw_actions(place, &theme(), bg);
    assert_eq!(before.len(), 3);
    dispatch(&mut panel, Key::Named(NamedKey::Escape), NO_MODS);
    assert!(!panel.is_visible());
    assert_eq!(panel.actionable_items, vec!["ls -l", "du -sh *"]);
    assert_eq!(panel.draw_actions(place, &theme(), bg), before);
    panel.clear_needs_redraw();
    panel.on_window_resize();
    assert!(panel.needs_redraw());
    panel.visible = true;
    assert_eq!(enter(&mut panel, "/actions clear"), OverlayAction::Nothing);
    assert!(panel.draw_actions(place, &theme(), bg).is_empty());
}

#[test]
fn each_action_is_listed_with_what_it_is_for() {
    let action = |command: &str, goal: &str| ActionItem {
        command: command.into(),
        goal: goal.into(),
    };
    let mut panel = OverlayPanel::new();
    panel.show();
    panel.list_actions(&[action("ls -l", "show as a list"), action("du -sh *", "check dir sizes")]);
    let bg = Rgb { r: 0, g: 0, b: 0 };
    let rows = |panel: &OverlayPanel, cols: usize| -> Vec<String> {
        let place = HudPlace { row: 0, column: 0, cols };
        let texts = panel.draw_actions(place, &theme(), bg);
        texts.iter().map(|t| t.text.trim_end().to_string()).collect()
    };
    assert_eq!(
        rows(&panel, 50),
        vec![" Actions", " 1. ls -l        show as a list", " 2. du -sh *     check dir sizes"]
    );
    assert_eq!(
        rows(&panel, 20),
        vec![" Actions", " 1. ls -l", "    show as a list", " 2. du -sh *", "    check dir sizes"]
    );
    assert_eq!(enter(&mut panel, "/actions"), OverlayAction::Nothing);
    assert!(panel.command_lines.iter().any(|l| l.text == "  1. ls -l — show as a list"));

    panel.list_actions(&[]);
    assert_eq!(panel.actionable_items, vec!["ls -l", "du -sh *"]);
    panel.list_actions(&[action("pwd", "")]);
    assert_eq!(rows(&panel, 50), vec![" Actions", " 1. pwd"]);
    panel.begin_chat_message("q");
    panel.finalize_chat("done", &["id  -u".to_string()]);
    assert_eq!(rows(&panel, 50), vec![" Actions", " 1. id -u"]);
    assert!(panel.action_goals.is_empty());
}

#[test]
fn an_error_is_dismissed_from_the_transcript_that_received_it() {
    let texts = |lines: &[DisplayLine]| -> Vec<String> {
        lines.iter().map(|l| l.text.clone()).collect()
    };
    let mut panel = OverlayPanel::new();
    panel.show();
    panel.begin_chat_message("q");
    panel.toggle_interaction_mode();
    panel.show_sse_error("boom");
    panel.dismiss_error();
    assert!(!panel.is_error_mode());
    assert_eq!(texts(&panel.chat_lines), ["", "You: q", "", ""]);
    assert!(panel.command_lines.is_empty());
    panel.begin_chat_message("r");
    panel.show_sse_error("boom");
    panel.toggle_interaction_mode();
    panel.dismiss_error();
    assert!(!texts(&panel.chat_lines).contains(&"boom".to_string()));
}

#[test]
fn an_answer_may_speak_of_loading() {
    let mut panel = OverlayPanel::new();
    panel.show();
    panel.begin_chat_message("q");
    panel.append_chat_chunk("Loading ");
    panel.append_chat_chunk("ok ◐");
    assert_eq!(panel.chat_lines.last().unwrap().text, "Learnminal: Loading ok ◐");
    panel.finalize_chat("Loading is done", &[]);
    let n = panel.chat_lines.len();
    assert_eq!(panel.chat_lines[n - 2].text, "Learnminal: Loading is done");
    // A line that is gone is begun anew.
    panel.append_chat_chunk("x");
    panel.chat_lines.clear();
    panel.append_chat_chunk("y");
    assert_eq!(panel.chat_lines.last().unwrap().text, "Learnminal: y");
}
