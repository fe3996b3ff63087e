//! What the overlay puts on screen: the rows of the panel and of the list of actions, where
//! they stand and in which colours.
//!
//! Pixels are the caller's: it says where the panel starts, and how many rows and columns it
//! has.

use crate::explain;
use crate::layout;
use crate::layout::{DisplayLine, LineStyle, LineView};
use crate::overlay::{InputFocus, InteractionMode, OverlayMode, OverlayPanel, PanelView};
use crate::text;
use vstd::prelude::*;
use vstd::string::*;

verus! {

broadcast use vstd::string::group_string_axioms;

/// Rows at the top of the panel.
pub const HEADER_ROWS: usize = 2;

/// Rows at the bottom of the panel.
pub const FOOTER_ROWS: usize = 3;

/// Most columns of the list of actions.
pub const HUD_MAX_COLS: usize = 52;

/// Columns between the widest command of the list of actions and what the commands are for.
pub const HUD_GOAL_GAP: usize = 5;

/// A colour.
#[derive(Debug, Clone, Copy, PartialEq, Eq, Structural)]
pub struct Rgb {
    pub r: u8,
    pub g: u8,
    pub b: u8,
}

/// The colours of the overlay.
#[derive(Debug, Clone, Copy, PartialEq, Eq, Structural)]
pub struct Theme {
    pub panel_bg: Rgb,
    pub header_bg: Rgb,
    pub accent: Rgb,
    pub title_fg: Rgb,
    pub hint_fg: Rgb,
    pub section_fg: Rgb,
    pub body_fg: Rgb,
    pub muted_fg: Rgb,
    pub code_fg: Rgb,
    pub selection_label_fg: Rgb,
    pub selection_bg: Rgb,
    pub selection_fg: Rgb,
    pub input_bg: Rgb,
    pub input_field_bg: Rgb,
    pub input_fg: Rgb,
    pub error_fg: Rgb,
}

impl Theme {
    /// The colours of a line: of the text, and behind it.
    pub open spec fn line_colors(self, style: LineStyle) -> (Rgb, Rgb) {
        match style {
            LineStyle::SectionHeader => (self.section_fg, self.panel_bg),
            LineStyle::Body => (self.body_fg, self.panel_bg),
            LineStyle::Muted | LineStyle::Loading => (self.muted_fg, self.panel_bg),
            LineStyle::Code => (self.code_fg, self.panel_bg),
            LineStyle::SelectionLabel => (self.selection_label_fg, self.selection_bg),
            LineStyle::SelectionText => (self.selection_fg, self.selection_bg),
            LineStyle::Error => (self.error_fg, self.panel_bg),
        }
    }

    /// The colours of a line: of the text, and behind it. An error has its colour in
    /// every mode.
    pub fn colors(&self, style: LineStyle, _mode: OverlayMode) -> (r: (Rgb, Rgb))
        ensures
            r == self.line_colors(style),
    {
        match style {
            LineStyle::SectionHeader => (self.section_fg, self.panel_bg),
            LineStyle::Body => (self.body_fg, self.panel_bg),
            LineStyle::Muted | LineStyle::Loading => (self.muted_fg, self.panel_bg),
            LineStyle::Code => (self.code_fg, self.panel_bg),
            LineStyle::SelectionLabel => (self.selection_label_fg, self.selection_bg),
            LineStyle::SelectionText => (self.selection_fg, self.selection_bg),
            LineStyle::Error => (self.error_fg, self.panel_bg),
        }
    }
}

/// One row of text with explicit colours.
#[derive(Debug, Clone, PartialEq, Eq)]
pub struct OverlayText {
    pub line: usize,
    pub column: usize,
    pub text: String,
    pub fg: Rgb,
    pub bg: Rgb,
}

/// What an [`OverlayText`] holds.
#[verifier::ext_equal]
pub ghost struct TextView {
    pub line: int,
    pub column: int,
    pub text: Seq<char>,
    pub fg: Rgb,
    pub bg: Rgb,
}

impl View for OverlayText {
    type V = TextView;

    open spec fn view(&self) -> TextView {
        TextView {
            line: self.line as int,
            column: self.column as int,
            text: self.text@,
            fg: self.fg,
            bg: self.bg,
        }
    }
}

/// What each of `texts` holds.
pub open spec fn text_views(texts: Seq<OverlayText>) -> Seq<TextView> {
    Seq::new(texts.len(), |i: int| texts[i]@)
}

/// Whether each of `texts` takes exactly `cols` columns.
pub open spec fn rows_full(texts: Seq<TextView>, cols: nat) -> bool {
    forall|i: int| 0 <= i < texts.len() ==> layout::columns((#[trigger] texts[i]).text) == cols
}

/// Where the panel stands on the grid of the window.
#[derive(Debug, Clone, Copy, PartialEq, Eq, Structural)]
pub struct PanelGrid {
    pub start_row: usize,
    pub start_col: usize,
    pub cols: usize,
    pub rows: usize,
}

impl PanelGrid {
    /// How many rows there are for the content.
    pub open spec fn content_height(self) -> int {
        if self.rows > HEADER_ROWS + FOOTER_ROWS {
            self.rows - HEADER_ROWS - FOOTER_ROWS
        } else {
            0
        }
    }

    /// The first row of the footer.
    pub open spec fn footer_start(self) -> int {
        if self.rows > FOOTER_ROWS {
            self.rows - FOOTER_ROWS
        } else {
            0
        }
    }

    /// A row of the panel that holds `text`.
    pub open spec fn row(self, at: int, text: Seq<char>, fg: Rgb, bg: Rgb) -> TextView {
        TextView {
            line: self.start_row + at,
            column: self.start_col as int,
            text: layout::padded(text, self.cols as nat),
            fg,
            bg,
        }
    }
}

/// The block on the terminal context: the command, and what is selected.
pub open spec fn context_lines(p: PanelView, cols: nat) -> Seq<LineView> {
    let header = "── Context "@;
    let fill = if layout::columns(header) <= cols {
        (cols - layout::columns(header)) as nat
    } else {
        0
    };
    let command = if p.context_command.len() > 0 {
        seq![layout::styled("  $ "@ + p.context_command, LineStyle::Code)]
    } else {
        seq![]
    };
    let selection = match p.context_selection {
        Some(s) => seq![
            layout::styled("  selection:"@, LineStyle::SelectionLabel),
            layout::styled("  ▸ "@ + s, LineStyle::SelectionText),
        ],
        None => seq![],
    };
    if p.context_command.len() == 0 && p.context_selection is None {
        seq![]
    } else {
        seq![explain::heading(header + text::repeated('─', fill))] + command + selection + seq![
            explain::blank(),
        ]
    }
}

/// The content of the panel in rows.
pub open spec fn content_rows(p: PanelView, cols: nat) -> Seq<LineView> {
    layout::wrapped_lines(context_lines(p, cols) + p.view_lines(), cols)
}

/// The largest row that the content can start at.
pub open spec fn max_scroll(p: PanelView, grid: PanelGrid) -> int {
    let n = content_rows(p, grid.cols as nat).len() as int;
    let room = if grid.content_height() > 1 {
        grid.content_height()
    } else {
        1
    };
    if n > room {
        n - room
    } else {
        0
    }
}

/// The row that the content starts at: the last one where the panel sticks to the bottom.
pub open spec fn scroll_start(p: PanelView, grid: PanelGrid) -> int {
    if p.stick_to_bottom || p.scroll_offset > max_scroll(p, grid) {
        max_scroll(p, grid)
    } else {
        p.scroll_offset as int
    }
}

/// The panel after it was drawn: it remembers where the content starts, and sticks to the
/// bottom once it is there.
pub open spec fn drawn(p: PanelView, grid: PanelGrid) -> PanelView {
    if !p.visible {
        p
    } else {
        PanelView {
            scroll_offset: scroll_start(p, grid) as usize,
            stick_to_bottom: p.stick_to_bottom || scroll_start(p, grid) >= max_scroll(p, grid),
            ..p
        }
    }
}

/// The rows of the content that are in view.
pub open spec fn rows_in_view(p: PanelView, grid: PanelGrid) -> Seq<LineView> {
    let rows = content_rows(p, grid.cols as nat).skip(scroll_start(p, grid));
    if grid.content_height() < rows.len() {
        rows.take(grid.content_height())
    } else {
        rows
    }
}

/// The keys, as the header names them.
pub open spec fn header_hints(p: PanelView) -> Seq<char> {
    let mode = match p.interaction_mode {
        InteractionMode::Command => "[Command]"@,
        InteractionMode::Chat => "[Chat]"@,
    };
    let focus = match p.input_focus {
        InputFocus::Overlay => "⌃⇧Tab → shell"@,
        InputFocus::Terminal => "⌃⇧Tab → panel"@,
    };
    " Tab "@ + mode + "   "@ + focus + "   Esc   ↑↓   ⇧Y"@
}

/// What the footer advises.
pub open spec fn footer_hint(p: PanelView) -> Seq<char> {
    match (p.input_focus, p.interaction_mode) {
        (InputFocus::Terminal, _) => " Terminal focus — type in shell (⌃⇧Tab for panel)"@,
        (InputFocus::Overlay, InteractionMode::Command) => " Tab → Chat   /info · /help"@,
        (InputFocus::Overlay, InteractionMode::Chat) => if p.context_command.len() == 0 {
            " Ask ↵ send   /clear · /help"@
        } else {
            " Ask about this command ↵ send   /clear · /help"@
        },
    }
}

/// What stands in the input field.
pub open spec fn input_line(p: PanelView) -> Seq<char> {
    let cursor = if p.takes_input() {
        "▌"@
    } else {
        " "@
    };
    if p.input_focus == InputFocus::Terminal {
        " > (terminal focus)"@
    } else if p.interaction_mode == InteractionMode::Command {
        " > (Tab → Chat to ask)"@ + cursor
    } else if p.input_buffer.len() == 0 {
        " > _"@ + cursor
    } else {
        " > "@ + p.input_buffer + cursor
    }
}

/// The first two of `rows`.
pub open spec fn first_two(rows: Seq<Seq<char>>) -> Seq<Seq<char>> {
    if rows.len() > 2 {
        rows.take(2)
    } else {
        rows
    }
}

/// The rows of the header.
pub open spec fn header_texts(p: PanelView, grid: PanelGrid, theme: Theme) -> Seq<TextView> {
    seq![
        grid.row(0, " Learnminal "@, theme.title_fg, theme.header_bg),
        grid.row(1, header_hints(p), theme.hint_fg, theme.header_bg),
    ]
}

/// The rows of the content.
pub open spec fn content_texts(rows: Seq<LineView>, grid: PanelGrid, theme: Theme) -> Seq<TextView> {
    Seq::new(
        rows.len(),
        |i: int|
            {
                let (fg, bg) = theme.line_colors(rows[i].style);
                grid.row(HEADER_ROWS + i, rows[i].text, fg, bg)
            },
    )
}

/// The rows of the input field.
pub open spec fn input_texts(rows: Seq<Seq<char>>, grid: PanelGrid, theme: Theme) -> Seq<TextView> {
    Seq::new(
        rows.len(),
        |i: int|
            grid.row(grid.footer_start() + 2 + i, rows[i], theme.input_fg, theme.input_field_bg),
    )
}

/// The rows of the footer: a rule, a hint, and the input field.
pub open spec fn footer_texts(p: PanelView, grid: PanelGrid, theme: Theme) -> Seq<TextView> {
    let at = grid.footer_start();
    let rule = if grid.cols < 48 {
        grid.cols as nat
    } else {
        48
    };
    seq![
        grid.row(at, text::repeated('─', rule), theme.hint_fg, theme.input_bg),
        grid.row(at + 1, footer_hint(p), theme.hint_fg, theme.input_bg),
    ] + input_texts(first_two(layout::wrapped(input_line(p), grid.cols as nat)), grid, theme)
}

/// All rows of the panel.
pub open spec fn panel_texts(p: PanelView, grid: PanelGrid, theme: Theme) -> Seq<TextView> {
    if !p.visible {
        seq![]
    } else {
        header_texts(p, grid, theme) + content_texts(rows_in_view(p, grid), grid, theme)
            + footer_texts(p, grid, theme)
    }
}

/// Adds a row of exactly `cols` columns at the end of `out`.
fn push_row(
    out: &mut Vec<OverlayText>,
    line: usize,
    column: usize,
    cols: usize,
    text: &str,
    colors: (Rgb, Rgb),
)
    ensures
        text_views(final(out)@) == text_views(old(out)@).push(
            (TextView {
                line: line as int,
                column: column as int,
                text: layout::padded(text@, cols as nat),
                fg: colors.0,
                bg: colors.1,
            }),
        ),
        rows_full(text_views(old(out)@), cols as nat) ==> rows_full(
            text_views(final(out)@),
            cols as nat,
        ),
{
    let text = layout::pad_line(text, cols);
    out.push(OverlayText { line, column, text, fg: colors.0, bg: colors.1 });
    assert(text_views(out@) =~= text_views(old(out)@).push(out@[out@.len() - 1]@));
}

/// The block on the terminal context: the command, and what is selected.
fn context_block(panel: &OverlayPanel, cols: usize) -> (r: Vec<DisplayLine>)
    ensures
        layout::line_views(r@) == context_lines(panel@, cols as nat),
{
    let mut lines: Vec<DisplayLine> = Vec::new();
    let has_command = panel.context_command.as_str().unicode_len() > 0;
    if !has_command && panel.context_selection.is_none() {
        assert(layout::line_views(lines@) =~= seq![]);
        return lines;
    }
    let header = "── Context ";
    let width = layout::text_display_width(header);
    let fill: usize = if width <= cols {
        cols - width
    } else {
        0
    };
    layout::push_line(
        &mut lines,
        text::concat(header, text::repeat('─', fill).as_str()).as_str(),
        LineStyle::SectionHeader,
    );
    if has_command {
        layout::push_line(
            &mut lines,
            text::concat("  $ ", panel.context_command.as_str()).as_str(),
            LineStyle::Code,
        );
    }
    if let Some(sel) = &panel.context_selection {
        layout::push_line(&mut lines, "  selection:", LineStyle::SelectionLabel);
        layout::push_line(
            &mut lines,
            text::concat("  ▸ ", sel.as_str()).as_str(),
            LineStyle::SelectionText,
        );
    }
    proof {
        reveal_strlit("");
        assert(""@ =~= seq![]);
    }
    layout::push_line(&mut lines, "", LineStyle::Body);
    assert(layout::line_views(lines@) =~= context_lines(panel@, cols as nat));
    lines
}

/// The content of the panel in rows.
fn layout_content(panel: &OverlayPanel, cols: usize) -> (r: Vec<DisplayLine>)
    ensures
        layout::line_views(r@) == content_rows(panel@, cols as nat),
{
    let mut lines = context_block(panel, cols);
    let ghost start = layout::line_views(lines@);
    let shown: &Vec<DisplayLine> = match panel.interaction_mode {
        InteractionMode::Command => &panel.command_lines,
        InteractionMode::Chat => &panel.chat_lines,
    };
    let ghost all = layout::line_views(shown@);
    let mut i: usize = 0;
    assert(start + all.take(0) =~= start);
    while i < shown.len()
        invariant
            all == layout::line_views(shown@),
            i <= shown@.len(),
            layout::line_views(lines@) == start + all.take(i as int),
        decreases shown@.len() - i,
    {
        layout::push_line(&mut lines, shown[i].text.as_str(), shown[i].style);
        i += 1;
        assert(start + all.take(i as int) =~= (start + all.take(i - 1)).push(shown@[i - 1]@));
    }
    assert(all.take(i as int) =~= all);
    layout::wrap_display_lines(lines.as_slice(), cols)
}

/// The keys, as the header names them.
fn hints_text(panel: &OverlayPanel) -> (r: String)
    ensures
        r@ == header_hints(panel@),
{
    let mode = match panel.interaction_mode {
        InteractionMode::Command => "[Command]",
        InteractionMode::Chat => "[Chat]",
    };
    let focus = match panel.input_focus {
        InputFocus::Overlay => "⌃⇧Tab → shell",
        InputFocus::Terminal => "⌃⇧Tab → panel",
    };
    let mut out = text::concat3(" Tab ", mode, "   ");
    out.append(focus);
    out.append("   Esc   ↑↓   ⇧Y");
    out
}

/// What the footer advises.
fn footer_text(panel: &OverlayPanel) -> (r: &'static str)
    ensures
        r@ == footer_hint(panel@),
{
    match (panel.input_focus, panel.interaction_mode) {
        (InputFocus::Terminal, _) => " Terminal focus — type in shell (⌃⇧Tab for panel)",
        (InputFocus::Overlay, InteractionMode::Command) => " Tab → Chat   /info · /help",
        (InputFocus::Overlay, InteractionMode::Chat) => {
            if panel.context_command.as_str().unicode_len() == 0 {
                " Ask ↵ send   /clear · /help"
            } else {
                " Ask about this command ↵ send   /clear · /help"
            }
        },
    }
}

/// What stands in the input field.
fn input_text(panel: &OverlayPanel) -> (r: String)
    ensures
        r@ == input_line(panel@),
{
    let cursor = if panel.input_focus == InputFocus::Overlay && panel.input_focused {
        "▌"
    } else {
        " "
    };
    if panel.input_focus == InputFocus::Terminal {
        " > (terminal focus)".to_owned()
    } else if panel.interaction_mode == InteractionMode::Command {
        text::concat(" > (Tab → Chat to ask)", cursor)
    } else if panel.input_buffer.as_str().unicode_len() == 0 {
        text::concat(" > _", cursor)
    } else {
        text::concat3(" > ", panel.input_buffer.as_str(), cursor)
    }
}

/// Adds the rows of the content that are in view, from `start` on, at the end of `out`.
fn push_content(
    out: &mut Vec<OverlayText>,
    lines: &[DisplayLine],
    start: usize,
    grid: PanelGrid,
    theme: &Theme,
    mode: OverlayMode,
)
    requires
        grid.start_row + grid.rows <= usize::MAX,
        start <= lines@.len(),
    ensures
        ({
            let rest = layout::line_views(lines@).skip(start as int);
            let rows = if grid.content_height() < rest.len() {
                rest.take(grid.content_height())
            } else {
                rest
            };
            text_views(final(out)@) == text_views(old(out)@) + content_texts(rows, grid, *theme)
        }),
        rows_full(text_views(old(out)@), grid.cols as nat) ==> rows_full(
            text_views(final(out)@),
            grid.cols as nat,
        ),
{
    let ghost before = text_views(out@);
    let ghost rest = layout::line_views(lines@).skip(start as int);
    let height: usize = if grid.rows > HEADER_ROWS + FOOTER_ROWS {
        grid.rows - HEADER_ROWS - FOOTER_ROWS
    } else {
        0
    };
    let mut i: usize = 0;
    assert(before + content_texts(rest.take(0), grid, *theme) =~= before);
    while i < height && i < lines.len() - start
        invariant
            grid.start_row + grid.rows <= usize::MAX,
            start <= lines@.len(),
            rest == layout::line_views(lines@).skip(start as int),
            height == grid.content_height(),
            i <= height,
            i <= rest.len(),
            text_views(out@) == before + content_texts(rest.take(i as int), grid, *theme),
            rows_full(before, grid.cols as nat) ==> rows_full(text_views(out@), grid.cols as nat),
        decreases height - i,
    {
        let line = &lines[start + i];
        assert(rest[i as int] == line@);
        let colors = theme.colors(line.style, mode);
        push_row(
            out,
            grid.start_row + HEADER_ROWS + i,
            grid.start_col,
            grid.cols,
            line.text.as_str(),
            colors,
        );
        i += 1;
        proof {
            let now = content_texts(rest.take(i as int), grid, *theme);
            let then = content_texts(rest.take(i - 1), grid, *theme);
            assert(before + now =~= (before + then).push(now[i - 1]));
        }
    }
    assert(i == rest.len() ==> rest.take(i as int) =~= rest);
}

/// Adds the rows of the footer at the end of `out`.
fn push_footer(out: &mut Vec<OverlayText>, panel: &OverlayPanel, grid: PanelGrid, theme: &Theme)
    requires
        grid.start_row + grid.rows + 3 <= usize::MAX,
    ensures
        text_views(final(out)@) == text_views(old(out)@) + footer_texts(panel@, grid, *theme),
        rows_full(text_views(old(out)@), grid.cols as nat) ==> rows_full(
            text_views(final(out)@),
            grid.cols as nat,
        ),
{
    let ghost before = text_views(out@);
    let at: usize = if grid.rows > FOOTER_ROWS {
        grid.rows - FOOTER_ROWS
    } else {
        0
    };
    let first: usize = grid.start_row + at;
    let rule: usize = if grid.cols < 48 {
        grid.cols
    } else {
        48
    };
    push_row(
        out,
        first,
        grid.start_col,
        grid.cols,
        text::repeat('─', rule).as_str(),
        (theme.hint_fg, theme.input_bg),
    );
    push_row(
        out,
        first + 1,
        grid.start_col,
        grid.cols,
        footer_text(panel),
        (theme.hint_fg, theme.input_bg),
    );
    let ghost head = text_views(out@);
    let rows = layout::wrap_line_respecting_indent(input_text(panel).as_str(), grid.cols);
    let ghost all = text::views(rows@);
    let mut i: usize = 0;
    assert(head + input_texts(all.take(0), grid, *theme) =~= head);
    while i < rows.len() && i < 2
        invariant
            all == text::views(rows@),
            i <= rows@.len(),
            i <= 2,
            first == grid.start_row + grid.footer_start(),
            first + 3 <= usize::MAX,
            text_views(out@) == head + input_texts(all.take(i as int), grid, *theme),
            rows_full(before, grid.cols as nat) ==> rows_full(text_views(out@), grid.cols as nat),
        decreases 2 - i,
    {
        assert(all[i as int] == rows@[i as int]@);
        push_row(
            out,
            first + 2 + i,
            grid.start_col,
            grid.cols,
            rows[i].as_str(),
            (theme.input_fg, theme.input_field_bg),
        );
        i += 1;
        proof {
            let now = input_texts(all.take(i as int), grid, *theme);
            let then = input_texts(all.take(i - 1), grid, *theme);
            assert(head + now =~= (head + then).push(now[i - 1]));
        }
    }
    assert(i == all.len() ==> all.take(i as int) =~= all);
    assert(text_views(out@) =~= before + footer_texts(panel@, grid, *theme));
}

impl OverlayPanel {
    /// The rows of the panel for the current frame: header, content in view, footer. A
    /// hidden panel has none.
    ///
    /// Every row takes exactly the columns of the panel. The panel remembers where its
    /// content starts.
    pub fn prepare_draw(&mut self, grid: PanelGrid, theme: &Theme) -> (r: Vec<OverlayText>)
        requires
            grid.start_row + grid.rows + 3 <= usize::MAX,
        ensures
            text_views(r@) == panel_texts(old(self)@, grid, *theme),
            final(self)@ == drawn(old(self)@, grid),
            rows_full(text_views(r@), grid.cols as nat),
    {
        let mut out: Vec<OverlayText> = Vec::new();
        let ghost p = self@;
        if !self.visible {
            assert(text_views(out@) =~= seq![]);
            return out;
        }
        push_row(
            &mut out,
            grid.start_row,
            grid.start_col,
            grid.cols,
            " Learnminal ",
            (theme.title_fg, theme.header_bg),
        );
        push_row(
            &mut out,
            grid.start_row + 1,
            grid.start_col,
            grid.cols,
            hints_text(self).as_str(),
            (theme.hint_fg, theme.header_bg),
        );
        assert(text_views(out@) =~= header_texts(p, grid, *theme));
        let lines = layout_content(self, grid.cols);
        let height: usize = if grid.rows > HEADER_ROWS + FOOTER_ROWS + 1 {
            grid.rows - HEADER_ROWS - FOOTER_ROWS
        } else {
            1
        };
        let max: usize = if lines.len() > height {
            lines.len() - height
        } else {
            0
        };
        assert(max == max_scroll(p, grid));
        let start: usize = if self.stick_to_bottom || self.scroll_offset > max {
            max
        } else {
            self.scroll_offset
        };
        push_content(&mut out, lines.as_slice(), start, grid, theme, self.mode);
        push_footer(&mut out, self, grid, theme);
        self.scroll_offset = start;
        if start >= max {
            self.stick_to_bottom = true;
        }
        out
    }
}

/// Drawing a panel again, with nothing changed between, shows the same and changes nothing.
pub proof fn law_drawing_is_stable(p: PanelView, grid: PanelGrid, theme: Theme)
    requires
        content_rows(p, grid.cols as nat).len() <= usize::MAX,
    ensures
        drawn(drawn(p, grid), grid) == drawn(p, grid),
        panel_texts(drawn(p, grid), grid, theme) == panel_texts(p, grid, theme),
{
    let q = drawn(p, grid);
    assert(context_lines(q, grid.cols as nat) == context_lines(p, grid.cols as nat));
    assert(content_rows(q, grid.cols as nat) == content_rows(p, grid.cols as nat));
    assert(max_scroll(q, grid) == max_scroll(p, grid));
    assert(scroll_start(q, grid) == scroll_start(p, grid));
}

/// A panel that sticks to the bottom shows the newest row of its content last.
pub proof fn law_newest_row_in_view(p: PanelView, grid: PanelGrid)
    requires
        p.stick_to_bottom,
        grid.content_height() > 0,
        content_rows(p, grid.cols as nat).len() > 0,
    ensures
        rows_in_view(p, grid).len() > 0,
        rows_in_view(p, grid).last() == content_rows(p, grid.cols as nat).last(),
{
}

// ── The list of actions ──────────────────────────────────────────────────────

/// Where the list of actions stands on the grid of the window.
#[derive(Debug, Clone, Copy, PartialEq, Eq, Structural)]
pub struct HudPlace {
    pub row: usize,
    pub column: usize,
    pub cols: usize,
}

/// An action under its number.
pub open spec fn hud_head(items: Seq<Seq<char>>, k: int) -> Seq<char> {
    " "@ + text::decimal((k + 1) as nat) + ". "@ + text::trimmed(items[k])
}

/// How wide the widest of the first `n` actions is, under its number.
pub open spec fn widest(items: Seq<Seq<char>>, n: nat) -> nat
    decreases n,
{
    if n == 0 {
        0
    } else {
        let before = widest(items, (n - 1) as nat);
        let width = layout::columns(hud_head(items, n - 1));
        if width > before {
            width
        } else {
            before
        }
    }
}

/// What an action is for: nothing where that is not known.
pub open spec fn goal_at(goals: Seq<Seq<char>>, k: int) -> Seq<char> {
    if k < goals.len() {
        goals[k]
    } else {
        seq![]
    }
}

/// The rows of one action: the command in two at most, and what it is for beside it from the
/// column `at` on where that fits, else under it.
pub open spec fn action_rows(head: Seq<char>, goal: Seq<char>, at: nat, cols: nat) -> Seq<Seq<char>> {
    if goal.len() == 0 {
        first_two(layout::wrapped(head, cols))
    } else if at + layout::columns(goal) <= cols {
        seq![layout::padded(head, at) + goal]
    } else {
        first_two(layout::wrapped(head, cols)).push(layout::cut("    "@ + goal, cols))
    }
}

/// The rows of the first `n` items.
pub open spec fn hud_rows(
    items: Seq<Seq<char>>,
    goals: Seq<Seq<char>>,
    n: nat,
    cols: nat,
) -> Seq<Seq<char>>
    decreases n,
{
    if n == 0 {
        seq![]
    } else {
        hud_rows(items, goals, (n - 1) as nat, cols) + action_rows(
            hud_head(items, n - 1),
            goal_at(goals, n - 1),
            widest(items, hud_shown(items)) + HUD_GOAL_GAP as nat,
            cols,
        )
    }
}

/// How many items the list shows.
pub open spec fn hud_shown(items: Seq<Seq<char>>) -> nat {
    if items.len() < explain::HUD_MAX_ITEMS {
        items.len()
    } else {
        explain::HUD_MAX_ITEMS as nat
    }
}

/// A row of the list of actions.
pub open spec fn hud_text(place: HudPlace, at: int, text: Seq<char>, fg: Rgb, bg: Rgb) -> TextView {
    TextView {
        line: place.row + at,
        column: place.column as int,
        text: layout::padded(text, place.cols as nat),
        fg,
        bg,
    }
}

/// The rows of the list of actions: a title, the items with what they are for, and an ellipsis
/// where there are more than it shows.
pub open spec fn hud_texts(
    items: Seq<Seq<char>>,
    goals: Seq<Seq<char>>,
    place: HudPlace,
    theme: Theme,
    bg: Rgb,
) -> Seq<TextView> {
    let rows = hud_rows(items, goals, hud_shown(items), place.cols as nat);
    let more = if items.len() > explain::HUD_MAX_ITEMS {
        seq![hud_text(place, 1 + rows.len() as int, " …"@, theme.muted_fg, bg)]
    } else {
        seq![]
    };
    if items.len() == 0 {
        seq![]
    } else {
        seq![hud_text(place, 0, " Actions"@, theme.section_fg, bg)] + Seq::new(
            rows.len(),
            |k: int| hud_text(place, 1 + k, rows[k], theme.code_fg, bg),
        ) + more
    }
}

/// How many lines high the list of actions is drawn: a title, the items shown, and one more
/// where there are more.
pub fn hud_line_count(items: &[String]) -> (r: usize)
    ensures
        r == 1 + hud_shown(text::views(items@)) + (if items@.len() > explain::HUD_MAX_ITEMS {
            1int
        } else {
            0int
        }),
{
    if items.len() > explain::HUD_MAX_ITEMS {
        2 + explain::HUD_MAX_ITEMS
    } else {
        1 + items.len()
    }
}

fn number_item(items: &[String], k: usize) -> (r: String)
    requires
        k < items@.len(),
        k < explain::HUD_MAX_ITEMS,
    ensures
        r@ == hud_head(text::views(items@), k as int),
{
    let mut line = text::concat3(" ", text::usize_text(k + 1).as_str(), ". ");
    line.append(text::trim(items[k].as_str()));
    assert(text::views(items@)[k as int] == items@[k as int]@);
    line
}

fn find_widest(items: &[String], n: usize) -> (r: usize)
    requires
        n <= items@.len(),
        n <= explain::HUD_MAX_ITEMS,
    ensures
        r == widest(text::views(items@), n as nat),
{
    let mut width: usize = 0;
    let mut k: usize = 0;
    while k < n
        invariant
            k <= n <= items@.len(),
            n <= explain::HUD_MAX_ITEMS,
            width == widest(text::views(items@), k as nat),
        decreases n - k,
    {
        let w = layout::text_display_width(number_item(items, k).as_str());
        if w > width {
            width = w;
        }
        k += 1;
    }
    width
}

fn rows_of_action(head: &str, goal: &str, widest: usize, cols: usize) -> (r: Vec<String>)
    ensures
        text::views(r@) == action_rows(
            head@,
            goal@,
            widest as nat + HUD_GOAL_GAP as nat,
            cols as nat,
        ),
        r@.len() <= 3,
        goal@.len() == 0 ==> r@.len() <= 2,
{
    let mut rows: Vec<String> = Vec::new();
    if !goal.is_empty() && cols >= HUD_GOAL_GAP && widest <= cols - HUD_GOAL_GAP
        && layout::text_display_width(goal) <= cols - HUD_GOAL_GAP - widest {
        let mut row = layout::pad_line(head, widest + HUD_GOAL_GAP);
        row.append(goal);
        text::push_text(&mut rows, row);
        assert(text::views(rows@) =~= seq![layout::padded(
            head@,
            widest as nat + HUD_GOAL_GAP as nat,
        ) + goal@]);
        return rows;
    }
    let wrapped = layout::wrap_line_respecting_indent(head, cols);
    let ghost all = text::views(wrapped@);
    let mut j: usize = 0;
    assert(text::views(rows@) =~= all.take(0));
    while j < wrapped.len() && j < 2
        invariant
            all == text::views(wrapped@),
            j <= wrapped@.len(),
            j <= 2,
            text::views(rows@) == all.take(j as int),
        decreases 2 - j,
    {
        text::push_text(&mut rows, wrapped[j].clone());
        j += 1;
        assert(all.take(j as int) =~= all.take(j - 1).push(all[j - 1]));
    }
    assert(text::views(rows@) =~= first_two(all));
    if !goal.is_empty() {
        let line = text::concat("    ", goal);
        text::push_text(&mut rows, layout::truncate_to_width(line.as_str(), cols));
    }
    rows
}

/// Adds the rows of the list of actions at the end of `out`: a title, the first items, each with
/// what it is for, and an ellipsis where there are more. Nothing where there is no action.
pub fn append_actions(
    out: &mut Vec<OverlayText>,
    items: &[String],
    goals: &[String],
    place: HudPlace,
    theme: &Theme,
    hud_bg: Rgb,
)
    requires
        place.row + (if goals@.len() == 0 {
            2int
        } else {
            3int
        }) * explain::HUD_MAX_ITEMS + 2 <= usize::MAX,
    ensures
        text_views(final(out)@) == text_views(old(out)@) + hud_texts(
            text::views(items@),
            text::views(goals@),
            place,
            *theme,
            hud_bg,
        ),
        rows_full(text_views(old(out)@), place.cols as nat) ==> rows_full(
            text_views(final(out)@),
            place.cols as nat,
        ),
{
    let ghost before = text_views(out@);
    let ghost all = text::views(items@);
    let ghost why = text::views(goals@);
    let ghost cols = place.cols as nat;
    if items.len() == 0 {
        assert(before + seq![] =~= before);
        return;
    }
    push_row(out, place.row, place.column, place.cols, " Actions", (theme.section_fg, hud_bg));
    let ghost head = text_views(out@);
    let shown: usize = if items.len() < explain::HUD_MAX_ITEMS {
        items.len()
    } else {
        explain::HUD_MAX_ITEMS
    };
    let per: usize = if goals.len() == 0 {
        2
    } else {
        3
    };
    let width = find_widest(items, shown);
    let mut used: usize = 0;
    let mut i: usize = 0;
    assert(text_views(out@) =~= head + item_texts(
        hud_rows(all, why, 0, cols),
        place,
        *theme,
        hud_bg,
    ));
    while i < shown
        invariant
            all == text::views(items@),
            why == text::views(goals@),
            cols == place.cols as nat,
            i <= shown <= items@.len(),
            shown <= explain::HUD_MAX_ITEMS,
            shown == hud_shown(all),
            width == widest(all, shown as nat),
            per == if goals@.len() == 0 {
                2int
            } else {
                3int
            },
            place.row + per * explain::HUD_MAX_ITEMS + 2 <= usize::MAX,
            used == hud_rows(all, why, i as nat, cols).len(),
            used <= per * i,
            text_views(out@) == head + item_texts(
                hud_rows(all, why, i as nat, cols),
                place,
                *theme,
                hud_bg,
            ),
            rows_full(before, cols) ==> rows_full(text_views(out@), cols),
        decreases shown - i,
    {
        let goal = if i < goals.len() {
            goals[i].as_str()
        } else {
            ""
        };
        proof {
            reveal_strlit("");
            assert(goal@ =~= goal_at(why, i as int));
        }
        let line = number_item(items, i);
        let rows = rows_of_action(line.as_str(), goal, width, place.cols);
        let ghost added = text::views(rows@);
        let ghost done = hud_rows(all, why, i as nat, cols);
        let mut j: usize = 0;
        assert(done + added.take(0) =~= done);
        while j < rows.len()
            invariant
                added == text::views(rows@),
                j <= rows@.len(),
                rows@.len() <= per,
                per <= 3,
                used == done.len() + j,
                done.len() <= per * i,
                i < explain::HUD_MAX_ITEMS,
                place.row + per * explain::HUD_MAX_ITEMS + 2 <= usize::MAX,
                cols == place.cols as nat,
                text_views(out@) == head + item_texts(
                    done + added.take(j as int),
                    place,
                    *theme,
                    hud_bg,
                ),
                rows_full(before, cols) ==> rows_full(text_views(out@), cols),
            decreases rows@.len() - j,
        {
            assert(added[j as int] == rows@[j as int]@);
            assert(per * i + per <= per * explain::HUD_MAX_ITEMS) by (nonlinear_arith)
                requires
                    i + 1 <= explain::HUD_MAX_ITEMS,
                    per <= 3,
            ;
            push_row(
                out,
                place.row + 1 + used,
                place.column,
                place.cols,
                rows[j].as_str(),
                (theme.code_fg, hud_bg),
            );
            used += 1;
            j += 1;
            proof {
                let now = item_texts(done + added.take(j as int), place, *theme, hud_bg);
                let then = item_texts(done + added.take(j - 1), place, *theme, hud_bg);
                assert(head + now =~= (head + then).push(now[now.len() - 1]));
            }
        }
        assert(added.take(j as int) =~= added);
        assert(per * i + per == per * (i + 1)) by (nonlinear_arith);
        i += 1;
    }
    if items.len() > explain::HUD_MAX_ITEMS {
        push_row(
            out,
            place.row + 1 + used,
            place.column,
            place.cols,
            " …",
            (theme.muted_fg, hud_bg),
        );
    }
    assert(text_views(out@) =~= before + hud_texts(all, why, place, *theme, hud_bg));
}

/// Adds the rows of a list of actions of which nothing but the commands is known: a title, the
/// first items, two rows at most for each, and an ellipsis where there are more. Nothing where
/// there is no action.
pub fn append_actionable_hud(
    out: &mut Vec<OverlayText>,
    items: &[String],
    place: HudPlace,
    theme: &Theme,
    hud_bg: Rgb,
)
    requires
        place.row + 2 * explain::HUD_MAX_ITEMS + 2 <= usize::MAX,
    ensures
        text_views(final(out)@) == text_views(old(out)@) + hud_texts(
            text::views(items@),
            seq![],
            place,
            *theme,
            hud_bg,
        ),
        rows_full(text_views(old(out)@), place.cols as nat) ==> rows_full(
            text_views(final(out)@),
            place.cols as nat,
        ),
{
    let goals: Vec<String> = Vec::new();
    assert(text::views(goals@) =~= seq![]);
    append_actions(out, items, goals.as_slice(), place, theme, hud_bg);
}

impl OverlayPanel {
    /// The rows of the list of actions. It is drawn also while the panel is hidden.
    pub fn draw_actions(&self, place: HudPlace, theme: &Theme, hud_bg: Rgb) -> (r: Vec<OverlayText>)
        requires
            place.row + 3 * explain::HUD_MAX_ITEMS + 2 <= usize::MAX,
        ensures
            text_views(r@) == hud_texts(
                self@.actionable_items,
                self@.action_goals,
                place,
                *theme,
                hud_bg,
            ),
            rows_full(text_views(r@), place.cols as nat),
    {
        let mut out: Vec<OverlayText> = Vec::new();
        assert(text_views(out@) =~= seq![]);
        append_actions(
            &mut out,
            self.actionable_items.as_slice(),
            self.action_goals.as_slice(),
            place,
            theme,
            hud_bg,
        );
        assert(text_views(out@) =~= hud_texts(
            self@.actionable_items,
            self@.action_goals,
            place,
            *theme,
            hud_bg,
        ));
        out
    }
}

/// Closing the panel leaves the list of actions on the screen as it is.
pub proof fn law_actions_are_drawn_when_hidden(
    p: PanelView,
    place: HudPlace,
    theme: Theme,
    bg: Rgb,
)
    ensures
        hud_texts(p.hidden().actionable_items, p.hidden().action_goals, place, theme, bg)
            == hud_texts(p.actionable_items, p.action_goals, place, theme, bg),
        p.actionable_items.len() > 0 ==> hud_texts(
            p.hidden().actionable_items,
            p.hidden().action_goals,
            place,
            theme,
            bg,
        ).len() > 0,
{
}

/// Each action that the list shows is drawn with what it is for, where that is known and the
/// list is wide enough for it: a row ends with it.
pub proof fn law_each_goal_is_drawn(
    items: Seq<Seq<char>>,
    goals: Seq<Seq<char>>,
    k: int,
    cols: nat,
)
    requires
        0 <= k < hud_shown(items),
        goal_at(goals, k).len() > 0,
        cols > 0,
        layout::columns("    "@ + goal_at(goals, k)) <= cols,
    ensures
        exists|r: int|
            0 <= r < hud_rows(items, goals, hud_shown(items), cols).len() && goal_at(
                goals,
                k,
            ).is_suffix_of(#[trigger] hud_rows(items, goals, hud_shown(items), cols)[r]),
{
    let goal = goal_at(goals, k);
    let line = "    "@ + goal;
    let at = widest(items, hud_shown(items)) + HUD_GOAL_GAP as nat;
    let own = action_rows(hud_head(items, k), goal, at, cols);
    layout::lemma_fitting(line, cols as int);
    assert(line.take(line.len() as int) =~= line);
    assert(layout::fitting(line, cols as int) == line.len());
    assert(own.last() == layout::padded(hud_head(items, k), at) + goal || own.last()
        == layout::cut(line, cols));
    assert(goal.is_suffix_of(own.last()));
    let rows = hud_rows(items, goals, hud_shown(items), cols);
    lemma_hud_rows(items, goals, (k + 1) as nat, hud_shown(items), cols);
    let upto = hud_rows(items, goals, (k + 1) as nat, cols);
    assert(upto.last() == own.last());
    assert(rows[upto.len() - 1] == upto.last());
}

/// The rows of the first items are the first rows.
proof fn lemma_hud_rows(
    items: Seq<Seq<char>>,
    goals: Seq<Seq<char>>,
    n: nat,
    m: nat,
    cols: nat,
)
    requires
        n <= m,
    ensures
        hud_rows(items, goals, n, cols).is_prefix_of(hud_rows(items, goals, m, cols)),
    decreases m,
{
    if n < m {
        lemma_hud_rows(items, goals, n, (m - 1) as nat, cols);
        let less = hud_rows(items, goals, (m - 1) as nat, cols);
        let more = hud_rows(items, goals, m, cols);
        let first = hud_rows(items, goals, n, cols);
        assert(more.take(first.len() as int) =~= less.take(first.len() as int));
    }
}

/// The rows of the items of the list of actions.
spec fn item_texts(rows: Seq<Seq<char>>, place: HudPlace, theme: Theme, bg: Rgb) -> Seq<TextView> {
    Seq::new(rows.len(), |k: int| hud_text(place, 1 + k, rows[k], theme.code_fg, bg))
}

/// What is known of the last command stands over the conversation: the command, and what is
/// selected. Where nothing is known, nothing does.
pub proof fn law_context_is_shown(p: PanelView, cols: nat)
    ensures
        p.context_command.len() > 0 ==> explain::mentions(
            context_lines(p, cols),
            p.context_command,
        ),
        p.context_selection matches Some(s) ==> explain::mentions(context_lines(p, cols), s),
        p.context_command.len() == 0 && p.context_selection is None ==> context_lines(p, cols).len()
            == 0,
{
    let all = context_lines(p, cols);
    let command = p.context_command;
    if command.len() > 0 {
        text::lemma_occurs("  $ "@, command, seq![]);
        assert("  $ "@ + command + seq![] =~= "  $ "@ + command);
        assert(all[1].text == "  $ "@ + command);
    }
    if let Some(s) = p.context_selection {
        text::lemma_occurs("  ▸ "@, s, seq![]);
        assert("  ▸ "@ + s + seq![] =~= "  ▸ "@ + s);
        let i: int = if command.len() > 0 {
            3
        } else {
            2
        };
        assert(all[i].text == "  ▸ "@ + s);
    }
}

/// Where there is room for it, the panel shows what is known of the last command and then the
/// whole conversation, line by line.
pub proof fn law_all_lines_are_in_view(p: PanelView, grid: PanelGrid)
    requires
        layout::width_of(' ') == 1,
        ({
            let lines = context_lines(p, grid.cols as nat) + p.view_lines();
            &&& lines.len() <= grid.content_height()
            &&& forall|i: int|
                0 <= i < lines.len() ==> (#[trigger] lines[i]).text.len() == 0 || layout::is_short(
                    lines[i].text,
                    grid.cols as nat,
                )
        }),
    ensures
        rows_in_view(p, grid) == context_lines(p, grid.cols as nat) + p.view_lines(),
{
    let lines = context_lines(p, grid.cols as nat) + p.view_lines();
    layout::law_short_lines_stay(lines, grid.cols as nat);
    assert(max_scroll(p, grid) == 0);
    assert(scroll_start(p, grid) == 0);
    assert(lines.skip(0) =~= lines);
}

/// Scrolled up, the panel begins with the row that it was scrolled to, and shows the rows behind
/// it one after the other; it never goes beyond the last rows.
pub proof fn law_scrolled_rows(p: PanelView, grid: PanelGrid, i: int)
    requires
        !p.stick_to_bottom,
        p.scroll_offset + grid.content_height() <= content_rows(p, grid.cols as nat).len(),
        0 <= i < grid.content_height(),
    ensures
        rows_in_view(p, grid).len() == grid.content_height(),
        rows_in_view(p, grid)[i] == content_rows(p, grid.cols as nat)[p.scroll_offset + i],
{
}

/// A visible panel draws every row that is in view, below its header and above its footer, one
/// under the other, in the colours of its style. A hidden one draws nothing.
pub proof fn law_rows_are_drawn(p: PanelView, grid: PanelGrid, theme: Theme, i: int)
    requires
        p.visible,
        0 <= i < rows_in_view(p, grid).len(),
        grid.cols > 0,
    ensures
        ({
            let row = rows_in_view(p, grid)[i];
            let t = panel_texts(p, grid, theme)[2 + i];
            &&& t.line == grid.start_row + 2 + i
            &&& t.column == grid.start_col
            &&& layout::columns(row.text) <= grid.cols ==> row.text.is_prefix_of(t.text)
            &&& t.fg == theme.line_colors(row.style).0
            &&& t.bg == theme.line_colors(row.style).1
        }),
        panel_texts(p, grid, theme)[0].line == grid.start_row,
        panel_texts(p, grid, theme)[1].line == grid.start_row + 1,
        panel_texts(PanelView { visible: false, ..p }, grid, theme).len() == 0,
        rows_in_view(p, grid).len() <= grid.content_height(),
        grid.rows >= 5 ==> grid.content_height() == grid.rows - 5,
{
    let row = rows_in_view(p, grid)[i];
    if layout::columns(row.text) <= grid.cols {
        layout::law_padded(row.text, grid.cols as nat);
    }
}

/// Each kind of line has the colour that the theme gives to it; what is selected stands on the
/// background of the selection, and all else on that of the panel.
pub proof fn law_line_colors(theme: Theme)
    ensures
        theme.line_colors(LineStyle::SectionHeader) == (theme.section_fg, theme.panel_bg),
        theme.line_colors(LineStyle::Body) == (theme.body_fg, theme.panel_bg),
        theme.line_colors(LineStyle::Muted) == (theme.muted_fg, theme.panel_bg),
        theme.line_colors(LineStyle::Loading) == theme.line_colors(LineStyle::Muted),
        theme.line_colors(LineStyle::Code) == (theme.code_fg, theme.panel_bg),
        theme.line_colors(LineStyle::Error) == (theme.error_fg, theme.panel_bg),
        theme.line_colors(LineStyle::SelectionLabel) == (
            theme.selection_label_fg,
            theme.selection_bg,
        ),
        theme.line_colors(LineStyle::SelectionText) == (theme.selection_fg, theme.selection_bg),
{
}

/// The header tells which mode the panel is in and where the keys go to; the line for the input
/// shows what was typed, where the keys go to the conversation.
pub proof fn law_state_is_shown(p: PanelView)
    ensures
        p.interaction_mode == InteractionMode::Command ==> text::has_sub(
            header_hints(p),
            "[Command]"@,
        ),
        p.interaction_mode == InteractionMode::Chat ==> text::has_sub(header_hints(p), "[Chat]"@),
        p.input_focus == InputFocus::Overlay ==> text::has_sub(header_hints(p), "shell"@),
        p.input_focus == InputFocus::Terminal ==> text::has_sub(header_hints(p), "panel"@),
        p.input_focus == InputFocus::Overlay && p.interaction_mode == InteractionMode::Chat
            && p.input_buffer.len() > 0 ==> text::has_sub(input_line(p), p.input_buffer),
        p.input_focus == InputFocus::Terminal ==> input_line(p) == " > (terminal focus)"@,
{
    let hints = header_hints(p);
    let mode = match p.interaction_mode {
        InteractionMode::Command => "[Command]"@,
        InteractionMode::Chat => "[Chat]"@,
    };
    let focus = match p.input_focus {
        InputFocus::Overlay => "⌃⇧Tab → shell"@,
        InputFocus::Terminal => "⌃⇧Tab → panel"@,
    };
    let tail = "   "@ + focus + "   Esc   ↑↓   ⇧Y"@;
    text::lemma_occurs(" Tab "@, mode, tail);
    assert(" Tab "@ + mode + tail =~= hints);
    let head = " Tab "@ + mode + "   "@;
    text::lemma_occurs(head, focus, "   Esc   ↑↓   ⇧Y"@);
    assert(head + focus + "   Esc   ↑↓   ⇧Y"@ =~= hints);
    reveal_strlit("⌃⇧Tab → shell");
    reveal_strlit("⌃⇧Tab → panel");
    reveal_strlit("shell");
    reveal_strlit("panel");
    match p.input_focus {
        InputFocus::Overlay => {
            assert(focus.subrange(8, 13) =~= "shell"@);
            assert(text::occurs_at(focus, "shell"@, 8));
            text::lemma_sub_within(hints, focus, "shell"@);
        },
        InputFocus::Terminal => {
            assert(focus.subrange(8, 13) =~= "panel"@);
            assert(text::occurs_at(focus, "panel"@, 8));
            text::lemma_sub_within(hints, focus, "panel"@);
        },
    }
    let cursor = if p.takes_input() {
        "▌"@
    } else {
        " "@
    };
    text::lemma_occurs(" > "@, p.input_buffer, cursor);
}

proof fn lemma_widest(items: Seq<Seq<char>>, n: nat, k: int)
    requires
        0 <= k < n,
    ensures
        layout::columns(hud_head(items, k)) <= widest(items, n),
    decreases n,
{
    if k < n - 1 {
        lemma_widest(items, (n - 1) as nat, k);
    }
}

/// Every item on offer is drawn under its number, up to five of them, where its row fits.
pub proof fn law_each_item_is_drawn(
    items: Seq<Seq<char>>,
    goals: Seq<Seq<char>>,
    k: int,
    cols: nat,
)
    requires
        layout::width_of(' ') == 1,
        0 <= k < items.len(),
        k < 5,
        layout::is_short(hud_head(items, k), cols),
    ensures
        exists|r: int|
            0 <= r < hud_rows(items, goals, hud_shown(items), cols).len() && text::has_sub(
                #[trigger] hud_rows(items, goals, hud_shown(items), cols)[r],
                text::decimal((k + 1) as nat) + ". "@ + text::trimmed(items[k]),
            ),
{
    let label = text::decimal((k + 1) as nat) + ". "@ + text::trimmed(items[k]);
    lemma_tail_stands(
        " "@,
        text::decimal((k + 1) as nat),
        ". "@,
        text::trimmed(items[k]),
    );
    lemma_item_drawn(items, goals, k, cols, label);
}

proof fn lemma_tail_stands(a: Seq<char>, b: Seq<char>, c: Seq<char>, d: Seq<char>)
    ensures
        text::has_sub(a + b + c + d, b + c + d),
{
    let label = b + c + d;
    let whole = a + b + c + d;
    assert(whole.subrange(a.len() as int, a.len() as int + label.len()) =~= label);
    assert(text::occurs_at(whole, label, a.len() as int));
}

proof fn lemma_item_drawn(
    items: Seq<Seq<char>>,
    goals: Seq<Seq<char>>,
    k: int,
    cols: nat,
    label: Seq<char>,
)
    requires
        layout::width_of(' ') == 1,
        0 <= k < hud_shown(items),
        layout::is_short(hud_head(items, k), cols),
        text::has_sub(hud_head(items, k), label),
    ensures
        exists|r: int|
            0 <= r < hud_rows(items, goals, hud_shown(items), cols).len() && text::has_sub(
                #[trigger] hud_rows(items, goals, hud_shown(items), cols)[r],
                label,
            ),
{
    let at = widest(items, hud_shown(items)) + HUD_GOAL_GAP as nat;
    lemma_widest(items, hud_shown(items), k);
    lemma_first_row(hud_head(items, k), goal_at(goals, k), at, cols, label);
    lemma_item_row(items, goals, hud_shown(items), k, cols, label);
}

proof fn lemma_first_row(
    head: Seq<char>,
    goal: Seq<char>,
    at: nat,
    cols: nat,
    label: Seq<char>,
)
    requires
        layout::width_of(' ') == 1,
        layout::is_short(head, cols),
        layout::columns(head) <= at,
        at > 0,
        text::has_sub(head, label),
    ensures
        action_rows(head, goal, at, cols).len() > 0,
        text::has_sub(action_rows(head, goal, at, cols)[0], label),
{
    layout::law_short_line_is_one_row(head, cols);
    if goal.len() > 0 && at + layout::columns(goal) <= cols {
        layout::law_padded(head, at);
        let row = layout::padded(head, at) + goal;
        let rest = row.skip(head.len() as int);
        text::lemma_occurs(seq![], head, rest);
        assert(Seq::<char>::empty() + head + rest =~= row);
        text::lemma_sub_within(row, head, label);
    }
}

proof fn lemma_item_row(
    items: Seq<Seq<char>>,
    goals: Seq<Seq<char>>,
    n: nat,
    k: int,
    cols: nat,
    label: Seq<char>,
)
    requires
        0 <= k < n,
        ({
            let rows = action_rows(
                hud_head(items, k),
                goal_at(goals, k),
                widest(items, hud_shown(items)) + HUD_GOAL_GAP as nat,
                cols,
            );
            rows.len() > 0 && text::has_sub(rows[0], label)
        }),
    ensures
        exists|r: int|
            0 <= r < hud_rows(items, goals, n, cols).len() && text::has_sub(
                #[trigger] hud_rows(items, goals, n, cols)[r],
                label,
            ),
    decreases n,
{
    let before = hud_rows(items, goals, (n - 1) as nat, cols);
    let all = hud_rows(items, goals, n, cols);
    if k < n - 1 {
        lemma_item_row(items, goals, (n - 1) as nat, k, cols, label);
        let r = choose|r: int|
            0 <= r < before.len() && text::has_sub(#[trigger] before[r], label);
        assert(all[r] == before[r]);
    } else {
        let r = before.len() as int;
        assert(text::has_sub(all[r], label));
    }
}

/// The rows of the actions stand under their heading, one under the other, and a sign shows that
/// there are more than five. Without actions nothing is drawn.
pub proof fn law_action_rows_are_drawn(
    items: Seq<Seq<char>>,
    goals: Seq<Seq<char>>,
    place: HudPlace,
    theme: Theme,
    bg: Rgb,
    r: int,
)
    requires
        items.len() > 0,
        place.cols > 0,
        0 <= r < hud_rows(items, goals, hud_shown(items), place.cols as nat).len(),
    ensures
        ({
            let rows = hud_rows(items, goals, hud_shown(items), place.cols as nat);
            let texts = hud_texts(items, goals, place, theme, bg);
            &&& texts[0].line == place.row
            &&& texts[0].fg == theme.section_fg
            &&& texts[1 + r].line == place.row + 1 + r
            &&& texts[1 + r].column == place.column
            &&& texts[1 + r].fg == theme.code_fg
            &&& texts[1 + r].bg == bg
            &&& layout::columns(rows[r]) <= place.cols ==> rows[r].is_prefix_of(texts[1 + r].text)
            &&& texts.len() == 1 + rows.len() + if items.len() > 5 {
                1nat
            } else {
                0nat
            }
        }),
        hud_texts(seq![], goals, place, theme, bg).len() == 0,
{
    let rows = hud_rows(items, goals, hud_shown(items), place.cols as nat);
    if layout::columns(rows[r]) <= place.cols {
        layout::law_padded(rows[r], place.cols as nat);
    }
}

/// The footer tells what the keys do: in the shell, in the list of commands, or in the
/// conversation; a cursor stands behind the input where it takes keys.
pub proof fn law_footer(p: PanelView)
    ensures
        p.input_focus == InputFocus::Terminal ==> text::has_sub(footer_hint(p), "Terminal focus"@),
        p.input_focus == InputFocus::Overlay && p.interaction_mode == InteractionMode::Command
            ==> text::has_sub(footer_hint(p), "/info"@),
        p.input_focus == InputFocus::Overlay && p.interaction_mode == InteractionMode::Chat
            ==> text::has_sub(footer_hint(p), "/clear"@),
        p.input_focus == InputFocus::Overlay && p.input_focused ==> "▌"@.is_suffix_of(input_line(p)),
        p.input_focus == InputFocus::Overlay && !p.input_focused ==> " "@.is_suffix_of(
            input_line(p),
        ),
{
    let hint = footer_hint(p);
    let line = input_line(p);
    match (p.input_focus, p.interaction_mode) {
        (InputFocus::Terminal, _) => {
            reveal_strlit(" Terminal focus — type in shell (⌃⇧Tab for panel)");
            reveal_strlit("Terminal focus");
            assert(hint.subrange(1, 15) =~= "Terminal focus"@);
            assert(text::occurs_at(hint, "Terminal focus"@, 1));
        },
        (InputFocus::Overlay, InteractionMode::Command) => {
            reveal_strlit(" Tab → Chat   /info · /help");
            reveal_strlit("/info");
            assert(hint.subrange(14, 19) =~= "/info"@);
            assert(text::occurs_at(hint, "/info"@, 14));
        },
        (InputFocus::Overlay, InteractionMode::Chat) => {
            reveal_strlit(" Ask ↵ send   /clear · /help");
            reveal_strlit(" Ask about this command ↵ send   /clear · /help");
            reveal_strlit("/clear");
            if p.context_command.len() == 0 {
                assert(hint.subrange(14, 20) =~= "/clear"@);
                assert(text::occurs_at(hint, "/clear"@, 14));
            } else {
                assert(hint.subrange(33, 39) =~= "/clear"@);
                assert(text::occurs_at(hint, "/clear"@, 33));
            }
        },
    }
    if p.input_focus == InputFocus::Overlay {
        let cursor = if p.takes_input() {
            "▌"@
        } else {
            " "@
        };
        assert(line.subrange(line.len() - cursor.len(), line.len() as int) =~= cursor);
    }
}

} // verus!
