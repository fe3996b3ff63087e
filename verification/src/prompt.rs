//! Chat prompt construction.
//!
//! Combines environment, last command + output + exit code, past journal notes,
//! a budgeted reference excerpt, and the user's question. Plain text only.
use vstd::prelude::*;
use vstd::string::*;

use crate::journal;
use crate::journal::{JournalNote, NoteView};
use crate::ollama::ToolSet;
use crate::path;
use crate::settings::ExperienceLevel;
use crate::text;
use crate::types;
use crate::types::{ReferenceContext, ReferenceView, TerminalContext};

verus! {

broadcast use vstd::string::group_string_axioms;

/// Most characters of the selection and of the last output.
pub const CONTEXT_MAX_CHARS: usize = 1_000;

/// Most characters of the terminal excerpt.
pub const EXCERPT_MAX_CHARS: usize = 2_000;

/// Character budget for past notes.
pub const JOURNAL_BUDGET_CHARS: usize = 1_500;

/// What the prompt says of the user's machine.
#[derive(Debug, Clone, PartialEq, Eq)]
pub struct Environment {
    /// Name of the operating system, as in `std::env::consts::OS`.
    pub os: String,
    /// Path of the user's shell, where it is known.
    pub shell: Option<String>,
}

/// The instructions that every prompt starts with.
pub open spec fn base_instructions() -> Seq<char> {
    "You are an expert command-line educator helping a developer understand their shell.\nAnswer in clear conversational plain text. Do not use markdown.\nPrefer the Reference and Past notes sections over remembered training data.\nDo not invent flags or options that are not present in the Reference.\nIf Reference is missing, say so rather than guessing flags.\n"@
}

/// What is said of the `web_search` tool.
pub open spec fn search_guidance() -> Seq<char> {
    "You may call the web_search tool for current events, version changes, changelogs,\nor facts not covered by Reference. Prefer local Reference for flags and options.\nWhen using search results, briefly cite titles or URLs in plain text.\n"@
}

/// What is said of the `run_command` tool.
pub open spec fn command_guidance() -> Seq<char> {
    "You may call the run_command tool to inspect this machine with read-only commands\nsuch as ls, cat, head, wc, stat, find, grep, which, env, uname, ps, df, and\ngit status/log/diff. Use it whenever the answer depends on the user's actual files,\ndirectories, git state, or installed versions rather than on general knowledge.\nInvestigate before you answer, and keep going until you have a real answer.\nOne command is rarely enough: list a directory, then look inside the promising\nentries; if you do not know where something lives, search for it with find, and\nwiden or loosen the search (case-insensitive, partial names, more depth) when the\nfirst attempt finds nothing. Related names count — a request for \"movies\" may be\nserved by a directory called Videos, Media, or Film.\nYou have ample tool calls available. Do not ration them, do not estimate when\nyou could measure, and never cite limited steps as a reason to stop early — if a\ncomplete answer needs several more commands, run them. When asked which item is\nlargest, newest, or most numerous, measure it (du, wc, stat, ls -l) rather than\ninferring from names.\nRun one command per call: pipes, redirects, and chaining are unavailable.\nA leading ~ is expanded to the home directory. find's grouping syntax works, so\nprefer one \\( -iname \"*.a\" -o -iname \"*.b\" \\) search over one call per pattern.\nA refused or failed command is information, not a dead end. Read the error text\nbefore deciding anything. \"No such file or directory\" usually means the name was\nwrong, not that the thing is missing: check the spelling, the capitalisation, and\nwhether the user's word for it differs from the actual name. When the tool lists\nsimilarly named entries, treat them as the likely answer and look at them.\nThen try a different command that respects the error — do not repeat a refused\ncommand unchanged, and do not stop at the first failure. Only give up once you\nhave genuinely run out of readable places to look; then say what you tried and\nwhat stopped you, rather than implying the thing does not exist.\n"@
}

/// What is said of the user's experience.
pub open spec fn level_guidance(level: ExperienceLevel) -> Seq<char> {
    match level {
        ExperienceLevel::Beginner => "User experience level: Beginner.\nAssume little or no terminal experience. Define terminology in plain language,\nexplain what each command and flag does step by step, avoid jargon unless you\nbriefly explain it, and include safe next actions the user can try.\n"@,
        ExperienceLevel::Novice => "User experience level: Novice.\nThe user has some shell experience. Keep explanations approachable but lighter\nthan for beginners. Focus on non-obvious flags, common failure modes, and why\na command behaves the way it does without over-explaining basics.\n"@,
        ExperienceLevel::Professional => "User experience level: Professional.\nThe user is a comfortable daily CLI user. Be concise. Focus on root cause,\ntradeoffs, exact commands, and useful references. Skip elementary shell concepts.\n"@,
        ExperienceLevel::Expert => "User experience level: Expert.\nThe user has deep terminal knowledge. Be terse and precise. Avoid basics.\nEmphasize edge cases, internals, and high-signal diagnostics.\n"@,
    }
}

/// Base instructions plus guidance for whichever tools are actually enabled.
pub open spec fn instructions(level: ExperienceLevel, tools: ToolSet) -> Seq<char> {
    base_instructions() + (if tools.web_search {
        search_guidance()
    } else {
        seq![]
    }) + (match tools.read_exec {
        Some(root) => command_guidance() + "You can read files under "@ + root@ + ".\n"@,
        None => seq![],
    }) + level_guidance(level)
}

/// Base instructions plus guidance for whichever tools are actually enabled.
///
/// A tool is only described when it is offered; advertising a disabled tool
/// makes small models call it and then stall on the "unknown tool" reply.
pub fn system_instructions(level: ExperienceLevel, tools: &ToolSet) -> (r: String)
    ensures
        r@ == instructions(level, *tools),
{
    let mut out =
        "You are an expert command-line educator helping a developer understand their shell.\nAnswer in clear conversational plain text. Do not use markdown.\nPrefer the Reference and Past notes sections over remembered training data.\nDo not invent flags or options that are not present in the Reference.\nIf Reference is missing, say so rather than guessing flags.\n".to_owned();
    if tools.web_search {
        out.append(
            "You may call the web_search tool for current events, version changes, changelogs,\nor facts not covered by Reference. Prefer local Reference for flags and options.\nWhen using search results, briefly cite titles or URLs in plain text.\n",
        );
    }
    let ghost before = out@;
    if let Some(root) = &tools.read_exec {
        out.append(
            "You may call the run_command tool to inspect this machine with read-only commands\nsuch as ls, cat, head, wc, stat, find, grep, which, env, uname, ps, df, and\ngit status/log/diff. Use it whenever the answer depends on the user's actual files,\ndirectories, git state, or installed versions rather than on general knowledge.\nInvestigate before you answer, and keep going until you have a real answer.\nOne command is rarely enough: list a directory, then look inside the promising\nentries; if you do not know where something lives, search for it with find, and\nwiden or loosen the search (case-insensitive, partial names, more depth) when the\nfirst attempt finds nothing. Related names count — a request for \"movies\" may be\nserved by a directory called Videos, Media, or Film.\nYou have ample tool calls available. Do not ration them, do not estimate when\nyou could measure, and never cite limited steps as a reason to stop early — if a\ncomplete answer needs several more commands, run them. When asked which item is\nlargest, newest, or most numerous, measure it (du, wc, stat, ls -l) rather than\ninferring from names.\nRun one command per call: pipes, redirects, and chaining are unavailable.\nA leading ~ is expanded to the home directory. find's grouping syntax works, so\nprefer one \\( -iname \"*.a\" -o -iname \"*.b\" \\) search over one call per pattern.\nA refused or failed command is information, not a dead end. Read the error text\nbefore deciding anything. \"No such file or directory\" usually means the name was\nwrong, not that the thing is missing: check the spelling, the capitalisation, and\nwhether the user's word for it differs from the actual name. When the tool lists\nsimilarly named entries, treat them as the likely answer and look at them.\nThen try a different command that respects the error — do not repeat a refused\ncommand unchanged, and do not stop at the first failure. Only give up once you\nhave genuinely run out of readable places to look; then say what you tried and\nwhat stopped you, rather than implying the thing does not exist.\n",
        );
        out.append("You can read files under ");
        out.append(root.as_str());
        out.append(".\n");
        assert(out@ =~= before + (command_guidance() + "You can read files under "@ + root@
            + ".\n"@));
    } else {
        assert(before + seq![] =~= before);
    }
    assert(base_instructions() + seq![] =~= base_instructions());
    out.append(experience_guidance(level));
    out
}

/// What is said of the user's experience.
pub fn experience_guidance(level: ExperienceLevel) -> (r: &'static str)
    ensures
        r@ == level_guidance(level),
{
    match level {
        ExperienceLevel::Beginner => "User experience level: Beginner.\nAssume little or no terminal experience. Define terminology in plain language,\nexplain what each command and flag does step by step, avoid jargon unless you\nbriefly explain it, and include safe next actions the user can try.\n",
        ExperienceLevel::Novice => "User experience level: Novice.\nThe user has some shell experience. Keep explanations approachable but lighter\nthan for beginners. Focus on non-obvious flags, common failure modes, and why\na command behaves the way it does without over-explaining basics.\n",
        ExperienceLevel::Professional => "User experience level: Professional.\nThe user is a comfortable daily CLI user. Be concise. Focus on root cause,\ntradeoffs, exact commands, and useful references. Skip elementary shell concepts.\n",
        ExperienceLevel::Expert => "User experience level: Expert.\nThe user has deep terminal knowledge. Be terse and precise. Avoid basics.\nEmphasize edge cases, internals, and high-signal diagnostics.\n",
    }
}

/// `text` cut to `max` characters, with a note where something was cut.
pub open spec fn shortened(text: Seq<char>, max: nat) -> Seq<char> {
    types::cut_with_marker(text, max, "\n... [truncated]"@)
}

/// `text` cut to `max_chars` characters, with a note where something was cut.
pub fn truncate(text: &str, max_chars: usize) -> (r: String)
    ensures
        r@ == shortened(text@, max_chars as nat),
{
    types::truncate_with_marker(text, max_chars, "\n... [truncated]")
}

/// A note as it is listed under number `n`.
pub open spec fn note_entry(n: nat, note: NoteView) -> Seq<char> {
    text::decimal(n) + ". Q: "@ + shortened(note.question, 200) + "\n   A: "@ + shortened(
        note.reply,
        400,
    ) + "\n"@
}

/// `out` with the notes from the one at `i` on listed behind it, as long as they fit.
pub open spec fn notes_from(notes: Seq<NoteView>, i: int, out: Seq<char>) -> Seq<char>
    decreases notes.len() - i,
{
    if 0 <= i < notes.len() && out.len() + note_entry((i + 1) as nat, notes[i]).len()
        <= JOURNAL_BUDGET_CHARS {
        notes_from(notes, i + 1, out + note_entry((i + 1) as nat, notes[i]))
    } else {
        out
    }
}

/// The past notes on a program, where there are any.
pub open spec fn notes_block(notes: Seq<NoteView>) -> Option<Seq<char>> {
    if notes.len() == 0 {
        None
    } else {
        Some(notes_from(notes, 0, "Past notes for "@ + notes[0].program + ":\n"@))
    }
}

fn format_note(n: usize, note: &JournalNote) -> (r: String)
    ensures
        r@ == note_entry(n as nat, note@),
{
    let question = truncate(note.question.as_str(), 200);
    let reply = truncate(note.reply.as_str(), 400);
    let mut out = text::usize_text(n);
    out.append(". Q: ");
    out.append(question.as_str());
    out.append("\n   A: ");
    out.append(reply.as_str());
    out.append("\n");
    out
}

/// The past notes on a program, where there are any.
pub fn format_journal_notes(notes: &[JournalNote]) -> (r: Option<String>)
    ensures
        match r {
            Some(b) => notes_block(journal::note_views(notes@)) == Some(b@),
            None => notes_block(journal::note_views(notes@)) is None,
        },
{
    if notes.len() == 0 {
        return None;
    }
    let ghost all = journal::note_views(notes@);
    let mut block = text::concat3("Past notes for ", notes[0].program.as_str(), ":\n");
    let ghost head = block@;
    assert(all[0].program == notes@[0].program@);
    let mut used = block.as_str().unicode_len();
    let mut i: usize = 0;
    while i < notes.len()
        invariant
            i <= notes@.len(),
            all == journal::note_views(notes@),
            used == block@.len(),
            notes_from(all, i as int, block@) == notes_from(all, 0, head),
            notes_block(all) == Some(notes_from(all, 0, head)),
        decreases notes@.len() - i,
    {
        assert(all[i as int] == notes@[i as int]@);
        let entry = format_note(i + 1, &notes[i]);
        let n = entry.as_str().unicode_len();
        if used > JOURNAL_BUDGET_CHARS || n > JOURNAL_BUDGET_CHARS - used {
            return Some(block);
        }
        block.append(entry.as_str());
        used = used + n;
        i += 1;
    }
    Some(block)
}

/// The line on the user's machine.
pub open spec fn env_text(os: Seq<char>, shell: Option<Seq<char>>) -> Seq<char> {
    let name = if os == "macos"@ {
        "macOS"@
    } else if os == "linux"@ {
        "Linux"@
    } else if os == "windows"@ {
        "Windows"@
    } else {
        os
    };
    if shell is Some && path::last_name(shell->0) is Some && path::last_name(shell->0)->0.len() > 0 {
        "Environment: "@ + name + ", "@ + path::last_name(shell->0)->0
    } else {
        "Environment: "@ + name
    }
}

/// "Environment: <os>, <shell>" line.
pub fn env_line(env: &Environment) -> (r: String)
    ensures
        r@ == env_text(env.os@, text::opt_string(env.shell)),
{
    let os = env.os.as_str();
    let name = if text::same(os, "macos") {
        "macOS"
    } else if text::same(os, "linux") {
        "Linux"
    } else if text::same(os, "windows") {
        "Windows"
    } else {
        os
    };
    let mut out = text::concat("Environment: ", name);
    if let Some(p) = &env.shell {
        if let Some(shell) = path::file_name(p.as_str()) {
            if !shell.as_str().is_empty() {
                out.append(", ");
                out.append(shell.as_str());
            }
        }
    }
    out
}

/// The selection, the exit code where it is not zero, and the output of the last command.
pub open spec fn context_parts(
    selected: Option<Seq<char>>,
    exit_code: Option<i32>,
    output: Seq<char>,
) -> Seq<Seq<char>> {
    (if selected is Some && selected->0.len() > 0 {
        seq!["Selection:\n"@ + shortened(selected->0, CONTEXT_MAX_CHARS as nat)]
    } else {
        seq![]
    }) + (if exit_code is Some && exit_code->0 != 0 {
        seq!["Exit code: "@ + text::signed_decimal(exit_code->0 as int)]
    } else {
        seq![]
    }) + (if output.len() > 0 {
        seq!["Output:\n"@ + shortened(output, CONTEXT_MAX_CHARS as nat)]
    } else {
        seq![]
    })
}

/// The selection, the exit code and the output of the last command.
pub fn context_block(ctx: &TerminalContext) -> (r: String)
    ensures
        r@ == text::joined(
            context_parts(
                text::opt_string(ctx.selected_text),
                ctx.exit_code,
                ctx.last_command_output@,
            ),
            "\n"@,
        ),
{
    let mut parts: Vec<String> = Vec::new();
    assert(text::views(parts@) =~= seq![]);
    if let Some(sel) = &ctx.selected_text {
        if !sel.as_str().is_empty() {
            let cut = truncate(sel.as_str(), CONTEXT_MAX_CHARS);
            text::push_text(&mut parts, text::concat("Selection:\n", cut.as_str()));
        }
    }
    if let Some(code) = ctx.exit_code {
        if code != 0 {
            let number = text::i64_text(code as i64);
            text::push_text(&mut parts, text::concat("Exit code: ", number.as_str()));
        }
    }
    if !ctx.last_command_output.as_str().is_empty() {
        let cut = truncate(ctx.last_command_output.as_str(), CONTEXT_MAX_CHARS);
        text::push_text(&mut parts, text::concat("Output:\n", cut.as_str()));
    }
    assert(text::views(parts@) =~= context_parts(
        text::opt_string(ctx.selected_text),
        ctx.exit_code,
        ctx.last_command_output@,
    ));
    text::join(parts.as_slice(), "\n")
}

/// A part of the prompt with an empty line behind it, nothing where it is missing.
pub open spec fn part(text: Option<Seq<char>>) -> Seq<char> {
    match text {
        Some(t) => t + "\n\n"@,
        None => seq![],
    }
}

/// The text where it is not empty.
pub open spec fn non_empty(text: Seq<char>) -> Option<Seq<char>> {
    if text.len() > 0 {
        Some(text)
    } else {
        None
    }
}

/// The part on the last command.
pub open spec fn command_part(command: Seq<char>) -> Option<Seq<char>> {
    if text::trimmed(command).len() > 0 {
        Some("Last command:\n"@ + text::trimmed(command))
    } else {
        None
    }
}

/// The part with the reference, or with the notice that there is none.
pub open spec fn reference_part(reference: Option<ReferenceView>) -> Option<Seq<char>> {
    match reference {
        None => None,
        Some(r) => if text::trimmed(r.body).len() > 0 {
            Some("Reference ("@ + r.source.shown() + "):\n"@ + text::trimmed(r.body))
        } else if r.program.len() > 0 {
            Some(
                "Context status: No local man/--help (or fallback docs) for "@ + r.program + "."@,
            )
        } else {
            None
        },
    }
}

/// The part with what is on screen.
pub open spec fn excerpt_part(visible: Seq<char>) -> Option<Seq<char>> {
    let excerpt = shortened(visible, EXCERPT_MAX_CHARS as nat);
    if text::trimmed(excerpt).len() > 0 {
        Some("Terminal excerpt:\n"@ + excerpt)
    } else {
        None
    }
}

/// The full chat prompt: its parts in their order, and the question last.
pub open spec fn chat_prompt(
    ctx: TerminalContext,
    reference: Option<ReferenceView>,
    notes: Seq<NoteView>,
    message: Seq<char>,
    level: ExperienceLevel,
    tools: ToolSet,
    env: Environment,
) -> Seq<char> {
    part(Some(instructions(level, tools))) + part(
        Some(env_text(env.os@, text::opt_string(env.shell))),
    ) + part(command_part(ctx.last_command@)) + part(
        non_empty(
            text::joined(
                context_parts(
                    text::opt_string(ctx.selected_text),
                    ctx.exit_code,
                    ctx.last_command_output@,
                ),
                "\n"@,
            ),
        ),
    ) + part(notes_block(notes)) + part(reference_part(reference)) + part(
        excerpt_part(ctx.visible_text@),
    ) + "User question:\n"@ + text::trimmed(message)
}

/// The prompt ends with the user's question.
pub proof fn law_prompt_ends_with_question(
    ctx: TerminalContext,
    reference: Option<ReferenceView>,
    notes: Seq<NoteView>,
    message: Seq<char>,
    level: ExperienceLevel,
    tools: ToolSet,
    env: Environment,
)
    ensures
        ("User question:\n"@ + text::trimmed(message)).is_suffix_of(
            chat_prompt(ctx, reference, notes, message, level, tools, env),
        ),
{
    let prompt = chat_prompt(ctx, reference, notes, message, level, tools, env);
    let end = "User question:\n"@ + text::trimmed(message);
    assert(prompt.subrange(prompt.len() - end.len(), prompt.len() as int) =~= end);
}

/// The past notes keep to their budget, where the line that leads them in does.
pub proof fn law_notes_within_budget(notes: Seq<NoteView>)
    requires
        notes.len() > 0,
        ("Past notes for "@ + notes[0].program + ":\n"@).len() <= JOURNAL_BUDGET_CHARS,
    ensures
        notes_block(notes) matches Some(b) && b.len() <= JOURNAL_BUDGET_CHARS,
{
    lemma_notes_from(notes, 0, "Past notes for "@ + notes[0].program + ":\n"@);
}

proof fn lemma_notes_from(notes: Seq<NoteView>, i: int, out: Seq<char>)
    requires
        out.len() <= JOURNAL_BUDGET_CHARS,
    ensures
        notes_from(notes, i, out).len() <= JOURNAL_BUDGET_CHARS,
    decreases notes.len() - i,
{
    if 0 <= i < notes.len() && out.len() + note_entry((i + 1) as nat, notes[i]).len()
        <= JOURNAL_BUDGET_CHARS {
        lemma_notes_from(notes, i + 1, out + note_entry((i + 1) as nat, notes[i]));
    }
}

fn push_part(prompt: &mut String, text: &str)
    ensures
        final(prompt)@ == old(prompt)@ + part(Some(text@)),
{
    let ghost before = prompt@;
    prompt.append(text);
    prompt.append("\n\n");
    assert(prompt@ =~= before + part(Some(text@)));
}

/// Build the full chat prompt sent to Ollama.
pub fn build_chat_prompt(
    ctx: &TerminalContext,
    reference: Option<&ReferenceContext>,
    journal_notes: &[JournalNote],
    message: &str,
    experience_level: ExperienceLevel,
    tools: &ToolSet,
    env: &Environment,
) -> (r: String)
    ensures
        r@ == chat_prompt(
            *ctx,
            match reference {
                Some(c) => Some(c@),
                None => None,
            },
            journal::note_views(journal_notes@),
            message@,
            experience_level,
            *tools,
            *env,
        ),
{
    let mut prompt = String::new();
    let system = system_instructions(experience_level, tools);
    push_part(&mut prompt, system.as_str());
    assert(prompt@ =~= part(Some(instructions(experience_level, *tools))));
    let line = env_line(env);
    push_part(&mut prompt, line.as_str());

    let ghost at = prompt@;
    let command = text::trim(ctx.last_command.as_str());
    if !command.is_empty() {
        let shown = text::concat("Last command:\n", command);
        push_part(&mut prompt, shown.as_str());
    }
    assert(prompt@ =~= at + part(command_part(ctx.last_command@)));

    let ghost at = prompt@;
    let context = context_block(ctx);
    if !context.as_str().is_empty() {
        push_part(&mut prompt, context.as_str());
    }
    assert(prompt@ =~= at + part(non_empty(context@)));

    let ghost at = prompt@;
    if let Some(notes) = format_journal_notes(journal_notes) {
        push_part(&mut prompt, notes.as_str());
    }
    assert(prompt@ =~= at + part(notes_block(journal::note_views(journal_notes@))));

    let ghost at = prompt@;
    let ghost rv = match reference {
        Some(c) => Some(c@),
        None => None,
    };
    if let Some(reference) = reference {
        if reference.has_body() {
            let mut shown = text::concat3("Reference (", reference.source.label(), "):\n");
            shown.append(text::trim(reference.body.as_str()));
            push_part(&mut prompt, shown.as_str());
        } else if !reference.program.as_str().is_empty() {
            let shown = text::concat3(
                "Context status: No local man/--help (or fallback docs) for ",
                reference.program.as_str(),
                ".",
            );
            push_part(&mut prompt, shown.as_str());
        }
    }
    assert(prompt@ =~= at + part(reference_part(rv)));

    let ghost at = prompt@;
    let excerpt = truncate(ctx.visible_text.as_str(), EXCERPT_MAX_CHARS);
    if !text::trim(excerpt.as_str()).is_empty() {
        let shown = text::concat("Terminal excerpt:\n", excerpt.as_str());
        push_part(&mut prompt, shown.as_str());
    }
    assert(prompt@ =~= at + part(excerpt_part(ctx.visible_text@)));

    prompt.append("User question:\n");
    prompt.append(text::trim(message));
    prompt
}

// ── What the prompt holds ────────────────────────────────────────────────────

/// Everything that is known reaches the model: the last command, the selection, the exit code,
/// the output, the reference and the terminal excerpt stand in the prompt, each under its
/// heading and word for word where it is not too long.
pub proof fn law_prompt_holds_what_is_known(
    ctx: TerminalContext,
    reference: Option<ReferenceView>,
    notes: Seq<NoteView>,
    message: Seq<char>,
    level: ExperienceLevel,
    tools: ToolSet,
    env: Environment,
)
    ensures
        ({
            let prompt = chat_prompt(ctx, reference, notes, message, level, tools, env);
            &&& text::trimmed(ctx.last_command@).len() > 0 ==> text::has_sub(
                prompt,
                "Last command:\n"@ + text::trimmed(ctx.last_command@),
            )
            &&& ctx.selected_text matches Some(s) ==> (0 < s@.len() <= 1_000
                ==> text::has_sub(prompt, "Selection:\n"@ + s@))
            &&& ctx.exit_code matches Some(c) ==> (c != 0 ==> text::has_sub(
                prompt,
                "Exit code: "@ + text::signed_decimal(c as int),
            ))
            &&& 0 < ctx.last_command_output@.len() <= 1_000 ==> text::has_sub(
                prompt,
                "Output:\n"@ + ctx.last_command_output@,
            )
            &&& reference matches Some(r) ==> (text::trimmed(r.body).len() > 0 ==> text::has_sub(
                prompt,
                text::trimmed(r.body),
            ))
            &&& reference matches Some(r) ==> (text::trimmed(r.body).len() == 0 && r.program.len()
                > 0 ==> text::has_sub(prompt, r.program))
            &&& text::trimmed(ctx.visible_text@).len() > 0 && ctx.visible_text@.len()
                <= 2_000 ==> text::has_sub(
                prompt,
                "Terminal excerpt:\n"@ + ctx.visible_text@,
            )
            &&& notes_block(notes) matches Some(b) ==> text::has_sub(prompt, b)
            &&& text::has_sub(prompt, instructions(level, tools))
            &&& text::has_sub(prompt, env_text(env.os@, text::opt_string(env.shell)))
        }),
{
    let prompt = chat_prompt(ctx, reference, notes, message, level, tools, env);
    lemma_prompt_start(ctx, reference, notes, message, level, tools, env);
    lemma_prompt_middle(ctx, reference, notes, message, level, tools, env);
    lemma_prompt_end(ctx, reference, notes, message, level, tools, env);
    let block = text::joined(
        context_parts(
            text::opt_string(ctx.selected_text),
            ctx.exit_code,
            ctx.last_command_output@,
        ),
        "\n"@,
    );
    law_context_block_holds_its_parts(ctx);
    reveal_strlit("Selection:\n");
    reveal_strlit("Exit code: ");
    reveal_strlit("Output:\n");
    if ctx.selected_text is Some && 0 < ctx.selected_text->0@.len() <= CONTEXT_MAX_CHARS {
        lemma_has_length(block, "Selection:\n"@ + ctx.selected_text->0@);
        text::lemma_sub_within(prompt, block, "Selection:\n"@ + ctx.selected_text->0@);
    }
    if ctx.exit_code is Some && ctx.exit_code->0 != 0 {
        let shown = "Exit code: "@ + text::signed_decimal(ctx.exit_code->0 as int);
        lemma_has_length(block, shown);
        text::lemma_sub_within(prompt, block, shown);
    }
    if 0 < ctx.last_command_output@.len() <= CONTEXT_MAX_CHARS {
        lemma_has_length(block, "Output:\n"@ + ctx.last_command_output@);
        text::lemma_sub_within(prompt, block, "Output:\n"@ + ctx.last_command_output@);
    }
    if let Some(r) = reference {
        if reference_part(reference) is Some {
            let shown = reference_part(reference)->0;
            if text::trimmed(r.body).len() > 0 {
                let head = "Reference ("@ + r.source.shown() + "):\n"@;
                text::lemma_occurs(head, text::trimmed(r.body), seq![]);
                assert(head + text::trimmed(r.body) + Seq::<char>::empty() =~= shown);
                text::lemma_sub_within(prompt, shown, text::trimmed(r.body));
            } else {
                let head = "Context status: No local man/--help (or fallback docs) for "@;
                text::lemma_occurs(head, r.program, "."@);
                text::lemma_sub_within(prompt, shown, r.program);
            }
        }
    }
}

proof fn lemma_prompt_start(
    ctx: TerminalContext,
    reference: Option<ReferenceView>,
    notes: Seq<NoteView>,
    message: Seq<char>,
    level: ExperienceLevel,
    tools: ToolSet,
    env: Environment,
)
    ensures
        ({
            let prompt = chat_prompt(ctx, reference, notes, message, level, tools, env);
            &&& text::has_sub(prompt, instructions(level, tools))
            &&& text::has_sub(prompt, env_text(env.os@, text::opt_string(env.shell)))
            &&& text::trimmed(ctx.last_command@).len() > 0 ==> text::has_sub(
                prompt,
                "Last command:\n"@ + text::trimmed(ctx.last_command@),
            )
        }),
{
    let prompt = chat_prompt(ctx, reference, notes, message, level, tools, env);
    let p0 = part(Some(instructions(level, tools)));
    let p1 = part(Some(env_text(env.os@, text::opt_string(env.shell))));
    let p2 = part(command_part(ctx.last_command@));
    let block = text::joined(
        context_parts(
            text::opt_string(ctx.selected_text),
            ctx.exit_code,
            ctx.last_command_output@,
        ),
        "\n"@,
    );
    let p3 = part(non_empty(block));
    let p4 = part(notes_block(notes));
    let p5 = part(reference_part(reference));
    let p6 = part(excerpt_part(ctx.visible_text@));
    let end = "User question:\n"@ + text::trimmed(message);
    let rest = p3 + p4 + p5 + p6 + end;
    assert(prompt =~= p0 + p1 + p2 + rest);
    lemma_part_stands(seq![], instructions(level, tools), p1 + p2 + rest, prompt);
    lemma_part_stands(p0, env_text(env.os@, text::opt_string(env.shell)), p2 + rest, prompt);
    if text::trimmed(ctx.last_command@).len() > 0 {
        lemma_part_stands(p0 + p1, command_part(ctx.last_command@)->0, rest, prompt);
    }
}

proof fn lemma_prompt_middle(
    ctx: TerminalContext,
    reference: Option<ReferenceView>,
    notes: Seq<NoteView>,
    message: Seq<char>,
    level: ExperienceLevel,
    tools: ToolSet,
    env: Environment,
)
    ensures
        ({
            let prompt = chat_prompt(ctx, reference, notes, message, level, tools, env);
            let block = text::joined(
                context_parts(
                    text::opt_string(ctx.selected_text),
                    ctx.exit_code,
                    ctx.last_command_output@,
                ),
                "\n"@,
            );
            &&& block.len() > 0 ==> text::has_sub(prompt, block)
            &&& notes_block(notes) matches Some(b) ==> text::has_sub(prompt, b)
        }),
{
    let prompt = chat_prompt(ctx, reference, notes, message, level, tools, env);
    let p0 = part(Some(instructions(level, tools)));
    let p1 = part(Some(env_text(env.os@, text::opt_string(env.shell))));
    let p2 = part(command_part(ctx.last_command@));
    let block = text::joined(
        context_parts(
            text::opt_string(ctx.selected_text),
            ctx.exit_code,
            ctx.last_command_output@,
        ),
        "\n"@,
    );
    let p3 = part(non_empty(block));
    let p4 = part(notes_block(notes));
    let p5 = part(reference_part(reference));
    let p6 = part(excerpt_part(ctx.visible_text@));
    let end = "User question:\n"@ + text::trimmed(message);
    let start = p0 + p1 + p2;
    let rest = p5 + p6 + end;
    assert(prompt =~= start + p3 + p4 + rest);
    if block.len() > 0 {
        lemma_part_stands(start, block, p4 + rest, prompt);
    }
    if notes_block(notes) is Some {
        lemma_part_stands(start + p3, notes_block(notes)->0, rest, prompt);
    }
}

proof fn lemma_prompt_end(
    ctx: TerminalContext,
    reference: Option<ReferenceView>,
    notes: Seq<NoteView>,
    message: Seq<char>,
    level: ExperienceLevel,
    tools: ToolSet,
    env: Environment,
)
    ensures
        ({
            let prompt = chat_prompt(ctx, reference, notes, message, level, tools, env);
            &&& reference_part(reference) matches Some(shown) ==> text::has_sub(prompt, shown)
            &&& text::trimmed(ctx.visible_text@).len() > 0 && ctx.visible_text@.len()
                <= EXCERPT_MAX_CHARS ==> text::has_sub(
                prompt,
                "Terminal excerpt:\n"@ + ctx.visible_text@,
            )
        }),
{
    let prompt = chat_prompt(ctx, reference, notes, message, level, tools, env);
    let p0 = part(Some(instructions(level, tools)));
    let p1 = part(Some(env_text(env.os@, text::opt_string(env.shell))));
    let p2 = part(command_part(ctx.last_command@));
    let block = text::joined(
        context_parts(
            text::opt_string(ctx.selected_text),
            ctx.exit_code,
            ctx.last_command_output@,
        ),
        "\n"@,
    );
    let p3 = part(non_empty(block));
    let p4 = part(notes_block(notes));
    let p5 = part(reference_part(reference));
    let p6 = part(excerpt_part(ctx.visible_text@));
    let end = "User question:\n"@ + text::trimmed(message);
    let start = p0 + p1 + p2 + p3 + p4;
    assert(prompt =~= start + p5 + p6 + end);
    if reference_part(reference) is Some {
        lemma_part_stands(start, reference_part(reference)->0, p6 + end, prompt);
    }
    if text::trimmed(ctx.visible_text@).len() > 0 && ctx.visible_text@.len() <= EXCERPT_MAX_CHARS {
        lemma_part_stands(start + p5, "Terminal excerpt:\n"@ + ctx.visible_text@, end, prompt);
    }
}

proof fn lemma_has_length(s: Seq<char>, t: Seq<char>)
    requires
        text::has_sub(s, t),
        t.len() > 0,
    ensures
        s.len() > 0,
{
}

proof fn lemma_part_stands(before: Seq<char>, x: Seq<char>, after: Seq<char>, prompt: Seq<char>)
    requires
        prompt =~= before + part(Some(x)) + after,
    ensures
        text::has_sub(prompt, x),
{
    text::lemma_occurs(before, x, "\n\n"@ + after);
    assert(before + x + ("\n\n"@ + after) =~= prompt);
}

/// The block on the context holds the selection, then the exit code, then the output, each where
/// there is one; a selection or an output that is too long stands there with its start.
pub proof fn law_context_block_holds_its_parts(ctx: TerminalContext)
    ensures
        ({
            let block = text::joined(
                context_parts(
                    text::opt_string(ctx.selected_text),
                    ctx.exit_code,
                    ctx.last_command_output@,
                ),
                "\n"@,
            );
            let selected = match ctx.selected_text {
                Some(s) => if s@.len() > 0 {
                    seq!["Selection:\n"@ + types::cut_with_marker(
                        s@,
                        1_000,
                        "\n... [truncated]"@,
                    )]
                } else {
                    seq![]
                },
                None => seq![],
            };
            let code = match ctx.exit_code {
                Some(c) => if c != 0 {
                    seq!["Exit code: "@ + text::signed_decimal(c as int)]
                } else {
                    seq![]
                },
                None => seq![],
            };
            let output = if ctx.last_command_output@.len() > 0 {
                seq!["Output:\n"@ + types::cut_with_marker(
                    ctx.last_command_output@,
                    1_000,
                    "\n... [truncated]"@,
                )]
            } else {
                seq![]
            };
            &&& text::in_order(block, selected + code + output)
            &&& selected.len() > 0 ==> text::has_sub(block, selected[0])
            &&& code.len() > 0 ==> text::has_sub(block, code[0])
            &&& output.len() > 0 ==> text::has_sub(block, output[0])
            &&& selected.len() + code.len() + output.len() == 0 ==> block.len() == 0
        }),
{
    let parts = context_parts(
        text::opt_string(ctx.selected_text),
        ctx.exit_code,
        ctx.last_command_output@,
    );
    let block = text::joined(parts, "\n"@);
    text::law_joined_holds_all(parts, "\n"@);
    let selected = match ctx.selected_text {
        Some(s) => if s@.len() > 0 {
            seq!["Selection:\n"@ + types::cut_with_marker(
                s@,
                CONTEXT_MAX_CHARS as nat,
                "\n... [truncated]"@,
            )]
        } else {
            seq![]
        },
        None => seq![],
    };
    let code = match ctx.exit_code {
        Some(c) => if c != 0 {
            seq!["Exit code: "@ + text::signed_decimal(c as int)]
        } else {
            seq![]
        },
        None => seq![],
    };
    let output = if ctx.last_command_output@.len() > 0 {
        seq!["Output:\n"@ + types::cut_with_marker(
            ctx.last_command_output@,
            CONTEXT_MAX_CHARS as nat,
            "\n... [truncated]"@,
        )]
    } else {
        seq![]
    };
    assert(parts =~= selected + code + output);
    if selected.len() > 0 {
        text::lemma_in_order_each(block, parts, 0);
    }
    if code.len() > 0 {
        text::lemma_in_order_each(block, parts, selected.len() as int);
    }
    if output.len() > 0 {
        text::lemma_in_order_each(block, parts, (selected.len() + code.len()) as int);
    }
}

/// The parts of a prompt stand in it in their order: the instructions, the machine, the last
/// command, the context, the notes, the reference, the excerpt, and the question last.
#[verifier::rlimit(60)]
#[verifier::spinoff_prover]
pub proof fn law_prompt_order(
    ctx: TerminalContext,
    reference: ReferenceView,
    notes: Seq<NoteView>,
    message: Seq<char>,
    level: ExperienceLevel,
    tools: ToolSet,
    env: Environment,
)
    requires
        text::trimmed(ctx.last_command@).len() > 0,
        0 < ctx.last_command_output@.len() <= 1_000,
        text::trimmed(reference.body).len() > 0,
        text::trimmed(ctx.visible_text@).len() > 0,
        ctx.visible_text@.len() <= 2_000,
    ensures
        text::in_order(
            chat_prompt(ctx, Some(reference), notes, message, level, tools, env),
            seq![
                "Last command:\n"@,
                text::trimmed(ctx.last_command@),
                ctx.last_command_output@,
                text::trimmed(reference.body),
                ctx.visible_text@,
                text::trimmed(message),
            ],
        ),
{
    let prompt = chat_prompt(ctx, Some(reference), notes, message, level, tools, env);
    let empty = Seq::<char>::empty();
    let x1 = text::trimmed(ctx.last_command@);
    let x2 = ctx.last_command_output@;
    let x3 = text::trimmed(reference.body);
    let x4 = ctx.visible_text@;
    let x5 = text::trimmed(message);
    let start = part(Some(instructions(level, tools))) + part(
        Some(env_text(env.os@, text::opt_string(env.shell))),
    );
    let parts = context_parts(text::opt_string(ctx.selected_text), ctx.exit_code, x2);
    let block = text::joined(parts, "\n"@);
    let head = "Reference ("@ + reference.source.shown() + "):\n"@;
    law_context_block_holds_its_parts(ctx);
    reveal_strlit("Output:\n");
    lemma_has_length(block, "Output:\n"@ + x2);
    text::lemma_occurs("Output:\n"@, x2, empty);
    assert("Output:\n"@ + x2 + empty =~= "Output:\n"@ + x2);
    text::lemma_sub_within(block, "Output:\n"@ + x2, x2);
    let s0 = start + "Last command:\n"@;
    let s1 = x1 + "\n\n"@;
    let s2 = block + "\n\n"@ + part(notes_block(notes));
    let s3 = head + x3 + "\n\n"@;
    let s4 = "Terminal excerpt:\n"@ + x4 + "\n\n"@;
    let s5 = "User question:\n"@ + x5;
    lemma_stands_alone(start, "Last command:\n"@, empty, s0);
    lemma_stands_alone(empty, x1, "\n\n"@, s1);
    let at = choose|at: int| text::occurs_at(block, x2, at);
    assert(s2 =~= block.take(at) + x2 + (block.skip(at + x2.len()) + "\n\n"@ + part(
        notes_block(notes),
    )));
    lemma_stands_alone(
        block.take(at),
        x2,
        block.skip(at + x2.len()) + "\n\n"@ + part(notes_block(notes)),
        s2,
    );
    lemma_stands_alone(head, x3, "\n\n"@, s3);
    lemma_stands_alone("Terminal excerpt:\n"@, x4, "\n\n"@, s4);
    lemma_stands_alone("User question:\n"@, x5, empty, s5);
    lemma_six_in_order(
        seq![s0, s1, s2, s3, s4, s5],
        seq!["Last command:\n"@, x1, x2, x3, x4, x5],
    );
    assert(prompt =~= s0 + s1 + s2 + s3 + s4 + s5);
}

proof fn lemma_six_in_order(s: Seq<Seq<char>>, x: Seq<Seq<char>>)
    requires
        s.len() == 6,
        x.len() == 6,
        forall|i: int| 0 <= i < 6 ==> text::in_order(#[trigger] s[i], seq![x[i]]),
    ensures
        text::in_order(s[0] + s[1] + s[2] + s[3] + s[4] + s[5], x),
{
    text::lemma_in_order_concat(s[0], s[1], seq![x[0]], seq![x[1]]);
    assert(seq![x[0]] + seq![x[1]] =~= x.take(2));
    text::lemma_in_order_concat(s[0] + s[1], s[2], x.take(2), seq![x[2]]);
    assert(x.take(2) + seq![x[2]] =~= x.take(3));
    text::lemma_in_order_concat(s[0] + s[1] + s[2], s[3], x.take(3), seq![x[3]]);
    assert(x.take(3) + seq![x[3]] =~= x.take(4));
    text::lemma_in_order_concat(s[0] + s[1] + s[2] + s[3], s[4], x.take(4), seq![x[4]]);
    assert(x.take(4) + seq![x[4]] =~= x.take(5));
    text::lemma_in_order_concat(s[0] + s[1] + s[2] + s[3] + s[4], s[5], x.take(5), seq![x[5]]);
    assert(x.take(5) + seq![x[5]] =~= x);
}

proof fn lemma_stands_alone(a: Seq<char>, x: Seq<char>, b: Seq<char>, s: Seq<char>)
    requires
        s =~= a + x + b,
    ensures
        text::in_order(s, seq![x]),
{
    text::lemma_in_order_one(x);
    text::lemma_in_order_around(a, x, b, seq![x]);
}

/// The instructions speak of each tool that is offered, and name the directory that commands may
/// read; they always speak of the user's experience.
pub proof fn law_instructions_name_the_tools(level: ExperienceLevel, tools: ToolSet)
    ensures
        text::has_sub(instructions(level, tools), level_guidance(level)),
        tools.web_search ==> text::has_sub(instructions(level, tools), search_guidance()),
        tools.read_exec matches Some(root) ==> text::has_sub(instructions(level, tools), root@)
            && text::has_sub(instructions(level, tools), command_guidance()),
        !tools.web_search && tools.read_exec is None ==> instructions(level, tools)
            == base_instructions() + level_guidance(level),
{
    let all = instructions(level, tools);
    let empty = Seq::<char>::empty();
    let search = if tools.web_search {
        search_guidance()
    } else {
        empty
    };
    let exec = match tools.read_exec {
        Some(root) => command_guidance() + "You can read files under "@ + root@ + ".\n"@,
        None => empty,
    };
    let end = level_guidance(level);
    assert(all =~= base_instructions() + search + exec + end);
    text::lemma_occurs(base_instructions() + search + exec, end, empty);
    assert(base_instructions() + search + exec + end + empty =~= all);
    text::lemma_occurs(base_instructions(), search, exec + end);
    assert(base_instructions() + search + (exec + end) =~= all);
    if let Some(root) = tools.read_exec {
        text::lemma_occurs(
            base_instructions() + search + command_guidance() + "You can read files under "@,
            root@,
            ".\n"@ + end,
        );
        assert(base_instructions() + search + command_guidance() + "You can read files under "@
            + root@ + (".\n"@ + end) =~= all);
        text::lemma_occurs(
            base_instructions() + search,
            command_guidance(),
            "You can read files under "@ + root@ + ".\n"@ + end,
        );
        assert(base_instructions() + search + command_guidance() + ("You can read files under "@
            + root@ + ".\n"@ + end) =~= all);
    }
}

/// The line on the machine names the system and the shell.
pub proof fn law_environment_line(os: Seq<char>, shell: Option<Seq<char>>)
    ensures
        shell is Some && path::last_name(shell->0) is Some && path::last_name(shell->0)->0.len() > 0
            ==> path::last_name(shell->0)->0.is_suffix_of(env_text(os, shell)),
        os != "macos"@ && os != "linux"@ && os != "windows"@ ==> text::has_sub(
            env_text(os, shell),
            os,
        ),
        text::has_sub(env_text("macos"@, shell), "macOS"@),
        text::has_sub(env_text("linux"@, shell), "Linux"@),
        text::has_sub(env_text("windows"@, shell), "Windows"@),
{
    reveal_strlit("macos");
    reveal_strlit("linux");
    reveal_strlit("windows");
    assert("macos"@[0] == 'm' && "linux"@[0] == 'l' && "windows"@[0] == 'w');
    let tail = if shell is Some && path::last_name(shell->0) is Some && path::last_name(
        shell->0,
    )->0.len() > 0 {
        ", "@ + path::last_name(shell->0)->0
    } else {
        Seq::<char>::empty()
    };
    lemma_env_text(os, shell, tail);
    lemma_env_text("macos"@, shell, tail);
    lemma_env_text("linux"@, shell, tail);
    lemma_env_text("windows"@, shell, tail);
    if shell is Some && path::last_name(shell->0) is Some && path::last_name(shell->0)->0.len()
        > 0 {
        let n = path::last_name(shell->0)->0;
        let line = env_text(os, shell);
        assert(line.subrange(line.len() - n.len(), line.len() as int) =~= n);
    }
}

proof fn lemma_env_text(os: Seq<char>, shell: Option<Seq<char>>, tail: Seq<char>)
    requires
        tail == if shell is Some && path::last_name(shell->0) is Some && path::last_name(
            shell->0,
        )->0.len() > 0 {
            ", "@ + path::last_name(shell->0)->0
        } else {
            Seq::<char>::empty()
        },
    ensures
        ({
            let name = if os == "macos"@ {
                "macOS"@
            } else if os == "linux"@ {
                "Linux"@
            } else if os == "windows"@ {
                "Windows"@
            } else {
                os
            };
            text::has_sub(env_text(os, shell), name)
        }),
{
    let name = if os == "macos"@ {
        "macOS"@
    } else if os == "linux"@ {
        "Linux"@
    } else if os == "windows"@ {
        "Windows"@
    } else {
        os
    };
    text::lemma_occurs("Environment: "@, name, tail);
    assert("Environment: "@ + name + tail =~= env_text(os, shell));
}

/// How many characters are enough for notes.
pub open spec fn room_for_notes(notes: Seq<NoteView>, i: int) -> nat
    decreases notes.len() - i,
{
    if 0 <= i < notes.len() {
        notes[i].question.len() + notes[i].reply.len() + text::decimal((i + 1) as nat).len() + 13
            + room_for_notes(notes, i + 1)
    } else {
        0
    }
}

/// Short notes all stand in the prompt's notes: of each the question and the reply, in their
/// order.
pub proof fn law_notes_hold_questions_and_replies(notes: Seq<NoteView>, k: int)
    requires
        0 <= k < notes.len(),
        forall|i: int|
            0 <= i < notes.len() ==> (#[trigger] notes[i]).question.len() <= 200
                && notes[i].reply.len() <= 400,
        notes[0].program.len() + 20 + room_for_notes(notes, 0) <= 1_500,
    ensures
        notes_block(notes) matches Some(b) && text::in_order(
            b,
            seq![notes[k].question, notes[k].reply],
        ) && text::has_sub(b, notes[0].program),
{
    reveal_strlit("Past notes for ");
    reveal_strlit(":\n");
    let head = "Past notes for "@ + notes[0].program + ":\n"@;
    lemma_notes_listed(notes, 0, head, k);
    let b = notes_from(notes, 0, head);
    assert(head.is_prefix_of(b));
    assert(b =~= head + b.skip(head.len() as int));
    assert(b =~= "Past notes for "@ + notes[0].program + (":\n"@ + b.skip(head.len() as int)));
    text::lemma_occurs(
        "Past notes for "@,
        notes[0].program,
        ":\n"@ + b.skip(head.len() as int),
    );
}

proof fn lemma_notes_listed(notes: Seq<NoteView>, i: int, out: Seq<char>, k: int)
    requires
        0 <= i <= notes.len(),
        k < notes.len(),
        forall|j: int|
            0 <= j < notes.len() ==> (#[trigger] notes[j]).question.len() <= 200
                && notes[j].reply.len() <= 400,
        out.len() + room_for_notes(notes, i) <= JOURNAL_BUDGET_CHARS,
    ensures
        out.is_prefix_of(notes_from(notes, i, out)),
        i <= k ==> text::in_order(
            notes_from(notes, i, out),
            seq![notes[k].question, notes[k].reply],
        ),
    decreases notes.len() - i,
{
    reveal_strlit(". Q: ");
    reveal_strlit("\n   A: ");
    reveal_strlit("\n");
    if i < notes.len() {
        let note = notes[i];
        let entry = note_entry((i + 1) as nat, note);
        assert(shortened(note.question, 200) == note.question);
        assert(shortened(note.reply, 400) == note.reply);
        let next = out + entry;
        lemma_notes_listed(notes, i + 1, next, k);
        let all = notes_from(notes, i + 1, next);
        assert(notes_from(notes, i, out) == all);
        assert(next.is_prefix_of(all));
        assert(out.is_prefix_of(all)) by {
            assert(all.subrange(0, out.len() as int) =~= next.subrange(0, out.len() as int));
        }
        if k == i {
            let a = text::decimal((i + 1) as nat) + ". Q: "@ + note.question;
            let c = "\n   A: "@ + note.reply + "\n"@;
            lemma_stands_alone(
                text::decimal((i + 1) as nat) + ". Q: "@,
                note.question,
                seq![],
                a,
            );
            lemma_stands_alone("\n   A: "@, note.reply, "\n"@, c);
            text::lemma_in_order_concat(a, c, seq![note.question], seq![note.reply]);
            assert(seq![note.question] + seq![note.reply] =~= seq![note.question, note.reply]);
            assert(a + c =~= entry);
            text::lemma_in_order_around(
                out,
                entry,
                all.skip(next.len() as int),
                seq![note.question, note.reply],
            );
            assert(out + entry + all.skip(next.len() as int) =~= all);
        }
    }
}

/// Of a long screen the start is quoted, with a mark that there is more; a blank one is not.
pub proof fn law_long_excerpt(visible: Seq<char>)
    ensures
        text::trimmed(visible).len() == 0 && visible.len() <= 2_000 ==> excerpt_part(visible) is None,
        visible.len() > 2_000 && text::trimmed(visible.take(2_000)).len() > 0 ==> (excerpt_part(
            visible,
        ) matches Some(shown) && shown == "Terminal excerpt:\n"@ + types::cut_with_marker(
            visible,
            2_000,
            "\n... [truncated]"@,
        )),
{
    if visible.len() > 2_000 && text::trimmed(visible.take(2_000)).len() > 0 {
        let head = visible.take(2_000);
        let marker = "\n... [truncated]"@;
        text::lemma_rtrimmed(head);
        text::lemma_blank(head);
        let cut = text::rtrimmed(head) + marker;
        text::lemma_blank(cut);
        let n = text::rtrimmed(head).len() as int;
        assert(n > 0);
        assert(cut[n - 1] == text::rtrimmed(head).last());
    }
}

/// Each level is told to the model by its name.
pub proof fn law_level_is_told(level: ExperienceLevel)
    ensures
        text::has_sub(level_guidance(level), level.title()),
{
    let all = level_guidance(level);
    let name = level.title();
    match level {
        ExperienceLevel::Beginner => {
            reveal_strlit(
                "User experience level: Beginner.\nAssume little or no terminal experience. Define terminology in plain language,\nexplain what each command and flag does step by step, avoid jargon unless you\nbriefly explain it, and include safe next actions the user can try.\n",
            );
            reveal_strlit("Beginner");
        },
        ExperienceLevel::Novice => {
            reveal_strlit(
                "User experience level: Novice.\nThe user has some shell experience. Keep explanations approachable but lighter\nthan for beginners. Focus on non-obvious flags, common failure modes, and why\na command behaves the way it does without over-explaining basics.\n",
            );
            reveal_strlit("Novice");
        },
        ExperienceLevel::Professional => {
            reveal_strlit(
                "User experience level: Professional.\nThe user is a comfortable daily CLI user. Be concise. Focus on root cause,\ntradeoffs, exact commands, and useful references. Skip elementary shell concepts.\n",
            );
            reveal_strlit("Professional");
        },
        ExperienceLevel::Expert => {
            reveal_strlit(
                "User experience level: Expert.\nThe user has deep terminal knowledge. Be terse and precise. Avoid basics.\nEmphasize edge cases, internals, and high-signal diagnostics.\n",
            );
            reveal_strlit("Expert");
        },
    }
    assert(all.subrange(23, 23 + name.len() as int) =~= name);
    assert(text::occurs_at(all, name, 23));
}

/// A reference is quoted under where it comes from; that there is none is told with the program
/// that it would be about.
pub proof fn law_reference_part(reference: ReferenceView)
    ensures
        text::trimmed(reference.body).len() > 0 ==> (reference_part(Some(reference)) matches Some(
            shown,
        ) && text::in_order(
            shown,
            seq![reference.source.shown(), text::trimmed(reference.body)],
        )),
        text::trimmed(reference.body).len() == 0 && reference.program.len() > 0 ==> (reference_part(
            Some(reference),
        ) matches Some(shown) && text::has_sub(shown, reference.program)),
        text::trimmed(reference.body).len() == 0 && reference.program.len() == 0 ==> reference_part(
            Some(reference),
        ) is None,
        reference_part(None) is None,
{
    let source = reference.source.shown();
    let body = text::trimmed(reference.body);
    text::lemma_in_order_one(source);
    text::lemma_in_order_around("Reference ("@, source, seq![], seq![source]);
    assert("Reference ("@ + source + seq![] =~= "Reference ("@ + source);
    text::lemma_in_order_one(body);
    text::lemma_in_order_around("):\n"@, body, seq![], seq![body]);
    assert("):\n"@ + body + seq![] =~= "):\n"@ + body);
    text::lemma_in_order_concat(
        "Reference ("@ + source,
        "):\n"@ + body,
        seq![source],
        seq![body],
    );
    assert("Reference ("@ + source + ("):\n"@ + body) =~= "Reference ("@ + source + "):\n"@ + body);
    assert(seq![source] + seq![body] =~= seq![source, body]);
    text::lemma_occurs(
        "Context status: No local man/--help (or fallback docs) for "@,
        reference.program,
        "."@,
    );
}

} // verus!
