use learnminal::journal::JournalNote;
use learnminal::ollama::ToolSet;
use learnminal::prompt::{
    build_chat_prompt, context_block, env_line, experience_guidance, format_journal_notes,
    system_instructions, truncate, Environment, JOURNAL_BUDGET_CHARS,
};
use learnminal::settings::ExperienceLevel;
use learnminal::types::{ReferenceContext, ReferenceSource, TerminalContext};
use learnminal::verify::{append_footer, extract_flags, verify_reply};

fn search_only() -> ToolSet {
    ToolSet { web_search: true, read_exec: None }
}

fn env() -> Environment {
    Environment { os: "linux".to_string(), shell: Some("/bin/zsh".to_string()) }
}

fn ctx() -> TerminalContext {
    TerminalContext {
        last_command: "git push origin main".into(),
        last_command_output: "error: failed to push".into(),
        exit_code: Some(1),
        visible_text: "$ git push origin main\nerror: failed to push".into(),
        ..TerminalContext::default()
    }
}

fn note(question: &str, reply: &str) -> JournalNote {
    JournalNote {
        id: 1,
        program: "git".into(),
        question: question.into(),
        reply: reply.into(),
        last_command: String::new(),
        reference_source: "man".into(),
        verified: Some(true),
        created_at: 1,
    }
}

fn ref_ctx(body: &str) -> ReferenceContext {
    ReferenceContext { program: "git".into(), source: ReferenceSource::Help, body: body.into() }
}

#[test]
fn prompt_includes_command_output_and_question() {
    let prompt = build_chat_prompt(
        &ctx(),
        None,
        &[],
        "why did this fail?",
        ExperienceLevel::Beginner,
        &search_only(),
        &env(),
    );
    assert!(prompt.contains("Last command:\ngit push origin main"));
    assert!(prompt.contains("Exit code: 1"));
    assert!(prompt.contains("Output:\nerror: failed to push"));
    assert!(prompt.contains("User question:\nwhy did this fail?"));
    assert!(prompt.contains("Prefer the Reference and Past notes"));
    assert!(prompt.contains("web_search"));
}

#[test]
fn prompt_includes_reference_when_present() {
    let reference = ReferenceContext {
        program: "git".into(),
        source: ReferenceSource::Man,
        body: "NAME\n git - tracker".into(),
    };
    let prompt = build_chat_prompt(
        &ctx(),
        Some(&reference),
        &[],
        "explain",
        ExperienceLevel::Novice,
        &search_only(),
        &env(),
    );
    assert!(prompt.contains("Reference (man):"));
    assert!(prompt.contains("git - tracker"));
}

#[test]
fn prompt_includes_missing_reference_notice() {
    let reference = ReferenceContext::empty("obscuretool".to_string());
    let prompt = build_chat_prompt(
        &ctx(),
        Some(&reference),
        &[],
        "help",
        ExperienceLevel::Beginner,
        &search_only(),
        &env(),
    );
    assert!(prompt.contains("No local man/--help"));
    assert!(prompt.contains("obscuretool"));
}

#[test]
fn prompt_includes_journal_notes() {
    let notes = vec![note("how do I rebase?", "Use git rebase -i")];
    let prompt = build_chat_prompt(
        &ctx(),
        None,
        &notes,
        "again?",
        ExperienceLevel::Professional,
        &search_only(),
        &env(),
    );
    assert!(prompt.contains("Past notes for git:"));
    assert!(prompt.contains("how do I rebase?"));
    assert!(prompt.contains("Use git rebase -i"));
}

#[test]
fn prompt_omits_zero_exit_code() {
    let mut c = ctx();
    c.exit_code = Some(0);
    let prompt =
        build_chat_prompt(&c, None, &[], "q", ExperienceLevel::Beginner, &search_only(), &env());
    assert!(!prompt.contains("Exit code:"));
}

#[test]
fn prompt_includes_beginner_guidance() {
    let prompt =
        build_chat_prompt(&ctx(), None, &[], "q", ExperienceLevel::Beginner, &search_only(), &env());
    assert!(prompt.contains("User experience level: Beginner."));
    assert!(prompt.contains("step by step"));
}

#[test]
fn prompt_includes_expert_guidance() {
    let prompt =
        build_chat_prompt(&ctx(), None, &[], "q", ExperienceLevel::Expert, &search_only(), &env());
    assert!(prompt.contains("User experience level: Expert."));
    assert!(prompt.contains("terse and precise"));
    assert!(!prompt.contains("step by step"));
    assert!(prompt.contains(experience_guidance(ExperienceLevel::Expert)));
}

#[test]
fn tool_guidance_follows_enabled_tools() {
    // Only enabled tools are described: a model told about a tool it was
    // not given will call it and stall on the "unknown tool" reply.
    let none = build_chat_prompt(
        &ctx(),
        None,
        &[],
        "q",
        ExperienceLevel::Expert,
        &ToolSet::default(),
        &env(),
    );
    assert!(!none.contains("web_search"));
    assert!(!none.contains("run_command"));

    let search =
        build_chat_prompt(&ctx(), None, &[], "q", ExperienceLevel::Expert, &search_only(), &env());
    assert!(search.contains("web_search"));
    assert!(!search.contains("run_command"));

    let tools = ToolSet { web_search: true, read_exec: Some("/tmp".to_string()) };
    let both = build_chat_prompt(&ctx(), None, &[], "q", ExperienceLevel::Expert, &tools, &env());
    assert!(both.contains("web_search"));
    assert!(both.contains("run_command"));
    assert!(both.contains("git status/log/diff"));
    assert!(both.contains("refused"));
    assert!(both.starts_with(&system_instructions(ExperienceLevel::Expert, &tools)));
}

#[test]
fn truncate_caps_long_text() {
    let long = "a".repeat(600);
    let out = truncate(&long, 500);
    assert!(out.contains("[truncated]"));
    assert!(out.chars().count() <= 500 + "\n... [truncated]".chars().count());
}

#[test]
fn prompt_ends_with_the_question() {
    let prompt = build_chat_prompt(
        &TerminalContext::default(),
        None,
        &[],
        "  what now?  ",
        ExperienceLevel::Novice,
        &ToolSet::default(),
        &env(),
    );
    assert!(prompt.trim_end().ends_with("what now?"));
    assert_eq!(env_line(&env()), "Environment: Linux, zsh");
    assert_eq!(context_block(&ctx()), "Exit code: 1\nOutput:\nerror: failed to push");
}

#[test]
fn journal_notes_keep_to_their_budget() {
    assert_eq!(format_journal_notes(&[]), None);
    let notes: Vec<JournalNote> =
        (0..40).map(|i| note(&format!("question {i}"), &"word ".repeat(100))).collect();
    let block = format_journal_notes(&notes).unwrap();
    assert!(block.contains("question 0"));
    assert!(!block.contains("question 39"));
    assert!(block.chars().count() <= JOURNAL_BUDGET_CHARS + 200);
}

// ── Checking a reply against the reference ──────────────────────────────────

#[test]
fn known_flags_pass() {
    let reply = "Try `git push --force-with-lease` or `git status -sb`.";
    let reference = ref_ctx("OPTIONS\n  --force-with-lease\n  -s, --short\n  -b, --branch\n");
    let result = verify_reply(reply, &reference);
    // -s and -b from -sb; --force-with-lease present. -s/-b may fail if not both in body.
    assert!(result.footer.contains("Verification:"));
    assert!(extract_flags(reply).contains(&"--force-with-lease".to_owned()));
}

#[test]
fn invented_flag_fails() {
    let reply = "Use git commit --not-a-real-flag";
    let reference = ref_ctx("OPTIONS\n  --amend\n  --all\n");
    let result = verify_reply(reply, &reference);
    assert_eq!(result.verified, Some(false));
    assert!(result.footer.contains("--not-a-real-flag"));
}

#[test]
fn empty_reference_skips() {
    let result = verify_reply("use --all", &ReferenceContext::empty("git".to_string()));
    assert_eq!(result.verified, None);
    assert!(result.footer.contains("skipped"));
}

#[test]
fn append_footer_joins_with_blank_line() {
    assert_eq!(append_footer("hello", "Verification: ok."), "hello\n\nVerification: ok.");
}

#[test]
fn all_flags_in_the_reference_verify() {
    let result = verify_reply("use --amend and --all", &ref_ctx("OPTIONS\n  --amend\n  --all\n"));
    assert_eq!(result.verified, Some(true));
    let none = verify_reply("no options here", &ref_ctx("OPTIONS\n  --amend\n"));
    assert_ne!(none.verified, Some(false));
}
