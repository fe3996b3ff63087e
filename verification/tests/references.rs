use learnminal::docs_fallback::{
    docs_url, info_text, looks_like_not_found, official_docs, package_commands, package_info,
    strip_html, DOCS_MIN_CHARS,
};
use learnminal::manpage::{
    clean, context_section_order, extract_manual_context, fetch_manual, help_text, man_text,
    manual_context, manual_from_text, parse_section_header, reference_context, split_man_sections,
    truncate_chars, ManualProbe, ProcessOutput, DEFAULT_CONTEXT_BUDGET,
};
use learnminal::types::{Platform, ReferenceSource};

fn output(stdout: &str) -> Option<ProcessOutput> {
    Some(ProcessOutput { stdout: stdout.as_bytes().to_vec(), stderr: Vec::new() })
}

fn no_manual() -> ManualProbe {
    ManualProbe { man: None, long_help: None, short_help: None }
}

// ── Package information and web documentation ───────────────────────────────

#[test]
fn docs_url_allowlist_only() {
    assert!(docs_url("git").is_some());
    assert!(docs_url("cargo").is_some());
    assert!(docs_url("totally-unknown-xyz").is_none());
}

#[test]
fn strip_html_keeps_text() {
    let html = "<html><head><style>a{}</style></head><body><h1>Git</h1><p>Docs</p></body></html>";
    let text = strip_html(html);
    assert!(text.contains("Git"));
    assert!(text.contains("Docs"));
    assert!(!text.contains("<h1>"));
}

#[test]
fn strip_html_drops_scripts_and_blank_runs() {
    let text = strip_html("<script>x = 1;</script>\n\n\n\n<p>a</p>\n\n\n\n<p>b</p>");
    assert!(!text.contains("x = 1"));
    assert!(!text.contains('<'));
    assert!(!text.contains("\n\n\n"));
    assert!(text.contains('a') && text.contains('b'));
}

#[test]
fn looks_like_not_found_detects_common_errors() {
    assert!(looks_like_not_found("Error: No available formula with the name \"foo\"."));
    assert!(!looks_like_not_found("git: Distributed version control"));
}

#[test]
fn package_managers_follow_the_platform() {
    let mac = package_commands(Platform::MacOs, "git");
    let linux = package_commands(Platform::Linux, "git");
    assert!(mac.iter().any(|c| c[0] == "brew"));
    assert!(linux.iter().all(|c| c[0] != "brew"));
    assert!(mac.iter().chain(linux.iter()).all(|c| c.iter().any(|a| a == "git")));
}

#[test]
fn package_info_takes_the_first_useful_run() {
    let useful = "git: Distributed version control system, stable 2.45.1 (bottled)";
    assert_eq!(info_text(useful, ""), Some(useful.to_string()));
    assert_eq!(info_text("short", ""), None);
    assert_eq!(info_text("", useful), Some(useful.to_string()));
    let runs = vec![None, output("Error: No available formula with the name \"git\", sorry about that"), output(useful)];
    assert_eq!(package_info("git", &runs), Some(useful.to_string()));
    assert_eq!(package_info("git", &[None]), None);
    assert_eq!(package_info("", &runs), None);
}

#[test]
fn package_info_replaces_what_is_no_text() {
    let mut bytes = vec![0xff];
    bytes.extend_from_slice("git: Distributed version control system, stable 2.45.1".as_bytes());
    let runs = vec![Some(ProcessOutput { stdout: bytes, stderr: Vec::new() })];
    let info = package_info("git", &runs).unwrap();
    assert!(info.starts_with('\u{fffd}'));
}

#[test]
fn official_docs_need_a_known_program_and_enough_text() {
    let page = format!("<p>{}</p>", "word ".repeat(DOCS_MIN_CHARS));
    assert!(official_docs("git", Some(&page)).unwrap().contains("word word"));
    assert!(official_docs("totally-unknown-xyz", Some(&page)).is_none());
    assert!(official_docs("git", Some("<p>short</p>")).is_none());
    assert!(official_docs("git", None).is_none());
}

// ── Manual pages ────────────────────────────────────────────────────────────

#[test]
fn clean_strips_ansi_and_backspaces() {
    let raw = "\x1b[1mNAME\x1b[0m\ng\x08git \x08\x08helper";
    let cleaned = clean(raw);
    assert!(!cleaned.contains('\x1b'));
    assert!(!cleaned.contains('\x08'));
    assert!(cleaned.contains("NAME"));
}

#[test]
fn parse_section_header_matches_uppercase_titles() {
    assert_eq!(parse_section_header("NAME"), Some("NAME".to_owned()));
    assert_eq!(parse_section_header("SEE ALSO"), Some("SEE ALSO".to_owned()));
    assert_eq!(parse_section_header("OPTIONS:"), Some("OPTIONS".to_owned()));
    assert_eq!(parse_section_header("Description"), None);
    assert_eq!(parse_section_header("git status is nice"), None);
    assert_eq!(parse_section_header(""), None);
}

#[test]
fn split_man_sections_groups_by_header() {
    let body = "NAME\n  git - stupid content tracker\n\nSYNOPSIS\n  git <cmd>\n";
    let sections = split_man_sections(body);
    let names: Vec<&str> = sections.iter().map(|(n, _)| n.as_str()).collect();
    assert!(names.contains(&"NAME"));
    assert!(names.contains(&"SYNOPSIS"));
}

#[test]
fn extract_prioritizes_name_and_synopsis() {
    let body = "NAME\n  git - tracker\n\nSYNOPSIS\n  git <cmd>\n\nBUGS\n  none\n";
    let extracted = extract_manual_context(body, 1000);
    assert!(extracted.contains("NAME"));
    assert!(extracted.contains("SYNOPSIS"));
}

#[test]
fn extract_truncates_when_over_budget() {
    let big = "x".repeat(5000);
    let body = format!("DESCRIPTION\n{big}\n");
    let extracted = extract_manual_context(&body, 500);
    assert!(extracted.chars().count() <= 500);
    assert!(extracted.contains("truncated"));
}

#[test]
fn extract_returns_whole_body_when_no_sections_and_small() {
    let body = "just some free-form help text without headers";
    let extracted = extract_manual_context(body, 1000);
    assert_eq!(extracted, body);
}

#[test]
fn extract_empty_body_is_empty() {
    assert_eq!(extract_manual_context("   ", 1000), "");
}

#[test]
fn manual_context_missing_program_is_none() {
    assert!(manual_context("", DEFAULT_CONTEXT_BUDGET, &no_manual(), None, None).is_none());
    assert!(fetch_manual("definitely-not-a-real-binary-xyz-123", &no_manual()).is_none());
}

#[test]
fn extract_keeps_within_every_budget() {
    let body = format!("NAME\n  ls - list\n\nOPTIONS\n{}\n", "  -l  long\n".repeat(400));
    for budget in [31usize, 40, 100, 1000, 4000] {
        assert!(extract_manual_context(&body, budget).chars().count() <= budget);
    }
}

#[test]
fn section_order_puts_name_before_the_rest() {
    let sections = split_man_sections(
        "BUGS\n  none\n\nOPTIONS\n  -l\n\nSYNOPSIS\n  x\n\nNAME\n  x - y\n",
    );
    let order = context_section_order(&sections);
    assert_eq!(order, vec!["NAME", "SYNOPSIS", "OPTIONS"]);
}

#[test]
fn manual_prefers_man_to_help() {
    let man = "NAME\n  ls - list directory contents\n".repeat(5);
    let help = "Usage: ls [OPTION]... [FILE]...\n".repeat(5);
    let both = ManualProbe { man: output(&man), long_help: output(&help), short_help: None };
    assert_eq!(fetch_manual("ls", &both).unwrap().source, "man");
    let only_help = ManualProbe { man: None, long_help: None, short_help: output(&help) };
    assert_eq!(fetch_manual("ls", &only_help).unwrap().source, "help");
    assert!(fetch_manual("", &both).is_none());
    assert!(man_text("   ").is_none());
    assert!(help_text("   ").is_none());
    assert!(manual_from_text("ls", None, None, None).is_none());
}

#[test]
fn reference_falls_back_from_manual_to_package_to_docs() {
    let man = "NAME\n  ls - list directory contents\n".repeat(5);
    let probe = ManualProbe { man: output(&man), long_help: None, short_help: None };
    let found = reference_context("ls", 1000, &probe, Some("package text"), Some("docs text"));
    assert_eq!(found.source, ReferenceSource::Man);
    let found = reference_context("ls", 1000, &no_manual(), Some("package text"), Some("docs text"));
    assert_eq!(found.source, ReferenceSource::Package);
    assert!(found.body.contains("package text"));
    let found = reference_context("ls", 1000, &no_manual(), None, Some("docs text"));
    assert_eq!(found.source, ReferenceSource::Docs);
    let found = reference_context("ls", 1000, &no_manual(), None, None);
    assert_eq!(found.source, ReferenceSource::Absent);
    assert_eq!(found.body, "");
}

#[test]
fn a_cut_is_noted_where_the_budget_has_room() {
    let body = format!("NAME\n{}\nDESCRIPTION\n{}", "a".repeat(30), "b".repeat(40));
    let head = format!("NAME\n{}\n\nDESCRIPTION", "a".repeat(30));
    assert_eq!(
        extract_manual_context(&body, 82),
        format!("{head}\n\n\n[... DESCRIPTION truncated ...]")
    );
    assert_eq!(
        extract_manual_context(&body, 80),
        format!("{head}\n\n[... Summary truncated ...]")
    );
    assert_eq!(extract_manual_context(&body, 4), "NAME");
}

#[test]
fn cuts_keep_to_every_limit() {
    let text = "word ".repeat(20);
    for max in 0..120 {
        let cut = truncate_chars(&text, max);
        assert!(cut.chars().count() <= max, "{max}: {cut}");
        assert_eq!(cut == text, text.chars().count() <= max);
    }
    assert_eq!(truncate_chars(&text, 4), "word");
    assert_eq!(truncate_chars(&text, 21), "word\n... [truncated]");
}
