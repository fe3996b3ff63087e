use learnminal::path::{components, extension, file_name, is_absolute, is_same, is_within, join};
use learnminal::sysinfo::{
    collect, detect_os, dev_tool_names, linux_pretty_name, package_manager_names, SystemFacts,
};
use learnminal::types::{
    extract_program_name, looks_like_program, resolve_program, switch_is_on, truncate_with_marker,
    ReferenceContext, ReferenceSource, SystemInfo, TerminalContext,
};

#[test]
fn system_info_complete_requires_os_and_collected_at() {
    let mut info = SystemInfo {
        os: "Linux".into(),
        arch: String::new(),
        shell: String::new(),
        package_managers: Vec::new(),
        installed_packages: Vec::new(),
        installed_packages_total: None,
        installed_tools: Vec::new(),
        collected_at: Some(1),
        collected_at_display: None,
    };
    assert!(info.is_complete());
    info.collected_at = None;
    assert!(!info.is_complete());
    info.collected_at = Some(1);
    info.os = String::new();
    assert!(!info.is_complete());
}

#[test]
fn truncate_with_marker_cuts_on_char_boundaries() {
    assert_eq!(truncate_with_marker("abc", 3, "!"), "abc", "exact fit is left alone");
    assert_eq!(truncate_with_marker("abcd", 3, "!"), "abc!");
    assert_eq!(truncate_with_marker("ab  cd", 4, "!"), "ab!", "kept text is right-trimmed");
    assert_eq!(truncate_with_marker("ééé", 2, ""), "éé", "multi-byte chars must not panic");
}

#[test]
fn extract_program_name_takes_first_token() {
    assert_eq!(extract_program_name("git rebase -i HEAD~3"), "git");
    assert_eq!(extract_program_name("   ls -la"), "ls");
    assert_eq!(extract_program_name(""), "");
    assert_eq!(extract_program_name("/usr/bin/git status"), "git");
}

#[test]
fn resolve_program_falls_back_to_message() {
    assert_eq!(resolve_program("git status", "why?"), "git");
    assert_eq!(resolve_program("", "how do I use `kubectl get pods`?"), "kubectl");
    assert_eq!(resolve_program("", "explain docker compose"), "docker");
    assert!(resolve_program("", "how do I fix this error?").is_empty());
}

#[test]
fn terminal_context_is_empty_by_default() {
    let ctx = TerminalContext::default();
    assert!(ctx.command_history.is_empty());
    assert!(ctx.last_command_output.is_empty());
    assert_eq!(ctx.exit_code, None);
}

#[test]
fn programs_have_plain_names() {
    assert!(looks_like_program("git"));
    assert!(looks_like_program("clang-format"));
    assert!(!looks_like_program("rm;ls"));
    assert!(!looks_like_program(""));
}

#[test]
fn switches_are_on_unless_a_falsey_word_says_otherwise() {
    assert!(switch_is_on(None));
    assert!(switch_is_on(Some("yes")));
    assert!(!switch_is_on(Some(" OFF ")));
    assert!(!switch_is_on(Some("0")));
}

#[test]
fn references_name_their_source() {
    assert_eq!(ReferenceSource::Help.as_str(), "help");
    assert_eq!(ReferenceSource::Help.label(), "--help");
    assert_eq!(ReferenceSource::Absent.as_str(), "none");
    assert!(!ReferenceContext::empty("git".to_string()).has_body());
}

#[test]
fn collect_populates_core_fields() {
    let facts = SystemFacts {
        os: "linux".to_string(),
        arch: "x86_64".to_string(),
        shell: Some("/bin/bash".to_string()),
        on_path: vec!["git".to_string(), "apt".to_string()],
        os_release: Some("NAME=x\nPRETTY_NAME=\"Debian GNU/Linux 12\"\n".to_string()),
        product_version: None,
        now: Some(7),
    };
    let info = collect(&facts);
    assert!(!info.os.is_empty());
    assert!(!info.arch.is_empty());
    assert!(info.collected_at.is_some());
    assert!(info.is_complete());
    assert!(info.os.contains("Debian GNU/Linux 12"));
    assert!(info.package_managers.contains(&"apt".to_string()));
    assert!(info.installed_tools.contains(&"git".to_string()));
}

#[test]
fn operating_systems_are_named_for_readers() {
    assert_eq!(linux_pretty_name("PRETTY_NAME=\"Arch Linux\"\n").as_deref(), Some("Arch Linux"));
    assert_eq!(linux_pretty_name("NAME=x\n"), None);
    assert!(detect_os("macos", None, Some("15.1")).contains("15.1"));
    assert!(detect_os("freebsd", None, None).starts_with('F'));
    assert!(package_manager_names().contains(&"brew".to_string()));
    assert!(dev_tool_names().contains(&"git".to_string()));
}

#[test]
fn paths_are_compared_by_component() {
    assert_eq!(join("/a", "b"), "/a/b");
    assert_eq!(join("/a", "/b"), "/b");
    assert!(is_absolute("/a"));
    assert!(!is_absolute("a"));
    assert!(is_within("/a/b/c", "/a/b"));
    assert!(!is_within("/a/bc", "/a/b"));
    assert!(is_same("/a//b/./c", "/a/b/c"));
    assert_eq!(file_name("/a/b.txt").as_deref(), Some("b.txt"));
    assert_eq!(extension("/a/b.txt").as_deref(), Some("txt"));
    assert_eq!(extension("/a/.hidden"), None);
    assert!(!components("/a/b").is_empty());
}

#[test]
fn snippets_come_before_bare_words() {
    assert_eq!(resolve_program("", "list files with `ls -la`"), "ls");
    assert_eq!(resolve_program("", "tar or `$ zip -r`?"), "zip");
    assert_eq!(resolve_program("", "`` tar fails"), "tar");
    assert_eq!(resolve_program("", "$git status"), "git");
    assert_eq!(resolve_program("", "$ git status"), "git");
    assert_eq!(resolve_program("", "run $git"), "");
}

#[test]
fn package_managers_occur_once() {
    let mut info = collect(&SystemFacts {
        os: "linux".into(),
        arch: String::new(),
        shell: None,
        on_path: Vec::new(),
        os_release: None,
        product_version: None,
        now: None,
    });
    assert!(info.managers_are_distinct());
    info.installed_packages = vec![("apt".into(), vec![]), ("pip".into(), vec![])];
    assert!(info.managers_are_distinct());
    info.installed_packages.push(("apt".into(), vec![]));
    assert!(!info.managers_are_distinct());
}
