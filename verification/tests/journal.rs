use learnminal::journal::{
    default_db_path, normalize_program, prepare_note, row_limit, row_to_note, search_pattern,
    JournalNote, GENERAL_PROGRAM,
};

#[test]
fn normalize_strips_path_and_empty_to_general() {
    assert_eq!(normalize_program("/usr/bin/git"), "git");
    assert_eq!(normalize_program("  kubectl  "), "kubectl");
    assert_eq!(normalize_program(""), GENERAL_PROGRAM);
}

#[test]
fn insert_and_recent_round_trip() {
    let first = prepare_note(
        "git",
        "how do I rebase?",
        "Use git rebase -i",
        "git status",
        "man",
        Some(true),
    )
    .unwrap();
    let second =
        prepare_note("git", "how do I stash?", "Use git stash", "", "help", None).unwrap();
    let notes: Vec<JournalNote> =
        vec![row_to_note(2, second, 20), row_to_note(1, first, 10)];
    assert_eq!(notes.len(), 2);
    assert_eq!(notes[0].question, "how do I stash?");
    assert_eq!(notes[0].last_command, "");
    assert_eq!(notes[0].verified, None);
    assert_eq!(notes[1].verified, Some(true));
    assert_eq!(notes[1].reference_source, "man");
    assert_eq!(notes[1].created_at, 10);
}

#[test]
fn rejects_empty_question_or_reply() {
    assert!(prepare_note("git", "", "reply", "", "none", None).is_none());
    assert!(prepare_note("git", "q", "  ", "", "none", None).is_none());
}

#[test]
fn journal_queries_are_bounded_and_match_anywhere() {
    assert_eq!(row_limit(3), 3);
    assert_eq!(row_limit(0), 1);
    assert_eq!(search_pattern("rebase"), "%rebase%");
    assert!(default_db_path(Some("/home/u")).unwrap().ends_with("journal.db"));
    assert!(default_db_path(None).is_none());
}
