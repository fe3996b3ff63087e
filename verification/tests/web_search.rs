use learnminal::web_search::{
    format_tool_result, hit_from, normalize_ddg_url, parse_ddg_html, percent_decode, search,
    search_tool_result, urlencoding_decode, web_search_enabled, SearchError, SearchHit,
    SearchReply, MAX_HITS, RESULT_BUDGET_CHARS,
};

const FIXTURE: &str = r#"
<html><body>
<div class="result results_links">
  <a rel="nofollow" class="result__a" href="https://example.com/git-rebase">Git rebase docs</a>
  <a class="result__snippet" href="https://example.com/git-rebase">How to use git rebase interactively.</a>
</div>
<div class="result results_links">
  <a class="result__a" href="//duckduckgo.com/l/?uddg=https%3A%2F%2Fkernel.org%2Fman%2Fgit&amp;rut=abc">man git</a>
  <td class="result__snippet">The git man page on kernel.org</td>
</div>
<div class="result results_links">
  <a class="result__a" href="javascript:void(0)">Ignore me</a>
</div>
</body></html>
"#;

#[test]
fn parse_fixture_extracts_titles_urls_snippets() {
    let hits = parse_ddg_html(FIXTURE);
    assert_eq!(hits.len(), 2);
    assert_eq!(hits[0].title, "Git rebase docs");
    assert_eq!(hits[0].url, "https://example.com/git-rebase");
    assert!(hits[0].snippet.contains("git rebase"));
    assert_eq!(hits[1].title, "man git");
    assert_eq!(hits[1].url, "https://kernel.org/man/git");
    assert!(hits[1].snippet.contains("man page"));
}

#[test]
fn format_tool_result_lists_hits() {
    let hits = parse_ddg_html(FIXTURE);
    let text = format_tool_result(&hits);
    assert!(text.contains("Web search results:"));
    assert!(text.contains("Git rebase docs"));
    assert!(text.contains("https://example.com/git-rebase"));
}

#[test]
fn format_empty_is_error_message() {
    assert_eq!(format_tool_result(&[]), SearchError::NoResults.as_tool_message());
}

#[test]
fn empty_query_errors() {
    assert_eq!(
        search("   ", SearchReply::Page(FIXTURE.to_string())),
        Err(SearchError::EmptyQuery)
    );
}

#[test]
fn urlencoding_decode_basic() {
    assert_eq!(urlencoding_decode("https%3A%2F%2Fex.com%2Fa+b"), "https://ex.com/a b");
}

#[test]
fn decoding_keeps_what_is_no_escape() {
    assert_eq!(percent_decode(b"a%2"), b"a%2".to_vec());
    assert_eq!(percent_decode(b"%41"), b"A".to_vec());
    assert_eq!(urlencoding_decode("%C3%A9"), "é");
    assert_eq!(urlencoding_decode("%ff"), "\u{fffd}");
}

#[test]
fn search_reports_failures_and_empty_pages() {
    assert_eq!(
        search("git", SearchReply::Failed("offline".to_string())),
        Err(SearchError::Http("offline".to_string()))
    );
    assert_eq!(
        search("git", SearchReply::Page("<html></html>".to_string())),
        Err(SearchError::NoResults)
    );
    assert_eq!(search("git", SearchReply::Page(FIXTURE.to_string())).unwrap().len(), 2);
    assert!(search_tool_result("git", SearchReply::Failed("offline".to_string()))
        .contains("offline"));
}

#[test]
fn hits_are_capped() {
    let one = r#"<a class="result__a" href="https://e.com/x">T</a>"#;
    let page: String = (0..MAX_HITS + 4)
        .map(|i| one.replace("/x", &format!("/{i}")))
        .collect();
    assert_eq!(parse_ddg_html(&page).len(), MAX_HITS);
}

#[test]
fn results_keep_to_their_budget() {
    let hit = SearchHit {
        title: "t".repeat(2000),
        url: "https://e.com".to_string(),
        snippet: "s".repeat(2000),
    };
    let text = format_tool_result(&[hit]);
    assert!(text.chars().count() <= RESULT_BUDGET_CHARS + 20);
}

#[test]
fn only_web_addresses_are_hits() {
    assert_eq!(normalize_ddg_url("https://e.com/a"), "https://e.com/a");
    assert!(hit_from("javascript:void(0)".to_string(), "<a>x</a>").is_none());
    assert!(hit_from("https://e.com".to_string(), "").is_none());
}

#[test]
fn web_search_is_on_unless_switched_off() {
    assert!(web_search_enabled(None));
    assert!(!web_search_enabled(Some("false")));
}
