//! Package-metadata and allowlisted official-docs fallbacks when man/--help is missing.
use vstd::prelude::*;
use vstd::string::*;

use crate::manpage;
use crate::manpage::ProcessOutput;
use crate::text;
use crate::types::Platform;

verus! {

broadcast use vstd::string::group_string_axioms;

/// Fewest characters that package information has to have.
pub const PACKAGE_MIN_CHARS: usize = 40;

/// Fewest characters that a page of documentation has to have.
pub const DOCS_MIN_CHARS: usize = 80;

/// Most characters that are kept of either.
pub const FALLBACK_BUDGET: usize = 4_000;

// ── Package information ──────────────────────────────────────────────────────

/// The commands that print information on a package, in the order in which they are tried.
pub open spec fn info_commands(platform: Platform, program: Seq<char>) -> Seq<Seq<Seq<char>>> {
    let npm = seq!["npm"@, "view"@, program, "description"@, "version"@];
    match platform {
        Platform::MacOs => seq![seq!["brew"@, "info"@, program], npm],
        Platform::Linux => seq![
            seq!["apt-cache"@, "show"@, program],
            seq!["pacman"@, "-Si"@, program],
            npm,
        ],
        Platform::Other => seq![npm],
    }
}

/// The words of each command.
pub open spec fn command_views(commands: Seq<Vec<String>>) -> Seq<Seq<Seq<char>>> {
    Seq::new(commands.len(), |i: int| text::views(commands[i]@))
}

fn words3(a: &str, b: &str, c: &str) -> (r: Vec<String>)
    ensures
        text::views(r@) == seq![a@, b@, c@],
{
    let mut out: Vec<String> = Vec::new();
    text::push_text(&mut out, a.to_owned());
    text::push_text(&mut out, b.to_owned());
    text::push_text(&mut out, c.to_owned());
    assert(text::views(out@) =~= seq![a@, b@, c@]);
    out
}

/// The commands that print information on a package, in the order in which they are tried.
pub fn package_commands(platform: Platform, program: &str) -> (r: Vec<Vec<String>>)
    ensures
        command_views(r@) == info_commands(platform, program@),
{
    let mut out: Vec<Vec<String>> = Vec::new();
    match platform {
        Platform::MacOs => {
            out.push(words3("brew", "info", program));
        },
        Platform::Linux => {
            out.push(words3("apt-cache", "show", program));
            out.push(words3("pacman", "-Si", program));
        },
        Platform::Other => {},
    }
    let mut npm = words3("npm", "view", program);
    text::push_text(&mut npm, "description".to_owned());
    text::push_text(&mut npm, "version".to_owned());
    assert(text::views(npm@) =~= seq!["npm"@, "view"@, program@, "description"@, "version"@]);
    out.push(npm);
    assert(command_views(out@) =~= info_commands(platform, program@));
    out
}

/// Whether a package manager says that it has no such package.
pub open spec fn says_not_found(text: Seq<char>) -> bool {
    let lower = text::lowered(text);
    ||| text::has_sub(lower, "no available formula"@)
    ||| text::has_sub(lower, "unable to locate package"@)
    ||| (text::has_sub(lower, "error: package"@) && text::has_sub(lower, "was not found"@))
    ||| text::has_sub(lower, "404 not found"@)
    ||| text::has_sub(lower, "npm error code e404"@)
}

/// Whether a package manager says that it has no such package.
pub fn looks_like_not_found(text: &str) -> (r: bool)
    ensures
        r == says_not_found(text@),
{
    let lowered = text::to_ascii_lowercase(text);
    let lower = lowered.as_str();
    text::contains(lower, "no available formula") || text::contains(
        lower,
        "unable to locate package",
    ) || (text::contains(lower, "error: package") && text::contains(lower, "was not found"))
        || text::contains(lower, "404 not found") || text::contains(lower, "npm error code e404")
}

/// The usable information in what a package manager wrote: its errors count where it wrote
/// nothing else.
pub open spec fn usable_info(stdout: Seq<char>, stderr: Seq<char>) -> Option<Seq<char>> {
    let whole = text::trimmed(
        if text::trimmed(stdout).len() == 0 {
            stdout + stderr
        } else {
            stdout
        },
    );
    if whole.len() >= PACKAGE_MIN_CHARS && !says_not_found(whole) {
        Some(manpage::truncated(whole, FALLBACK_BUDGET as nat))
    } else {
        None
    }
}

/// The usable information in what a package manager wrote.
pub fn info_text(stdout: &str, stderr: &str) -> (r: Option<String>)
    ensures
        match r {
            Some(t) => usable_info(stdout@, stderr@) == Some(t@),
            None => usable_info(stdout@, stderr@) is None,
        },
{
    let combined = if text::trim(stdout).is_empty() {
        text::concat(stdout, stderr)
    } else {
        stdout.to_owned()
    };
    let whole = text::trim(combined.as_str());
    if whole.unicode_len() >= PACKAGE_MIN_CHARS && !looks_like_not_found(whole) {
        Some(manpage::truncate_chars(whole, FALLBACK_BUDGET))
    } else {
        None
    }
}

/// What a run of a package manager is good for.
pub open spec fn run_info(run: Option<ProcessOutput>) -> Option<Seq<char>> {
    match run {
        Some(out) => usable_info(text::lossy_text(out.stdout@), text::lossy_text(out.stderr@)),
        None => None,
    }
}

/// The first usable information among `runs`.
pub open spec fn first_info(runs: Seq<Option<ProcessOutput>>) -> Option<Seq<char>>
    decreases runs.len(),
{
    if runs.len() == 0 {
        None
    } else if run_info(runs[0]) is Some {
        run_info(runs[0])
    } else {
        first_info(runs.drop_first())
    }
}

/// The first usable information on `program` in what the commands of [`package_commands`]
/// wrote, in their order. `None` stands for one that is not installed, failed to start or took
/// too long.
pub fn package_info(program: &str, runs: &[Option<ProcessOutput>]) -> (r: Option<String>)
    ensures
        ({
            let want = if text::trimmed(program@).len() == 0 {
                None
            } else {
                first_info(runs@)
            };
            match r {
                Some(t) => want == Some(t@),
                None => want is None,
            }
        }),
{
    if text::trim(program).is_empty() {
        return None;
    }
    let mut i: usize = 0;
    assert(runs@.skip(0) =~= runs@);
    while i < runs.len()
        invariant
            i <= runs@.len(),
            first_info(runs@) == first_info(runs@.skip(i as int)),
            text::trimmed(program@).len() > 0,
        decreases runs@.len() - i,
    {
        assert(runs@.skip(i as int)[0] == runs@[i as int]);
        assert(runs@.skip(i as int).drop_first() =~= runs@.skip(i + 1));
        if let Some(out) = &runs[i] {
            let stdout = text::from_utf8_lossy(out.stdout.as_slice());
            let stderr = text::from_utf8_lossy(out.stderr.as_slice());
            if let Some(found) = info_text(stdout.as_str(), stderr.as_str()) {
                return Some(found);
            }
        }
        i += 1;
    }
    None
}

// ── Documentation pages ──────────────────────────────────────────────────────

/// The allowlisted documentation page of a program.
pub open spec fn docs_page(program: Seq<char>) -> Option<Seq<char>> {
    if program == "git"@ {
        Some("https://git-scm.com/docs/git"@)
    } else if program == "ssh"@ {
        Some("https://man7.org/linux/man-pages/man1/ssh.1.html"@)
    } else if program == "curl"@ {
        Some("https://man7.org/linux/man-pages/man1/curl.1.html"@)
    } else if program == "tar"@ {
        Some("https://man7.org/linux/man-pages/man1/tar.1.html"@)
    } else if program == "grep"@ {
        Some("https://man7.org/linux/man-pages/man1/grep.1.html"@)
    } else if program == "find"@ {
        Some("https://man7.org/linux/man-pages/man1/find.1.html"@)
    } else if program == "npm"@ {
        Some("https://docs.npmjs.com/cli/v10/commands/npm"@)
    } else if program == "cargo"@ {
        Some("https://doc.rust-lang.org/cargo/commands/cargo.html"@)
    } else if program == "rustc"@ {
        Some("https://doc.rust-lang.org/rustc/index.html"@)
    } else {
        None
    }
}

/// Map a small set of programs to allowlisted official doc URLs.
pub fn docs_url(program: &str) -> (r: Option<&'static str>)
    ensures
        match r {
            Some(u) => docs_page(program@) == Some(u@),
            None => docs_page(program@) is None,
        },
{
    if text::same(program, "git") {
        Some("https://git-scm.com/docs/git")
    } else if text::same(program, "ssh") {
        Some("https://man7.org/linux/man-pages/man1/ssh.1.html")
    } else if text::same(program, "curl") {
        Some("https://man7.org/linux/man-pages/man1/curl.1.html")
    } else if text::same(program, "tar") {
        Some("https://man7.org/linux/man-pages/man1/tar.1.html")
    } else if text::same(program, "grep") {
        Some("https://man7.org/linux/man-pages/man1/grep.1.html")
    } else if text::same(program, "find") {
        Some("https://man7.org/linux/man-pages/man1/find.1.html")
    } else if text::same(program, "npm") {
        Some("https://docs.npmjs.com/cli/v10/commands/npm")
    } else if text::same(program, "cargo") {
        Some("https://doc.rust-lang.org/cargo/commands/cargo.html")
    } else if text::same(program, "rustc") {
        Some("https://doc.rust-lang.org/rustc/index.html")
    } else {
        None
    }
}

/// Whether `s` starts with `tag`, whatever the case of its letters.
pub open spec fn starts_tag(s: Seq<char>, tag: Seq<char>) -> bool {
    tag.is_prefix_of(text::lowered(text::first_chars(s, 10)))
}

/// Whether what follows the tag that `s` starts with is script or style, where `hidden` says
/// whether what stands before it is.
pub open spec fn hidden_after(s: Seq<char>, hidden: bool) -> bool {
    if starts_tag(s, "<script"@) || starts_tag(s, "<style"@) {
        true
    } else if starts_tag(s, "</script"@) || starts_tag(s, "</style"@) {
        false
    } else {
        hidden
    }
}

/// The characters of a page that stand neither in a tag nor in script or style.
pub open spec fn visible_text(s: Seq<char>, in_tag: bool, hidden: bool) -> Seq<char>
    decreases s.len(),
{
    if s.len() == 0 {
        seq![]
    } else if s[0] == '<' {
        visible_text(s.drop_first(), true, hidden_after(s, hidden))
    } else if s[0] == '>' {
        visible_text(s.drop_first(), false, hidden)
    } else if in_tag || hidden {
        visible_text(s.drop_first(), in_tag, hidden)
    } else {
        seq![s[0]] + visible_text(s.drop_first(), in_tag, hidden)
    }
}

/// `s` with each run of white space within a line made one space, and none right behind a line
/// feed.
pub open spec fn squeezed(s: Seq<char>) -> Seq<char>
    decreases s.len(),
{
    if s.len() == 0 {
        seq![]
    } else {
        let before = squeezed(s.drop_last());
        let c = s.last();
        if c == '\n' || c == '\r' || !text::is_white(c) {
            before.push(c)
        } else if before.len() > 0 && (before.last() == ' ' || before.last() == '\n') {
            before
        } else {
            before.push(' ')
        }
    }
}

/// Lines, trimmed, each with a line feed behind it, with no more than one empty line between
/// two that are not.
pub open spec fn closed_up(lines: Seq<Seq<char>>) -> Seq<char>
    decreases lines.len(),
{
    if lines.len() == 0 {
        seq![]
    } else {
        let before = closed_up(lines.drop_last());
        let t = text::trimmed(lines.last());
        if t.len() > 0 {
            before + t + "\n"@
        } else if "\n\n"@.is_suffix_of(before) {
            before
        } else {
            before + "\n"@
        }
    }
}

/// The text of a page.
pub open spec fn page_text(html: Seq<char>) -> Seq<char> {
    closed_up(text::line_list(squeezed(visible_text(html, false, false))))
}

fn visible_chars(html: &str) -> (r: Vec<char>)
    ensures
        r@ == visible_text(html@, false, false),
{
    let chars = text::chars_of(html);
    let ghost all = html@;
    let mut out: Vec<char> = Vec::new();
    let mut in_tag = false;
    let mut hidden = false;
    let mut i: usize = 0;
    assert(all.skip(0) =~= all);
    while i < chars.len()
        invariant
            i <= chars@.len(),
            chars@ == all,
            out@ + visible_text(all.skip(i as int), in_tag, hidden) == visible_text(
                all,
                false,
                false,
            ),
        decreases chars@.len() - i,
    {
        let ghost rest = all.skip(i as int);
        let ghost before = out@;
        assert(rest.drop_first() =~= all.skip(i + 1));
        let c = chars[i];
        if c == '<' {
            let n: usize = if chars.len() - i > 10 {
                10
            } else {
                chars.len() - i
            };
            let head = text::string_of(
                vstd::slice::slice_subrange(chars.as_slice(), i, i + n),
            );
            assert(head@ =~= text::first_chars(rest, 10));
            let lowered = text::to_ascii_lowercase(head.as_str());
            let tag = lowered.as_str();
            if text::starts_with(tag, "<script") || text::starts_with(tag, "<style") {
                hidden = true;
            } else if text::starts_with(tag, "</script") || text::starts_with(tag, "</style") {
                hidden = false;
            }
            in_tag = true;
        } else if c == '>' {
            in_tag = false;
        } else if !in_tag && !hidden {
            out.push(c);
            proof {
                let more = visible_text(all.skip(i + 1), in_tag, hidden);
                assert(before.push(c) + more =~= before + (seq![c] + more));
            }
        }
        i += 1;
    }
    assert(all.skip(i as int) =~= seq![]);
    assert(out@ + visible_text(all.skip(i as int), in_tag, hidden) =~= out@);
    out
}

fn squeeze(chars: &[char]) -> (r: Vec<char>)
    ensures
        r@ == squeezed(chars@),
{
    let mut out: Vec<char> = Vec::new();
    let mut i: usize = 0;
    while i < chars.len()
        invariant
            i <= chars@.len(),
            out@ == squeezed(chars@.take(i as int)),
        decreases chars@.len() - i,
    {
        let c = chars[i];
        assert(chars@.take(i + 1).drop_last() =~= chars@.take(i as int));
        assert(chars@.take(i + 1).last() == c);
        let n = out.len();
        if c == '\n' || c == '\r' || !text::is_whitespace(c) {
            out.push(c);
        } else if !(n > 0 && (out[n - 1] == ' ' || out[n - 1] == '\n')) {
            out.push(' ');
        }
        i += 1;
    }
    assert(chars@.take(i as int) =~= chars@);
    out
}

/// The text of a page: tags, scripts and styles are left out, white space is closed up.
pub fn strip_html(html: &str) -> (r: String)
    ensures
        r@ == page_text(html@),
{
    let visible = visible_chars(html);
    let squeezed_chars = squeeze(visible.as_slice());
    let body = text::string_of(squeezed_chars.as_slice());
    let lines = text::lines(body.as_str());
    let ghost all = text::line_list(body@);
    let mut out = String::new();
    let mut i: usize = 0;
    while i < lines.len()
        invariant
            i <= lines@.len(),
            text::views(lines@) == all,
            out@ == closed_up(all.take(i as int)),
        decreases lines@.len() - i,
    {
        assert(all.take(i + 1).drop_last() =~= all.take(i as int));
        assert(all.take(i + 1).last() == lines@[i as int]@);
        let t = text::trim(lines[i].as_str());
        if !t.is_empty() {
            out.append(t);
            out.append("\n");
        } else if !text::ends_with(out.as_str(), "\n\n") {
            out.append("\n");
        }
        i += 1;
    }
    assert(all.take(i as int) =~= all);
    out
}

/// No angle bracket is left of a page's tags.
pub proof fn law_page_text_has_no_tags(html: Seq<char>)
    ensures
        !page_text(html).contains('<'),
        !page_text(html).contains('>'),
{
    lemma_visible_text(html, false, false, '<');
    lemma_visible_text(html, false, false, '>');
    let visible = visible_text(html, false, false);
    lemma_squeezed(visible, '<');
    lemma_squeezed(visible, '>');
    text::lemma_lines_without(squeezed(visible), '<');
    text::lemma_lines_without(squeezed(visible), '>');
    lemma_closed_up(text::line_list(squeezed(visible)), '<');
    lemma_closed_up(text::line_list(squeezed(visible)), '>');
}

/// A page's text never has more than one empty line in a row.
pub proof fn law_page_text_has_single_blank_lines(html: Seq<char>)
    ensures
        forall|i: int|
            0 <= i < page_text(html).len() - 2 ==> !(#[trigger] page_text(html)[i] == '\n'
                && page_text(html)[i + 1] == '\n' && page_text(html)[i + 2] == '\n'),
{
    let body = squeezed(visible_text(html, false, false));
    text::lemma_lines_hold_no_line_feed(body);
    lemma_blank_lines(text::line_list(body));
}

proof fn lemma_blank_lines(lines: Seq<Seq<char>>)
    requires
        forall|i: int| 0 <= i < lines.len() ==> !(#[trigger] lines[i]).contains('\n'),
    ensures
        forall|i: int|
            0 <= i < closed_up(lines).len() - 2 ==> !(#[trigger] closed_up(lines)[i] == '\n'
                && closed_up(lines)[i + 1] == '\n' && closed_up(lines)[i + 2] == '\n'),
    decreases lines.len(),
{
    reveal_strlit("\n");
    reveal_strlit("\n\n");
    if lines.len() > 0 {
        let init = lines.drop_last();
        let before = closed_up(init);
        let t = text::trimmed(lines.last());
        assert forall|i: int| 0 <= i < init.len() implies !(#[trigger] init[i]).contains('\n') by {
            assert(init[i] == lines[i]);
        }
        lemma_blank_lines(init);
        assert(!lines[lines.len() - 1].contains('\n'));
        text::lemma_trimmed_without(lines.last(), '\n');
        let r = closed_up(lines);
        assert forall|i: int| 0 <= i < r.len() - 2 implies !(#[trigger] r[i] == '\n' && r[i + 1]
            == '\n' && r[i + 2] == '\n') by {
            if i + 2 < before.len() {
                assert(r[i] == before[i] && r[i + 1] == before[i + 1] && r[i + 2] == before[i + 2]);
            } else if t.len() > 0 {
                let k = if i + 2 < before.len() + t.len() {
                    i + 2
                } else {
                    i + 1
                };
                assert(r[k] == t[k - before.len()]);
                assert(t.contains(t[k - before.len()]));
            } else if !"\n\n"@.is_suffix_of(before) {
                if before.len() >= 2 && before[before.len() - 2] == '\n' && before.last() == '\n' {
                    assert(before.subrange(before.len() - 2, before.len() as int) =~= "\n\n"@);
                }
            }
        }
    }
}

proof fn lemma_visible_text(s: Seq<char>, in_tag: bool, hidden: bool, c: char)
    requires
        c == '<' || c == '>',
    ensures
        !visible_text(s, in_tag, hidden).contains(c),
    decreases s.len(),
{
    if s.len() > 0 {
        let t = s.drop_first();
        if s[0] == '<' {
            lemma_visible_text(t, true, hidden_after(s, hidden), c);
        } else if s[0] == '>' {
            lemma_visible_text(t, false, hidden, c);
        } else {
            lemma_visible_text(t, in_tag, hidden, c);
            let r = visible_text(s, in_tag, hidden);
            let more = visible_text(t, in_tag, hidden);
            if !in_tag && !hidden && r.contains(c) {
                let k = r.index_of(c);
                assert(r[k] == more[k - 1]);
                assert(more.contains(c));
            }
        }
    }
}

proof fn lemma_squeezed(s: Seq<char>, c: char)
    requires
        !s.contains(c),
        c != ' ',
    ensures
        !squeezed(s).contains(c),
    decreases s.len(),
{
    if s.len() > 0 {
        let t = s.drop_last();
        assert(!t.contains(c)) by {
            if t.contains(c) {
                assert(s[t.index_of(c)] == c);
            }
        }
        lemma_squeezed(t, c);
        assert(s[s.len() - 1] != c);
        let r = squeezed(s);
        if r.contains(c) {
            let k = r.index_of(c);
            if k < squeezed(t).len() {
                assert(squeezed(t)[k] == c);
            }
        }
    }
}

proof fn lemma_closed_up(lines: Seq<Seq<char>>, c: char)
    requires
        forall|i: int| 0 <= i < lines.len() ==> !(#[trigger] lines[i]).contains(c),
        c != '\n',
    ensures
        !closed_up(lines).contains(c),
    decreases lines.len(),
{
    reveal_strlit("\n");
    if lines.len() > 0 {
        let init = lines.drop_last();
        let before = closed_up(init);
        let t = text::trimmed(lines.last());
        assert forall|i: int| 0 <= i < init.len() implies !(#[trigger] init[i]).contains(c) by {
            assert(init[i] == lines[i]);
        }
        lemma_closed_up(init, c);
        assert(!lines[lines.len() - 1].contains(c));
        text::lemma_trimmed_without(lines.last(), c);
        let r = closed_up(lines);
        if r.contains(c) {
            let k = r.index_of(c);
            if k < before.len() {
                assert(before[k] == c);
            } else if t.len() > 0 && k < before.len() + t.len() {
                assert(t[k - before.len()] == c);
            }
        }
    }
}

/// The documentation in a page that was fetched: nothing where it is too short to be of use.
pub open spec fn docs_text(program: Seq<char>, page: Option<Seq<char>>) -> Option<Seq<char>> {
    if docs_page(text::trimmed(program)) is None || page is None {
        None
    } else {
        let body = text::trimmed(page_text(page->0));
        if body.len() < DOCS_MIN_CHARS {
            None
        } else {
            Some(manpage::truncated(body, FALLBACK_BUDGET as nat))
        }
    }
}

/// Allowlisted official docs as plain text, from the page at [`docs_url`] where it could be
/// fetched.
pub fn official_docs(program: &str, page: Option<&str>) -> (r: Option<String>)
    ensures
        match r {
            Some(t) => docs_text(program@, text::opt_text(page)) == Some(t@),
            None => docs_text(program@, text::opt_text(page)) is None,
        },
{
    if docs_url(text::trim(program)).is_none() {
        return None;
    }
    match page {
        None => None,
        Some(html) => {
            let stripped = strip_html(html);
            let body = text::trim(stripped.as_str());
            if body.unicode_len() < DOCS_MIN_CHARS {
                None
            } else {
                Some(manpage::truncate_chars(body, FALLBACK_BUDGET))
            }
        },
    }
}

proof fn lemma_part(s: Seq<char>, c: char)
    requires
        s.len() > 0,
        !s.contains(c),
    ensures
        s[0] != c,
        !s.drop_first().contains(c),
{
    assert(s.contains(s[0]));
    if s.drop_first().contains(c) {
        let k = s.drop_first().index_of(c);
        assert(s[k + 1] == c);
    }
}

proof fn lemma_shown(s: Seq<char>, tail: Seq<char>)
    requires
        !s.contains('<'),
        !s.contains('>'),
    ensures
        visible_text(s + tail, false, false) == s + visible_text(tail, false, false),
        visible_text(s, false, false) == s,
    decreases s.len(),
{
    if s.len() == 0 {
        assert(s + tail =~= tail);
    } else {
        lemma_part(s, '<');
        lemma_part(s, '>');
        assert((s + tail).drop_first() =~= s.drop_first() + tail);
        lemma_shown(s.drop_first(), tail);
    }
}

proof fn lemma_not_shown(s: Seq<char>, tail: Seq<char>, in_tag: bool, hidden: bool)
    requires
        !s.contains('<'),
        !s.contains('>'),
        in_tag || hidden,
    ensures
        visible_text(s + tail, in_tag, hidden) == visible_text(tail, in_tag, hidden),
    decreases s.len(),
{
    if s.len() == 0 {
        assert(s + tail =~= tail);
    } else {
        lemma_part(s, '<');
        lemma_part(s, '>');
        assert((s + tail).drop_first() =~= s.drop_first() + tail);
        lemma_not_shown(s.drop_first(), tail, in_tag, hidden);
    }
}

/// A tag that is none of a script or a style is not shown, and what stands around it is; text
/// without tags is shown as it is.
pub proof fn law_tags_are_not_shown(before: Seq<char>, tag: Seq<char>, after: Seq<char>)
    requires
        !before.contains('<'),
        !before.contains('>'),
        tag.len() > 0,
        !tag.contains('<'),
        !tag.contains('>'),
        text::lower(tag[0]) != 's',
        tag.len() > 1 ==> text::lower(tag[1]) != 's',
        !after.contains('<'),
        !after.contains('>'),
    ensures
        visible_text(before + (seq!['<'] + (tag + (seq!['>'] + after))), false, false) == before
            + after,
        visible_text(before, false, false) == before,
{
    let end = seq!['>'] + after;
    let tail = seq!['<'] + (tag + end);
    lemma_shown(before, tail);
    assert(tail.drop_first() =~= tag + end);
    lemma_plain_tag(tag, end);
    lemma_not_shown(tag, end, true, false);
    assert(end.drop_first() =~= after);
    lemma_shown(after, seq![]);
}

proof fn lemma_plain_tag(tag: Seq<char>, end: Seq<char>)
    requires
        tag.len() > 0,
        text::lower(tag[0]) != 's',
        tag.len() > 1 ==> text::lower(tag[1]) != 's',
        end.len() > 0 && end[0] == '>',
    ensures
        hidden_after(seq!['<'] + (tag + end), false) == false,
{
    reveal_strlit("<script");
    reveal_strlit("<style");
    let s = seq!['<'] + (tag + end);
    let low = text::lowered(text::first_chars(s, 10));
    if starts_tag(s, "<script"@) {
        assert("<script"@[1] == low[1]);
        assert(s[1] == tag[0]);
    }
    if starts_tag(s, "<style"@) {
        assert("<style"@[1] == low[1]);
        assert(s[1] == tag[0]);
    }
}

/// What stands in a script or a style is not shown.
pub proof fn law_scripts_are_not_shown(code: Seq<char>, after: Seq<char>)
    requires
        !code.contains('<'),
        !code.contains('>'),
        !after.contains('<'),
        !after.contains('>'),
    ensures
        visible_text("<script>"@ + (code + ("</script>"@ + after)), false, false) == after,
        visible_text("<style>"@ + (code + ("</style>"@ + after)), false, false) == after,
{
    lemma_hidden_part(
        "script"@,
        "<script>"@,
        "<script"@,
        "</script>"@,
        "</script"@,
        code,
        after,
    );
    lemma_hidden_part("style"@, "<style>"@, "<style"@, "</style>"@, "</style"@, code, after);
}

proof fn lemma_hidden_part(
    name: Seq<char>,
    open: Seq<char>,
    open_mark: Seq<char>,
    close: Seq<char>,
    close_mark: Seq<char>,
    code: Seq<char>,
    after: Seq<char>,
)
    requires
        ({
            ||| name == "script"@ && open == "<script>"@ && open_mark == "<script"@ && close
                == "</script>"@ && close_mark == "</script"@
            ||| name == "style"@ && open == "<style>"@ && open_mark == "<style"@ && close
                == "</style>"@ && close_mark == "</style"@
        }),
        !code.contains('<'),
        !code.contains('>'),
        !after.contains('<'),
        !after.contains('>'),
    ensures
        visible_text(open + (code + (close + after)), false, false) == after,
{
    reveal_strlit("script");
    reveal_strlit("<script>");
    reveal_strlit("<script");
    reveal_strlit("</script>");
    reveal_strlit("</script");
    reveal_strlit("style");
    reveal_strlit("<style>");
    reveal_strlit("<style");
    reveal_strlit("</style>");
    reveal_strlit("</style");
    let rest = code + (close + after);
    let s = open + rest;
    assert(open =~= seq!['<'] + name + seq!['>']);
    assert(open_mark =~= seq!['<'] + name);
    assert(close =~= seq!['<', '/'] + name + seq!['>']);
    assert(close_mark =~= seq!['<', '/'] + name);
    lemma_starts(s, open_mark);
    let inner = name + (seq!['>'] + rest);
    assert(s.drop_first() =~= inner);
    lemma_not_shown(name, seq!['>'] + rest, true, true);
    assert((seq!['>'] + rest).drop_first() =~= rest);
    lemma_not_shown(code, close + after, false, true);
    let t = close + after;
    lemma_starts(t, close_mark);
    lemma_not_opening(t);
    let tag = seq!['/'] + name;
    assert(t.drop_first() =~= tag + (seq!['>'] + after));
    lemma_not_shown(tag, seq!['>'] + after, true, false);
    assert((seq!['>'] + after).drop_first() =~= after);
    lemma_shown(after, seq![]);
}

proof fn lemma_starts(s: Seq<char>, mark: Seq<char>)
    requires
        mark.len() <= 10,
        mark.len() <= s.len(),
        s.take(mark.len() as int) =~= mark,
        text::lowered(mark) =~= mark,
    ensures
        starts_tag(s, mark),
{
    let low = text::lowered(text::first_chars(s, 10));
    assert(low.take(mark.len() as int) =~= mark) by {
        assert forall|i: int| 0 <= i < mark.len() implies low[i] == mark[i] by {
            assert(s.take(mark.len() as int)[i] == s[i]);
            assert(text::lowered(mark)[i] == mark[i]);
        }
    }
}

proof fn lemma_not_opening(s: Seq<char>)
    requires
        s.len() > 1,
        s[1] == '/',
    ensures
        !starts_tag(s, "<script"@),
        !starts_tag(s, "<style"@),
{
    reveal_strlit("<script");
    reveal_strlit("<style");
    let low = text::lowered(text::first_chars(s, 10));
    if starts_tag(s, "<script"@) {
        assert("<script"@[1] == low[1]);
    }
    if starts_tag(s, "<style"@) {
        assert("<style"@[1] == low[1]);
    }
}

proof fn lemma_squeezed_keeps(s: Seq<char>)
    ensures
        text::solid_chars(squeezed(s)) == text::solid_chars(s),
    decreases s.len(),
{
    reveal(Seq::filter);
    if s.len() > 0 {
        let init = s.drop_last();
        lemma_squeezed_keeps(init);
        let before = squeezed(init);
        assert(before.push(s.last()).drop_last() =~= before);
        assert(before.push(' ').drop_last() =~= before);
    }
}

proof fn lemma_solid_join(a: Seq<char>, b: Seq<char>)
    ensures
        text::solid_chars(a + b) == text::solid_chars(a) + text::solid_chars(b),
    decreases b.len(),
{
    reveal(Seq::filter);
    if b.len() == 0 {
        assert(a + b =~= a);
        assert(text::solid_chars(b) =~= seq![]);
    } else {
        assert((a + b).drop_last() =~= a + b.drop_last());
        lemma_solid_join(a, b.drop_last());
    }
}

proof fn lemma_solid_trimmed(s: Seq<char>)
    ensures
        text::solid_chars(text::trimmed(s)) == text::solid_chars(s),
{
    text::law_trimmed_takes_white_space(s);
    let t = text::trimmed(s);
    let i = choose|i: int|
        #[trigger] text::occurs_at(s, t, i) && (forall|k: int|
            0 <= k < s.len() && !(i <= k < i + t.len()) ==> text::is_white(#[trigger] s[k]));
    let a = s.take(i);
    let b = s.skip(i + t.len());
    assert(a + t + b =~= s) by {
        assert(s.subrange(i, i + t.len()) == t);
    }
    lemma_solid_join(a + t, b);
    lemma_solid_join(a, t);
    lemma_solid_none(a);
    lemma_solid_none(b);
    assert(seq![] + text::solid_chars(t) + seq![] =~= text::solid_chars(t));
}

proof fn lemma_solid_none(a: Seq<char>)
    requires
        forall|i: int| 0 <= i < a.len() ==> text::is_white(#[trigger] a[i]),
    ensures
        text::solid_chars(a) == Seq::<char>::empty(),
    decreases a.len(),
{
    reveal(Seq::filter);
    if a.len() > 0 {
        lemma_solid_none(a.drop_last());
    }
}

proof fn lemma_solid_lines(lines: Seq<Seq<char>>)
    ensures
        text::solid_chars(closed_up(lines)) == text::solid_chars(lines.flatten()),
    decreases lines.len(),
{
    if lines.len() == 0 {
        assert(closed_up(lines) =~= lines.flatten());
    } else {
        let init = lines.drop_last();
        let last = lines.last();
        lemma_solid_lines(init);
        lines.lemma_flatten_push(last);
        assert(init.push(last) =~= lines);
        init.lemma_flatten_push(last);
        lemma_solid_join(init.flatten(), last);
        let before = closed_up(init);
        let t = text::trimmed(last);
        lemma_solid_trimmed(last);
        reveal_strlit("\n");
        lemma_solid_none("\n"@);
        lemma_solid_join(before, t);
        lemma_solid_join(before + t, "\n"@);
        lemma_solid_join(before, "\n"@);
        assert(text::solid_chars(before + t) + seq![] =~= text::solid_chars(before + t));
        assert(text::solid_chars(before) + seq![] =~= text::solid_chars(before));
        if t.len() == 0 {
            lemma_solid_none(t);
        }
    }
}

proof fn lemma_solid_line_list(s: Seq<char>)
    ensures
        text::solid_chars(text::line_list(s).flatten()) == text::solid_chars(s),
    decreases s.len(),
{
    let list = text::line_list(s);
    if s.len() == 0 {
        assert(list.flatten() =~= seq![]);
        assert(s =~= seq![]);
    } else {
        text::lemma_lead(s, text::CharSet::Not('\n'));
        let n = text::lead(s, text::CharSet::Not('\n')) as int;
        if n >= s.len() {
            assert(seq![s].drop_first() =~= Seq::<Seq<char>>::empty());
            assert(seq![s].flatten() =~= s) by {
                reveal_with_fuel(Seq::flatten, 2);
            }
        } else {
            let head = s.take(n);
            let line = text::without_cr(head);
            let rest = s.skip(n + 1);
            lemma_solid_line_list(rest);
            let more = text::line_list(rest);
            assert((seq![line] + more).drop_first() =~= more);
            assert((seq![line] + more).flatten() == line + more.flatten());
            lemma_solid_join(line, more.flatten());
            let gap = s.subrange(line.len() as int, n + 1);
            assert(line + gap + rest =~= s);
            assert forall|i: int| 0 <= i < gap.len() implies text::is_white(#[trigger] gap[i]) by {
                assert(gap[i] == s[line.len() + i]);
                if line.len() + i < n {
                    assert(head.last() == s[n - 1]);
                }
            }
            lemma_solid_none(gap);
            lemma_solid_join(line + gap, rest);
            lemma_solid_join(line, gap);
            assert(text::solid_chars(line) + seq![] =~= text::solid_chars(line));
        }
    }
}

/// The text of a page holds all that is visible of it, in its order: only white space is taken
/// away or put in.
pub proof fn law_page_text_holds_all(html: Seq<char>)
    ensures
        text::solid_chars(page_text(html)) == text::solid_chars(visible_text(html, false, false)),
{
    let seen = visible_text(html, false, false);
    let lines = text::line_list(squeezed(seen));
    lemma_squeezed_keeps(seen);
    lemma_solid_lines(lines);
    lemma_solid_line_list(squeezed(seen));
}

/// The page on a known program is handed on as far as the budget goes; a page with little text is
/// not, nor is one on another program.
pub proof fn law_docs_text(program: Seq<char>, page: Seq<char>)
    ensures
        ({
            let body = text::trimmed(page_text(page));
            &&& docs_page(text::trimmed(program)) is Some && 80 <= body.len() <= 4000 ==> docs_text(
                program,
                Some(page),
            ) == Some(body)
            &&& body.len() < 80 ==> docs_text(program, Some(page)) is None
            &&& docs_page(text::trimmed(program)) is None ==> docs_text(program, Some(page)) is None
        }),
        docs_text(program, None) is None,
{
}

/// The page on a program is one on that program, reached in the safe way.
pub proof fn law_docs_page(program: Seq<char>)
    ensures
        docs_page(program) matches Some(url) ==> "https://"@.is_prefix_of(url) && text::has_sub(
            url,
            program,
        ),
{
    reveal_strlit("https://");
    reveal_strlit("git");
    reveal_strlit("ssh");
    reveal_strlit("curl");
    reveal_strlit("tar");
    reveal_strlit("grep");
    reveal_strlit("find");
    reveal_strlit("npm");
    reveal_strlit("cargo");
    reveal_strlit("rustc");
    assert("git"@[0] == 'g' && "git"@.len() == 3 && "grep"@.len() == 4);
    assert("ssh"@[0] == 's' && "curl"@[0] == 'c' && "tar"@[0] == 't' && "find"@[0] == 'f');
    assert("npm"@[0] == 'n' && "cargo"@[0] == 'c' && "rustc"@[0] == 'r');
    assert("curl"@.len() == 4 && "cargo"@.len() == 5);
    if let Some(url) = docs_page(program) {
        if program == "git"@ {
            reveal_strlit("https://git-scm.com/docs/git");
            assert(url.subrange(8, 11) =~= program);
            assert(text::occurs_at(url, program, 8));
        } else if program == "npm"@ {
            reveal_strlit("https://docs.npmjs.com/cli/v10/commands/npm");
            assert(url.subrange(13, 16) =~= program);
            assert(text::occurs_at(url, program, 13));
        } else if program == "cargo"@ {
            reveal_strlit("https://doc.rust-lang.org/cargo/commands/cargo.html");
            assert(url.subrange(26, 31) =~= program);
            assert(text::occurs_at(url, program, 26));
        } else if program == "rustc"@ {
            reveal_strlit("https://doc.rust-lang.org/rustc/index.html");
            assert(url.subrange(26, 31) =~= program);
            assert(text::occurs_at(url, program, 26));
        } else {
            reveal_strlit("https://man7.org/linux/man-pages/man1/ssh.1.html");
            reveal_strlit("https://man7.org/linux/man-pages/man1/curl.1.html");
            reveal_strlit("https://man7.org/linux/man-pages/man1/tar.1.html");
            reveal_strlit("https://man7.org/linux/man-pages/man1/grep.1.html");
            reveal_strlit("https://man7.org/linux/man-pages/man1/find.1.html");
            assert(url.subrange(38, 38 + program.len() as int) =~= program);
            assert(text::occurs_at(url, program, 38));
        }
        assert(url.take(8) =~= "https://"@);
    }
}

/// Each way of asking a package manager asks about the program; the last is the same on every
/// platform.
pub proof fn law_package_commands(platform: Platform, program: Seq<char>, i: int)
    requires
        0 <= i < info_commands(platform, program).len(),
    ensures
        info_commands(platform, program)[i].contains(program),
        info_commands(platform, program).last() == info_commands(Platform::Other, program).last(),
        info_commands(Platform::Other, program).last()[0] == "npm"@,
        info_commands(Platform::MacOs, program)[0][0] == "brew"@,
        info_commands(Platform::Linux, program)[0][0] == "apt-cache"@,
        info_commands(Platform::Linux, program)[1][0] == "pacman"@,
{
    let command = info_commands(platform, program)[i];
    assert(command[2] == program);
}

/// What a package manager wrote is used: what it wrote as its result, or what it wrote as its
/// errors where it wrote nothing else, as long as that is enough and does not say that nothing
/// was found.
pub proof fn law_usable_info(stdout: Seq<char>, stderr: Seq<char>)
    ensures
        40 <= text::trimmed(stdout).len() <= 4000 && !says_not_found(text::trimmed(stdout))
            ==> usable_info(stdout, stderr) == Some(text::trimmed(stdout)),
        0 < text::trimmed(stdout).len() < 40 ==> usable_info(stdout, stderr) is None,
        stdout.len() == 0 && 40 <= text::trimmed(stderr).len() <= 4000 && !says_not_found(
            text::trimmed(stderr),
        ) ==> usable_info(stdout, stderr) == Some(text::trimmed(stderr)),
        says_not_found(text::trimmed(stdout)) && text::trimmed(stdout).len() > 0 ==> usable_info(
            stdout,
            stderr,
        ) is None,
{
    text::lemma_blank(stdout);
    if stdout.len() == 0 {
        assert(stdout + stderr =~= stderr);
    }
}

/// What is said of a package that is not there is known, in whatever case and wherever it stands.
pub proof fn law_not_found(before: Seq<char>, said: Seq<char>, after: Seq<char>)
    requires
        ({
            let low = text::lowered(said);
            ||| low == "no available formula"@
            ||| low == "unable to locate package"@
            ||| low == "404 not found"@
            ||| low == "npm error code e404"@
        }),
    ensures
        says_not_found(before + said + after),
{
    let s = before + said + after;
    let low = text::lowered(said);
    text::lemma_occurs(text::lowered(before), low, text::lowered(after));
    assert(text::lowered(before) + low + text::lowered(after) =~= text::lowered(s));
}

/// The first package manager that knows something is the one that is heard.
pub proof fn law_first_info(runs: Seq<Option<ProcessOutput>>, i: int)
    requires
        0 <= i < runs.len(),
        forall|k: int| 0 <= k < i ==> run_info(#[trigger] runs[k]) is None,
        runs[i] is Some,
        ({
            let t = text::trimmed(text::lossy_text(runs[i]->0.stdout@));
            40 <= t.len() <= 4000 && !says_not_found(t)
        }),
    ensures
        first_info(runs) == Some(text::trimmed(text::lossy_text(runs[i]->0.stdout@))),
    decreases runs.len(),
{
    law_usable_info(
        text::lossy_text(runs[i]->0.stdout@),
        text::lossy_text(runs[i]->0.stderr@),
    );
    if i > 0 {
        let rest = runs.drop_first();
        assert(rest[i - 1] == runs[i]);
        assert forall|k: int| 0 <= k < i - 1 implies run_info(#[trigger] rest[k]) is None by {
            assert(rest[k] == runs[k + 1]);
        }
        law_first_info(rest, i - 1);
        assert(run_info(runs[0]) is None);
    }
}

/// A package that a package manager says was not found is not there, wherever and in whatever case
/// the two parts of the message stand.
pub proof fn law_package_was_not_found(
    before: Seq<char>,
    first: Seq<char>,
    middle: Seq<char>,
    second: Seq<char>,
    after: Seq<char>,
)
    requires
        text::lowered(first) == "error: package"@,
        text::lowered(second) == "was not found"@,
    ensures
        says_not_found(before + first + middle + second + after),
{
    let s = before + first + middle + second + after;
    let low = text::lowered(s);
    let a = text::lowered(before);
    let rest = text::lowered(middle + second + after);
    text::lemma_occurs(a, "error: package"@, rest);
    assert(a + "error: package"@ + rest =~= low);
    let b = text::lowered(before + first + middle);
    let c = text::lowered(after);
    text::lemma_occurs(b, "was not found"@, c);
    assert(b + "was not found"@ + c =~= low);
}

/// The words of lines, one line after the other.
pub open spec fn words_of_lines(lines: Seq<Seq<char>>) -> Seq<Seq<char>>
    decreases lines.len(),
{
    if lines.len() == 0 {
        seq![]
    } else {
        words_of_lines(lines.drop_last()) + text::word_list(lines.last())
    }
}

proof fn lemma_words_of_first(line: Seq<char>, rest: Seq<Seq<char>>)
    ensures
        words_of_lines(seq![line] + rest) == text::word_list(line) + words_of_lines(rest),
    decreases rest.len(),
{
    let all = seq![line] + rest;
    if rest.len() == 0 {
        assert(all.drop_last() =~= Seq::<Seq<char>>::empty());
        assert(all.last() == line);
        reveal_with_fuel(words_of_lines, 2);
        assert(words_of_lines(all) =~= text::word_list(line) + words_of_lines(rest));
    } else {
        assert(all.drop_last() =~= seq![line] + rest.drop_last());
        lemma_words_of_first(line, rest.drop_last());
        assert(all.last() == rest.last());
        assert(words_of_lines(all) =~= text::word_list(line) + words_of_lines(rest));
    }
}

proof fn lemma_words_in_lines(s: Seq<char>)
    ensures
        words_of_lines(text::line_list(s)) == text::word_list(s),
    decreases s.len(),
{
    if s.len() == 0 {
        assert(text::trimmed_start(s, text::CharSet::White).len() == 0);
        assert(text::word_list(s) =~= seq![]);
    } else {
        text::lemma_lead(s, text::CharSet::Not('\n'));
        let n = text::lead(s, text::CharSet::Not('\n')) as int;
        if n >= s.len() {
            lemma_words_of_first(s, seq![]);
            assert(seq![s] + Seq::<Seq<char>>::empty() =~= seq![s]);
            assert(text::word_list(s) + seq![] =~= text::word_list(s));
        } else {
            let head = s.take(n);
            let rest = s.skip(n + 1);
            lemma_words_in_lines(rest);
            lemma_words_of_first(text::without_cr(head), text::line_list(rest));
            if head.len() > 0 && head.last() == '\r' {
                text::lemma_words_before_white(head.drop_last(), '\r');
                assert(head.drop_last().push('\r') =~= head);
            }
            text::law_words_are_parted(head, '\n', rest);
            assert(head + seq!['\n'] + rest =~= s);
        }
    }
}

proof fn lemma_closed_up_words(lines: Seq<Seq<char>>)
    ensures
        text::word_list(closed_up(lines)) == words_of_lines(lines),
        closed_up(lines).len() > 0 ==> closed_up(lines).last() == '\n',
    decreases lines.len(),
{
    reveal_strlit("\n");
    assert("\n"@ =~= seq!['\n']);
    if lines.len() == 0 {
        let none = closed_up(lines);
        assert(text::trimmed_start(none, text::CharSet::White).len() == 0);
        assert(text::word_list(none) =~= seq![]);
    } else {
        let init = lines.drop_last();
        let before = closed_up(init);
        let line = lines.last();
        let t = text::trimmed(line);
        lemma_closed_up_words(init);
        text::lemma_words_trimmed(line);
        if t.len() > 0 {
            if before.len() == 0 {
                assert(before + t =~= t);
                assert(words_of_lines(init) =~= seq![]) by {
                    assert(text::trimmed_start(before, text::CharSet::White).len() == 0);
                }
                assert(words_of_lines(lines) =~= text::word_list(t));
            } else {
                let q = before.drop_last();
                text::law_words_are_parted(q, '\n', t);
                assert(q + seq!['\n'] + t =~= before + t);
                text::lemma_words_before_white(q, '\n');
                assert(q.push('\n') =~= before);
            }
            text::lemma_words_before_white(before + t, '\n');
            assert((before + t).push('\n') =~= before + t + "\n"@);
        } else {
            assert(text::trimmed_start(t, text::CharSet::White).len() == 0);
            assert(text::word_list(t) =~= seq![]);
            assert(words_of_lines(lines) =~= words_of_lines(init));
            text::lemma_words_before_white(before, '\n');
            assert(before.push('\n') =~= before + "\n"@);
        }
    }
}

proof fn lemma_squeezed_ends(s: Seq<char>)
    requires
        s.len() > 0,
    ensures
        squeezed(s).len() > 0,
        text::is_white(s.last()) <==> text::is_white(squeezed(s).last()),
    decreases s.len(),
{
    let init = s.drop_last();
    if init.len() > 0 {
        lemma_squeezed_ends(init);
    }
}

proof fn lemma_squeezed_word(y: Seq<char>, z: Seq<char>)
    requires
        forall|i: int| 0 <= i < z.len() ==> !text::is_white(#[trigger] z[i]),
    ensures
        squeezed(y + z) == squeezed(y) + z,
    decreases z.len(),
{
    if z.len() == 0 {
        assert(y + z =~= y);
        assert(squeezed(y) + z =~= squeezed(y));
    } else {
        let init = z.drop_last();
        assert((y + z).drop_last() =~= y + init);
        assert forall|i: int| 0 <= i < init.len() implies !text::is_white(#[trigger] init[i]) by {
            assert(init[i] == z[i]);
        }
        lemma_squeezed_word(y, init);
        assert(!text::is_white(z[z.len() - 1]));
        assert((y + z).last() == z.last());
        assert(squeezed(y + z) =~= squeezed(y) + z);
    }
}

proof fn lemma_squeezed_words(s: Seq<char>)
    ensures
        text::word_list(squeezed(s)) == text::word_list(s),
    decreases s.len(),
{
    if s.len() == 0 {
        assert(squeezed(s) =~= s);
    } else if text::is_white(s.last()) {
        let init = s.drop_last();
        lemma_squeezed_words(init);
        text::lemma_words_before_white(init, s.last());
        assert(init.push(s.last()) =~= s);
        text::lemma_words_before_white(squeezed(init), s.last());
        text::lemma_words_before_white(squeezed(init), ' ');
    } else {
        let set = text::CharSet::NonWhite;
        text::lemma_trail(s, set);
        let n = text::trail(s, set) as int;
        let y = s.take(s.len() - n);
        let z = s.skip(s.len() - n);
        assert(y + z =~= s);
        assert forall|i: int| 0 <= i < z.len() implies !text::is_white(#[trigger] z[i]) by {
            assert(z[i] == s[s.len() - n + i]);
            assert(set.has(s[s.len() - n + i]));
        }
        lemma_squeezed_word(y, z);
        if y.len() == 0 {
            assert(squeezed(y) =~= seq![]);
            assert(squeezed(s) =~= s);
        } else {
            assert(y.last() == s[s.len() - n - 1]);
            assert(n > 0);
            lemma_squeezed_words(y);
            lemma_squeezed_ends(y);
            let w = y.last();
            text::law_words_are_parted(y.drop_last(), w, z);
            assert(y.drop_last() + seq![w] + z =~= s);
            text::lemma_words_before_white(y.drop_last(), w);
            assert(y.drop_last().push(w) =~= y);
            let sq = squeezed(y);
            let v = sq.last();
            text::law_words_are_parted(sq.drop_last(), v, z);
            assert(sq.drop_last() + seq![v] + z =~= sq + z);
            text::lemma_words_before_white(sq.drop_last(), v);
            assert(sq.drop_last().push(v) =~= sq);
        }
    }
}

/// The text of a page has the words that are visible on it, in their order: none is lost, split
/// or run into the next.
pub proof fn law_page_words(html: Seq<char>)
    ensures
        text::word_list(page_text(html)) == text::word_list(visible_text(html, false, false)),
{
    let seen = visible_text(html, false, false);
    lemma_squeezed_words(seen);
    lemma_words_in_lines(squeezed(seen));
    lemma_closed_up_words(text::line_list(squeezed(seen)));
}

} // verus!
