//! DuckDuckGo HTML lite web search for the `web_search` Ollama tool.
//!
//! Reads the top result cards (title, URL, snippet) out of a result page and lists
//! them for the model. Failures become a short tool-error string so the model can
//! still answer.
use vstd::prelude::*;
use vstd::string::*;

use crate::text;
use crate::types;

verus! {

broadcast use vstd::string::group_string_axioms;

/// Most hits that are read and listed.
pub const MAX_HITS: usize = 5;

/// Character budget for the listed hits.
pub const RESULT_BUDGET_CHARS: usize = 3_000;

#[derive(Debug, Clone, PartialEq, Eq)]
pub struct SearchHit {
    pub title: String,
    pub url: String,
    pub snippet: String,
}

/// What a [`SearchHit`] says.
pub ghost struct HitView {
    pub title: Seq<char>,
    pub url: Seq<char>,
    pub snippet: Seq<char>,
}

impl View for SearchHit {
    type V = HitView;

    open spec fn view(&self) -> HitView {
        HitView { title: self.title@, url: self.url@, snippet: self.snippet@ }
    }
}

/// What each of the hits says.
pub open spec fn hit_views(hits: Seq<SearchHit>) -> Seq<HitView> {
    Seq::new(hits.len(), |i: int| hits[i]@)
}

#[derive(Debug, Clone, PartialEq, Eq)]
pub enum SearchError {
    EmptyQuery,
    Http(String),
    NoResults,
}

impl SearchError {
    /// The text of the error.
    pub open spec fn message(self) -> Seq<char> {
        match self {
            SearchError::EmptyQuery => "web_search error: empty query"@,
            SearchError::Http(msg) => "web_search error: "@ + msg@,
            SearchError::NoResults => "web_search: no results found"@,
        }
    }

    pub fn as_tool_message(&self) -> (r: String)
        ensures
            r@ == self.message(),
    {
        match self {
            SearchError::EmptyQuery => "web_search error: empty query".to_owned(),
            SearchError::Http(msg) => text::concat("web_search error: ", msg.as_str()),
            SearchError::NoResults => "web_search: no results found".to_owned(),
        }
    }
}

// ── Pieces of a page ─────────────────────────────────────────────────────────

/// Where `needle` first stands in `s`, whatever the case of ASCII letters.
pub open spec fn first_ci(s: Seq<char>, needle: Seq<char>) -> Option<int> {
    text::first_sub(text::lowered(s), text::lowered(needle))
}

fn find_ci(s: &str, needle: &str) -> (r: Option<usize>)
    ensures
        match r {
            Some(k) => first_ci(s@, needle@) == Some(k as int) && k + needle@.len() <= s@.len(),
            None => first_ci(s@, needle@) is None,
        },
{
    let a = text::to_ascii_lowercase(s);
    let b = text::to_ascii_lowercase(needle);
    text::find(a.as_str(), b.as_str())
}

/// The value of the first `href` attribute.
pub open spec fn href_of(s: Seq<char>) -> Option<Seq<char>> {
    match text::first_sub(text::lowered(s), "href="@) {
        None => None,
        Some(k) => {
            let after = s.skip(k + 5);
            if after.len() > 0 && (after[0] == '"' || after[0] == '\'') {
                match text::first_char(after.skip(1), after[0]) {
                    Some(end) => Some(after.skip(1).take(end)),
                    None => None,
                }
            } else {
                None
            }
        },
    }
}

fn extract_href(s: &str) -> (r: Option<String>)
    ensures
        match r {
            Some(h) => href_of(s@) == Some(h@),
            None => href_of(s@) is None,
        },
{
    proof {
        reveal_strlit("href=");
    }
    let lower = text::to_ascii_lowercase(s);
    let k = match text::find(lower.as_str(), "href=") {
        Some(k) => k,
        None => {
            return None;
        },
    };
    let n = s.unicode_len();
    let after = s.substring_char(k + 5, n);
    assert(after@ =~= s@.skip(k + 5));
    if after.is_empty() {
        return None;
    }
    let quote = after.get_char(0);
    if quote != '"' && quote != '\'' {
        return None;
    }
    let m = after.unicode_len();
    let rest = after.substring_char(1, m);
    assert(rest@ =~= after@.skip(1));
    match text::find_char(rest, quote) {
        Some(end) => Some(rest.substring_char(0, end).to_owned()),
        None => None,
    }
}

/// What stands between the end of a tag and the next `</a>`.
pub open spec fn anchor_text(s: Seq<char>) -> Option<Seq<char>> {
    match text::first_char(s, '>') {
        None => None,
        Some(gt) => {
            let after = s.skip(gt + 1);
            match text::first_sub(after, "</a>"@) {
                Some(end) => Some(after.take(end)),
                None => match text::first_sub(after, "</A>"@) {
                    Some(end) => Some(after.take(end)),
                    None => None,
                },
            }
        },
    }
}

fn extract_anchor_text(s: &str) -> (r: Option<String>)
    ensures
        match r {
            Some(t) => anchor_text(s@) == Some(t@),
            None => anchor_text(s@) is None,
        },
{
    let gt = match text::find_char(s, '>') {
        Some(gt) => gt,
        None => {
            return None;
        },
    };
    let n = s.unicode_len();
    let after = s.substring_char(gt + 1, n);
    assert(after@ =~= s@.skip(gt + 1));
    if let Some(end) = text::find(after, "</a>") {
        return Some(after.substring_char(0, end).to_owned());
    }
    match text::find(after, "</A>") {
        Some(end) => Some(after.substring_char(0, end).to_owned()),
        None => None,
    }
}

/// `s` without its tags, where `in_tag` says whether it starts inside one.
pub open spec fn tagless(s: Seq<char>, in_tag: bool) -> Seq<char>
    decreases s.len(),
{
    if s.len() == 0 {
        seq![]
    } else if s[0] == '<' {
        tagless(s.drop_first(), true)
    } else if s[0] == '>' {
        tagless(s.drop_first(), false)
    } else if in_tag {
        tagless(s.drop_first(), true)
    } else {
        seq![s[0]] + tagless(s.drop_first(), false)
    }
}

fn strip_tags(s: &str) -> (r: String)
    ensures
        r@ == tagless(s@, false),
{
    let chars = text::chars_of(s);
    let ghost all = s@;
    let mut out = String::new();
    let mut in_tag = false;
    let mut i: usize = 0;
    assert(all.skip(0) =~= all);
    while i < chars.len()
        invariant
            i <= chars@.len(),
            chars@ == all,
            out@ + tagless(all.skip(i as int), in_tag) == tagless(all, false),
        decreases chars@.len() - i,
    {
        let ghost before = out@;
        assert(all.skip(i as int).drop_first() =~= all.skip(i + 1));
        let c = chars[i];
        if c == '<' {
            in_tag = true;
        } else if c == '>' {
            in_tag = false;
        } else if !in_tag {
            out.push(c);
            proof {
                let more = tagless(all.skip(i + 1), false);
                assert(before.push(c) + more =~= before + (seq![c] + more));
            }
        }
        i += 1;
    }
    assert(all.skip(i as int) =~= seq![]);
    assert(out@ + tagless(all.skip(i as int), in_tag) =~= out@);
    out
}

/// `s` with the basic HTML entities replaced, one kind after the other.
pub open spec fn entities_decoded(s: Seq<char>) -> Seq<char> {
    let a = text::replaced(s, "&amp;"@, "&"@);
    let b = text::replaced(a, "&lt;"@, "<"@);
    let c = text::replaced(b, "&gt;"@, ">"@);
    let d = text::replaced(c, "&quot;"@, "\""@);
    let e = text::replaced(d, "&#x27;"@, "'"@);
    let f = text::replaced(e, "&#39;"@, "'"@);
    let g = text::replaced(f, "&apos;"@, "'"@);
    text::replaced(g, "&nbsp;"@, " "@)
}

fn decode_basic_entities(s: &str) -> (r: String)
    ensures
        r@ == entities_decoded(s@),
{
    proof {
        reveal_strlit("&amp;");
        reveal_strlit("&lt;");
        reveal_strlit("&gt;");
        reveal_strlit("&quot;");
        reveal_strlit("&#x27;");
        reveal_strlit("&#39;");
        reveal_strlit("&apos;");
        reveal_strlit("&nbsp;");
    }
    let a = text::replace(s, "&amp;", "&");
    let b = text::replace(a.as_str(), "&lt;", "<");
    let c = text::replace(b.as_str(), "&gt;", ">");
    let d = text::replace(c.as_str(), "&quot;", "\"");
    let e = text::replace(d.as_str(), "&#x27;", "'");
    let f = text::replace(e.as_str(), "&#39;", "'");
    let g = text::replace(f.as_str(), "&apos;", "'");
    text::replace(g.as_str(), "&nbsp;", " ")
}

/// The plain text of a piece of a page.
pub open spec fn plain(s: Seq<char>) -> Seq<char> {
    text::trimmed(entities_decoded(tagless(s, false)))
}

fn plain_text(s: &str) -> (r: String)
    ensures
        r@ == plain(s@),
{
    let stripped = strip_tags(s);
    let decoded = decode_basic_entities(stripped.as_str());
    text::trim(decoded.as_str()).to_owned()
}

/// The snippet in a result block: that of an anchor up to its end, else up to the next tag.
pub open spec fn snippet_of(block: Seq<char>) -> Option<Seq<char>> {
    match first_ci(block, "result__snippet"@) {
        None => None,
        Some(k) => match text::last_char(block.take(k), '<') {
            None => None,
            Some(start) => {
                let from_tag = block.skip(start);
                let raw = if "<a"@.is_prefix_of(text::lowered(from_tag)) {
                    anchor_text(from_tag)
                } else {
                    match text::first_char(from_tag, '>') {
                        None => None,
                        Some(gt) => Some(text::before(from_tag.skip(gt + 1), '<')),
                    }
                };
                match raw {
                    None => None,
                    Some(t) => if plain(t).len() > 0 {
                        Some(plain(t))
                    } else {
                        None
                    },
                }
            },
        },
    }
}

fn extract_snippet(block: &str) -> (r: Option<String>)
    ensures
        match r {
            Some(t) => snippet_of(block@) == Some(t@),
            None => snippet_of(block@) is None,
        },
{
    let k = match find_ci(block, "result__snippet") {
        Some(k) => k,
        None => {
            return None;
        },
    };
    let head = block.substring_char(0, k);
    assert(head@ =~= block@.take(k as int));
    let start = match text::rfind_char(head, '<') {
        Some(start) => start,
        None => {
            return None;
        },
    };
    let n = block.unicode_len();
    let from_tag = block.substring_char(start, n);
    assert(from_tag@ =~= block@.skip(start as int));
    let lowered = text::to_ascii_lowercase(from_tag);
    let raw = if text::starts_with(lowered.as_str(), "<a") {
        match extract_anchor_text(from_tag) {
            Some(t) => t,
            None => {
                return None;
            },
        }
    } else {
        match text::find_char(from_tag, '>') {
            Some(gt) => {
                let m = from_tag.unicode_len();
                let inner = from_tag.substring_char(gt + 1, m);
                assert(inner@ =~= from_tag@.skip(gt + 1));
                text::split_first(inner, '<').to_owned()
            },
            None => {
                return None;
            },
        }
    };
    let t = plain_text(raw.as_str());
    if t.as_str().is_empty() {
        None
    } else {
        Some(t)
    }
}

// ── URLs ─────────────────────────────────────────────────────────────────────

/// The value of a hexadecimal digit.
pub open spec fn hex_value(b: u8) -> Option<u8> {
    if 48 <= b <= 57 {
        Some((b - 48) as u8)
    } else if 97 <= b <= 102 {
        Some((b - 87) as u8)
    } else if 65 <= b <= 70 {
        Some((b - 55) as u8)
    } else {
        None
    }
}

/// The value of two characters as a hexadecimal number, the first of which may be a plus sign.
pub open spec fn hex_pair(a: u8, b: u8) -> Option<u8> {
    match hex_value(b) {
        None => None,
        Some(low) => if a == 43 {
            Some(low)
        } else {
            match hex_value(a) {
                Some(high) => Some((16 * high + low) as u8),
                None => None,
            }
        },
    }
}

/// Bytes of a URL with `+` read as a space and `%` with two hexadecimal digits as a byte. A
/// `%` without them stands for itself.
pub open spec fn percent_decoded(s: Seq<u8>) -> Seq<u8>
    decreases s.len(),
{
    if s.len() == 0 {
        seq![]
    } else if s[0] == 43 {
        seq![32u8] + percent_decoded(s.drop_first())
    } else if s[0] == 37 && s.len() > 2 && hex_pair(s[1], s[2]) is Some {
        seq![hex_pair(s[1], s[2])->0] + percent_decoded(s.skip(3))
    } else {
        seq![s[0]] + percent_decoded(s.drop_first())
    }
}

fn hex_digit(b: u8) -> (r: Option<u8>)
    ensures
        r == hex_value(b),
        r matches Some(v) ==> v < 16,
{
    if 48 <= b && b <= 57 {
        Some(b - 48)
    } else if 97 <= b && b <= 102 {
        Some(b - 87)
    } else if 65 <= b && b <= 70 {
        Some(b - 55)
    } else {
        None
    }
}

fn hex_byte(a: u8, b: u8) -> (r: Option<u8>)
    ensures
        r == hex_pair(a, b),
{
    match hex_digit(b) {
        None => None,
        Some(low) => {
            if a == 43 {
                return Some(low);
            }
            match hex_digit(a) {
                Some(high) => Some(16 * high + low),
                None => None,
            }
        },
    }
}

/// Bytes of a URL with `+` and `%` resolved.
pub fn percent_decode(bytes: &[u8]) -> (r: Vec<u8>)
    ensures
        r@ == percent_decoded(bytes@),
{
    let ghost all = bytes@;
    let mut out: Vec<u8> = Vec::new();
    let mut i: usize = 0;
    assert(all.skip(0) =~= all);
    while i < bytes.len()
        invariant
            i <= bytes@.len(),
            all == bytes@,
            out@ + percent_decoded(all.skip(i as int)) == percent_decoded(all),
        decreases bytes@.len() - i,
    {
        let ghost rest = all.skip(i as int);
        let ghost before = out@;
        assert(rest.drop_first() =~= all.skip(i + 1));
        let b = bytes[i];
        if b == 43 {
            out.push(32);
            proof {
                let more = percent_decoded(all.skip(i + 1));
                assert(before.push(32) + more =~= before + (seq![32u8] + more));
            }
            i += 1;
            continue;
        }
        if b == 37 && bytes.len() - i > 2 {
            assert(rest[1] == bytes@[i + 1] && rest[2] == bytes@[i + 2]);
            if let Some(v) = hex_byte(bytes[i + 1], bytes[i + 2]) {
                out.push(v);
                proof {
                    assert(rest.skip(3) =~= all.skip(i + 3));
                    let more = percent_decoded(all.skip(i + 3));
                    assert(before.push(v) + more =~= before + (seq![v] + more));
                }
                i += 3;
                continue;
            }
        }
        out.push(b);
        proof {
            let more = percent_decoded(all.skip(i + 1));
            assert(before.push(b) + more =~= before + (seq![b] + more));
        }
        i += 1;
    }
    assert(all.skip(i as int) =~= seq![]);
    assert(out@ + percent_decoded(all.skip(i as int)) =~= out@);
    out
}

/// A URL part with `+` and `%` resolved, as text.
pub open spec fn url_decoded(s: Seq<char>) -> Seq<char> {
    text::lossy_text(percent_decoded(vstd::utf8::encode_utf8(s)))
}

/// A URL part with `+` and `%` resolved, as text.
pub fn urlencoding_decode(input: &str) -> (r: String)
    ensures
        r@ == url_decoded(input@),
{
    let decoded = percent_decode(input.as_bytes());
    text::from_utf8_lossy(decoded.as_slice())
}

/// The encoded target in a redirect, which is what stands behind `uddg=` up to the next `&`.
pub open spec fn redirect_target(raw: Seq<char>) -> Option<Seq<char>> {
    match text::first_sub(text::trimmed(raw), "uddg="@) {
        Some(k) => Some(text::before(text::trimmed(raw).skip(k + 5), '&')),
        None => None,
    }
}

/// The URL that a link leads to, where it is no redirect.
pub open spec fn direct_url(raw: Seq<char>) -> Seq<char> {
    let url = text::trimmed(raw);
    if "//"@.is_prefix_of(url) {
        "https:"@ + url
    } else {
        url
    }
}

/// The URL that a link leads to.
pub open spec fn link_url(raw: Seq<char>) -> Seq<char> {
    match redirect_target(raw) {
        Some(encoded) => url_decoded(encoded),
        None => direct_url(raw),
    }
}

/// DuckDuckGo wraps redirects as `//duckduckgo.com/l/?uddg=<urlencoded>`.
pub fn normalize_ddg_url(raw: &str) -> (r: String)
    ensures
        r@ == link_url(raw@),
{
    proof {
        reveal_strlit("uddg=");
    }
    let url = text::trim(raw);
    if let Some(k) = text::find(url, "uddg=") {
        let n = url.unicode_len();
        let encoded = url.substring_char(k + 5, n);
        assert(encoded@ =~= url@.skip(k + 5));
        return urlencoding_decode(text::split_first(encoded, '&'));
    }
    if text::starts_with(url, "//") {
        return text::concat("https:", url);
    }
    url.to_owned()
}

// ── Hits ─────────────────────────────────────────────────────────────────────

/// Where the next result anchor is marked.
pub open spec fn next_anchor(s: Seq<char>) -> Option<int> {
    match first_ci(s, "class=\"result__a\""@) {
        Some(k) => Some(k),
        None => first_ci(s, "class='result__a'"@),
    }
}

/// The tag that holds position `k`, and what follows it.
pub open spec fn tag_around(s: Seq<char>, k: int) -> Seq<char> {
    match text::last_char(s.take(k), '<') {
        Some(start) => s.skip(start),
        None => s,
    }
}

/// The hit whose anchor starts `from_tag` and whose link leads to `url`.
pub open spec fn hit_with(url: Seq<char>, from_tag: Seq<char>) -> Option<HitView> {
    if url.len() == 0 || "javascript:"@.is_prefix_of(url) {
        None
    } else {
        match anchor_text(from_tag) {
            None => None,
            Some(t) => if plain(t).len() == 0 {
                None
            } else {
                let after = match text::first_sub(from_tag, "</a>"@) {
                    Some(end) => from_tag.skip(end),
                    None => from_tag,
                };
                Some(
                    HitView {
                        title: plain(t),
                        url,
                        snippet: match snippet_of(after) {
                            Some(s) => s,
                            None => seq![],
                        },
                    },
                )
            },
        }
    }
}

/// The hit whose anchor starts `from_tag`.
pub open spec fn hit_in(from_tag: Seq<char>) -> Option<HitView> {
    match href_of(from_tag) {
        None => None,
        Some(href) => hit_with(link_url(href), from_tag),
    }
}

/// Up to `max` hits in a page, in their order.
pub open spec fn hits_in(s: Seq<char>, max: nat) -> Seq<HitView>
    decreases s.len(),
{
    match next_anchor(s) {
        None => seq![],
        Some(k) => if max == 0 || k < 0 || k + 10 > s.len() {
            seq![]
        } else {
            match hit_in(tag_around(s, k)) {
                Some(hit) => seq![hit] + hits_in(s.skip(k + 10), (max - 1) as nat),
                None => hits_in(s.skip(k + 10), max),
            }
        },
    }
}

/// A page gives at most as many hits as asked for, and each has a title and a URL that is no
/// script.
pub proof fn law_hits(s: Seq<char>, max: nat)
    ensures
        hits_in(s, max).len() <= max,
        forall|i: int|
            0 <= i < hits_in(s, max).len() ==> (#[trigger] hits_in(s, max)[i]).title.len() > 0
                && hits_in(s, max)[i].url.len() > 0 && !"javascript:"@.is_prefix_of(
                hits_in(s, max)[i].url,
            ),
    decreases s.len(),
{
    match next_anchor(s) {
        None => {},
        Some(k) => if max == 0 || k < 0 || k + 10 > s.len() {
        } else {
            match hit_in(tag_around(s, k)) {
                Some(hit) => {
                    let more = hits_in(s.skip(k + 10), (max - 1) as nat);
                    law_hits(s.skip(k + 10), (max - 1) as nat);
                    assert forall|i: int| 0 <= i < hits_in(s, max).len() implies (
                    #[trigger] hits_in(s, max)[i]).title.len() > 0 && hits_in(s, max)[i].url.len()
                        > 0 && !"javascript:"@.is_prefix_of(hits_in(s, max)[i].url) by {
                        if i > 0 {
                            assert(hits_in(s, max)[i] == more[i - 1]);
                        }
                    }
                },
                None => {
                    law_hits(s.skip(k + 10), max);
                },
            }
        },
    }
}

/// The hit whose anchor starts `from_tag` and whose link leads to `url`.
pub fn hit_from(url: String, from_tag: &str) -> (r: Option<SearchHit>)
    ensures
        match r {
            Some(h) => hit_with(url@, from_tag@) == Some(h@),
            None => hit_with(url@, from_tag@) is None,
        },
{
    if url.as_str().is_empty() || text::starts_with(url.as_str(), "javascript:") {
        return None;
    }
    let raw = match extract_anchor_text(from_tag) {
        Some(t) => t,
        None => {
            return None;
        },
    };
    let title = plain_text(raw.as_str());
    if title.as_str().is_empty() {
        return None;
    }
    let n = from_tag.unicode_len();
    let after = match text::find(from_tag, "</a>") {
        Some(end) => from_tag.substring_char(end, n),
        None => from_tag,
    };
    proof {
        if let Some(end) = text::first_sub(from_tag@, "</a>"@) {
            assert(after@ =~= from_tag@.skip(end));
        }
    }
    let snippet = match extract_snippet(after) {
        Some(s) => s,
        None => String::new(),
    };
    Some(SearchHit { title, url, snippet })
}

fn find_anchor(s: &str) -> (r: Option<usize>)
    ensures
        match r {
            Some(k) => next_anchor(s@) == Some(k as int) && k + 10 <= s@.len(),
            None => next_anchor(s@) is None,
        },
{
    proof {
        reveal_strlit("class=\"result__a\"");
        reveal_strlit("class='result__a'");
    }
    match find_ci(s, "class=\"result__a\"") {
        Some(k) => Some(k),
        None => find_ci(s, "class='result__a'"),
    }
}

/// Parse DuckDuckGo HTML lite results into structured hits.
pub fn parse_ddg_html(html: &str) -> (r: Vec<SearchHit>)
    ensures
        hit_views(r@) == hits_in(html@, MAX_HITS as nat),
        r@.len() <= MAX_HITS,
{
    let ghost want = hits_in(html@, MAX_HITS as nat);
    proof {
        law_hits(html@, MAX_HITS as nat);
    }
    let mut hits: Vec<SearchHit> = Vec::new();
    let mut rest: &str = html;
    assert(hit_views(hits@) =~= seq![]);
    assert(hit_views(hits@) + want =~= want);
    while hits.len() < MAX_HITS
        invariant
            hits@.len() <= MAX_HITS,
            want == hits_in(html@, MAX_HITS as nat),
            want.len() <= MAX_HITS,
            hit_views(hits@) + hits_in(rest@, (MAX_HITS - hits@.len()) as nat) == want,
        decreases rest@.len(),
    {
        let ghost before = hit_views(hits@);
        let k = match find_anchor(rest) {
            Some(k) => k,
            None => {
                assert(before + seq![] =~= before);
                return hits;
            },
        };
        let n = rest.unicode_len();
        let head = rest.substring_char(0, k);
        assert(head@ =~= rest@.take(k as int));
        let from_tag = match text::rfind_char(head, '<') {
            Some(start) => rest.substring_char(start, n),
            None => rest,
        };
        assert(from_tag@ =~= tag_around(rest@, k as int));
        let next = rest.substring_char(k + 10, n);
        assert(next@ =~= rest@.skip(k + 10));
        if let Some(href) = extract_href(from_tag) {
            let url = normalize_ddg_url(href.as_str());
            if let Some(hit) = hit_from(url, from_tag) {
                let ghost hv = hit@;
                hits.push(hit);
                proof {
                    assert(hit_views(hits@) =~= before.push(hv));
                    let more = hits_in(next@, (MAX_HITS - hits@.len()) as nat);
                    assert(before.push(hv) + more =~= before + (seq![hv] + more));
                }
            }
        }
        rest = next;
    }
    proof {
        let left = hits_in(rest@, 0);
        law_hits(rest@, 0);
        assert(hit_views(hits@) + left =~= hit_views(hits@));
    }
    hits
}

// ── The result ───────────────────────────────────────────────────────────────

/// A hit as it is listed under number `n`.
pub open spec fn listed(n: nat, hit: HitView) -> Seq<char> {
    text::decimal(n) + ". "@ + text::trimmed(hit.title) + "\n   URL: "@ + text::trimmed(hit.url)
        + "\n   "@ + text::trimmed(hit.snippet) + "\n"@
}

/// `out` with the hits from the one at `i` on listed behind it, as long as they fit.
pub open spec fn listed_from(hits: Seq<HitView>, i: int, out: Seq<char>) -> Seq<char>
    decreases MAX_HITS - i,
{
    if 0 <= i < hits.len() && i < MAX_HITS && out.len() + listed((i + 1) as nat, hits[i]).len()
        <= RESULT_BUDGET_CHARS {
        listed_from(hits, i + 1, out + listed((i + 1) as nat, hits[i]))
    } else {
        out
    }
}

/// The tool result for `hits`.
pub open spec fn result_text(hits: Seq<HitView>) -> Seq<char> {
    if hits.len() == 0 {
        SearchError::NoResults.message()
    } else {
        listed_from(hits, 0, "Web search results:\n"@)
    }
}

/// The tool result keeps to its budget.
pub proof fn law_result_within_budget(hits: Seq<HitView>)
    ensures
        result_text(hits).len() <= RESULT_BUDGET_CHARS,
{
    reveal_strlit("web_search: no results found");
    reveal_strlit("Web search results:\n");
    lemma_listed_from(hits, 0, "Web search results:\n"@);
}

proof fn lemma_listed_from(hits: Seq<HitView>, i: int, out: Seq<char>)
    requires
        out.len() <= RESULT_BUDGET_CHARS,
    ensures
        listed_from(hits, i, out).len() <= RESULT_BUDGET_CHARS,
    decreases MAX_HITS - i,
{
    if 0 <= i < hits.len() && i < MAX_HITS && out.len() + listed((i + 1) as nat, hits[i]).len()
        <= RESULT_BUDGET_CHARS {
        lemma_listed_from(hits, i + 1, out + listed((i + 1) as nat, hits[i]));
    }
}

fn list_hit(n: usize, hit: &SearchHit) -> (r: String)
    ensures
        r@ == listed(n as nat, hit@),
{
    let mut out = text::usize_text(n);
    out.append(". ");
    out.append(text::trim(hit.title.as_str()));
    out.append("\n   URL: ");
    out.append(text::trim(hit.url.as_str()));
    out.append("\n   ");
    out.append(text::trim(hit.snippet.as_str()));
    out.append("\n");
    out
}

/// Compact plain-text tool result for the model (under ~3k chars).
pub fn format_tool_result(hits: &[SearchHit]) -> (r: String)
    ensures
        r@ == result_text(hit_views(hits@)),
{
    if hits.len() == 0 {
        return SearchError::NoResults.as_tool_message();
    }
    proof {
        reveal_strlit("Web search results:\n");
    }
    let ghost all = hit_views(hits@);
    let mut out = "Web search results:\n".to_owned();
    let mut used = out.as_str().unicode_len();
    let mut i: usize = 0;
    while i < hits.len() && i < MAX_HITS
        invariant
            i <= hits@.len(),
            i <= MAX_HITS,
            all == hit_views(hits@),
            used == out@.len(),
            used <= RESULT_BUDGET_CHARS,
            listed_from(all, i as int, out@) == listed_from(all, 0, "Web search results:\n"@),
        decreases hits@.len() - i,
    {
        assert(all[i as int] == hits@[i as int]@);
        let entry = list_hit(i + 1, &hits[i]);
        let n = entry.as_str().unicode_len();
        if n > RESULT_BUDGET_CHARS - used {
            return out;
        }
        out.append(entry.as_str());
        used = used + n;
        i += 1;
    }
    out
}

/// What came of asking the search engine.
#[derive(Debug, Clone, PartialEq, Eq)]
pub enum SearchReply {
    /// The request failed, or was answered with an error; this says how.
    Failed(String),
    /// The result page.
    Page(String),
}

/// The hits that a reply to `query` gives, or why there are none.
pub open spec fn found(query: Seq<char>, reply: SearchReply) -> Result<Seq<HitView>, SearchError> {
    if text::trimmed(query).len() == 0 {
        Err(SearchError::EmptyQuery)
    } else {
        match reply {
            SearchReply::Failed(msg) => Err(SearchError::Http(msg)),
            SearchReply::Page(html) => if hits_in(html@, MAX_HITS as nat).len() == 0 {
                Err(SearchError::NoResults)
            } else {
                Ok(hits_in(html@, MAX_HITS as nat))
            },
        }
    }
}

/// Up to five hits out of the reply to a search for `query`.
pub fn search(query: &str, reply: SearchReply) -> (r: Result<Vec<SearchHit>, SearchError>)
    ensures
        match r {
            Ok(hits) => found(query@, reply) == Ok::<Seq<HitView>, SearchError>(hit_views(hits@)),
            Err(e) => found(query@, reply) == Err::<Seq<HitView>, SearchError>(e),
        },
{
    if text::trim(query).is_empty() {
        return Err(SearchError::EmptyQuery);
    }
    match reply {
        SearchReply::Failed(msg) => Err(SearchError::Http(msg)),
        SearchReply::Page(html) => {
            let hits = parse_ddg_html(html.as_str());
            assert(hits@.len() == hit_views(hits@).len());
            if hits.len() == 0 {
                Err(SearchError::NoResults)
            } else {
                Ok(hits)
            }
        },
    }
}

/// Search and format in one step for tool handlers.
pub fn search_tool_result(query: &str, reply: SearchReply) -> (r: String)
    ensures
        r@ == match found(query@, reply) {
            Ok(hits) => result_text(hits),
            Err(e) => e.message(),
        },
{
    match search(query, reply) {
        Ok(hits) => format_tool_result(hits.as_slice()),
        Err(err) => err.as_tool_message(),
    }
}

/// Whether web search tooling is enabled, by the value of `LEARNMINAL_WEB_SEARCH`: it is,
/// unless that is `0`, `false`, `off` or `no`.
pub fn web_search_enabled(value: Option<&str>) -> (r: bool)
    ensures
        r == types::switched_on(text::opt_text(value)),
{
    types::switch_is_on(value)
}

/// What a list of hits says, hit by hit.
pub open spec fn told(hits: Seq<HitView>) -> Seq<Seq<char>>
    decreases hits.len(),
{
    if hits.len() == 0 {
        seq![]
    } else {
        told(hits.drop_last()) + seq![
            text::trimmed(hits.last().title),
            text::trimmed(hits.last().url),
            text::trimmed(hits.last().snippet),
        ]
    }
}

/// The characters that a list of hits needs at most.
pub open spec fn room_for_hits(hits: Seq<HitView>) -> nat
    decreases hits.len(),
{
    if hits.len() == 0 {
        20
    } else {
        let hit = hits.last();
        room_for_hits(hits.drop_last()) + hit.title.len() + hit.url.len() + hit.snippet.len() + 17
    }
}

/// The result of a search tells of every hit: its title, its address and its snippet, in this
/// order, as far as there is room.
pub proof fn law_result_tells_of_every_hit(hits: Seq<HitView>)
    requires
        0 < hits.len() <= 5,
        room_for_hits(hits) <= 3000,
    ensures
        text::in_order(result_text(hits), told(hits)),
{
    reveal_strlit("Web search results:\n");
    let head = "Web search results:\n"@;
    let empty = hits.take(0);
    assert(text::in_order(head, told(empty)));
    assert(room_for_hits(empty) == 20);
    lemma_told_from(hits, 0, head);
}

proof fn lemma_told_from(hits: Seq<HitView>, i: int, out: Seq<char>)
    requires
        0 <= i <= hits.len() <= 5,
        room_for_hits(hits) <= 3000,
        out.len() <= room_for_hits(hits.take(i)),
        text::in_order(out, told(hits.take(i))),
    ensures
        text::in_order(listed_from(hits, i, out), told(hits)),
    decreases hits.len() - i,
{
    if i == hits.len() {
        assert(hits.take(i) =~= hits);
    } else {
        let hit = hits[i];
        let n = (i + 1) as nat;
        let more = listed(n, hit);
        let next = hits.take(i + 1);
        assert(next.drop_last() =~= hits.take(i));
        assert(next.last() == hit);
        lemma_listed(n, hit);
        let parts = seq![
            text::trimmed(hit.title),
            text::trimmed(hit.url),
            text::trimmed(hit.snippet),
        ];
        text::lemma_in_order_concat(out, more, told(hits.take(i)), parts);
        assert((out + more).len() <= room_for_hits(next));
        lemma_room_grows(hits, i + 1);
        lemma_told_from(hits, i + 1, out + more);
    }
}

proof fn lemma_room_grows(hits: Seq<HitView>, i: int)
    requires
        0 <= i <= hits.len(),
    ensures
        room_for_hits(hits.take(i)) <= room_for_hits(hits),
    decreases hits.len() - i,
{
    if i == hits.len() {
        assert(hits.take(i) =~= hits);
    } else {
        let next = hits.take(i + 1);
        assert(next.drop_last() =~= hits.take(i));
        lemma_room_grows(hits, i + 1);
    }
}

proof fn lemma_listed(n: nat, hit: HitView)
    requires
        n <= 9,
    ensures
        text::in_order(
            listed(n, hit),
            seq![text::trimmed(hit.title), text::trimmed(hit.url), text::trimmed(hit.snippet)],
        ),
        listed(n, hit).len() <= hit.title.len() + hit.url.len() + hit.snippet.len() + 17,
{
    let t = text::trimmed(hit.title);
    let u = text::trimmed(hit.url);
    let s = text::trimmed(hit.snippet);
    lemma_three_parts(text::decimal(n) + ". "@, t, "\n   URL: "@, u, "\n   "@, s, "\n"@);
    text::law_trimmed_takes_white_space(hit.title);
    text::law_trimmed_takes_white_space(hit.url);
    text::law_trimmed_takes_white_space(hit.snippet);
    assert(text::decimal(n).len() == 1);
    assert(". "@.len() == 2 && "\n   URL: "@.len() == 9 && "\n   "@.len() == 4 && "\n"@.len() == 1)
        by {
        reveal_strlit(". ");
        reveal_strlit("\n   URL: ");
        reveal_strlit("\n   ");
        reveal_strlit("\n");
    }
}

proof fn lemma_three_parts(
    head: Seq<char>,
    t: Seq<char>,
    first: Seq<char>,
    u: Seq<char>,
    second: Seq<char>,
    s: Seq<char>,
    tail: Seq<char>,
)
    ensures
        text::in_order(head + t + first + u + second + s + tail, seq![t, u, s]),
{
    let a = head + t;
    text::lemma_in_order_one(t);
    text::lemma_in_order_around(head, t, seq![], seq![t]);
    assert(head + t + seq![] =~= a);
    let b = first + u;
    text::lemma_in_order_one(u);
    text::lemma_in_order_around(first, u, seq![], seq![u]);
    assert(first + u + seq![] =~= b);
    let c = second + s + tail;
    text::lemma_in_order_one(s);
    text::lemma_in_order_around(second, s, tail, seq![s]);
    text::lemma_in_order_concat(a, b, seq![t], seq![u]);
    text::lemma_in_order_concat(a + b, c, seq![t] + seq![u], seq![s]);
    assert(a + b =~= head + t + first + u);
    assert(a + b + c =~= head + t + first + u + second + s + tail);
    assert(seq![t] + seq![u] + seq![s] =~= seq![t, u, s]);
}

/// Whether a text is free of markup: no tags and no entities.
pub open spec fn is_unmarked(s: Seq<char>) -> bool {
    !s.contains('<') && !s.contains('>') && !s.contains('&')
}

proof fn lemma_tagless_stays(s: Seq<char>, tail: Seq<char>)
    requires
        !s.contains('<'),
        !s.contains('>'),
    ensures
        tagless(s + tail, false) == s + tagless(tail, false),
        tagless(s, false) == s,
    decreases s.len(),
{
    if s.len() == 0 {
        assert(s + tail =~= tail);
    } else {
        let rest = s.drop_first();
        assert(s.contains(s[0]));
        assert forall|c: char| rest.contains(c) implies s.contains(c) by {
            let k = rest.index_of(c);
            assert(s[k + 1] == c);
        }
        assert((s + tail).drop_first() =~= rest + tail);
        lemma_tagless_stays(rest, tail);
    }
}

proof fn lemma_tag_is_dropped(tag: Seq<char>, tail: Seq<char>)
    requires
        !tag.contains('<'),
        !tag.contains('>'),
    ensures
        tagless(tag + seq!['>'] + tail, true) == tagless(tail, false),
    decreases tag.len(),
{
    let s = tag + seq!['>'] + tail;
    if tag.len() == 0 {
        assert(s.drop_first() =~= tail);
    } else {
        let rest = tag.drop_first();
        assert(tag.contains(tag[0]));
        assert forall|c: char| rest.contains(c) implies tag.contains(c) by {
            let k = rest.index_of(c);
            assert(tag[k + 1] == c);
        }
        assert(s.drop_first() =~= rest + seq!['>'] + tail);
        lemma_tag_is_dropped(rest, tail);
    }
}

/// A tag is taken out of a text, and the text before and behind it stays.
pub proof fn law_tags_are_taken_out(before: Seq<char>, tag: Seq<char>, after: Seq<char>)
    requires
        !before.contains('<'),
        !before.contains('>'),
        !tag.contains('<'),
        !tag.contains('>'),
        !after.contains('<'),
        !after.contains('>'),
    ensures
        tagless(before + (seq!['<'] + (tag + seq!['>'] + after)), false) == before + after,
        tagless(before, false) == before,
{
    let tail = seq!['<'] + (tag + seq!['>'] + after);
    lemma_tagless_stays(before, tail);
    assert(tail.drop_first() =~= tag + seq!['>'] + after);
    lemma_tag_is_dropped(tag, after);
    lemma_tagless_stays(after, seq![]);
}

proof fn lemma_not_replaced(s: Seq<char>, pat: Seq<char>, with: Seq<char>)
    requires
        pat.len() > 0,
        !s.contains(pat[0]),
    ensures
        text::replaced(s, pat, with) == s,
{
    assert forall|j: int| !#[trigger] text::occurs_at(s, pat, j) by {
        if text::occurs_at(s, pat, j) {
            assert(s.subrange(j, j + pat.len())[0] == s[j]);
        }
    }
    text::law_replaced(s, pat, with, 0);
}

proof fn lemma_entity_replaced(a: Seq<char>, pat: Seq<char>, with: Seq<char>, b: Seq<char>)
    requires
        pat.len() > 0,
        pat[0] == '&',
        !a.contains('&'),
        !b.contains('&'),
    ensures
        text::replaced(a + pat + b, pat, with) == a + with + b,
{
    let s = a + pat + b;
    let k = a.len() as int;
    text::lemma_occurs(a, pat, b);
    assert forall|j: int| j < k implies !#[trigger] text::occurs_at(s, pat, j) by {
        if text::occurs_at(s, pat, j) {
            assert(s.subrange(j, j + pat.len())[0] == s[j]);
            assert(s[j] == a[j]);
        }
    }
    text::law_replaced(s, pat, with, k);
    assert(s.take(k) =~= a);
    assert(s.skip(k + pat.len()) =~= b);
    lemma_not_replaced(b, pat, with);
}

proof fn lemma_other_entity(
    a: Seq<char>,
    pat: Seq<char>,
    b: Seq<char>,
    other: Seq<char>,
    with: Seq<char>,
    d: int,
)
    requires
        pat.len() > 0,
        pat[0] == '&',
        forall|i: int| 0 < i < pat.len() ==> #[trigger] pat[i] != '&',
        other.len() > 0,
        other[0] == '&',
        0 <= d < pat.len(),
        d < other.len(),
        pat[d] != other[d],
        !a.contains('&'),
        !b.contains('&'),
    ensures
        text::replaced(a + pat + b, other, with) == a + pat + b,
{
    let s = a + pat + b;
    let k = a.len() as int;
    assert forall|j: int| !#[trigger] text::occurs_at(s, other, j) by {
        if text::occurs_at(s, other, j) {
            let sub = s.subrange(j, j + other.len());
            assert(sub[0] == s[j]);
            if j < k {
                assert(s[j] == a[j]);
            } else if j == k {
                assert(sub[d] == s[k + d]);
                assert(s[k + d] == pat[d]);
            } else if j < k + pat.len() {
                assert(s[j] == pat[j - k]);
            } else {
                assert(s[j] == b[j - k - pat.len()]);
            }
        }
    }
    text::law_replaced(s, other, with, 0);
}

/// Text without an ampersand stays as it is when the entities are read.
pub proof fn law_no_entities(s: Seq<char>)
    requires
        !s.contains('&'),
    ensures
        entities_decoded(s) == s,
{
    reveal_strlit("&amp;");
    reveal_strlit("&lt;");
    reveal_strlit("&gt;");
    reveal_strlit("&quot;");
    reveal_strlit("&#x27;");
    reveal_strlit("&#39;");
    reveal_strlit("&apos;");
    reveal_strlit("&nbsp;");
    lemma_not_replaced(s, "&amp;"@, "&"@);
    lemma_not_replaced(s, "&lt;"@, "<"@);
    lemma_not_replaced(s, "&gt;"@, ">"@);
    lemma_not_replaced(s, "&quot;"@, "\""@);
    lemma_not_replaced(s, "&#x27;"@, "'"@);
    lemma_not_replaced(s, "&#39;"@, "'"@);
    lemma_not_replaced(s, "&apos;"@, "'"@);
    lemma_not_replaced(s, "&nbsp;"@, " "@);
}

/// Each entity is read as the character that it stands for.
pub proof fn law_entities(a: Seq<char>, b: Seq<char>)
    requires
        !a.contains('&'),
        !b.contains('&'),
    ensures
        entities_decoded(a + "&lt;"@ + b) == a + "<"@ + b,
        entities_decoded(a + "&gt;"@ + b) == a + ">"@ + b,
        entities_decoded(a + "&quot;"@ + b) == a + "\""@ + b,
        entities_decoded(a + "&#x27;"@ + b) == a + "'"@ + b,
        entities_decoded(a + "&#39;"@ + b) == a + "'"@ + b,
        entities_decoded(a + "&apos;"@ + b) == a + "'"@ + b,
        entities_decoded(a + "&nbsp;"@ + b) == a + " "@ + b,
        !b.contains(';') ==> entities_decoded(a + "&amp;"@ + b) == a + "&"@ + b,
{
    lemma_entity(a, b, 1);
    lemma_entity(a, b, 2);
    lemma_entity(a, b, 3);
    lemma_entity(a, b, 4);
    lemma_entity(a, b, 5);
    lemma_entity(a, b, 6);
    lemma_entity(a, b, 7);
    if !b.contains(';') {
        lemma_ampersand(a, b);
    }
}

/// The entities, in the order in which they are read, with what they stand for.
spec fn entity(n: int) -> (Seq<char>, Seq<char>) {
    if n == 0 {
        ("&amp;"@, "&"@)
    } else if n == 1 {
        ("&lt;"@, "<"@)
    } else if n == 2 {
        ("&gt;"@, ">"@)
    } else if n == 3 {
        ("&quot;"@, "\""@)
    } else if n == 4 {
        ("&#x27;"@, "'"@)
    } else if n == 5 {
        ("&#39;"@, "'"@)
    } else if n == 6 {
        ("&apos;"@, "'"@)
    } else {
        ("&nbsp;"@, " "@)
    }
}

proof fn lemma_entity_shapes()
    ensures
        forall|n: int|
            0 <= n <= 7 ==> (#[trigger] entity(n)).0.len() > 3 && entity(n).0[0] == '&' && (forall|
                i: int,
            |
                0 < i < entity(n).0.len() ==> #[trigger] entity(n).0[i] != '&') && (n > 0 ==> !entity(
                n,
            ).1.contains('&')) && entity(n).0.last() == ';',
        forall|n: int, m: int|
            0 <= n < m <= 7 ==> (#[trigger] entity(n)).0[1] != (#[trigger] entity(m)).0[1] || entity(
                n,
            ).0[2] != entity(m).0[2],
{
    reveal_strlit("&amp;");
    reveal_strlit("&lt;");
    reveal_strlit("&gt;");
    reveal_strlit("&quot;");
    reveal_strlit("&#x27;");
    reveal_strlit("&#39;");
    reveal_strlit("&apos;");
    reveal_strlit("&nbsp;");
    reveal_strlit("<");
    reveal_strlit(">");
    reveal_strlit("\"");
    reveal_strlit("'");
    reveal_strlit(" ");
}

/// `s` with the entities from `n` on read.
spec fn read_from(s: Seq<char>, n: int) -> Seq<char>
    decreases 8 - n,
{
    if n > 7 {
        s
    } else {
        read_from(text::replaced(s, entity(n).0, entity(n).1), n + 1)
    }
}

proof fn lemma_read_from(s: Seq<char>)
    ensures
        read_from(s, 0) == entities_decoded(s),
{
    reveal_with_fuel(read_from, 9);
}

proof fn lemma_read_plain(s: Seq<char>, n: int)
    requires
        0 <= n <= 8,
        !s.contains('&'),
    ensures
        read_from(s, n) == s,
    decreases 8 - n,
{
    if n <= 7 {
        lemma_entity_shapes();
        lemma_not_replaced(s, entity(n).0, entity(n).1);
        lemma_read_plain(s, n + 1);
    }
}

proof fn lemma_no_char(a: Seq<char>, m: Seq<char>, b: Seq<char>, c: char)
    requires
        !a.contains(c),
        !m.contains(c),
        !b.contains(c),
    ensures
        !(a + m + b).contains(c),
{
    if (a + m + b).contains(c) {
        let k = (a + m + b).index_of(c);
        if k < a.len() {
            assert(a[k] == c);
        } else if k < a.len() + m.len() {
            assert(m[k - a.len()] == c);
        } else {
            assert(b[k - a.len() - m.len()] == c);
        }
    }
}

proof fn lemma_read_entity(a: Seq<char>, b: Seq<char>, e: int, n: int)
    requires
        0 <= n <= e <= 7,
        e > 0,
        !a.contains('&'),
        !b.contains('&'),
    ensures
        read_from(a + entity(e).0 + b, n) == a + entity(e).1 + b,
    decreases 8 - n,
{
    lemma_entity_shapes();
    let pat = entity(e).0;
    if n == e {
        lemma_entity_replaced(a, pat, entity(e).1, b);
        lemma_no_char(a, entity(e).1, b, '&');
        lemma_read_plain(a + entity(e).1 + b, n + 1);
    } else {
        let other = entity(n).0;
        let d: int = if pat[1] != other[1] {
            1
        } else {
            2
        };
        lemma_other_entity(a, pat, b, other, entity(n).1, d);
        lemma_read_entity(a, b, e, n + 1);
    }
}

proof fn lemma_entity(a: Seq<char>, b: Seq<char>, e: int)
    requires
        0 < e <= 7,
        !a.contains('&'),
        !b.contains('&'),
    ensures
        entities_decoded(a + entity(e).0 + b) == a + entity(e).1 + b,
{
    lemma_read_entity(a, b, e, 0);
    lemma_read_from(a + entity(e).0 + b);
}

proof fn lemma_read_ampersand(a: Seq<char>, b: Seq<char>, n: int)
    requires
        1 <= n <= 8,
        !a.contains('&'),
        !b.contains(';'),
    ensures
        read_from(a + seq!['&'] + b, n) == a + seq!['&'] + b,
    decreases 8 - n,
{
    if n <= 7 {
        lemma_entity_shapes();
        let s = a + seq!['&'] + b;
        let pat = entity(n).0;
        assert forall|j: int| !#[trigger] text::occurs_at(s, pat, j) by {
            if text::occurs_at(s, pat, j) {
                let sub = s.subrange(j, j + pat.len());
                assert(sub[0] == s[j]);
                assert(sub[pat.len() - 1] == s[j + pat.len() - 1]);
                if j < a.len() {
                    assert(s[j] == a[j]);
                } else {
                    assert(s[j + pat.len() - 1] == b[j + pat.len() - 1 - a.len() - 1]);
                }
            }
        }
        text::law_replaced(s, pat, entity(n).1, 0);
        lemma_read_ampersand(a, b, n + 1);
    }
}

proof fn lemma_ampersand(a: Seq<char>, b: Seq<char>)
    requires
        !a.contains('&'),
        !b.contains('&'),
        !b.contains(';'),
    ensures
        entities_decoded(a + "&amp;"@ + b) == a + "&"@ + b,
{
    reveal_strlit("&amp;");
    reveal_strlit("&");
    assert("&"@ =~= seq!['&']);
    lemma_entity_shapes();
    assert(entity(0).0[0] == '&');
    lemma_entity_replaced(a, "&amp;"@, "&"@, b);
    lemma_read_ampersand(a, b, 1);
    lemma_read_from(a + "&amp;"@ + b);
}

/// Where a pattern first stands: it stands there, and its character at `d` stands nowhere before.
proof fn lemma_first_by(s: Seq<char>, pat: Seq<char>, k: int, d: int)
    requires
        text::occurs_at(s, pat, k),
        0 <= d < pat.len(),
        forall|j: int| 0 <= j < k + d ==> #[trigger] s[j] != pat[d],
    ensures
        text::first_sub(s, pat) == Some(k),
{
    text::law_first_place(s, pat, k);
    let f = text::first_sub(s, pat)->0;
    text::law_first_place(s, pat, f);
    assert(s[f + d] == pat[d]);
}

/// The address of a link stands in quotes behind `href=`.
pub proof fn law_href(before: Seq<char>, url: Seq<char>, quote: char, after: Seq<char>)
    requires
        quote == '"' || quote == '\'',
        !before.contains('h'),
        !before.contains('H'),
        !url.contains(quote),
    ensures
        href_of(before + "href="@ + (seq![quote] + (url + seq![quote] + after))) == Some(url),
{
    reveal_strlit("href=");
    let tail = seq![quote] + (url + seq![quote] + after);
    let s = before + "href="@ + tail;
    let low = text::lowered(s);
    let k = before.len() as int;
    assert(low.subrange(k, k + 5) =~= "href="@) by {
        assert forall|i: int| 0 <= i < 5 implies low[k + i] == "href="@[i] by {
            assert(s[k + i] == "href="@[i]);
        }
    }
    assert forall|j: int| 0 <= j < k implies #[trigger] low[j] != 'h' by {
        assert(s[j] == before[j]);
        assert(before.contains(before[j]));
    }
    lemma_first_by(low, "href="@, k, 0);
    assert(s.skip(k + 5) =~= tail);
    assert(tail.skip(1) =~= url + seq![quote] + after);
    text::law_before(url, quote, after);
    assert(tail.skip(1).take(url.len() as int) =~= url);
}

/// The text of a link stands between the end of its tag and the tag that closes it.
pub proof fn law_anchor_text(tag: Seq<char>, inner: Seq<char>, after: Seq<char>)
    requires
        !tag.contains('>'),
        !inner.contains('<'),
    ensures
        anchor_text(tag + seq!['>'] + (inner + "</a>"@ + after)) == Some(inner),
{
    reveal_strlit("</a>");
    let body = inner + "</a>"@ + after;
    let s = tag + seq!['>'] + body;
    text::law_before(tag, '>', body);
    assert(s.skip(tag.len() as int + 1) =~= body);
    text::lemma_occurs(inner, "</a>"@, after);
    assert forall|j: int| 0 <= j < inner.len() implies #[trigger] body[j] != '<' by {
        assert(body[j] == inner[j]);
        assert(inner.contains(inner[j]));
    }
    lemma_first_by(body, "</a>"@, inner.len() as int, 0);
    assert(body.take(inner.len() as int) =~= inner);
}

/// Plain text is not changed by taking the markup out.
pub proof fn law_plain_text(s: Seq<char>)
    requires
        is_unmarked(s),
        text::is_tight(s),
    ensures
        plain(s) == s,
{
    lemma_tagless_stays(s, seq![]);
    law_no_entities(s);
    if s.len() > 0 {
        text::lemma_trimmed_same(s);
    } else {
        text::lemma_blank(s);
        assert(plain(s) =~= s);
    }
}

/// The snippet of a result is the text of the element that is marked as one.
pub proof fn law_snippet(before: Seq<char>, snippet: Seq<char>, after: Seq<char>)
    requires
        snippet.len() > 0,
        text::is_tight(snippet),
        is_unmarked(snippet),
        !before.contains('_'),
    ensures
        snippet_of(
            before + ("<a class=\"result__snippet\""@ + seq!['>'] + (snippet + "</a>"@ + after)),
        ) == Some(snippet),
{
    reveal_strlit("<a class=\"result__snippet\"");
    reveal_strlit("result__snippet");
    reveal_strlit("<a");
    let tag = "<a class=\"result__snippet\""@;
    let body = snippet + "</a>"@ + after;
    let from_tag = tag + seq!['>'] + body;
    let s = before + from_tag;
    let low = text::lowered(s);
    let n = before.len() as int;
    let k = n + 10;
    assert(text::lowered("result__snippet"@) =~= "result__snippet"@);
    assert(low.subrange(k, k + 15) =~= "result__snippet"@) by {
        assert forall|i: int| 0 <= i < 15 implies low[k + i] == "result__snippet"@[i] by {
            assert(s[k + i] == tag[10 + i]);
        }
    }
    assert forall|j: int| 0 <= j < k + 6 implies #[trigger] low[j] != '_' by {
        if j < n {
            assert(s[j] == before[j]);
            assert(before.contains(before[j]));
        } else {
            assert(s[j] == tag[j - n]);
        }
    }
    lemma_first_by(low, "result__snippet"@, k, 6);
    let start = s.take(k);
    let rest = tag.subrange(1, 10);
    assert(start =~= before + seq!['<'] + rest);
    assert(!rest.contains('<'));
    text::law_before(rest, '<', before);
    assert(s.skip(n) =~= from_tag);
    assert(text::lowered(from_tag).take(2) =~= "<a"@);
    assert(!tag.contains('>'));
    law_anchor_text(tag, snippet, after);
    law_plain_text(snippet);
}

/// A link that leads through the search engine is read as the address that it leads to; one that
/// leaves out the scheme gets it, and another stays as it is.
pub proof fn law_link_url(before: Seq<char>, target: Seq<char>, after: Seq<char>)
    requires
        !before.contains('='),
        !target.contains('&'),
        before.len() > 0,
        text::is_tight(before + "uddg="@ + (target + seq!['&'] + after)),
    ensures
        link_url(before + "uddg="@ + (target + seq!['&'] + after)) == url_decoded(target),
        text::is_tight(target) && !target.contains('=') && target.len() > 0 ==> {
            &&& target[0] != '/' ==> link_url(target) == target
            &&& link_url("//"@ + target) == "https://"@ + target
        },
{
    lemma_redirect(before, target, after);
    if text::is_tight(target) && !target.contains('=') && target.len() > 0 {
        lemma_direct(target);
    }
}

proof fn lemma_redirect(before: Seq<char>, target: Seq<char>, after: Seq<char>)
    requires
        !before.contains('='),
        !target.contains('&'),
        before.len() > 0,
        text::is_tight(before + "uddg="@ + (target + seq!['&'] + after)),
    ensures
        link_url(before + "uddg="@ + (target + seq!['&'] + after)) == url_decoded(target),
{
    reveal_strlit("uddg=");
    let tail = target + seq!['&'] + after;
    let s = before + "uddg="@ + tail;
    let k = before.len() as int;
    text::lemma_trimmed_same(s);
    text::lemma_occurs(before, "uddg="@, tail);
    assert forall|j: int| 0 <= j < k + 4 implies #[trigger] s[j] != '=' by {
        if j < k {
            assert(s[j] == before[j]);
            assert(before.contains(before[j]));
        } else {
            assert(s[j] == "uddg="@[j - k]);
        }
    }
    lemma_first_by(s, "uddg="@, k, 4);
    assert(s.skip(k + 5) =~= tail);
    text::law_before(target, '&', after);
}

proof fn lemma_direct(target: Seq<char>)
    requires
        text::is_tight(target),
        !target.contains('='),
        target.len() > 0,
    ensures
        target[0] != '/' ==> link_url(target) == target,
        link_url("//"@ + target) == "https://"@ + target,
{
    reveal_strlit("//");
    reveal_strlit("https:");
    reveal_strlit("https://");
    let full = "//"@ + target;
    text::lemma_trimmed_same(target);
    text::lemma_trimmed_same(full);
    lemma_no_redirect(target);
    assert(!full.contains('=')) by {
        if full.contains('=') {
            let i = full.index_of('=');
            assert(target[i - 2] == '=');
        }
    }
    lemma_no_redirect(full);
    assert(full.take(2) =~= "//"@);
    assert("https:"@ + full =~= "https://"@ + target);
    if "//"@.is_prefix_of(target) {
        assert("//"@[0] == target[0]);
    }
}

proof fn lemma_no_redirect(url: Seq<char>)
    requires
        !url.contains('='),
        text::trimmed(url) == url,
    ensures
        redirect_target(url) is None,
{
    reveal_strlit("uddg=");
    if redirect_target(url) is Some {
        let f = text::first_sub(url, "uddg="@)->0;
        text::law_first_place(url, "uddg="@, f);
        assert(url[f + 4] == "uddg="@[4]);
    }
}

/// A byte as two hexadecimal digits behind a percent sign.
pub open spec fn percent_encoded(bytes: Seq<u8>) -> Seq<u8>
    decreases bytes.len(),
{
    if bytes.len() == 0 {
        seq![]
    } else {
        let b = bytes[0];
        seq![37u8, hex_code((b / 16) as u8), hex_code((b % 16) as u8)] + percent_encoded(
            bytes.drop_first(),
        )
    }
}

/// The digit for a value below sixteen.
pub open spec fn hex_code(v: u8) -> u8 {
    if v < 10 {
        (48 + v) as u8
    } else {
        (55 + v) as u8
    }
}

/// Decoding gives back what was encoded, in capital or small digits; a plus sign is a space, and
/// a byte that is not encoded stays.
pub proof fn law_percent_decoding(bytes: Seq<u8>, tail: Seq<u8>, b: u8)
    requires
        b != 37,
        b != 43,
    ensures
        percent_decoded(percent_encoded(bytes)) == bytes,
        percent_decoded(seq![43u8] + tail) == seq![32u8] + percent_decoded(tail),
        percent_decoded(seq![b] + tail) == seq![b] + percent_decoded(tail),
        forall|v: u8| 10 <= v < 16 ==> hex_value((hex_code(v) + 32) as u8) == #[trigger] hex_value(
            hex_code(v),
        ),
    decreases bytes.len(),
{
    assert((seq![43u8] + tail).drop_first() =~= tail);
    assert((seq![b] + tail).drop_first() =~= tail);
    if bytes.len() > 0 {
        let rest = bytes.drop_first();
        law_percent_decoding(rest, tail, b);
        let first = bytes[0];
        let high = (first / 16) as u8;
        let low = (first % 16) as u8;
        let s = percent_encoded(bytes);
        assert(s.skip(3) =~= percent_encoded(rest));
        assert(hex_value(hex_code(high)) == Some(high));
        assert(hex_value(hex_code(low)) == Some(low));
        assert(16 * high + low == first);
        assert(s[0] == 37 && s[1] == hex_code(high) && s[2] == hex_code(low));
        assert(hex_pair(s[1], s[2]) == Some(first));
        assert(seq![first] + rest =~= bytes);
    }
}

/// A result on the page is read: the text of its link is the title, the address of the link is
/// the address, and the text of its snippet is the snippet. The results behind it follow.
pub proof fn law_result_is_read(
    before: Seq<char>,
    url: Seq<char>,
    title: Seq<char>,
    snippet: Seq<char>,
    after: Seq<char>,
    max: nat,
)
    requires
        max > 0,
        !before.contains('"'),
        url.len() > 0,
        text::is_tight(url),
        !url.contains('"'),
        !url.contains('='),
        !url.contains('<'),
        !url.contains('>'),
        url[0] != '/',
        !"javascript:"@.is_prefix_of(url),
        title.len() > 0,
        text::is_tight(title),
        is_unmarked(title),
        snippet.len() > 0,
        text::is_tight(snippet),
        is_unmarked(snippet),
    ensures
        ({
            let link = "<a class=\"result__a\" "@ + "href="@ + (seq!['"'] + (url + seq!['"'] + (
            seq!['>'] + (title + "</a>"@ + ("<a class=\"result__snippet\""@ + seq!['>'] + (snippet
                + "</a>"@ + after))))));
            let hits = hits_in(before + link, max);
            &&& hits.len() > 0
            &&& hits[0].title == title
            &&& hits[0].url == url
            &&& hits[0].snippet == snippet
            &&& hits.drop_first() == hits_in(
                (before + link).skip(before.len() as int + 13),
                (max - 1) as nat,
            )
        }),
{
    let second = "<a class=\"result__snippet\""@ + seq!['>'] + (snippet + "</a>"@ + after);
    let rest = title + "</a>"@ + second;
    let link = "<a class=\"result__a\" "@ + "href="@ + (seq!['"'] + (url + seq!['"'] + (seq!['>']
        + rest)));
    lemma_hit_is_read(url, title, snippet, after, link, second);
    lemma_anchor_is_found(before, link, url, rest);
}

proof fn lemma_hit_is_read(
    url: Seq<char>,
    title: Seq<char>,
    snippet: Seq<char>,
    after: Seq<char>,
    link: Seq<char>,
    second: Seq<char>,
)
    requires
        url.len() > 0,
        text::is_tight(url),
        !url.contains('"'),
        !url.contains('='),
        !url.contains('<'),
        !url.contains('>'),
        url[0] != '/',
        !"javascript:"@.is_prefix_of(url),
        title.len() > 0,
        text::is_tight(title),
        is_unmarked(title),
        snippet.len() > 0,
        text::is_tight(snippet),
        is_unmarked(snippet),
        second == "<a class=\"result__snippet\""@ + seq!['>'] + (snippet + "</a>"@ + after),
        link == "<a class=\"result__a\" "@ + "href="@ + (seq!['"'] + (url + seq!['"'] + (seq!['>']
            + (title + "</a>"@ + second)))),
    ensures
        hit_in(link) == Some(HitView { title, url, snippet }),
{
    let head = "<a class=\"result__a\" "@;
    let rest = title + "</a>"@ + second;
    let tag = head + "href="@ + (seq!['"'] + (url + seq!['"']));
    lemma_literals();
    law_href(head, url, '"', seq!['>'] + rest);
    text::lemma_trimmed_same(url);
    lemma_no_redirect(url);
    reveal_strlit("//");
    if "//"@.is_prefix_of(url) {
        assert("//"@[0] == url[0]);
    }
    assert(link_url(url) == url);
    assert(!tag.contains('>')) by {
        lemma_no_char(head, "href="@, seq!['"'] + (url + seq!['"']), '>');
    }
    assert(tag + seq!['>'] + rest =~= link);
    law_anchor_text(tag, title, second);
    law_plain_text(title);
    assert forall|j: int| 0 < j < tag.len() implies #[trigger] tag[j] != '<' by {
        lemma_tag_chars(url, j);
    }
    lemma_tag_chars(url, 1);
    lemma_first_close(tag, title, second);
    let n = (tag.len() + 1 + title.len()) as int;
    assert(link.skip(n) =~= "</a>"@ + second);
    law_snippet("</a>"@, snippet, after);
    assert(!"</a>"@.contains('_'));
}

proof fn lemma_literals()
    ensures
        !"<a class=\"result__a\" "@.contains('h'),
        !"<a class=\"result__a\" "@.contains('H'),
        !"<a class=\"result__a\" "@.contains('>'),
        !"href="@.contains('>'),
        !"</a>"@.contains('_'),
{
    reveal_strlit("<a class=\"result__a\" ");
    reveal_strlit("href=");
    reveal_strlit("</a>");
}

proof fn lemma_tag_chars(url: Seq<char>, j: int)
    requires
        !url.contains('<'),
        0 < j < ("<a class=\"result__a\" "@ + "href="@ + (seq!['"'] + (url + seq!['"']))).len(),
    ensures
        ("<a class=\"result__a\" "@ + "href="@ + (seq!['"'] + (url + seq!['"'])))[j] != '<',
        j == 1 ==> ("<a class=\"result__a\" "@ + "href="@ + (seq!['"'] + (url + seq!['"'])))[j]
            == 'a',
{
    reveal_strlit("<a class=\"result__a\" ");
    reveal_strlit("href=");
    let head = "<a class=\"result__a\" "@ + "href="@;
    let tail = seq!['"'] + (url + seq!['"']);
    if j < head.len() {
        assert((head + tail)[j] == head[j]);
    } else {
        let k = j - head.len();
        assert((head + tail)[j] == tail[k]);
        if 0 < k <= url.len() {
            assert(tail[k] == url[k - 1]);
            assert(url.contains(url[k - 1]));
        }
    }
}

proof fn lemma_first_close(tag: Seq<char>, title: Seq<char>, second: Seq<char>)
    requires
        title.len() > 0,
        !title.contains('<'),
        tag.len() > 0,
        forall|j: int| 0 < j < tag.len() ==> #[trigger] tag[j] != '<',
        tag.len() > 1 && tag[1] != '/',
    ensures
        text::first_sub(tag + seq!['>'] + (title + "</a>"@ + second), "</a>"@) == Some(
            (tag.len() + 1 + title.len()) as int,
        ),
{
    let s = tag + seq!['>'] + (title + "</a>"@ + second);
    let n = (tag.len() + 1 + title.len()) as int;
    let head = tag + seq!['>'] + title;
    assert(head + "</a>"@ + second =~= s);
    text::lemma_occurs(head, "</a>"@, second);
    assert forall|j: int| 0 < j < n implies #[trigger] s[j] != '<' by {
        assert(s[j] == head[j]);
        if j < tag.len() {
            assert(head[j] == tag[j]);
        } else if j == tag.len() {
            assert(head[j] == '>');
        } else {
            assert(head[j] == title[j - tag.len() - 1]);
            assert(title.contains(head[j]));
        }
    }
    assert(s[1] == tag[1]);
    lemma_close_at(s, n);
}

proof fn lemma_close_at(s: Seq<char>, n: int)
    requires
        n > 1,
        text::occurs_at(s, "</a>"@, n),
        forall|j: int| 0 < j < n ==> #[trigger] s[j] != '<',
        s[1] != '/',
    ensures
        text::first_sub(s, "</a>"@) == Some(n),
{
    reveal_strlit("</a>");
    text::law_first_place(s, "</a>"@, n);
    let f = text::first_sub(s, "</a>"@)->0;
    text::law_first_place(s, "</a>"@, f);
    assert(s[f + 0] == "</a>"@[0]);
    assert(s[f + 1] == "</a>"@[1]);
}

proof fn lemma_anchor_is_found(before: Seq<char>, link: Seq<char>, url: Seq<char>, rest: Seq<char>)
    requires
        !before.contains('"'),
        link == "<a class=\"result__a\" "@ + "href="@ + (seq!['"'] + (url + seq!['"'] + (seq!['>']
            + rest))),
    ensures
        next_anchor(before + link) == Some((before.len() + 3) as int),
        tag_around(before + link, (before.len() + 3) as int) == link,
        (before + link).len() >= before.len() + 13,
{
    let head = "<a class=\"result__a\" "@;
    let pat = "class=\"result__a\""@;
    reveal_strlit("<a class=\"result__a\" ");
    reveal_strlit("class=\"result__a\"");
    let s = before + link;
    let low = text::lowered(s);
    let n = before.len() as int;
    let k = n + 3;
    assert(text::lowered(pat) =~= pat);
    assert(low.subrange(k, k + 17) =~= pat) by {
        assert forall|i: int| 0 <= i < 17 implies low[k + i] == pat[i] by {
            assert(s[k + i] == head[3 + i]);
        }
    }
    assert forall|j: int| 0 <= j < k + 6 implies #[trigger] low[j] != '"' by {
        if j < n {
            assert(s[j] == before[j]);
            assert(before.contains(before[j]));
        } else {
            assert(s[j] == head[j - n]);
        }
    }
    assert(pat[6] == '"');
    lemma_first_by(low, pat, k, 6);
    let start = s.take(k);
    assert(start =~= before + seq!['<'] + seq!['a', ' ']);
    text::law_before(seq!['a', ' '], '<', before);
    assert(s.skip(n) =~= link);
}

/// A blank query is refused; a failed request is reported with what went wrong; a page without
/// results is reported as such, and what is found on the page is the answer.
pub proof fn law_search(query: Seq<char>, message: String, page: String)
    ensures
        text::trimmed(query).len() == 0 ==> found(query, SearchReply::Page(page)) == Err::<
            Seq<HitView>,
            SearchError,
        >(SearchError::EmptyQuery) && found(query, SearchReply::Failed(message)) == Err::<
            Seq<HitView>,
            SearchError,
        >(SearchError::EmptyQuery),
        text::trimmed(query).len() > 0 ==> found(query, SearchReply::Failed(message)) == Err::<
            Seq<HitView>,
            SearchError,
        >(SearchError::Http(message)),
        text::trimmed(query).len() > 0 && hits_in(page@, 5).len() > 0 ==> found(
            query,
            SearchReply::Page(page),
        ) == Ok::<Seq<HitView>, SearchError>(hits_in(page@, 5)),
        message@.is_suffix_of(SearchError::Http(message).message()),
{
    let whole = SearchError::Http(message).message();
    assert(whole.subrange(whole.len() - message@.len(), whole.len() as int) =~= message@);
}

/// An address whose bytes were encoded is read back as these bytes.
pub proof fn law_url_decoding(address: Seq<char>, encoded: Seq<char>)
    requires
        vstd::utf8::encode_utf8(encoded) == percent_encoded(vstd::utf8::encode_utf8(address)),
    ensures
        url_decoded(encoded) == text::lossy_text(vstd::utf8::encode_utf8(address)),
{
    law_percent_decoding(vstd::utf8::encode_utf8(address), seq![], 0);
}

/// A snippet in an element that is no link is the text up to the next tag.
pub proof fn law_snippet_in_element(before: Seq<char>, snippet: Seq<char>, after: Seq<char>)
    requires
        snippet.len() > 0,
        text::is_tight(snippet),
        is_unmarked(snippet),
        !before.contains('_'),
    ensures
        snippet_of(
            before + ("<div class=\"result__snippet\""@ + seq!['>'] + (snippet + seq!['<'] + after)),
        ) == Some(snippet),
{
    reveal_strlit("<div class=\"result__snippet\"");
    reveal_strlit("result__snippet");
    reveal_strlit("<a");
    let tag = "<div class=\"result__snippet\""@;
    let body = snippet + seq!['<'] + after;
    let from_tag = tag + seq!['>'] + body;
    let s = before + from_tag;
    let low = text::lowered(s);
    let n = before.len() as int;
    let k = n + 12;
    assert(text::lowered("result__snippet"@) =~= "result__snippet"@);
    assert(low.subrange(k, k + 15) =~= "result__snippet"@) by {
        assert forall|i: int| 0 <= i < 15 implies low[k + i] == "result__snippet"@[i] by {
            assert(s[k + i] == tag[12 + i]);
        }
    }
    assert forall|j: int| 0 <= j < k + 6 implies #[trigger] low[j] != '_' by {
        if j < n {
            assert(s[j] == before[j]);
            assert(before.contains(before[j]));
        } else {
            assert(s[j] == tag[j - n]);
        }
    }
    lemma_first_by(low, "result__snippet"@, k, 6);
    let start = s.take(k);
    let rest = tag.subrange(1, 12);
    assert(start =~= before + seq!['<'] + rest);
    assert(!rest.contains('<'));
    text::law_before(rest, '<', before);
    assert(s.skip(n) =~= from_tag);
    assert(text::lowered(from_tag)[1] == 'd');
    if "<a"@.is_prefix_of(text::lowered(from_tag)) {
        assert("<a"@[1] == text::lowered(from_tag)[1]);
    }
    assert(!tag.contains('>'));
    text::law_before(tag, '>', body);
    assert(from_tag.skip(tag.len() as int + 1) =~= body);
    text::law_before(snippet, '<', after);
    law_plain_text(snippet);
}

/// The hits are numbered from one on.
pub proof fn law_hits_are_numbered(n: nat, hit: HitView)
    ensures
        (text::decimal(n) + ". "@).is_prefix_of(listed(n, hit)),
        listed_from(seq![hit], 0, seq![]) == if listed(1, hit).len() <= 3000 {
            listed(1, hit)
        } else {
            seq![]
        },
{
    let head = text::decimal(n) + ". "@;
    assert(listed(n, hit).take(head.len() as int) =~= head);
    reveal_with_fuel(listed_from, 2);
    assert(Seq::<char>::empty() + listed(1, hit) =~= listed(1, hit));
}

} // verus!
