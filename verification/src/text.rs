//! Text as sequences of characters: the string operations the other modules
//! are built from, each with its meaning as a spec function over `Seq<char>`.

use vstd::prelude::*;
use vstd::string::*;

verus! {

broadcast use vstd::string::group_string_axioms;

/// Appends one character to a string.
///
/// `String::push` appends the given `char` to the end of the string.
pub assume_specification[ String::push ](s: &mut String, c: char)
    ensures
        final(s)@ == old(s)@.push(c),
;

// ── Conversions ──────────────────────────────────────────────────────────────

/// The characters of `s`, in order.
pub fn chars_of(s: &str) -> (r: Vec<char>)
    ensures
        r@ == s@,
{
    let mut out: Vec<char> = Vec::new();
    for c in it: s.chars()
        invariant
            it.seq() == s@,
            out@ == it.seq().take(it.index() as int),
    {
        out.push(c);
    }
    out
}

/// The string made of the characters of `chars`.
pub fn string_of(chars: &[char]) -> (r: String)
    ensures
        r@ == chars@,
{
    let mut out = String::new();
    let mut i: usize = 0;
    while i < chars.len()
        invariant
            0 <= i <= chars@.len(),
            out@ == chars@.take(i as int),
        decreases chars@.len() - i,
    {
        out.push(chars[i]);
        i += 1;
    }
    out
}

/// The views of a sequence of strings.
pub open spec fn views(v: Seq<String>) -> Seq<Seq<char>> {
    Seq::new(v.len(), |i: int| v[i]@)
}

/// Whether two strings hold the same characters.
pub fn same(a: &str, b: &str) -> (r: bool)
    ensures
        r == (a@ == b@),
{
    a.to_owned() == b.to_owned()
}

/// The text in an optional string.
pub open spec fn opt_text(t: Option<&str>) -> Option<Seq<char>> {
    match t {
        Some(s) => Some(s@),
        None => None,
    }
}

/// The text in an optional string.
pub open spec fn opt_string(t: Option<String>) -> Option<Seq<char>> {
    match t {
        Some(s) => Some(s@),
        None => None,
    }
}

/// Whether `x` is a member of `list`.
pub fn list_contains(list: &[String], x: &str) -> (r: bool)
    ensures
        r == views(list@).contains(x@),
{
    let mut i: usize = 0;
    while i < list.len()
        invariant
            i <= list@.len(),
            forall|k: int| 0 <= k < i ==> #[trigger] views(list@)[k] != x@,
        decreases list@.len() - i,
    {
        if same(list[i].as_str(), x) {
            assert(views(list@)[i as int] == x@);
            return true;
        }
        i += 1;
    }
    false
}

/// Adds a string to a list of strings.
pub fn push_text(v: &mut Vec<String>, s: String)
    ensures
        views(final(v)@) == views(old(v)@).push(s@),
        final(v)@ == old(v)@.push(s),
{
    v.push(s);
    assert(views(v@) =~= views(old(v)@).push(s@));
}

// ── Character classes ────────────────────────────────────────────────────────

/// Whether `c` has the Unicode `White_Space` property.
pub open spec fn is_white(c: char) -> bool {
    let u = c as u32;
    ||| 0x9 <= u <= 0xd
    ||| u == 0x20
    ||| u == 0x85
    ||| u == 0xa0
    ||| u == 0x1680
    ||| 0x2000 <= u <= 0x200a
    ||| u == 0x2028
    ||| u == 0x2029
    ||| u == 0x202f
    ||| u == 0x205f
    ||| u == 0x3000
}

/// Whether `c` is white space.
pub fn is_whitespace(c: char) -> (r: bool)
    ensures
        r == is_white(c),
{
    let u: u32 = c as u32;
    (0x9 <= u && u <= 0xd) || u == 0x20 || u == 0x85 || u == 0xa0 || u == 0x1680 || (0x2000 <= u
        && u <= 0x200a) || u == 0x2028 || u == 0x2029 || u == 0x202f || u == 0x205f || u == 0x3000
}

/// Whether `c` is in the Unicode general category `Cc`.
pub open spec fn is_ctrl(c: char) -> bool {
    let u = c as u32;
    u <= 0x1f || 0x7f <= u <= 0x9f
}

/// Whether `c` is a control character.
pub fn is_control(c: char) -> (r: bool)
    ensures
        r == is_ctrl(c),
{
    let u: u32 = c as u32;
    u <= 0x1f || (0x7f <= u && u <= 0x9f)
}

pub open spec fn is_digit(c: char) -> bool {
    '0' <= c <= '9'
}

pub open spec fn is_upper(c: char) -> bool {
    'A' <= c <= 'Z'
}

pub open spec fn is_lower(c: char) -> bool {
    'a' <= c <= 'z'
}

pub open spec fn is_alpha(c: char) -> bool {
    is_upper(c) || is_lower(c)
}

pub open spec fn is_alnum(c: char) -> bool {
    is_alpha(c) || is_digit(c)
}

/// Whether `c` is an ASCII digit.
pub fn is_ascii_digit(c: char) -> (r: bool)
    ensures
        r == is_digit(c),
{
    '0' <= c && c <= '9'
}

/// Whether `c` is an ASCII capital letter.
pub fn is_ascii_uppercase(c: char) -> (r: bool)
    ensures
        r == is_upper(c),
{
    'A' <= c && c <= 'Z'
}

/// Whether `c` is an ASCII letter.
pub fn is_ascii_alphabetic(c: char) -> (r: bool)
    ensures
        r == is_alpha(c),
{
    ('A' <= c && c <= 'Z') || ('a' <= c && c <= 'z')
}

/// Whether `c` is an ASCII letter or digit.
pub fn is_ascii_alphanumeric(c: char) -> (r: bool)
    ensures
        r == is_alnum(c),
{
    is_ascii_alphabetic(c) || is_ascii_digit(c)
}

/// A set of characters that a scan runs over.
#[derive(Clone, Copy, PartialEq, Eq)]
pub enum CharSet {
    /// White space.
    White,
    /// Anything but white space.
    NonWhite,
    /// Exactly this character.
    Just(char),
    /// Anything but this character.
    Not(char),
    /// ASCII digits.
    Digits,
    /// ASCII letters and digits.
    Alnum,
    /// ASCII letters, digits, `-` and `_`.
    OptionName,
    /// ASCII digits and `;`, the parameters of a terminal escape.
    EscapeParams,
    /// `.` and `)`, which close the number of a list item.
    ListMark,
    /// The punctuation that surrounds a word in a sentence.
    Punctuation,
}

impl CharSet {
    /// Whether `c` belongs to the set.
    pub open spec fn has(self, c: char) -> bool {
        match self {
            CharSet::White => is_white(c),
            CharSet::NonWhite => !is_white(c),
            CharSet::Just(d) => c == d,
            CharSet::Not(d) => c != d,
            CharSet::Digits => is_digit(c),
            CharSet::Alnum => is_alnum(c),
            CharSet::OptionName => is_alnum(c) || c == '-' || c == '_',
            CharSet::EscapeParams => is_digit(c) || c == ';',
            CharSet::ListMark => c == '.' || c == ')',
            CharSet::Punctuation => c == ',' || c == '.' || c == ';' || c == ':' || c == '?' || c
                == '!' || c == '"' || c == '\'' || c == '(' || c == ')',
        }
    }

    /// Whether `c` belongs to the set.
    pub fn holds(self, c: char) -> (r: bool)
        ensures
            r == self.has(c),
    {
        match self {
            CharSet::White => is_whitespace(c),
            CharSet::NonWhite => !is_whitespace(c),
            CharSet::Just(d) => c == d,
            CharSet::Not(d) => c != d,
            CharSet::Digits => is_ascii_digit(c),
            CharSet::Alnum => is_ascii_alphanumeric(c),
            CharSet::OptionName => is_ascii_alphanumeric(c) || c == '-' || c == '_',
            CharSet::EscapeParams => is_ascii_digit(c) || c == ';',
            CharSet::ListMark => c == '.' || c == ')',
            CharSet::Punctuation => c == ',' || c == '.' || c == ';' || c == ':' || c == '?' || c
                == '!' || c == '"' || c == '\'' || c == '(' || c == ')',
        }
    }
}

// ── Runs and trimming ────────────────────────────────────────────────────────

/// How many characters at the start of `s` belong to `set` in a row.
pub open spec fn lead(s: Seq<char>, set: CharSet) -> nat
    decreases s.len(),
{
    if s.len() > 0 && set.has(s[0]) {
        1 + lead(s.drop_first(), set)
    } else {
        0
    }
}

/// How many characters at the end of `s` belong to `set` in a row.
pub open spec fn trail(s: Seq<char>, set: CharSet) -> nat
    decreases s.len(),
{
    if s.len() > 0 && set.has(s.last()) {
        1 + trail(s.drop_last(), set)
    } else {
        0
    }
}

/// `s` without the run of `set` it starts with.
pub open spec fn trimmed_start(s: Seq<char>, set: CharSet) -> Seq<char> {
    s.skip(lead(s, set) as int)
}

/// `s` without the run of `set` it ends with.
pub open spec fn trimmed_end(s: Seq<char>, set: CharSet) -> Seq<char> {
    s.take(s.len() - trail(s, set))
}

/// `s` without the runs of `set` at either end.
pub open spec fn trimmed_of(s: Seq<char>, set: CharSet) -> Seq<char> {
    trimmed_end(trimmed_start(s, set), set)
}

/// `s` without white space at either end.
pub open spec fn trimmed(s: Seq<char>) -> Seq<char> {
    trimmed_of(s, CharSet::White)
}

/// `s` without white space at its end.
pub open spec fn rtrimmed(s: Seq<char>) -> Seq<char> {
    trimmed_end(s, CharSet::White)
}

/// What the run at the start of a string is.
pub proof fn lemma_lead(s: Seq<char>, set: CharSet)
    ensures
        lead(s, set) <= s.len(),
        forall|i: int| 0 <= i < lead(s, set) ==> set.has(#[trigger] s[i]),
        lead(s, set) < s.len() ==> !set.has(s[lead(s, set) as int]),
    decreases s.len(),
{
    if s.len() > 0 && set.has(s[0]) {
        let t = s.drop_first();
        lemma_lead(t, set);
        assert forall|i: int| 0 <= i < lead(s, set) implies set.has(#[trigger] s[i]) by {
            if i > 0 {
                assert(s[i] == t[i - 1]);
            }
        }
        if lead(s, set) < s.len() {
            assert(s[lead(s, set) as int] == t[lead(t, set) as int]);
        }
    }
}

/// What the run at the end of a string is.
pub proof fn lemma_trail(s: Seq<char>, set: CharSet)
    ensures
        trail(s, set) <= s.len(),
        forall|i: int| s.len() - trail(s, set) <= i < s.len() ==> set.has(#[trigger] s[i]),
        trail(s, set) < s.len() ==> !set.has(s[s.len() - trail(s, set) - 1]),
    decreases s.len(),
{
    if s.len() > 0 && set.has(s.last()) {
        let t = s.drop_last();
        lemma_trail(t, set);
        assert forall|i: int| s.len() - trail(s, set) <= i < s.len() implies set.has(
            #[trigger] s[i],
        ) by {
            if i < s.len() - 1 {
                assert(s[i] == t[i]);
            }
        }
    }
}

/// The length of the run of `set` at the start of `chars` from `from` on.
pub fn run_length(chars: &[char], from: usize, set: CharSet) -> (r: usize)
    requires
        from <= chars@.len(),
    ensures
        r == lead(chars@.skip(from as int), set),
        from + r <= chars@.len() <= usize::MAX,
{
    let mut i: usize = from;
    while i < chars.len() && set.holds(chars[i])
        invariant
            from <= i <= chars@.len(),
            lead(chars@.skip(from as int), set) == (i - from) + lead(chars@.skip(i as int), set),
        decreases chars@.len() - i,
    {
        assert(chars@.skip(i as int).drop_first() =~= chars@.skip(i as int + 1));
        i += 1;
    }
    i - from
}

/// `s` without the run of `set` it starts with.
pub fn trim_start_of(s: &str, set: CharSet) -> (r: &str)
    ensures
        r@ == trimmed_start(s@, set),
{
    let chars = chars_of(s);
    let n = run_length(chars.as_slice(), 0, set);
    assert(s@.skip(0) =~= s@);
    let r = s.substring_char(n, chars.len());
    assert(r@ =~= trimmed_start(s@, set));
    r
}

/// `s` without the run of `set` it ends with.
pub fn trim_end_of(s: &str, set: CharSet) -> (r: &str)
    ensures
        r@ == trimmed_end(s@, set),
{
    let chars = chars_of(s);
    let mut n: usize = chars.len();
    assert(s@.take(n as int) =~= s@);
    while n > 0 && set.holds(chars[n - 1])
        invariant
            n <= chars@.len(),
            chars@ == s@,
            trail(s@, set) == (s@.len() - n) + trail(s@.take(n as int), set),
        decreases n,
    {
        assert(s@.take(n as int).drop_last() =~= s@.take(n - 1));
        n -= 1;
    }
    let r = s.substring_char(0, n);
    assert(r@ =~= trimmed_end(s@, set));
    r
}

/// `s` without the runs of `set` at either end.
pub fn trim_of(s: &str, set: CharSet) -> (r: &str)
    ensures
        r@ == trimmed_of(s@, set),
{
    trim_end_of(trim_start_of(s, set), set)
}

/// `s` without white space at either end.
pub fn trim(s: &str) -> (r: &str)
    ensures
        r@ == trimmed(s@),
{
    trim_of(s, CharSet::White)
}

/// `s` without white space at its start.
pub fn trim_start(s: &str) -> (r: &str)
    ensures
        r@ == trimmed_start(s@, CharSet::White),
{
    trim_start_of(s, CharSet::White)
}

/// `s` without white space at its end.
pub fn trim_end(s: &str) -> (r: &str)
    ensures
        r@ == rtrimmed(s@),
{
    trim_end_of(s, CharSet::White)
}

// ── Splitting ────────────────────────────────────────────────────────────────

/// The maximal runs of characters that are not white space.
pub open spec fn word_list(s: Seq<char>) -> Seq<Seq<char>>
    decreases s.len(),
{
    let t = trimmed_start(s, CharSet::White);
    if t.len() == 0 {
        seq![]
    } else {
        proof {
            lemma_lead(s, CharSet::White);
            assert(t[0] == s[lead(s, CharSet::White) as int]);
            lemma_lead(t, CharSet::NonWhite);
            assert(lead(t, CharSet::NonWhite) >= 1);
        }
        let n = lead(t, CharSet::NonWhite) as int;
        seq![t.take(n)] + word_list(t.skip(n))
    }
}

/// `s` without one `\r` at its end.
pub open spec fn without_cr(s: Seq<char>) -> Seq<char> {
    if s.len() > 0 && s.last() == '\r' {
        s.drop_last()
    } else {
        s
    }
}

/// The lines of `s`: what stands between line feeds, without a carriage return
/// before a line feed. Nothing stands after a final line feed.
pub open spec fn line_list(s: Seq<char>) -> Seq<Seq<char>>
    decreases s.len(),
{
    let n = lead(s, CharSet::Not('\n')) as int;
    if s.len() == 0 {
        seq![]
    } else if n >= s.len() {
        seq![s]
    } else {
        seq![without_cr(s.take(n))] + line_list(s.skip(n + 1))
    }
}

/// What stands between the occurrences of `c` in `s`.
pub open spec fn piece_list(s: Seq<char>, c: char) -> Seq<Seq<char>>
    decreases s.len(),
{
    let n = lead(s, CharSet::Not(c)) as int;
    if 0 <= n < s.len() {
        seq![s.take(n)] + piece_list(s.skip(n + 1), c)
    } else {
        seq![s]
    }
}

/// What stands before the first `c` in `s`: all of `s` where there is none.
pub open spec fn before(s: Seq<char>, c: char) -> Seq<char> {
    s.take(lead(s, CharSet::Not(c)) as int)
}

/// Where the first `c` in `s` is.
pub open spec fn first_char(s: Seq<char>, c: char) -> Option<int> {
    let n = lead(s, CharSet::Not(c)) as int;
    if n < s.len() {
        Some(n)
    } else {
        None
    }
}

/// Where the last `c` in `s` is.
pub open spec fn last_char(s: Seq<char>, c: char) -> Option<int> {
    let n = trail(s, CharSet::Not(c)) as int;
    if n < s.len() {
        Some(s.len() - 1 - n)
    } else {
        None
    }
}

/// The words of `s`.
pub fn words(s: &str) -> (r: Vec<String>)
    ensures
        views(r@) == word_list(s@),
{
    let chars = chars_of(s);
    let mut out: Vec<String> = Vec::new();
    let mut i: usize = 0;
    assert(s@.skip(0) =~= s@);
    assert(views(out@) =~= seq![]);
    loop
        invariant_except_break
            views(out@) + word_list(s@.skip(i as int)) == word_list(s@),
        invariant
            i <= chars@.len(),
            chars@ == s@,
        ensures
            views(out@) == word_list(s@),
        decreases chars@.len() - i,
    {
        let ghost rest = s@.skip(i as int);
        let skip = run_length(chars.as_slice(), i, CharSet::White);
        let start: usize = i + skip;
        let ghost t = trimmed_start(rest, CharSet::White);
        assert(t =~= s@.skip(start as int));
        if start == chars.len() {
            assert(views(out@) + word_list(rest) =~= views(out@));
            break;
        }
        let n = run_length(chars.as_slice(), start, CharSet::NonWhite);
        proof {
            lemma_lead(rest, CharSet::White);
            assert(t[0] == rest[skip as int]);
            assert(n >= 1);
        }
        let w = s.substring_char(start, start + n);
        let ghost prev = views(out@);
        push_text(&mut out, w.to_owned());
        i = start + n;
        proof {
            assert(w@ =~= t.take(n as int));
            assert(t.skip(n as int) =~= s@.skip(i as int));
            assert(prev.push(w@) + word_list(s@.skip(i as int)) =~= prev + (seq![w@] + word_list(
                s@.skip(i as int),
            )));
        }
    }
    out
}

/// The lines of `s`.
pub fn lines(s: &str) -> (r: Vec<String>)
    ensures
        views(r@) == line_list(s@),
{
    let chars = chars_of(s);
    let mut out: Vec<String> = Vec::new();
    let mut i: usize = 0;
    assert(s@.skip(0) =~= s@);
    assert(views(out@) =~= seq![]);
    while i < chars.len()
        invariant
            i <= chars@.len(),
            chars@ == s@,
            views(out@) + line_list(s@.skip(i as int)) == line_list(s@),
        decreases chars@.len() - i,
    {
        let ghost rest = s@.skip(i as int);
        let ghost prev = views(out@);
        let n = run_length(chars.as_slice(), i, CharSet::Not('\n'));
        let end: usize = i + n;
        if end == chars.len() {
            let l = s.substring_char(i, end);
            push_text(&mut out, l.to_owned());
            i = end;
            proof {
                assert(l@ =~= rest);
                assert(s@.skip(i as int) =~= seq![]);
                assert(prev.push(l@) + seq![] =~= prev + seq![l@]);
                assert(line_list(rest) =~= seq![rest]);
                assert(line_list(s@.skip(i as int)) =~= seq![]);
            }
        } else {
            let stop: usize = if n > 0 && chars[end - 1] == '\r' {
                end - 1
            } else {
                end
            };
            let l = s.substring_char(i, stop);
            push_text(&mut out, l.to_owned());
            i = end + 1;
            proof {
                assert(l@ =~= without_cr(rest.take(n as int)));
                assert(rest.skip(n as int + 1) =~= s@.skip(i as int));
                assert(prev.push(l@) + line_list(s@.skip(i as int)) =~= prev + (seq![l@]
                    + line_list(s@.skip(i as int))));
            }
        }
    }
    proof {
        assert(s@.skip(i as int) =~= seq![]);
        assert(views(out@) + line_list(s@.skip(i as int)) =~= views(out@));
    }
    out
}

/// What stands between the occurrences of `c` in `s`.
pub fn split(s: &str, c: char) -> (r: Vec<String>)
    ensures
        views(r@) == piece_list(s@, c),
{
    let chars = chars_of(s);
    let mut out: Vec<String> = Vec::new();
    let mut i: usize = 0;
    assert(s@.skip(0) =~= s@);
    assert(views(out@) =~= seq![]);
    loop
        invariant_except_break
            views(out@) + piece_list(s@.skip(i as int), c) == piece_list(s@, c),
        invariant
            i <= chars@.len(),
            chars@ == s@,
        ensures
            views(out@) == piece_list(s@, c),
        decreases chars@.len() - i,
    {
        let ghost rest = s@.skip(i as int);
        let ghost prev = views(out@);
        let n = run_length(chars.as_slice(), i, CharSet::Not(c));
        let end: usize = i + n;
        let l = s.substring_char(i, end);
        push_text(&mut out, l.to_owned());
        if end == chars.len() {
            assert(l@ =~= rest);
            assert(prev.push(l@) =~= prev + seq![l@]);
            break;
        }
        i = end + 1;
        proof {
            assert(l@ =~= rest.take(n as int));
            assert(rest.skip(n as int + 1) =~= s@.skip(i as int));
            assert(prev.push(l@) + piece_list(s@.skip(i as int), c) =~= prev + (seq![l@]
                + piece_list(s@.skip(i as int), c)));
        }
    }
    out
}

/// What stands before the first `c` in `s`.
pub fn split_first(s: &str, c: char) -> (r: &str)
    ensures
        r@ == before(s@, c),
{
    let chars = chars_of(s);
    assert(s@.skip(0) =~= s@);
    let n = run_length(chars.as_slice(), 0, CharSet::Not(c));
    s.substring_char(0, n)
}

/// Where the first `c` in `s` is, as a number of characters.
pub fn find_char(s: &str, c: char) -> (r: Option<usize>)
    ensures
        r is Some <==> first_char(s@, c) is Some,
        r matches Some(n) ==> first_char(s@, c) == Some(n as int) && n < s@.len() && s@[n as int]
            == c,
{
    let chars = chars_of(s);
    assert(s@.skip(0) =~= s@);
    let n = run_length(chars.as_slice(), 0, CharSet::Not(c));
    proof {
        lemma_lead(s@, CharSet::Not(c));
    }
    if n < chars.len() {
        Some(n)
    } else {
        None
    }
}

/// Where the last `c` in `s` is, as a number of characters.
pub fn rfind_char(s: &str, c: char) -> (r: Option<usize>)
    ensures
        r is Some <==> last_char(s@, c) is Some,
        r matches Some(n) ==> last_char(s@, c) == Some(n as int) && n < s@.len() && s@[n as int]
            == c,
{
    proof {
        lemma_trail(s@, CharSet::Not(c));
    }
    let n = s.unicode_len();
    let kept = trim_end_of(s, CharSet::Not(c));
    let k = kept.unicode_len();
    if k > 0 {
        Some(k - 1)
    } else {
        None
    }
}

// ── Searching ────────────────────────────────────────────────────────────────

/// Whether `pat` stands in `s` at `i`.
pub open spec fn occurs_at(s: Seq<char>, pat: Seq<char>, i: int) -> bool {
    0 <= i && i + pat.len() <= s.len() && s.subrange(i, i + pat.len()) == pat
}

/// Whether `pat` stands anywhere in `s`.
pub open spec fn has_sub(s: Seq<char>, pat: Seq<char>) -> bool {
    exists|i: int| occurs_at(s, pat, i)
}

/// Where `pat` first stands in `s` at or after `from`.
pub open spec fn first_sub_from(s: Seq<char>, pat: Seq<char>, from: int) -> Option<int>
    decreases s.len() + 1 - from,
{
    if from + pat.len() > s.len() {
        None
    } else if occurs_at(s, pat, from) {
        Some(from)
    } else {
        first_sub_from(s, pat, from + 1)
    }
}

/// Where `pat` first stands in `s`.
pub open spec fn first_sub(s: Seq<char>, pat: Seq<char>) -> Option<int> {
    first_sub_from(s, pat, 0)
}

/// What the first place of a pattern is.
pub proof fn lemma_first_sub_from(s: Seq<char>, pat: Seq<char>, from: int)
    requires
        0 <= from,
    ensures
        first_sub_from(s, pat, from) is None ==> forall|j: int|
            from <= j ==> !#[trigger] occurs_at(s, pat, j),
        first_sub_from(s, pat, from) matches Some(k) ==> from <= k && occurs_at(s, pat, k)
            && forall|j: int| from <= j < k ==> !#[trigger] occurs_at(s, pat, j),
    decreases s.len() + 1 - from,
{
    if from + pat.len() > s.len() {
    } else if occurs_at(s, pat, from) {
    } else {
        lemma_first_sub_from(s, pat, from + 1);
    }
}

/// A pattern stands somewhere exactly when it has a first place.
pub proof fn lemma_first_sub(s: Seq<char>, pat: Seq<char>)
    ensures
        has_sub(s, pat) <==> first_sub(s, pat) is Some,
        first_sub(s, pat) matches Some(k) ==> occurs_at(s, pat, k),
{
    lemma_first_sub_from(s, pat, 0);
}

/// Whether `pat` stands in `s` at `i`.
pub fn matches_at(s: &[char], pat: &[char], i: usize) -> (r: bool)
    ensures
        r == occurs_at(s@, pat@, i as int),
{
    if i > s.len() || s.len() - i < pat.len() {
        return false;
    }
    let mut j: usize = 0;
    while j < pat.len()
        invariant
            j <= pat@.len(),
            i + pat@.len() <= s@.len() <= usize::MAX,
            forall|k: int| 0 <= k < j ==> s@[i + k] == #[trigger] pat@[k],
        decreases pat@.len() - j,
    {
        if s[i + j] != pat[j] {
            assert(s@.subrange(i as int, i + pat@.len())[j as int] != pat@[j as int]);
            return false;
        }
        j += 1;
    }
    assert(s@.subrange(i as int, i + pat@.len()) =~= pat@);
    true
}

/// Where `pat` first stands in `s` at or after `from`.
pub fn find_from(s: &[char], pat: &[char], from: usize) -> (r: Option<usize>)
    ensures
        r is Some <==> first_sub_from(s@, pat@, from as int) is Some,
        r matches Some(n) ==> first_sub_from(s@, pat@, from as int) == Some(n as int) && from <= n
            && n + pat@.len() <= s@.len(),
{
    let mut i: usize = from;
    loop
        invariant
            from <= i,
            first_sub_from(s@, pat@, from as int) == first_sub_from(s@, pat@, i as int),
        decreases s@.len() + 1 - i,
    {
        if i > s.len() || s.len() - i < pat.len() {
            return None;
        }
        if matches_at(s, pat, i) {
            return Some(i);
        }
        if i == s.len() {
            assert(s@.subrange(i as int, i as int) =~= pat@);
            return None;
        }
        i += 1;
    }
}

/// Where `pat` first stands in `s`, as a number of characters.
pub fn find(s: &str, pat: &str) -> (r: Option<usize>)
    ensures
        r is Some <==> first_sub(s@, pat@) is Some,
        r matches Some(n) ==> first_sub(s@, pat@) == Some(n as int) && n + pat@.len() <= s@.len(),
{
    let sc = chars_of(s);
    let pc = chars_of(pat);
    find_from(sc.as_slice(), pc.as_slice(), 0)
}

/// Whether `pat` stands anywhere in `s`.
pub fn contains(s: &str, pat: &str) -> (r: bool)
    ensures
        r == has_sub(s@, pat@),
{
    proof {
        lemma_first_sub(s@, pat@);
    }
    find(s, pat).is_some()
}

/// Whether `c` stands anywhere in `s`.
pub fn contains_char(s: &str, c: char) -> (r: bool)
    ensures
        r == s@.contains(c),
{
    proof {
        lemma_lead(s@, CharSet::Not(c));
    }
    let r = find_char(s, c);
    assert(r is None ==> lead(s@, CharSet::Not(c)) == s@.len());
    r.is_some()
}

/// Whether `s` starts with `pat`.
pub fn starts_with(s: &str, pat: &str) -> (r: bool)
    ensures
        r == pat@.is_prefix_of(s@),
{
    let sc = chars_of(s);
    let pc = chars_of(pat);
    matches_at(sc.as_slice(), pc.as_slice(), 0)
}

/// Whether `s` ends with `pat`.
pub fn ends_with(s: &str, pat: &str) -> (r: bool)
    ensures
        r == pat@.is_suffix_of(s@),
{
    let sc = chars_of(s);
    let pc = chars_of(pat);
    if pc.len() > sc.len() {
        return false;
    }
    matches_at(sc.as_slice(), pc.as_slice(), sc.len() - pc.len())
}

// ── Taking apart and putting together ────────────────────────────────────────

/// The first `n` characters of `s`, or all of it where it is shorter.
pub open spec fn first_chars(s: Seq<char>, n: nat) -> Seq<char> {
    if n < s.len() {
        s.take(n as int)
    } else {
        s
    }
}

/// `s` without its first `n` characters, or nothing where it is shorter.
pub open spec fn after_chars(s: Seq<char>, n: nat) -> Seq<char> {
    if n < s.len() {
        s.skip(n as int)
    } else {
        seq![]
    }
}

/// The first `n` characters of `s`.
pub fn take(s: &str, n: usize) -> (r: &str)
    ensures
        r@ == first_chars(s@, n as nat),
{
    let len = s.unicode_len();
    let r = s.substring_char(
        0,
        if n < len {
            n
        } else {
            len
        },
    );
    assert(r@ =~= first_chars(s@, n as nat));
    r
}

/// `s` without its first `n` characters.
pub fn skip(s: &str, n: usize) -> (r: &str)
    ensures
        r@ == after_chars(s@, n as nat),
{
    let len = s.unicode_len();
    let r = s.substring_char(
        if n < len {
            n
        } else {
            len
        },
        len,
    );
    assert(r@ =~= after_chars(s@, n as nat));
    r
}

/// `list` in one string, with `sep` between its members.
pub open spec fn joined(list: Seq<Seq<char>>, sep: Seq<char>) -> Seq<char>
    decreases list.len(),
{
    if list.len() == 0 {
        seq![]
    } else if list.len() == 1 {
        list[0]
    } else {
        joined(list.drop_last(), sep) + sep + list.last()
    }
}

/// `list` in one string, with `sep` between its members.
pub fn join(list: &[String], sep: &str) -> (r: String)
    ensures
        r@ == joined(views(list@), sep@),
{
    let mut out = String::new();
    let mut i: usize = 0;
    while i < list.len()
        invariant
            i <= list@.len(),
            out@ == joined(views(list@).take(i as int), sep@),
        decreases list@.len() - i,
    {
        assert(views(list@).take(i as int + 1).drop_last() =~= views(list@).take(i as int));
        if i > 0 {
            out.append(sep);
        }
        out.append(list[i].as_str());
        i += 1;
        assert(out@ =~= joined(views(list@).take(i as int), sep@));
    }
    assert(views(list@).take(i as int) =~= views(list@));
    out
}

/// `s` with each occurrence of `pat`, from left to right, replaced by `with`.
pub open spec fn replaced(s: Seq<char>, pat: Seq<char>, with: Seq<char>) -> Seq<char>
    decreases s.len(),
    when pat.len() > 0
{
    match first_sub(s, pat) {
        None => s,
        Some(k) => {
            if 0 <= k && k + pat.len() <= s.len() {
                s.take(k) + with + replaced(s.skip(k + pat.len() as int), pat, with)
            } else {
                s
            }
        },
    }
}

/// `s` with each occurrence of `pat`, from left to right, replaced by `with`.
pub fn replace(s: &str, pat: &str, with: &str) -> (r: String)
    requires
        pat@.len() > 0,
    ensures
        r@ == replaced(s@, pat@, with@),
{
    let mut rest: &str = s;
    let mut out = String::new();
    assert(out@ + replaced(rest@, pat@, with@) =~= replaced(s@, pat@, with@));
    loop
        invariant
            pat@.len() > 0,
            out@ + replaced(rest@, pat@, with@) == replaced(s@, pat@, with@),
        decreases rest@.len(),
    {
        match find(rest, pat) {
            None => {
                out.append(rest);
                return out;
            },
            Some(k) => {
                let n = pat.unicode_len();
                let total = rest.unicode_len();
                let ghost before = out@;
                let ghost whole = rest@;
                out.append(rest.substring_char(0, k));
                out.append(with);
                rest = rest.substring_char(k + n, total);
                proof {
                    assert(rest@ =~= whole.skip(k + pat@.len()));
                    assert(whole.subrange(0, k as int) =~= whole.take(k as int));
                    assert(out@ + replaced(rest@, pat@, with@) =~= before + (whole.take(k as int)
                        + with@ + replaced(rest@, pat@, with@)));
                }
            },
        }
    }
}

/// `c` repeated `n` times.
pub open spec fn repeated(c: char, n: nat) -> Seq<char> {
    Seq::new(n, |i: int| c)
}

/// `c` repeated `n` times.
pub fn repeat(c: char, n: usize) -> (r: String)
    ensures
        r@ == repeated(c, n as nat),
{
    let mut out = String::new();
    let mut i: usize = 0;
    while i < n
        invariant
            i <= n,
            out@ == repeated(c, i as nat),
        decreases n - i,
    {
        out.push(c);
        i += 1;
        assert(out@ =~= repeated(c, i as nat));
    }
    assert(out@ =~= repeated(c, n as nat));
    out
}

/// `a` followed by `b`.
pub fn concat(a: &str, b: &str) -> (r: String)
    ensures
        r@ == a@ + b@,
{
    let mut out = a.to_owned();
    out.append(b);
    out
}

/// `a`, `b` and `c` one after the other.
pub fn concat3(a: &str, b: &str, c: &str) -> (r: String)
    ensures
        r@ == a@ + b@ + c@,
{
    let mut out = a.to_owned();
    out.append(b);
    out.append(c);
    out
}

// ── Case ─────────────────────────────────────────────────────────────────────

/// `c` with an ASCII capital made small.
pub open spec fn lower(c: char) -> char {
    if is_upper(c) {
        (c as u8 + 32) as u8 as char
    } else {
        c
    }
}

/// `s` with its ASCII capitals made small.
pub open spec fn lowered(s: Seq<char>) -> Seq<char> {
    Seq::new(s.len(), |i: int| lower(s[i]))
}

/// `c` with a small ASCII letter made a capital.
pub open spec fn upper(c: char) -> char {
    if is_lower(c) {
        (c as u8 - 32) as u8 as char
    } else {
        c
    }
}

/// `s` with its small ASCII letters made capitals.
pub open spec fn uppered(s: Seq<char>) -> Seq<char> {
    Seq::new(s.len(), |i: int| upper(s[i]))
}

/// `s` with its ASCII capitals made small.
pub fn to_ascii_lowercase(s: &str) -> (r: String)
    ensures
        r@ == lowered(s@),
{
    let mut out = String::new();
    let chars = chars_of(s);
    let mut i: usize = 0;
    while i < chars.len()
        invariant
            i <= chars@.len(),
            chars@ == s@,
            out@ == lowered(s@).take(i as int),
        decreases chars@.len() - i,
    {
        let c = chars[i];
        if is_ascii_uppercase(c) {
            out.push((c as u8 + 32) as char);
        } else {
            out.push(c);
        }
        i += 1;
        assert(out@ =~= lowered(s@).take(i as int));
    }
    assert(out@ =~= lowered(s@));
    out
}

/// `s` with its small ASCII letters made capitals.
pub fn to_ascii_uppercase(s: &str) -> (r: String)
    ensures
        r@ == uppered(s@),
{
    let mut out = String::new();
    let chars = chars_of(s);
    let mut i: usize = 0;
    while i < chars.len()
        invariant
            i <= chars@.len(),
            chars@ == s@,
            out@ == uppered(s@).take(i as int),
        decreases chars@.len() - i,
    {
        let c = chars[i];
        if 'a' <= c && c <= 'z' {
            out.push((c as u8 - 32) as char);
        } else {
            out.push(c);
        }
        i += 1;
        assert(out@ =~= uppered(s@).take(i as int));
    }
    assert(out@ =~= uppered(s@));
    out
}

/// Whether `a` and `b` are equal but for the case of ASCII letters.
pub fn eq_ignore_ascii_case(a: &str, b: &str) -> (r: bool)
    ensures
        r == (lowered(a@) == lowered(b@)),
{
    let x = to_ascii_lowercase(a);
    let y = to_ascii_lowercase(b);
    x == y
}

// ── Numbers ──────────────────────────────────────────────────────────────────

/// The decimal digit `d`.
pub open spec fn digit(d: nat) -> char {
    (48 + d) as u8 as char
}

/// `n` in decimal.
pub open spec fn decimal(n: nat) -> Seq<char>
    decreases n,
{
    if n < 10 {
        seq![digit(n)]
    } else {
        decimal(n / 10).push(digit(n % 10))
    }
}

/// `n` in decimal, with a minus sign where it is negative.
pub open spec fn signed_decimal(n: int) -> Seq<char> {
    if n < 0 {
        seq!['-'] + decimal((-n) as nat)
    } else {
        decimal(n as nat)
    }
}

/// `n` in decimal.
pub fn u128_text(n: u128) -> (r: String)
    ensures
        r@ == decimal(n as nat),
    decreases n,
{
    if n < 10 {
        let mut out = String::new();
        out.push((48 + n as u8) as char);
        assert(out@ =~= decimal(n as nat));
        out
    } else {
        let mut out = u128_text(n / 10);
        out.push((48 + (n % 10) as u8) as char);
        out
    }
}

/// `n` in decimal.
pub fn u64_text(n: u64) -> (r: String)
    ensures
        r@ == decimal(n as nat),
{
    u128_text(n as u128)
}

/// `n` in decimal.
pub fn usize_text(n: usize) -> (r: String)
    ensures
        r@ == decimal(n as nat),
{
    u64_text(n as u64)
}

/// `n` in decimal.
pub fn i64_text(n: i64) -> (r: String)
    ensures
        r@ == signed_decimal(n as int),
{
    if n < 0 {
        proof {
            reveal_strlit("-");
            assert("-"@ =~= seq!['-']);
        }
        let m: u64 = (-(n as i128)) as u64;
        let digits = u64_text(m);
        concat("-", digits.as_str())
    } else {
        u64_text(n as u64)
    }
}

// ── Bytes ────────────────────────────────────────────────────────────────────

/// How many bytes the UTF-8 form of `s` has.
pub open spec fn byte_len(s: Seq<char>) -> nat {
    vstd::utf8::encode_utf8(s).len()
}

/// How many bytes the UTF-8 form of `c` has.
pub open spec fn char_bytes(c: char) -> nat {
    vstd::utf8::encode_scalar(c as u32).len()
}

/// How many bytes the UTF-8 form of `c` has.
pub fn len_utf8(c: char) -> (r: usize)
    ensures
        r == char_bytes(c),
        1 <= r <= 4,
{
    let u: u32 = c as u32;
    if u < 0x80 {
        1
    } else if u < 0x800 {
        2
    } else if u < 0x10000 {
        3
    } else {
        4
    }
}

/// How many bytes the UTF-8 form of `s` has.
pub fn len_bytes(s: &str) -> (r: usize)
    ensures
        r == byte_len(s@),
{
    s.as_bytes().len()
}

/// The byte length of two strings is that of one after the other.
pub proof fn lemma_byte_len_concat(a: Seq<char>, b: Seq<char>)
    ensures
        byte_len(a + b) == byte_len(a) + byte_len(b),
    decreases a.len(),
{
    if a.len() == 0 {
        assert(a + b =~= b);
    } else {
        assert((a + b).drop_first() =~= a.drop_first() + b);
        lemma_byte_len_concat(a.drop_first(), b);
    }
}

/// The byte length grows by that of the character added.
pub proof fn lemma_byte_len_push(a: Seq<char>, c: char)
    ensures
        byte_len(a.push(c)) == byte_len(a) + char_bytes(c),
{
    lemma_byte_len_concat(a, seq![c]);
    assert(a.push(c) =~= a + seq![c]);
    assert(seq![c].drop_first() =~= seq![]);
    assert(byte_len(seq![c]) == char_bytes(c)) by {
        reveal_with_fuel(vstd::utf8::encode_utf8, 2);
    }
}

/// The text of bytes that are meant to be UTF-8, with U+FFFD in place of what is not.
pub uninterp spec fn lossy_text(bytes: Seq<u8>) -> Seq<char>;

/// `String::from_utf8_lossy` from the standard library. Its result is a function of the bytes,
/// named [`lossy_text`]; bytes that are valid UTF-8 come back as the text they encode.
#[verifier::external_body]
pub(crate) fn from_utf8_lossy(bytes: &[u8]) -> (r: String)
    ensures
        r@ == lossy_text(bytes@),
        vstd::utf8::valid_utf8(bytes@) ==> r@ == vstd::utf8::decode_utf8(bytes@),
{
    String::from_utf8_lossy(bytes).into_owned()
}

// ── Order ────────────────────────────────────────────────────────────────────

/// Whether `a` comes before `b` in the dictionary order of code points, or is equal to it.
pub open spec fn text_le(a: Seq<char>, b: Seq<char>) -> bool
    decreases a.len(),
{
    if a.len() == 0 {
        true
    } else if b.len() == 0 {
        false
    } else if a[0] == b[0] {
        text_le(a.drop_first(), b.drop_first())
    } else {
        a[0] < b[0]
    }
}

/// Any two strings are ordered.
pub proof fn lemma_text_le_total(a: Seq<char>, b: Seq<char>)
    ensures
        text_le(a, b) || text_le(b, a),
    decreases a.len(),
{
    if a.len() > 0 && b.len() > 0 && a[0] == b[0] {
        lemma_text_le_total(a.drop_first(), b.drop_first());
    }
}

/// The order is transitive.
pub proof fn lemma_text_le_trans(a: Seq<char>, b: Seq<char>, c: Seq<char>)
    requires
        text_le(a, b),
        text_le(b, c),
    ensures
        text_le(a, c),
    decreases a.len(),
{
    if a.len() > 0 && b.len() > 0 && c.len() > 0 && a[0] == b[0] && b[0] == c[0] {
        lemma_text_le_trans(a.drop_first(), b.drop_first(), c.drop_first());
    }
}

/// Strings ordered both ways are equal.
pub proof fn lemma_text_le_antisym(a: Seq<char>, b: Seq<char>)
    requires
        text_le(a, b),
        text_le(b, a),
    ensures
        a == b,
    decreases a.len(),
{
    if a.len() > 0 && b.len() > 0 {
        lemma_text_le_antisym(a.drop_first(), b.drop_first());
        assert(a =~= seq![a[0]] + a.drop_first());
        assert(b =~= seq![b[0]] + b.drop_first());
    } else {
        assert(a =~= b);
    }
}

/// Whether `a` comes before `b` or is equal to it.
pub fn not_after(a: &str, b: &str) -> (r: bool)
    ensures
        r == text_le(a@, b@),
{
    let x = chars_of(a);
    let y = chars_of(b);
    let mut i: usize = 0;
    assert(a@.skip(0) =~= a@ && b@.skip(0) =~= b@);
    loop
        invariant
            i <= x@.len(),
            i <= y@.len(),
            x@ == a@,
            y@ == b@,
            text_le(a@, b@) == text_le(a@.skip(i as int), b@.skip(i as int)),
        decreases x@.len() - i,
    {
        if i == x.len() {
            return true;
        }
        if i == y.len() {
            return false;
        }
        if x[i] != y[i] {
            return x[i] < y[i];
        }
        assert(a@.skip(i as int).drop_first() =~= a@.skip(i as int + 1));
        assert(b@.skip(i as int).drop_first() =~= b@.skip(i as int + 1));
        i += 1;
    }
}

/// `list` with `x` put behind the members that do not come after it.
pub open spec fn inserted(list: Seq<Seq<char>>, x: Seq<char>) -> Seq<Seq<char>>
    decreases list.len(),
{
    if list.len() == 0 || text_le(list.last(), x) {
        list.push(x)
    } else {
        inserted(list.drop_last(), x).push(list.last())
    }
}

/// The members of `list` in order.
pub open spec fn sorted(list: Seq<Seq<char>>) -> Seq<Seq<char>>
    decreases list.len(),
{
    if list.len() == 0 {
        list
    } else {
        inserted(sorted(list.drop_last()), list.last())
    }
}

/// Whether the members of `list` stand in order.
pub open spec fn is_sorted(list: Seq<Seq<char>>) -> bool {
    forall|i: int, j: int| 0 <= i <= j < list.len() ==> text_le(#[trigger] list[i], #[trigger] list[j])
}

/// Insertion keeps the order and adds one member.
pub proof fn lemma_inserted(list: Seq<Seq<char>>, x: Seq<char>)
    requires
        is_sorted(list),
    ensures
        is_sorted(inserted(list, x)),
        inserted(list, x).to_multiset() == list.to_multiset().insert(x),
        inserted(list, x).len() == list.len() + 1,
    decreases list.len(),
{
    broadcast use vstd::seq_lib::group_to_multiset_ensures;

    if list.len() == 0 || text_le(list.last(), x) {
        let r = list.push(x);
        assert forall|i: int, j: int| 0 <= i <= j < r.len() implies text_le(
            #[trigger] r[i],
            #[trigger] r[j],
        ) by {
            if j == list.len() {
                if i < list.len() {
                    assert(text_le(list[i], list.last()));
                    lemma_text_le_trans(list[i], list.last(), x);
                } else {
                    lemma_text_le_total(x, x);
                }
            }
        }
    } else {
        let init = list.drop_last();
        let rest = inserted(init, x);
        lemma_inserted(init, x);
        let r = rest.push(list.last());
        assert(list =~= init.push(list.last()));
        lemma_text_le_total(list.last(), x);
        assert forall|i: int, j: int| 0 <= i <= j < r.len() implies text_le(
            #[trigger] r[i],
            #[trigger] r[j],
        ) by {
            if j == rest.len() {
                if i < rest.len() {
                    assert(rest.to_multiset().contains(rest[i]));
                    assert(rest[i] == x || init.to_multiset().contains(rest[i]));
                    if rest[i] != x {
                        assert(init.contains(rest[i]));
                        let k = choose|k: int| 0 <= k < init.len() && init[k] == rest[i];
                        assert(text_le(list[k], list.last()));
                    }
                } else {
                    lemma_text_le_total(list.last(), list.last());
                }
            }
        }
        assert(r.to_multiset() =~= list.to_multiset().insert(x));
    }
}

/// Sorting puts the members of a list in order, and keeps each as often as it was there.
pub proof fn law_sorted(list: Seq<Seq<char>>)
    ensures
        is_sorted(sorted(list)),
        sorted(list).to_multiset() == list.to_multiset(),
        sorted(list).len() == list.len(),
    decreases list.len(),
{
    broadcast use vstd::seq_lib::group_to_multiset_ensures;

    if list.len() > 0 {
        law_sorted(list.drop_last());
        lemma_inserted(sorted(list.drop_last()), list.last());
        assert(list =~= list.drop_last().push(list.last()));
    }
}

/// Puts `x` behind the members of `list` that do not come after it.
pub fn insert_sorted(list: &mut Vec<String>, x: String)
    ensures
        views(final(list)@) == inserted(views(old(list)@), x@),
{
    let mut pos: usize = list.len();
    let ghost all = views(list@);
    assert(all.take(pos as int) =~= all);
    assert(all.skip(pos as int) =~= seq![]);
    assert(inserted(all.take(pos as int), x@) + all.skip(pos as int) =~= inserted(all, x@));
    while pos > 0 && !not_after(list[pos - 1].as_str(), x.as_str())
        invariant
            pos <= list@.len(),
            all == views(list@),
            inserted(all.take(pos as int), x@) + all.skip(pos as int) == inserted(all, x@),
        decreases pos,
    {
        proof {
            let t = all.take(pos as int);
            assert(t.drop_last() =~= all.take(pos - 1));
            assert(t.last() == all[pos - 1]);
            assert(inserted(all.take(pos - 1), x@).push(all[pos - 1]) + all.skip(pos as int)
                =~= inserted(all.take(pos - 1), x@) + all.skip(pos - 1));
        }
        pos -= 1;
    }
    proof {
        let t = all.take(pos as int);
        if pos > 0 {
            assert(t.last() == all[pos - 1]);
        }
        assert(t.push(x@) + all.skip(pos as int) =~= all.insert(pos as int, x@));
    }
    let ghost xv = x@;
    list.insert(pos, x);
    assert(views(list@) =~= all.insert(pos as int, xv));
}

/// The members of `list` in order.
pub fn sort(list: Vec<String>) -> (r: Vec<String>)
    ensures
        views(r@) == sorted(views(list@)),
{
    let mut out: Vec<String> = Vec::new();
    let mut i: usize = 0;
    assert(views(out@) =~= sorted(views(list@).take(0)));
    while i < list.len()
        invariant
            i <= list@.len(),
            views(out@) == sorted(views(list@).take(i as int)),
        decreases list@.len() - i,
    {
        assert(views(list@).take(i as int + 1).drop_last() =~= views(list@).take(i as int));
        insert_sorted(&mut out, list[i].clone());
        i += 1;
    }
    assert(views(list@).take(i as int) =~= views(list@));
    out
}

/// The members of `list` in order, each once.
pub open spec fn sorted_set(list: Seq<Seq<char>>) -> Seq<Seq<char>>
    decreases list.len(),
{
    if list.len() == 0 {
        list
    } else {
        let before = sorted_set(list.drop_last());
        if before.contains(list.last()) {
            before
        } else {
            inserted(before, list.last())
        }
    }
}

/// The members of `list` in order, each once: nothing is lost and nothing is added.
pub proof fn law_sorted_set(list: Seq<Seq<char>>)
    ensures
        is_sorted(sorted_set(list)),
        sorted_set(list).no_duplicates(),
        forall|x: Seq<char>| sorted_set(list).contains(x) <==> #[trigger] list.contains(x),
    decreases list.len(),
{
    broadcast use vstd::seq_lib::group_to_multiset_ensures;

    if list.len() > 0 {
        let init = list.drop_last();
        let last = list.last();
        let before = sorted_set(init);
        law_sorted_set(init);
        lemma_inserted(before, last);
        assert(list =~= init.push(last));
        assert forall|x: Seq<char>| sorted_set(list).contains(x) <==> #[trigger] list.contains(
            x,
        ) by {
            assert(list.contains(x) <==> init.contains(x) || x == last) by {
                if list.contains(x) {
                    let i = list.index_of(x);
                    assert(i < init.len() ==> init[i] == x);
                }
                if init.contains(x) {
                    let i = init.index_of(x);
                    assert(list[i] == x);
                }
                assert(list[list.len() - 1] == last);
            }
            if !before.contains(last) {
                let r = inserted(before, last);
                assert(r.contains(x) <==> r.to_multiset().contains(x));
                assert(before.contains(x) <==> before.to_multiset().contains(x));
            }
        }
        if !before.contains(last) {
            let r = inserted(before, last);
            before.lemma_multiset_has_no_duplicates();
            assert(before.to_multiset().count(last) == 0);
            r.lemma_multiset_has_no_duplicates_conv();
        }
    }
}

/// Puts `x` in its place in `list` where it is not there yet.
pub fn insert_new(list: &mut Vec<String>, x: String)
    ensures
        views(final(list)@) == if views(old(list)@).contains(x@) {
            views(old(list)@)
        } else {
            inserted(views(old(list)@), x@)
        },
{
    let mut i: usize = 0;
    while i < list.len()
        invariant
            i <= list@.len(),
            list@ == old(list)@,
            forall|k: int| 0 <= k < i ==> #[trigger] views(list@)[k] != x@,
        decreases list@.len() - i,
    {
        if list[i] == x {
            assert(views(list@)[i as int] == x@);
            return;
        }
        i += 1;
    }
    insert_sorted(list, x);
}

/// A character that is not in a string is in none of its lines.
pub proof fn lemma_lines_without(s: Seq<char>, c: char)
    requires
        !s.contains(c),
    ensures
        forall|i: int| 0 <= i < line_list(s).len() ==> !(#[trigger] line_list(s)[i]).contains(c),
    decreases s.len(),
{
    let n = lead(s, CharSet::Not('\n')) as int;
    if s.len() > 0 && n < s.len() {
        lemma_lead(s, CharSet::Not('\n'));
        let rest = s.skip(n + 1);
        assert(!rest.contains(c)) by {
            if rest.contains(c) {
                let k = rest.index_of(c);
                assert(s[n + 1 + k] == c);
            }
        }
        lemma_lines_without(rest, c);
        let first = without_cr(s.take(n));
        assert(!first.contains(c)) by {
            if first.contains(c) {
                let k = first.index_of(c);
                assert(s[k] == c);
            }
        }
        assert forall|i: int| 0 <= i < line_list(s).len() implies !(#[trigger] line_list(
            s,
        )[i]).contains(c) by {
            if i > 0 {
                assert(line_list(s)[i] == line_list(rest)[i - 1]);
            }
        }
    }
}

/// A character that is not in a string is not in what is left after trimming.
pub proof fn lemma_trimmed_without(s: Seq<char>, c: char)
    requires
        !s.contains(c),
    ensures
        !trimmed(s).contains(c),
{
    lemma_trimmed_part(s);
    let t = trimmed(s);
    if t.contains(c) {
        let k = t.index_of(c);
        assert(s[lead(s, CharSet::White) + k] == c);
    }
}

/// Trimming leaves a stretch of the string.
pub proof fn lemma_trimmed_part(s: Seq<char>)
    ensures
        trimmed(s).len() <= s.len() - lead(s, CharSet::White),
        trimmed(s) == s.subrange(
            lead(s, CharSet::White) as int,
            lead(s, CharSet::White) as int + trimmed(s).len(),
        ),
{
    lemma_lead(s, CharSet::White);
    lemma_trail(trimmed_start(s, CharSet::White), CharSet::White);
    assert(trimmed(s) =~= s.subrange(
        lead(s, CharSet::White) as int,
        lead(s, CharSet::White) as int + trimmed(s).len(),
    ));
}

/// No line holds a line feed.
pub proof fn lemma_lines_hold_no_line_feed(s: Seq<char>)
    ensures
        forall|i: int|
            0 <= i < line_list(s).len() ==> !(#[trigger] line_list(s)[i]).contains('\n'),
    decreases s.len(),
{
    let n = lead(s, CharSet::Not('\n')) as int;
    lemma_lead(s, CharSet::Not('\n'));
    if s.len() > 0 {
        if n < s.len() {
            lemma_lines_hold_no_line_feed(s.skip(n + 1));
        }
        let first = if n < s.len() {
            without_cr(s.take(n))
        } else {
            s
        };
        assert(!first.contains('\n')) by {
            if first.contains('\n') {
                let k = first.index_of('\n');
                assert(CharSet::Not('\n').has(s[k]));
            }
        }
        assert forall|i: int| 0 <= i < line_list(s).len() implies !(#[trigger] line_list(
            s,
        )[i]).contains('\n') by {
            if i > 0 {
                assert(line_list(s)[i] == line_list(s.skip(n + 1))[i - 1]);
            }
        }
    }
}

/// What is left after trimming neither starts nor ends with white space, so that trimming it
/// again changes nothing.
pub proof fn lemma_trimmed(s: Seq<char>)
    ensures
        trimmed(s).len() > 0 ==> !is_white(trimmed(s)[0]) && !is_white(trimmed(s).last()),
        trimmed(trimmed(s)) == trimmed(s),
{
    let a = trimmed_start(s, CharSet::White);
    let t = trimmed(s);
    lemma_lead(s, CharSet::White);
    lemma_trail(a, CharSet::White);
    if t.len() > 0 {
        assert(t[0] == a[0] && a[0] == s[lead(s, CharSet::White) as int]);
        assert(t.last() == a[t.len() - 1]);
    }
    lemma_trimmed_same(t);
}

/// A string that neither starts nor ends with white space is left as it is by trimming.
pub proof fn lemma_trimmed_same(t: Seq<char>)
    requires
        t.len() > 0 ==> !is_white(t[0]) && !is_white(t.last()),
    ensures
        trimmed(t) == t,
{
    assert(t.skip(0) =~= t);
    assert(t.take(t.len() as int) =~= t);
}

/// `s` without the occurrences of `pat` that it starts with.
pub open spec fn without_leading(s: Seq<char>, pat: Seq<char>) -> Seq<char>
    decreases s.len(),
{
    if pat.len() > 0 && pat.is_prefix_of(s) {
        without_leading(s.skip(pat.len() as int), pat)
    } else {
        s
    }
}

/// `s` without the occurrences of `pat` that it ends with.
pub open spec fn without_trailing(s: Seq<char>, pat: Seq<char>) -> Seq<char>
    decreases s.len(),
{
    if pat.len() > 0 && pat.is_suffix_of(s) {
        without_trailing(s.take(s.len() - pat.len()), pat)
    } else {
        s
    }
}

/// `s` without the occurrences of `pat` that it starts with.
pub fn trim_leading<'a>(s: &'a str, pat: &str) -> (r: &'a str)
    ensures
        r@ == without_leading(s@, pat@),
{
    let mut rest: &str = s;
    let n = pat.unicode_len();
    while n > 0 && starts_with(rest, pat)
        invariant
            n == pat@.len(),
            without_leading(rest@, pat@) == without_leading(s@, pat@),
        decreases rest@.len(),
    {
        let total = rest.unicode_len();
        let next = rest.substring_char(n, total);
        assert(next@ =~= rest@.skip(n as int));
        rest = next;
    }
    rest
}

/// `s` without the occurrences of `pat` that it ends with.
pub fn trim_trailing<'a>(s: &'a str, pat: &str) -> (r: &'a str)
    ensures
        r@ == without_trailing(s@, pat@),
{
    let mut rest: &str = s;
    let n = pat.unicode_len();
    while n > 0 && ends_with(rest, pat)
        invariant
            n == pat@.len(),
            without_trailing(rest@, pat@) == without_trailing(s@, pat@),
        decreases rest@.len(),
    {
        let total = rest.unicode_len();
        let next = rest.substring_char(0, total - n);
        assert(next@ =~= rest@.take(rest@.len() - n));
        rest = next;
    }
    rest
}

// ── What holds of the functions above ────────────────────────────────────────

/// Whether `parts` stand in `s` one behind the other, in their order.
pub open spec fn in_order(s: Seq<char>, parts: Seq<Seq<char>>) -> bool
    decreases parts.len(),
{
    parts.len() == 0 || exists|i: int|
        #[trigger] occurs_at(s, parts[0], i) && in_order(
            s.skip(i + parts[0].len()),
            parts.drop_first(),
        )
}

/// Whether a text is empty, or neither starts nor ends with white space.
pub open spec fn is_tight(s: Seq<char>) -> bool {
    s.len() > 0 ==> !is_white(s[0]) && !is_white(s.last())
}

/// What stands in the middle of a text occurs in it.
pub proof fn lemma_occurs(a: Seq<char>, b: Seq<char>, c: Seq<char>)
    ensures
        occurs_at(a + b + c, b, a.len() as int),
        has_sub(a + b + c, b),
{
    assert((a + b + c).subrange(a.len() as int, (a.len() + b.len()) as int) =~= b);
}

/// What occurs in a part of a text occurs in the text.
pub proof fn lemma_occurs_within(s: Seq<char>, t: Seq<char>, u: Seq<char>, i: int, j: int)
    requires
        occurs_at(s, t, i),
        occurs_at(t, u, j),
    ensures
        occurs_at(s, u, i + j),
{
    assert(s.subrange(i + j, i + j + u.len()) =~= s.subrange(i, i + t.len()).subrange(
        j,
        j + u.len(),
    ));
}

/// What occurs in what occurs in a text occurs in the text.
pub proof fn lemma_sub_within(s: Seq<char>, t: Seq<char>, u: Seq<char>)
    requires
        has_sub(s, t),
        has_sub(t, u),
    ensures
        has_sub(s, u),
{
    let i = choose|i: int| occurs_at(s, t, i);
    let j = choose|j: int| occurs_at(t, u, j);
    lemma_occurs_within(s, t, u, i, j);
}

/// Trimming the end of a text leaves a start of it, and takes only white space.
pub proof fn lemma_rtrimmed(s: Seq<char>)
    ensures
        rtrimmed(s).len() <= s.len(),
        rtrimmed(s) == s.take(rtrimmed(s).len() as int),
        forall|i: int| rtrimmed(s).len() <= i < s.len() ==> is_white(#[trigger] s[i]),
        rtrimmed(s).len() > 0 ==> !is_white(rtrimmed(s).last()),
{
    lemma_trail(s, CharSet::White);
    let t = rtrimmed(s);
    if t.len() > 0 {
        assert(t.last() == s[t.len() - 1]);
    }
}

/// Trimming takes only white space off a text.
pub proof fn law_trimmed_takes_white_space(s: Seq<char>)
    ensures
        exists|i: int|
            #[trigger] occurs_at(s, trimmed(s), i) && (forall|k: int|
                0 <= k < s.len() && !(i <= k < i + trimmed(s).len()) ==> is_white(#[trigger] s[k])),
        is_tight(trimmed(s)),
{
    lemma_trimmed_part(s);
    lemma_trimmed(s);
    lemma_lead(s, CharSet::White);
    let a = trimmed_start(s, CharSet::White);
    lemma_trail(a, CharSet::White);
    let i = lead(s, CharSet::White) as int;
    assert(occurs_at(s, trimmed(s), i));
    assert forall|k: int| 0 <= k < s.len() && !(i <= k < i + trimmed(s).len()) implies is_white(
        #[trigger] s[k],
    ) by {
        if k >= i {
            assert(s[k] == a[k - i]);
        }
    }
}

/// A text has nothing left after trimming exactly when it is all white space.
pub proof fn lemma_blank(s: Seq<char>)
    ensures
        trimmed(s).len() == 0 <==> forall|k: int| 0 <= k < s.len() ==> is_white(#[trigger] s[k]),
        rtrimmed(s).len() == 0 <==> trimmed(s).len() == 0,
{
    law_trimmed_takes_white_space(s);
    lemma_rtrimmed(s);
    let i = choose|i: int|
        #[trigger] occurs_at(s, trimmed(s), i) && (forall|k: int|
            0 <= k < s.len() && !(i <= k < i + trimmed(s).len()) ==> is_white(#[trigger] s[k]));
    if trimmed(s).len() > 0 {
        assert(trimmed(s)[0] == s[i]);
    }
    if rtrimmed(s).len() > 0 {
        assert(rtrimmed(s).last() == s[rtrimmed(s).len() - 1]);
    }
}

/// What ends in no white space stays where it is when the end of a text is trimmed.
pub proof fn lemma_rtrimmed_keeps(s: Seq<char>, u: Seq<char>, i: int)
    requires
        occurs_at(s, u, i),
        u.len() > 0,
        !is_white(u.last()),
    ensures
        occurs_at(rtrimmed(s), u, i),
{
    lemma_rtrimmed(s);
    assert(u.last() == s[i + u.len() - 1]);
    assert(rtrimmed(s).subrange(i, i + u.len()) =~= s.subrange(i, i + u.len()));
}

/// What is tight stays in a text that is trimmed.
pub proof fn lemma_trimmed_keeps(s: Seq<char>, u: Seq<char>, i: int)
    requires
        occurs_at(s, u, i),
        u.len() > 0,
        is_tight(u),
    ensures
        lead(s, CharSet::White) <= i,
        occurs_at(trimmed(s), u, i - lead(s, CharSet::White)),
        has_sub(trimmed(s), u),
{
    lemma_lead(s, CharSet::White);
    let n = lead(s, CharSet::White) as int;
    let a = trimmed_start(s, CharSet::White);
    assert(u[0] == s[i]);
    assert(a.subrange(i - n, i - n + u.len()) =~= s.subrange(i, i + u.len()));
    lemma_rtrimmed_keeps(a, u, i - n);
}

/// Parts that stand in a text in their order do so with anything around it.
pub proof fn lemma_in_order_around(a: Seq<char>, s: Seq<char>, b: Seq<char>, parts: Seq<Seq<char>>)
    requires
        in_order(s, parts),
    ensures
        in_order(a + s + b, parts),
    decreases parts.len(),
{
    if parts.len() > 0 {
        let i = choose|i: int|
            #[trigger] occurs_at(s, parts[0], i) && in_order(
                s.skip(i + parts[0].len()),
                parts.drop_first(),
            );
        let t = a + s + b;
        let j = a.len() + i;
        assert(t.subrange(j, j + parts[0].len()) =~= s.subrange(i, i + parts[0].len()));
        assert(occurs_at(t, parts[0], j));
        let rest = s.skip(i + parts[0].len());
        assert(t.skip(j + parts[0].len()) =~= Seq::<char>::empty() + rest + b);
        lemma_in_order_around(Seq::<char>::empty(), rest, b, parts.drop_first());
    }
}

/// Parts that stand in a text behind parts that stand in the text before it.
pub proof fn lemma_in_order_concat(
    s: Seq<char>,
    t: Seq<char>,
    parts: Seq<Seq<char>>,
    more: Seq<Seq<char>>,
)
    requires
        in_order(s, parts),
        in_order(t, more),
    ensures
        in_order(s + t, parts + more),
    decreases parts.len(),
{
    if parts.len() == 0 {
        assert(parts + more =~= more);
        assert(s + t =~= s + t + Seq::<char>::empty());
        lemma_in_order_around(s, t, Seq::<char>::empty(), more);
    } else {
        let i = choose|i: int|
            #[trigger] occurs_at(s, parts[0], i) && in_order(
                s.skip(i + parts[0].len()),
                parts.drop_first(),
            );
        let rest = s.skip(i + parts[0].len());
        lemma_in_order_concat(rest, t, parts.drop_first(), more);
        assert((s + t).skip(i + parts[0].len()) =~= rest + t);
        assert((parts + more).drop_first() =~= parts.drop_first() + more);
        assert((s + t).subrange(i, i + parts[0].len()) =~= s.subrange(i, i + parts[0].len()));
        assert(occurs_at(s + t, (parts + more)[0], i));
    }
}

/// One text stands in itself.
pub proof fn lemma_in_order_one(s: Seq<char>)
    ensures
        in_order(s, seq![s]),
{
    assert(s.subrange(0, s.len() as int) =~= s);
    assert(occurs_at(s, seq![s][0], 0));
    assert(seq![s].drop_first() =~= seq![]);
    assert(in_order(s.skip(0int + seq![s][0].len()), seq![s].drop_first()));
}

/// Parts that stand in a text in their order each occur in it.
pub proof fn lemma_in_order_each(s: Seq<char>, parts: Seq<Seq<char>>, k: int)
    requires
        in_order(s, parts),
        0 <= k < parts.len(),
    ensures
        has_sub(s, parts[k]),
    decreases parts.len(),
{
    let i = choose|i: int|
        #[trigger] occurs_at(s, parts[0], i) && in_order(
            s.skip(i + parts[0].len()),
            parts.drop_first(),
        );
    if k > 0 {
        let n = i + parts[0].len();
        lemma_in_order_each(s.skip(n), parts.drop_first(), k - 1);
        assert(parts.drop_first()[k - 1] == parts[k]);
        let j = choose|j: int| occurs_at(s.skip(n), parts[k], j);
        assert(s.subrange(n + j, n + j + parts[k].len()) =~= s.skip(n).subrange(
            j,
            j + parts[k].len(),
        ));
        assert(occurs_at(s, parts[k], n + j));
    }
}

/// Tight parts that stand in a text in their order still do when its end is trimmed.
pub proof fn lemma_in_order_rtrimmed(s: Seq<char>, parts: Seq<Seq<char>>)
    requires
        in_order(s, parts),
        forall|k: int| 0 <= k < parts.len() ==> (#[trigger] parts[k]).len() > 0 && is_tight(parts[k]),
    ensures
        in_order(rtrimmed(s), parts),
    decreases parts.len(),
{
    if parts.len() > 0 {
        let i = choose|i: int|
            #[trigger] occurs_at(s, parts[0], i) && in_order(
                s.skip(i + parts[0].len()),
                parts.drop_first(),
            );
        let n = i + parts[0].len();
        let rest = s.skip(n);
        lemma_rtrimmed_keeps(s, parts[0], i);
        assert forall|k: int| 0 <= k < parts.drop_first().len() implies (
            #[trigger] parts.drop_first()[k]).len() > 0 && is_tight(parts.drop_first()[k]) by {
            assert(parts.drop_first()[k] == parts[k + 1]);
        }
        lemma_in_order_rtrimmed(rest, parts.drop_first());
        lemma_rtrimmed(s);
        lemma_rtrimmed(rest);
        let t = rtrimmed(s);
        if parts.len() > 1 {
            lemma_in_order_each(rtrimmed(rest), parts.drop_first(), 0);
            assert(parts.drop_first()[0] == parts[1]);
            assert(rtrimmed(rest).len() > 0);
            assert(t.len() == n + rtrimmed(rest).len()) by {
                let m = n + rtrimmed(rest).len();
                assert(rtrimmed(rest).last() == s[m - 1]);
                assert(t.len() >= m);
                if t.len() > m {
                    assert(s[t.len() - 1] == rest[t.len() - 1 - n]);
                    assert(t.last() == s[t.len() - 1]);
                }
            }
            assert(t.skip(n) =~= rtrimmed(rest));
        }
        assert(occurs_at(t, parts[0], i));
        assert(in_order(t.skip(i + parts[0].len()), parts.drop_first()));
    }
}

/// Tight parts that stand in a text in their order still do when it is trimmed.
pub proof fn lemma_in_order_trimmed(s: Seq<char>, parts: Seq<Seq<char>>)
    requires
        in_order(s, parts),
        forall|k: int| 0 <= k < parts.len() ==> (#[trigger] parts[k]).len() > 0 && is_tight(parts[k]),
    ensures
        in_order(trimmed(s), parts),
{
    if parts.len() > 0 {
        let a = trimmed_start(s, CharSet::White);
        let n = lead(s, CharSet::White) as int;
        lemma_lead(s, CharSet::White);
        let i = choose|i: int|
            #[trigger] occurs_at(s, parts[0], i) && in_order(
                s.skip(i + parts[0].len()),
                parts.drop_first(),
            );
        assert(parts[0][0] == s[i]);
        assert(a.subrange(i - n, i - n + parts[0].len()) =~= s.subrange(i, i + parts[0].len()));
        assert(occurs_at(a, parts[0], i - n));
        assert(a.skip(i - n + parts[0].len()) =~= s.skip(i + parts[0].len()));
        lemma_in_order_rtrimmed(a, parts);
    }
}

/// The members of a list stand in the joined list, in their order.
pub proof fn law_joined_holds_all(list: Seq<Seq<char>>, sep: Seq<char>)
    ensures
        in_order(joined(list, sep), list),
    decreases list.len(),
{
    if list.len() == 1 {
        lemma_in_order_one(list[0]);
        assert(list =~= seq![list[0]]);
    } else if list.len() > 1 {
        let before = joined(list.drop_last(), sep);
        law_joined_holds_all(list.drop_last(), sep);
        lemma_in_order_one(list.last());
        lemma_in_order_around(sep, list.last(), Seq::<char>::empty(), seq![list.last()]);
        assert(sep + list.last() + Seq::<char>::empty() =~= sep + list.last());
        lemma_in_order_concat(before, sep + list.last(), list.drop_last(), seq![list.last()]);
        assert(before + (sep + list.last()) =~= joined(list, sep));
        assert(list.drop_last() + seq![list.last()] =~= list);
    }
}

/// Joining two lists that have members.
pub proof fn lemma_joined_concat(a: Seq<Seq<char>>, b: Seq<Seq<char>>, sep: Seq<char>)
    requires
        a.len() > 0,
        b.len() > 0,
    ensures
        joined(a + b, sep) == joined(a, sep) + sep + joined(b, sep),
    decreases b.len(),
{
    assert((a + b).last() == b.last());
    assert((a + b).drop_last() =~= a + b.drop_last());
    if b.len() == 1 {
        assert(a + b.drop_last() =~= a);
    } else {
        lemma_joined_concat(a, b.drop_last(), sep);
        assert(joined(a + b, sep) =~= joined(a, sep) + sep + joined(b, sep));
    }
}

/// Splitting a text at a character and joining the pieces gives the text back, and no piece has
/// the character in it.
pub proof fn law_split_and_join(s: Seq<char>, c: char)
    ensures
        joined(piece_list(s, c), seq![c]) == s,
        forall|k: int|
            0 <= k < piece_list(s, c).len() ==> !(#[trigger] piece_list(s, c)[k]).contains(c),
        piece_list(s, c).len() > 0,
    decreases s.len(),
{
    lemma_lead(s, CharSet::Not(c));
    let n = lead(s, CharSet::Not(c)) as int;
    let first = s.take(n);
    assert forall|k: int| 0 <= k < first.len() implies first[k] != c by {
        assert(CharSet::Not(c).has(s[k]));
    }
    if n < s.len() {
        let rest = s.skip(n + 1);
        law_split_and_join(rest, c);
        lemma_joined_concat(seq![first], piece_list(rest, c), seq![c]);
        assert(s =~= first + seq![c] + rest);
        assert forall|k: int| 0 <= k < piece_list(s, c).len() implies !(#[trigger] piece_list(
            s,
            c,
        )[k]).contains(c) by {
            if k > 0 {
                assert(piece_list(s, c)[k] == piece_list(rest, c)[k - 1]);
            }
        }
    } else {
        assert(first =~= s);
    }
}

/// The run at the start of a text that `set` ends.
pub proof fn lemma_lead_is(s: Seq<char>, set: CharSet, n: int)
    requires
        0 <= n <= s.len(),
        forall|k: int| 0 <= k < n ==> set.has(#[trigger] s[k]),
        n < s.len() ==> !set.has(s[n]),
    ensures
        lead(s, set) == n,
{
    lemma_lead(s, set);
    let m = lead(s, set) as int;
    if m < n {
        assert(set.has(s[m]));
    } else if n < m {
        assert(set.has(s[n]));
    }
}

/// Joining a list by a character that no member has in it, and splitting there, gives the list
/// back.
pub proof fn law_join_and_split(list: Seq<Seq<char>>, c: char)
    requires
        list.len() > 0,
        forall|k: int| 0 <= k < list.len() ==> !(#[trigger] list[k]).contains(c),
    ensures
        piece_list(joined(list, seq![c]), c) == list,
    decreases list.len(),
{
    let s = joined(list, seq![c]);
    let first = list[0];
    if list.len() == 1 {
        assert forall|k: int| 0 <= k < s.len() implies CharSet::Not(c).has(#[trigger] s[k]) by {
            assert(list[0].contains(s[k]));
        }
        lemma_lead_is(s, CharSet::Not(c), s.len() as int);
        assert(list =~= seq![s]);
    } else {
        let rest = list.drop_first();
        assert(list =~= seq![first] + rest);
        lemma_joined_concat(seq![first], rest, seq![c]);
        let n = first.len() as int;
        assert(s =~= first + seq![c] + joined(rest, seq![c]));
        assert forall|k: int| 0 <= k < n implies CharSet::Not(c).has(#[trigger] s[k]) by {
            assert(s[k] == first[k]);
            assert(list[0].contains(s[k]));
        }
        lemma_lead_is(s, CharSet::Not(c), n);
        assert(s.take(n) =~= first);
        assert(s.skip(n + 1) =~= joined(rest, seq![c]));
        assert forall|k: int| 0 <= k < rest.len() implies !(#[trigger] rest[k]).contains(c) by {
            assert(rest[k] == list[k + 1]);
        }
        law_join_and_split(rest, c);
    }
}

/// The lines of a text that was put together of lines are these lines.
pub proof fn law_join_and_read_lines(list: Seq<Seq<char>>)
    requires
        list.len() > 0,
        list.last().len() > 0,
        forall|k: int|
            0 <= k < list.len() ==> !(#[trigger] list[k]).contains('\n') && !list[k].contains('\r'),
    ensures
        line_list(joined(list, seq!['\n'])) == list,
    decreases list.len(),
{
    let s = joined(list, seq!['\n']);
    let first = list[0];
    if list.len() == 1 {
        assert forall|k: int| 0 <= k < s.len() implies CharSet::Not('\n').has(#[trigger] s[k]) by {
            assert(list[0].contains(s[k]));
        }
        lemma_lead_is(s, CharSet::Not('\n'), s.len() as int);
        assert(list =~= seq![s]);
    } else {
        let rest = list.drop_first();
        assert(list =~= seq![first] + rest);
        lemma_joined_concat(seq![first], rest, seq!['\n']);
        let n = first.len() as int;
        assert(s =~= first + seq!['\n'] + joined(rest, seq!['\n']));
        assert forall|k: int| 0 <= k < n implies CharSet::Not('\n').has(#[trigger] s[k]) by {
            assert(s[k] == first[k]);
            assert(list[0].contains(s[k]));
        }
        lemma_lead_is(s, CharSet::Not('\n'), n);
        assert(s.take(n) =~= first);
        if n > 0 {
            assert(list[0].contains(first.last()));
        }
        assert(without_cr(first) == first);
        assert(s.skip(n + 1) =~= joined(rest, seq!['\n']));
        assert forall|k: int| 0 <= k < rest.len() implies !(#[trigger] rest[k]).contains('\n')
            && !rest[k].contains('\r') by {
            assert(rest[k] == list[k + 1]);
        }
        assert(rest.last() == list.last());
        law_join_and_read_lines(rest);
    }
}

/// The characters of `s` that are not white space.
pub open spec fn solid_chars(s: Seq<char>) -> Seq<char> {
    s.filter(|c: char| !is_white(c))
}

/// The words of a text hold all of it but the white space, in its order; none is empty and none
/// has white space in it.
pub proof fn law_words(s: Seq<char>)
    ensures
        word_list(s).flatten() == solid_chars(s),
        forall|k: int|
            0 <= k < word_list(s).len() ==> (#[trigger] word_list(s)[k]).len() > 0 && (forall|i: int|
                0 <= i < word_list(s)[k].len() ==> !is_white(#[trigger] word_list(s)[k][i])),
    decreases s.len(),
{
    let p = |c: char| !is_white(c);
    let m = lead(s, CharSet::White) as int;
    lemma_lead(s, CharSet::White);
    let a = s.take(m);
    let t = trimmed_start(s, CharSet::White);
    assert(s =~= a + t);
    lemma_filter_concat(a, t);
    lemma_filter_none(a);
    if t.len() == 0 {
        assert(t =~= seq![]);
        reveal(Seq::filter);
        assert(solid_chars(t) =~= seq![]);
        assert(word_list(s).flatten() =~= seq![]);
        assert(solid_chars(s) =~= seq![]);
    } else {
        lemma_lead(t, CharSet::NonWhite);
        assert(t[0] == s[m]);
        let n = lead(t, CharSet::NonWhite) as int;
        let w = t.take(n);
        let rest = t.skip(n);
        law_words(rest);
        assert(t =~= w + rest);
        lemma_filter_concat(w, rest);
        assert forall|i: int| 0 <= i < w.len() implies !is_white(#[trigger] w[i]) by {
            assert(CharSet::NonWhite.has(t[i]));
        }
        lemma_filter_all(w);
        let more = word_list(rest);
        assert(word_list(s) == seq![w] + more);
        assert((seq![w] + more).drop_first() =~= more);
        assert((seq![w] + more).flatten() == w + more.flatten());
        assert forall|k: int| 0 <= k < word_list(s).len() implies (#[trigger] word_list(s)[k]).len()
            > 0 && (forall|i: int|
            0 <= i < word_list(s)[k].len() ==> !is_white(#[trigger] word_list(s)[k][i])) by {
            if k > 0 {
                assert(word_list(s)[k] == more[k - 1]);
            }
        }
        assert(solid_chars(s) =~= w + solid_chars(rest));
    }
}

proof fn lemma_filter_concat(a: Seq<char>, b: Seq<char>)
    ensures
        solid_chars(a + b) == solid_chars(a) + solid_chars(b),
    decreases b.len(),
{
    reveal(Seq::filter);
    if b.len() == 0 {
        assert(a + b =~= a);
        assert(solid_chars(b) =~= seq![]);
        assert(solid_chars(a) + solid_chars(b) =~= solid_chars(a));
    } else {
        assert((a + b).drop_last() =~= a + b.drop_last());
        lemma_filter_concat(a, b.drop_last());
        assert(solid_chars(a + b) =~= solid_chars(a) + solid_chars(b));
    }
}

proof fn lemma_filter_none(a: Seq<char>)
    requires
        forall|i: int| 0 <= i < a.len() ==> is_white(#[trigger] a[i]),
    ensures
        solid_chars(a) == Seq::<char>::empty(),
    decreases a.len(),
{
    reveal(Seq::filter);
    if a.len() > 0 {
        assert(is_white(a.last()));
        lemma_filter_none(a.drop_last());
    }
}

proof fn lemma_filter_all(a: Seq<char>)
    requires
        forall|i: int| 0 <= i < a.len() ==> !is_white(#[trigger] a[i]),
    ensures
        solid_chars(a) == a,
    decreases a.len(),
{
    reveal(Seq::filter);
    if a.len() > 0 {
        lemma_filter_all(a.drop_last());
        assert(a.drop_last().push(a.last()) =~= a);
    } else {
        assert(a =~= seq![]);
    }
}

/// The number that decimal digits stand for.
pub open spec fn number_of(digits: Seq<char>) -> int
    decreases digits.len(),
{
    if digits.len() == 0 {
        0
    } else {
        10 * number_of(digits.drop_last()) + (digits.last() as int - '0' as int)
    }
}

/// A number in decimal is digits that stand for it, without a zero in front.
pub proof fn law_decimal(n: nat)
    ensures
        number_of(decimal(n)) == n,
        decimal(n).len() > 0,
        forall|i: int| 0 <= i < decimal(n).len() ==> is_digit(#[trigger] decimal(n)[i]),
        n > 0 ==> decimal(n)[0] != '0',
    decreases n,
{
    reveal_with_fuel(number_of, 2);
    if n < 10 {
        assert(decimal(n).drop_last() =~= seq![]);
    } else {
        law_decimal(n / 10);
        assert(decimal(n).drop_last() =~= decimal(n / 10));
        assert(decimal(n)[0] == decimal(n / 10)[0]);
    }
}

/// How long rows are together, with a line feed between them.
pub open spec fn joined_len(rows: Seq<Seq<char>>) -> nat
    decreases rows.len(),
{
    if rows.len() == 0 {
        0
    } else {
        joined_len(rows.drop_last()) + rows.last().len() + 1
    }
}

/// Those of `rows` that are not blank, trimmed.
pub open spec fn solid_rows(rows: Seq<Seq<char>>) -> Seq<Seq<char>>
    decreases rows.len(),
{
    if rows.len() == 0 {
        seq![]
    } else if trimmed(rows.last()).len() > 0 {
        solid_rows(rows.drop_last()).push(trimmed(rows.last()))
    } else {
        solid_rows(rows.drop_last())
    }
}

/// What is joined is as long as its parts and what stands between them.
pub proof fn lemma_joined_len(rows: Seq<Seq<char>>)
    ensures
        joined(rows, seq!['\n']).len() <= joined_len(rows),
    decreases rows.len(),
{
    if rows.len() > 1 {
        lemma_joined_len(rows.drop_last());
    } else if rows.len() == 1 {
        assert(rows.last() == rows[0]);
    }
}

/// What is joined starts and ends as its first and its last part do.
pub proof fn lemma_joined_ends(rows: Seq<Seq<char>>)
    requires
        rows.len() > 0,
        rows[0].len() > 0,
        rows.last().len() > 0,
    ensures
        joined(rows, seq!['\n']).len() > 0,
        joined(rows, seq!['\n'])[0] == rows[0][0],
        joined(rows, seq!['\n']).last() == rows.last().last(),
{
    if rows.len() > 1 {
        let first = seq![rows[0]];
        let rest = rows.drop_first();
        assert(first + rest =~= rows);
        lemma_joined_concat(first, rest, seq!['\n']);
        assert(joined(first, seq!['\n']) == rows[0]);
        let init = rows.drop_last();
        assert(init + seq![rows.last()] =~= rows);
        lemma_joined_concat(init, seq![rows.last()], seq!['\n']);
        assert(joined(seq![rows.last()], seq!['\n']) == rows.last());
    }
}

proof fn lemma_trimmed_in(before: Seq<char>, row: Seq<char>)
    ensures
        in_order(before + row, seq![trimmed(row)]),
{
    let t = trimmed(row);
    lemma_trimmed_part(row);
    lemma_lead(row, CharSet::White);
    let i = lead(row, CharSet::White) as int;
    let a = before + row.take(i);
    let c = row.skip(i + t.len());
    assert(before + row =~= a + t + c);
    lemma_in_order_one(t);
    lemma_in_order_around(a, t, c, seq![t]);
}

/// Rows that are not blank stand in the joined rows, in their order.
pub proof fn lemma_solid_rows(rows: Seq<Seq<char>>)
    ensures
        in_order(joined(rows, seq!['\n']), solid_rows(rows)),
        forall|k: int|
            0 <= k < solid_rows(rows).len() ==> (#[trigger] solid_rows(rows)[k]).len() > 0
                && is_tight(solid_rows(rows)[k]),
    decreases rows.len(),
{
    if rows.len() > 0 {
        let init = rows.drop_last();
        let last = rows.last();
        let before = joined(init, seq!['\n']);
        lemma_solid_rows(init);
        let sep = if init.len() > 0 {
            seq!['\n']
        } else {
            Seq::<char>::empty()
        };
        let tail = sep + last;
        assert(joined(rows, seq!['\n']) =~= before + tail) by {
            if init.len() == 0 {
                assert(before =~= seq![]);
                assert(rows[0] == last);
            }
        }
        let t = trimmed(last);
        if t.len() > 0 {
            lemma_trimmed(last);
            lemma_trimmed_in(sep, last);
            lemma_in_order_concat(before, tail, solid_rows(init), seq![t]);
            assert(solid_rows(init) + seq![t] =~= solid_rows(rows));
        } else {
            lemma_in_order_around(Seq::<char>::empty(), before, tail, solid_rows(init));
            assert(Seq::<char>::empty() + before + tail =~= before + tail);
        }
    }
}

/// What the text of rows says: the rows that are not blank stand in it, trimmed and in their
/// order, and where neither end of it is blank, splitting it at line feeds gives back exactly
/// the rows.
pub open spec fn is_text_of_rows(s: Seq<char>, rows: Seq<Seq<char>>) -> bool {
    &&& in_order(s, solid_rows(rows))
    &&& rows.len() > 0 && rows[0].len() > 0 && !is_white(rows[0][0]) && rows.last().len() > 0
        && !is_white(rows.last().last()) && (forall|r: int|
        0 <= r < rows.len() ==> !(#[trigger] rows[r]).contains('\n')) ==> piece_list(s, '\n')
        == rows
}

/// Joined and trimmed rows are the text of the rows.
pub proof fn lemma_text_of_rows(rows: Seq<Seq<char>>)
    ensures
        is_text_of_rows(trimmed(joined(rows, seq!['\n'])), rows),
{
    let whole = joined(rows, seq!['\n']);
    lemma_solid_rows(rows);
    lemma_in_order_trimmed(whole, solid_rows(rows));
    if rows.len() > 0 && rows[0].len() > 0 && !is_white(rows[0][0]) && rows.last().len() > 0
        && !is_white(rows.last().last()) && forall|r: int|
        0 <= r < rows.len() ==> !(#[trigger] rows[r]).contains('\n') {
        lemma_joined_ends(rows);
        lemma_trimmed_same(whole);
        law_join_and_split(rows, '\n');
    }
}

/// A text has at least as many bytes as characters.
pub proof fn lemma_bytes_of_chars(s: Seq<char>)
    ensures
        s.len() <= byte_len(s),
    decreases s.len(),
{
    if s.len() > 0 {
        let init = s.drop_last();
        lemma_bytes_of_chars(init);
        lemma_byte_len_push(init, s.last());
        assert(init.push(s.last()) =~= s);
        assert(char_bytes(s.last()) >= 1);
    }
}

/// What is left of a text when the white space around it is taken off.
pub proof fn law_trimmed_core(before: Seq<char>, core: Seq<char>, after: Seq<char>)
    requires
        core.len() > 0,
        is_tight(core),
        forall|k: int| 0 <= k < before.len() ==> is_white(#[trigger] before[k]),
        forall|k: int| 0 <= k < after.len() ==> is_white(#[trigger] after[k]),
    ensures
        trimmed(before + core + after) == core,
        rtrimmed(core + after) == core,
{
    let s = before + core + after;
    let n = before.len() as int;
    assert forall|k: int| 0 <= k < n implies CharSet::White.has(#[trigger] s[k]) by {
        assert(s[k] == before[k]);
    }
    assert(s[n] == core[0]);
    lemma_lead_is(s, CharSet::White, n);
    let t = core + after;
    assert(s.skip(n) =~= t);
    let kept = rtrimmed(t);
    lemma_rtrimmed(t);
    if kept.len() > core.len() {
        let i = (kept.len() - 1) as int;
        assert(kept[i] == t[i]);
        assert(t[i] == after[i - core.len()]);
    }
    if kept.len() < core.len() {
        let i = (core.len() - 1) as int;
        assert(t[i] == core.last());
    }
    assert(kept =~= core);
}

/// A pattern stands where its characters stand, one after the other; the first place of it is
/// one with none before, and there is none exactly where it does not occur.
pub proof fn law_first_place(s: Seq<char>, pat: Seq<char>, i: int)
    ensures
        occurs_at(s, pat, i) ==> 0 <= i <= s.len() - pat.len() && (forall|k: int|
            0 <= k < pat.len() ==> s[i + k] == #[trigger] pat[k]),
        occurs_at(s, pat, i) ==> (first_sub(s, pat) matches Some(k) ==> k <= i),
        occurs_at(s, pat, i) ==> first_sub(s, pat) is Some,
        first_sub(s, pat) matches Some(k) ==> occurs_at(s, pat, k),
{
    lemma_first_sub_from(s, pat, 0);
    if occurs_at(s, pat, i) {
        assert forall|k: int| 0 <= k < pat.len() implies s[i + k] == #[trigger] pat[k] by {
            assert(s.subrange(i, i + pat.len())[k] == s[i + k]);
        }
    }
}

/// Replacing leaves a text without the pattern as it is; otherwise the first occurrence gives way
/// to the new text, and the rest is treated alike.
pub proof fn law_replaced(s: Seq<char>, pat: Seq<char>, with: Seq<char>, k: int)
    requires
        pat.len() > 0,
    ensures
        (forall|j: int| !#[trigger] occurs_at(s, pat, j)) ==> replaced(s, pat, with) == s,
        occurs_at(s, pat, k) && (forall|j: int| j < k ==> !#[trigger] occurs_at(s, pat, j))
            ==> replaced(s, pat, with) == s.take(k) + with + replaced(
            s.skip(k + pat.len()),
            pat,
            with,
        ),
{
    lemma_first_sub_from(s, pat, 0);
    if occurs_at(s, pat, k) && (forall|j: int| j < k ==> !#[trigger] occurs_at(s, pat, j)) {
        let f = first_sub(s, pat)->0;
        assert(occurs_at(s, pat, f));
        assert(f == k);
    }
}

/// Changing the case touches the ASCII letters alone, and keeps the letter.
pub proof fn law_cases(s: Seq<char>, i: int)
    requires
        0 <= i < s.len(),
    ensures
        lowered(s).len() == s.len(),
        uppered(s).len() == s.len(),
        'A' <= s[i] <= 'Z' ==> lowered(s)[i] as u32 == s[i] as u32 + 32,
        !('A' <= s[i] <= 'Z') ==> lowered(s)[i] == s[i],
        'a' <= s[i] <= 'z' ==> uppered(s)[i] as u32 == s[i] as u32 - 32,
        !('a' <= s[i] <= 'z') ==> uppered(s)[i] == s[i],
        lowered(uppered(s))[i] == lowered(s)[i],
{
}

/// A text is its first characters and the ones after them.
pub proof fn law_first_and_after(s: Seq<char>, n: nat)
    ensures
        first_chars(s, n) + after_chars(s, n) == s,
        first_chars(s, n).len() == n || first_chars(s, n) == s && s.len() < n,
{
}

/// A text loses a pattern at its start as often as it stands there, and nothing else; so at its
/// end.
pub proof fn law_without_ends(s: Seq<char>, pat: Seq<char>)
    requires
        pat.len() > 0,
    ensures
        without_leading(pat + s, pat) == without_leading(s, pat),
        !pat.is_prefix_of(s) ==> without_leading(s, pat) == s,
        without_trailing(s + pat, pat) == without_trailing(s, pat),
        !pat.is_suffix_of(s) ==> without_trailing(s, pat) == s,
{
    assert((pat + s).take(pat.len() as int) =~= pat);
    assert((pat + s).skip(pat.len() as int) =~= s);
    assert((s + pat).skip(s.len() as int) =~= pat);
    assert((s + pat).take((s + pat).len() - pat.len()) =~= s);
}

/// What the sets of characters are.
pub proof fn law_char_sets(c: char, d: char)
    ensures
        CharSet::Digits.has(c) <==> '0' <= c <= '9',
        CharSet::Alnum.has(c) <==> 'a' <= c <= 'z' || 'A' <= c <= 'Z' || '0' <= c <= '9',
        CharSet::OptionName.has(c) <==> CharSet::Alnum.has(c) || c == '-' || c == '_',
        CharSet::White.has(c) <==> !CharSet::NonWhite.has(c),
        CharSet::Just(d).has(c) <==> !CharSet::Not(d).has(c),
        CharSet::Just(d).has(c) <==> c == d,
        CharSet::Digits.has(c) || c == ';' <==> CharSet::EscapeParams.has(c),
        c as u32 <= 0x20 ==> (is_white(c) <==> c == ' ' || c == '\t' || c == '\n' || c == '\r' || c
            as u32 == 0xb || c as u32 == 0xc),
        0x20 < c as u32 <= 0x7e ==> !is_white(c) && !is_ctrl(c),
        is_ctrl(c) <==> (c as u32) < 0x20 || 0x7f <= c as u32 <= 0x9f,
{
}

/// A number below zero is written with a sign in front of its digits.
pub proof fn law_signed_decimal(n: int)
    ensures
        n >= 0 ==> number_of(signed_decimal(n)) == n,
        n < 0 ==> signed_decimal(n)[0] == '-' && number_of(signed_decimal(n).drop_first()) == -n,
{
    if n < 0 {
        law_decimal((-n) as nat);
        assert(signed_decimal(n).drop_first() =~= decimal((-n) as nat));
    } else {
        law_decimal(n as nat);
    }
}

/// A part that stands behind a character is what comes before the next such character.
pub proof fn law_before(a: Seq<char>, c: char, b: Seq<char>)
    requires
        !a.contains(c),
    ensures
        before(a + seq![c] + b, c) == a,
        before(a, c) == a,
        first_char(a + seq![c] + b, c) == Some(a.len() as int),
        first_char(a, c) is None,
        last_char(b + seq![c] + a, c) == Some(b.len() as int),
        last_char(a, c) is None,
{
    let s = a + seq![c] + b;
    let n = a.len() as int;
    assert forall|k: int| 0 <= k < n implies CharSet::Not(c).has(#[trigger] s[k])
        && CharSet::Not(c).has(a[k]) by {
        assert(s[k] == a[k]);
        assert(a.contains(a[k]));
    }
    assert forall|k: int| 0 <= k < n implies CharSet::Not(c).has(#[trigger] a[k]) by {
        assert(a.contains(a[k]));
    }
    lemma_lead_is(s, CharSet::Not(c), n);
    lemma_lead_is(a, CharSet::Not(c), n);
    assert(s.take(n) =~= a);
    assert(a.take(n) =~= a);
    let t = b + seq![c] + a;
    lemma_trail(t, CharSet::Not(c));
    lemma_trail(a, CharSet::Not(c));
    let m = trail(t, CharSet::Not(c)) as int;
    if m < n {
        assert(t[t.len() - 1 - m] == a[n - 1 - m]);
    }
    if m > n {
        assert(t[b.len() as int] == c);
    }
    let p = trail(a, CharSet::Not(c)) as int;
    if p < n {
        assert(CharSet::Not(c).has(a[n - 1 - p]));
    }
}

/// Words that were joined with spaces are read back.
pub proof fn law_join_and_read_words(list: Seq<Seq<char>>)
    requires
        forall|k: int|
            0 <= k < list.len() ==> (#[trigger] list[k]).len() > 0 && (forall|i: int|
                0 <= i < list[k].len() ==> !is_white(#[trigger] list[k][i])),
    ensures
        word_list(joined(list, seq![' '])) == list,
    decreases list.len(),
{
    let s = joined(list, seq![' ']);
    if list.len() == 0 {
        assert(trimmed_start(s, CharSet::White).len() == 0);
        assert(word_list(s) =~= list);
    } else {
        let w = list[0];
        let rest = list.drop_first();
        assert forall|k: int| 0 <= k < rest.len() implies (#[trigger] rest[k]).len() > 0 && (forall|
            i: int,
        |
            0 <= i < rest[k].len() ==> !is_white(#[trigger] rest[k][i])) by {
            assert(rest[k] == list[k + 1]);
        }
        law_join_and_read_words(rest);
        let more = joined(rest, seq![' ']);
        if rest.len() > 0 {
            lemma_joined_concat(seq![w], rest, seq![' ']);
            assert(seq![w] + rest =~= list);
            assert(joined(seq![w], seq![' ']) == w);
        } else {
            assert(s == w);
        }
        let n = w.len() as int;
        assert forall|k: int| 0 <= k < n implies CharSet::NonWhite.has(#[trigger] s[k]) by {
            assert(s[k] == w[k]);
        }
        lemma_lead_is(s, CharSet::White, 0);
        assert(s.skip(0) =~= s);
        lemma_lead_is(s, CharSet::NonWhite, n);
        assert(s.take(n) =~= w);
        if rest.len() > 0 {
            let tail = s.skip(n);
            assert(tail =~= seq![' '] + more);
            assert(tail.drop_first() =~= more);
            assert(CharSet::White.has(tail[0]));
            lemma_lead(more, CharSet::White);
            assert(lead(tail, CharSet::White) == 1 + lead(more, CharSet::White));
            assert(trimmed_start(tail, CharSet::White) =~= trimmed_start(more, CharSet::White));
            assert(word_list(tail) == word_list(more));
        } else {
            let tail = s.skip(n);
            assert(tail =~= Seq::<char>::empty());
            assert(trimmed_start(tail, CharSet::White).len() == 0);
            assert(word_list(tail) =~= rest);
        }
        assert(seq![w] + rest =~= list);
    }
}

/// White space parts the words on its two sides, and nothing else is made of it.
pub proof fn law_words_are_parted(a: Seq<char>, w: char, b: Seq<char>)
    requires
        is_white(w),
    ensures
        word_list(a + seq![w] + b) == word_list(a) + word_list(b),
    decreases a.len(),
{
    let s = a + seq![w] + b;
    let m = lead(a, CharSet::White) as int;
    lemma_lead(a, CharSet::White);
    if m == a.len() {
        lemma_lead(b, CharSet::White);
        let k = lead(b, CharSet::White) as int;
        let n = m + 1 + k;
        assert forall|i: int| 0 <= i < n implies CharSet::White.has(#[trigger] s[i]) by {
            if i < m {
                assert(s[i] == a[i]);
            } else if i > m {
                assert(s[i] == b[i - m - 1]);
            }
        }
        if n < s.len() {
            assert(s[n] == b[k]);
        }
        lemma_lead_is(s, CharSet::White, n);
        assert(s.skip(n) =~= b.skip(k));
        assert(trimmed_start(a, CharSet::White).len() == 0);
        assert(word_list(a) =~= seq![]);
        assert(word_list(s) == word_list(b));
        assert(word_list(a) + word_list(b) =~= word_list(b));
    } else {
        let t = a.skip(m);
        assert(t[0] == a[m]);
        lemma_lead(t, CharSet::NonWhite);
        let n = lead(t, CharSet::NonWhite) as int;
        let rest = t.skip(n);
        let u = t + seq![w] + b;
        assert forall|i: int| 0 <= i < m implies CharSet::White.has(#[trigger] s[i]) by {
            assert(s[i] == a[i]);
        }
        assert(s[m] == a[m]);
        lemma_lead_is(s, CharSet::White, m);
        assert(s.skip(m) =~= u);
        assert forall|i: int| 0 <= i < n implies CharSet::NonWhite.has(#[trigger] u[i]) by {
            assert(u[i] == t[i]);
        }
        if n < t.len() {
            assert(u[n] == t[n]);
        } else {
            assert(u[n] == w);
        }
        lemma_lead_is(u, CharSet::NonWhite, n);
        assert(u.take(n) =~= t.take(n));
        assert(u.skip(n) =~= rest + seq![w] + b);
        law_words_are_parted(rest, w, b);
        assert(word_list(s) == seq![t.take(n)] + (word_list(rest) + word_list(b)));
        assert(word_list(a) == seq![t.take(n)] + word_list(rest));
        assert(word_list(s) =~= word_list(a) + word_list(b));
    }
}

/// White space at the end makes no word.
pub proof fn lemma_words_before_white(a: Seq<char>, w: char)
    requires
        is_white(w),
    ensures
        word_list(a.push(w)) == word_list(a),
{
    let none = Seq::<char>::empty();
    law_words_are_parted(a, w, none);
    assert(a + seq![w] + none =~= a.push(w));
    assert(trimmed_start(none, CharSet::White).len() == 0);
    assert(word_list(none) =~= seq![]);
    assert(word_list(a) + seq![] =~= word_list(a));
}

/// White space around a text makes no word.
pub proof fn lemma_words_trimmed(s: Seq<char>)
    ensures
        word_list(trimmed(s)) == word_list(s),
{
    let t = trimmed_start(s, CharSet::White);
    lemma_lead(s, CharSet::White);
    if t.len() > 0 {
        assert(t[0] == s[lead(s, CharSet::White) as int]);
        lemma_lead_is(t, CharSet::White, 0);
    }
    assert(trimmed_start(t, CharSet::White) =~= t);
    assert(word_list(t) == word_list(s));
    lemma_words_rtrimmed(t);
}

proof fn lemma_words_rtrimmed(s: Seq<char>)
    ensures
        word_list(rtrimmed(s)) == word_list(s),
    decreases s.len(),
{
    if s.len() > 0 && is_white(s.last()) {
        let init = s.drop_last();
        lemma_words_before_white(init, s.last());
        assert(init.push(s.last()) =~= s);
        lemma_words_rtrimmed(init);
        lemma_trail(init, CharSet::White);
        assert(rtrimmed(s) =~= rtrimmed(init));
    } else {
        assert(rtrimmed(s) =~= s);
    }
}

} // verus!
