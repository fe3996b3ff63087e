//! Text on a grid of columns: how wide it is, how it is cut, padded and wrapped.
//!
//! A row of the overlay holds a fixed number of columns. A character takes none, one
//! or two of them, rarely three, so rows are measured in columns and never in characters.

use crate::text;
use crate::text::CharSet;
use unicode_width::UnicodeWidthChar;
use vstd::prelude::*;
use vstd::string::*;

verus! {

broadcast use vstd::string::group_string_axioms;

// ── Width ────────────────────────────────────────────────────────────────────

/// How many columns the Unicode tables give a character; `None` for a control character.
pub uninterp spec fn char_columns(c: char) -> Option<usize>;

/// `UnicodeWidthChar::width` of the `unicode-width` crate.
///
/// Trusted: the width is that of the crate's tables, a function of the character alone.
/// A printable ASCII character takes one column, a control character has no width, and
/// no character takes more columns than its UTF-8 form has bytes. What the tables hold
/// for the other characters is not spelled out.
#[verifier::external_body]
fn table_width(c: char) -> (r: Option<usize>)
    ensures
        r == char_columns(c),
        ' ' <= c <= '~' ==> r == Some(1usize),
        text::is_ctrl(c) ==> r is None,
        r matches Some(w) ==> w <= text::char_bytes(c),
{
    c.width()
}

/// How many columns `c` takes on a row.
pub open spec fn width_of(c: char) -> nat {
    match char_columns(c) {
        Some(w) => w as nat,
        None => 0,
    }
}

/// How many columns `s` takes on a row.
pub open spec fn columns(s: Seq<char>) -> nat
    decreases s.len(),
{
    if s.len() == 0 {
        0
    } else {
        columns(s.drop_last()) + width_of(s.last())
    }
}

/// Two texts side by side take the columns of both.
pub proof fn lemma_columns_concat(a: Seq<char>, b: Seq<char>)
    ensures
        columns(a + b) == columns(a) + columns(b),
    decreases b.len(),
{
    if b.len() == 0 {
        assert(a + b =~= a);
    } else {
        assert((a + b).drop_last() =~= a + b.drop_last());
        lemma_columns_concat(a, b.drop_last());
    }
}

/// A text takes one character's columns more when the character is added.
pub proof fn lemma_columns_push(a: Seq<char>, c: char)
    ensures
        columns(a.push(c)) == columns(a) + width_of(c),
{
    assert(a.push(c).drop_last() =~= a);
}

/// How many columns `c` takes on a row.
pub fn char_display_width(c: char) -> (r: usize)
    ensures
        r == width_of(c),
        ' ' <= c <= '~' ==> r == 1,
        text::is_ctrl(c) ==> r == 0,
        r <= text::char_bytes(c),
{
    match table_width(c) {
        Some(w) => w,
        None => 0,
    }
}

/// How many columns `text` takes on a row.
pub fn text_display_width(text: &str) -> (r: usize)
    ensures
        r == columns(text@),
        r <= text::byte_len(text@),
{
    let chars = text::chars_of(text);
    let bytes = text::len_bytes(text);
    let mut width: usize = 0;
    let mut i: usize = 0;
    assert(text@.take(0) =~= seq![]);
    while i < chars.len()
        invariant
            chars@ == text@,
            i <= chars@.len(),
            bytes == text::byte_len(text@),
            width == columns(text@.take(i as int)),
            width <= text::byte_len(text@.take(i as int)),
        decreases chars@.len() - i,
    {
        let w = char_display_width(chars[i]);
        proof {
            let head = text@.take(i as int);
            assert(text@.take(i + 1) =~= head.push(text@[i as int]));
            lemma_columns_push(head, text@[i as int]);
            text::lemma_byte_len_push(head, text@[i as int]);
            assert(text@.take(i + 1) + text@.skip(i + 1) =~= text@);
            text::lemma_byte_len_concat(text@.take(i + 1), text@.skip(i + 1));
        }
        width += w;
        i += 1;
    }
    assert(text@.take(i as int) =~= text@);
    width
}

// ── Cutting and padding ──────────────────────────────────────────────────────

/// How many characters at the start of `s` fit in `cols` columns.
pub open spec fn fitting(s: Seq<char>, cols: int) -> nat
    decreases s.len(),
{
    if s.len() == 0 || width_of(s[0]) > cols {
        0
    } else {
        1 + fitting(s.drop_first(), cols - width_of(s[0]))
    }
}

/// As much of the start of `s` as fits in `cols` columns: nothing where there are none.
pub open spec fn cut(s: Seq<char>, cols: nat) -> Seq<char> {
    if cols == 0 {
        seq![]
    } else {
        s.take(fitting(s, cols as int) as int)
    }
}

/// `s` in exactly `cols` columns: cut, then filled with spaces.
pub open spec fn padded(s: Seq<char>, cols: nat) -> Seq<char> {
    let kept = cut(s, cols);
    kept + text::repeated(' ', if columns(kept) <= cols { (cols - columns(kept)) as nat } else { 0 })
}

/// What fits is a start of the text, fits, and is the longest that does.
pub proof fn lemma_fitting(s: Seq<char>, cols: int)
    requires
        0 <= cols,
    ensures
        fitting(s, cols) <= s.len(),
        columns(s.take(fitting(s, cols) as int)) <= cols,
        forall|n: int| #![trigger s.take(n)]
            fitting(s, cols) < n <= s.len() ==> columns(s.take(n)) > cols,
    decreases s.len(),
{
    if s.len() == 0 {
        assert(s.take(0) =~= seq![]);
    } else {
        let w = width_of(s[0]);
        let rest = s.drop_first();
        assert forall|n: int| 1 <= n <= s.len() implies #[trigger] columns(s.take(n)) == w + columns(
            rest.take(n - 1),
        ) by {
            assert(s.take(n) =~= seq![s[0]] + rest.take(n - 1));
            lemma_columns_concat(seq![s[0]], rest.take(n - 1));
            lemma_columns_push(Seq::empty(), s[0]);
            assert(Seq::<char>::empty().push(s[0]) =~= seq![s[0]]);
        }
        if w > cols {
            assert(s.take(0) =~= seq![]);
            assert forall|n: int| 0 < n <= s.len() implies columns(#[trigger] s.take(n)) > cols by {
                assert(columns(s.take(n)) == w + columns(rest.take(n - 1)));
            }
        } else {
            lemma_fitting(rest, cols - w);
            let k = fitting(rest, cols - w) as int;
            assert(columns(s.take(k + 1)) == w + columns(rest.take(k)));
            assert forall|n: int| k + 1 < n <= s.len() implies columns(#[trigger] s.take(n))
                > cols by {
                assert(columns(s.take(n)) == w + columns(rest.take(n - 1)));
            }
        }
    }
}

/// Spaces take one column each.
proof fn lemma_spaces(n: nat)
    requires
        width_of(' ') == 1,
    ensures
        columns(text::repeated(' ', n)) == n,
    decreases n,
{
    if n > 0 {
        assert(text::repeated(' ', n).drop_last() =~= text::repeated(' ', (n - 1) as nat));
        lemma_spaces((n - 1) as nat);
    }
}

/// As much of the start of `text` as fits in `max_cols` columns.
///
/// What is kept takes at most `max_cols` columns.
pub fn truncate_to_width(text: &str, max_cols: usize) -> (r: String)
    ensures
        r@ == cut(text@, max_cols as nat),
        columns(r@) <= max_cols,
{
    if max_cols == 0 {
        return String::new();
    }
    let chars = text::chars_of(text);
    let mut width: usize = 0;
    let mut i: usize = 0;
    assert(text@.take(0) =~= seq![]);
    assert(text@.skip(0) =~= text@);
    while i < chars.len()
        invariant_except_break
            i + fitting(text@.skip(i as int), max_cols - width) == fitting(text@, max_cols as int),
        invariant
            chars@ == text@,
            i <= chars@.len(),
            width <= max_cols,
        ensures
            i == fitting(text@, max_cols as int),
        decreases chars@.len() - i,
    {
        let w = char_display_width(chars[i]);
        assert(text@.skip(i as int).drop_first() =~= text@.skip(i + 1));
        if w > max_cols - width {
            break;
        }
        width += w;
        i += 1;
    }
    proof {
        lemma_fitting(text@, max_cols as int);
    }
    text::take(text, i).to_owned()
}

/// `text` in exactly `cols` columns: cut where it is longer, filled with spaces where it
/// is shorter.
pub fn pad_line(text: &str, cols: usize) -> (r: String)
    ensures
        r@ == padded(text@, cols as nat),
        columns(r@) == cols,
{
    let mut s = truncate_to_width(text, cols);
    let width = text_display_width(s.as_str());
    // Spaces fill the row because each of them is one column wide.
    let _space: usize = char_display_width(' ');
    assert(width_of(' ') == 1);
    let pad: usize = cols - width;
    let spaces = text::repeat(' ', pad);
    proof {
        lemma_spaces(pad as nat);
        lemma_columns_concat(s@, spaces@);
    }
    s.append(spaces.as_str());
    s
}

// ── Wrapping ─────────────────────────────────────────────────────────────────

/// The rows of `s`, broken between characters, where `current` is the row begun.
pub open spec fn char_rows(s: Seq<char>, cols: nat, current: Seq<char>) -> Seq<Seq<char>>
    decreases s.len(),
{
    if s.len() == 0 {
        if current.len() > 0 {
            seq![current]
        } else {
            seq![]
        }
    } else if current.len() > 0 && columns(current) + width_of(s[0]) > cols {
        seq![current] + char_rows(s.drop_first(), cols, seq![s[0]])
    } else {
        char_rows(s.drop_first(), cols, current.push(s[0]))
    }
}

/// The rows of one word that is broken between characters.
pub open spec fn word_rows(word: Seq<char>, cols: nat) -> Seq<Seq<char>> {
    if cols == 0 || word.len() == 0 {
        seq![seq![]]
    } else {
        char_rows(word, cols, seq![])
    }
}

/// The rows of `words`, where `current` is the row begun, `width` columns wide.
pub open spec fn filled_rows(
    words: Seq<Seq<char>>,
    cols: nat,
    current: Seq<char>,
    width: nat,
) -> Seq<Seq<char>>
    decreases words.len(),
{
    let begun = if current.len() > 0 {
        seq![current]
    } else {
        seq![]
    };
    if words.len() == 0 {
        begun
    } else {
        let word = words[0];
        let rest = words.drop_first();
        if columns(word) > cols {
            begun + word_rows(word, cols) + filled_rows(rest, cols, seq![], 0)
        } else if current.len() == 0 {
            filled_rows(rest, cols, word, columns(word))
        } else if width + 1 + columns(word) <= cols {
            filled_rows(rest, cols, current + seq![' '] + word, width + 1 + columns(word))
        } else {
            begun + filled_rows(rest, cols, word, columns(word))
        }
    }
}

/// The rows of `line`, broken between words, and within a word that no row can hold.
pub open spec fn line_rows(line: Seq<char>, cols: nat) -> Seq<Seq<char>> {
    let rows = filled_rows(text::word_list(line), cols, seq![], 0);
    if line.len() == 0 || cols == 0 || rows.len() == 0 {
        seq![seq![]]
    } else {
        rows
    }
}

/// Each of `rows` with `prefix` before it.
pub open spec fn indented(prefix: Seq<char>, rows: Seq<Seq<char>>) -> Seq<Seq<char>> {
    Seq::new(rows.len(), |i: int| prefix + rows[i])
}

/// The white space at the start of `line`.
pub open spec fn indent_of(line: Seq<char>) -> Seq<char> {
    line.take(text::lead(line, CharSet::White) as int)
}

/// `line` without the white space at its start.
pub open spec fn content_of(line: Seq<char>) -> Seq<char> {
    line.skip(text::lead(line, CharSet::White) as int)
}

/// The rows of `line`, each with the indent of `line`.
pub open spec fn wrapped(line: Seq<char>, cols: nat) -> Seq<Seq<char>> {
    let prefix = indent_of(line);
    let content = content_of(line);
    if line.len() == 0 || cols == 0 {
        seq![seq![]]
    } else if columns(prefix) >= cols {
        seq![cut(line, cols)]
    } else if content.len() == 0 {
        seq![prefix]
    } else {
        indented(prefix, line_rows(content, (cols - columns(prefix)) as nat))
    }
}

/// Whether a row keeps within `cols` columns, or is a single character that is wider.
pub open spec fn row_fits(row: Seq<char>, cols: nat) -> bool {
    columns(row) <= cols || row.len() == 1
}

/// Whether all of `rows` keep within `cols` columns.
pub open spec fn rows_fit(rows: Seq<Seq<char>>, cols: nat) -> bool {
    forall|i: int| 0 <= i < rows.len() ==> row_fits(#[trigger] rows[i], cols)
}

/// The characters of `s` that are not white space.
pub open spec fn solid(s: Seq<char>) -> Seq<char>
    decreases s.len(),
{
    if s.len() == 0 {
        seq![]
    } else if text::is_white(s.last()) {
        solid(s.drop_last())
    } else {
        solid(s.drop_last()).push(s.last())
    }
}

/// The characters of `rows` that are not white space, row after row.
pub open spec fn all_solid(rows: Seq<Seq<char>>) -> Seq<char>
    decreases rows.len(),
{
    if rows.len() == 0 {
        seq![]
    } else {
        solid(rows[0]) + all_solid(rows.drop_first())
    }
}

proof fn lemma_solid_concat(a: Seq<char>, b: Seq<char>)
    ensures
        solid(a + b) == solid(a) + solid(b),
    decreases b.len(),
{
    if b.len() == 0 {
        assert(a + b =~= a);
        assert(solid(a) + solid(b) =~= solid(a));
    } else {
        assert((a + b).drop_last() =~= a + b.drop_last());
        lemma_solid_concat(a, b.drop_last());
        assert(solid(a) + solid(b.drop_last()).push(b.last()) =~= (solid(a) + solid(
            b.drop_last(),
        )).push(b.last()));
    }
}

proof fn lemma_all_solid_concat(a: Seq<Seq<char>>, b: Seq<Seq<char>>)
    ensures
        all_solid(a + b) == all_solid(a) + all_solid(b),
    decreases a.len(),
{
    if a.len() == 0 {
        assert(a + b =~= b);
        assert(all_solid(a) + all_solid(b) =~= all_solid(b));
    } else {
        assert((a + b).drop_first() =~= a.drop_first() + b);
        lemma_all_solid_concat(a.drop_first(), b);
        assert(solid(a[0]) + (all_solid(a.drop_first()) + all_solid(b)) =~= (solid(a[0])
            + all_solid(a.drop_first())) + all_solid(b));
    }
}

proof fn lemma_all_solid_one(row: Seq<char>)
    ensures
        all_solid(seq![row]) == solid(row),
{
    assert(seq![row].drop_first() =~= seq![]);
    assert(all_solid(seq![]) =~= seq![]);
    assert(solid(row) + Seq::<char>::empty() =~= solid(row));
}

proof fn lemma_solid_words(s: Seq<char>)
    ensures
        all_solid(text::word_list(s)) == solid(s),
    decreases s.len(),
{
    text::lemma_lead(s, CharSet::White);
    let n = text::lead(s, CharSet::White) as int;
    let t = text::trimmed_start(s, CharSet::White);
    assert(s =~= s.take(n) + t);
    lemma_solid_concat(s.take(n), t);
    lemma_solid_white(s.take(n));
    assert(Seq::<char>::empty() + solid(t) =~= solid(t));
    if t.len() == 0 {
        assert(solid(t) =~= seq![]);
    } else {
        assert(t[0] == s[n]);
        text::lemma_lead(t, CharSet::NonWhite);
        let k = text::lead(t, CharSet::NonWhite) as int;
        assert(k >= 1);
        assert(t =~= t.take(k) + t.skip(k));
        lemma_solid_concat(t.take(k), t.skip(k));
        lemma_solid_words(t.skip(k));
        let words = seq![t.take(k)] + text::word_list(t.skip(k));
        assert(words.drop_first() =~= text::word_list(t.skip(k)));
    }
}

proof fn lemma_solid_white(s: Seq<char>)
    requires
        forall|i: int| 0 <= i < s.len() ==> text::is_white(#[trigger] s[i]),
    ensures
        solid(s) == Seq::<char>::empty(),
    decreases s.len(),
{
    if s.len() > 0 {
        lemma_solid_white(s.drop_last());
    }
}

proof fn lemma_flat(row: Seq<char>, rest: Seq<Seq<char>>)
    ensures
        (seq![row] + rest).flatten() == row + rest.flatten(),
        seq![row].flatten() == row,
{
    assert((seq![row] + rest).drop_first() =~= rest);
    assert(seq![row].drop_first() =~= seq![]);
    assert(Seq::<Seq<char>>::empty().flatten() =~= seq![]);
    assert(row + Seq::<char>::empty() =~= row);
}

/// Rows broken between characters fit, and hold what was there.
proof fn lemma_char_rows(s: Seq<char>, cols: nat, current: Seq<char>)
    requires
        cols > 0,
        current.len() > 0 ==> row_fits(current, cols),
    ensures
        rows_fit(char_rows(s, cols, current), cols),
        all_solid(char_rows(s, cols, current)) == solid(current) + solid(s),
        char_rows(s, cols, current).flatten() == current + s,
        s.len() + current.len() > 0 ==> char_rows(s, cols, current).len() > 0,
    decreases s.len(),
{
    if s.len() == 0 {
        assert(solid(current) + solid(s) =~= solid(current));
        if current.len() > 0 {
            lemma_all_solid_one(current);
        }
        lemma_flat(current, seq![]);
        assert(current + s =~= current);
        assert(Seq::<Seq<char>>::empty().flatten() =~= seq![]);
    } else {
        let c = s[0];
        let rest = s.drop_first();
        assert(s =~= seq![c] + rest);
        lemma_solid_concat(seq![c], rest);
        if current.len() > 0 && columns(current) + width_of(c) > cols {
            lemma_char_rows(rest, cols, seq![c]);
            let tail = char_rows(rest, cols, seq![c]);
            lemma_all_solid_concat(seq![current], tail);
            lemma_all_solid_one(current);
            lemma_flat(current, tail);
        } else {
            lemma_columns_push(current, c);
            assert(columns(Seq::<char>::empty()) == 0);
            lemma_char_rows(rest, cols, current.push(c));
            assert(current.push(c) =~= current + seq![c]);
            assert(current.push(c) + rest =~= current + s);
            lemma_solid_concat(current, seq![c]);
            assert(solid(current) + (solid(seq![c]) + solid(rest)) =~= (solid(current) + solid(
                seq![c],
            )) + solid(rest));
        }
    }
}

proof fn lemma_word_rows(word: Seq<char>, cols: nat)
    requires
        cols > 0,
    ensures
        rows_fit(word_rows(word, cols), cols),
        all_solid(word_rows(word, cols)) == solid(word),
        word_rows(word, cols).flatten() == word,
{
    if word.len() == 0 {
        lemma_all_solid_one(seq![]);
        lemma_flat(seq![], seq![]);
    } else {
        lemma_char_rows(word, cols, seq![]);
        assert(seq![] + word =~= word);
        assert(solid(seq![]) + solid(word) =~= solid(word));
    }
}

/// Rows broken between words fit, and hold what was there.
proof fn lemma_filled_rows(words: Seq<Seq<char>>, cols: nat, current: Seq<char>, width: nat)
    requires
        cols > 0,
        width == columns(current) <= cols,
        width_of(' ') == 1,
    ensures
        rows_fit(filled_rows(words, cols, current, width), cols),
        all_solid(filled_rows(words, cols, current, width)) == solid(current) + all_solid(words),
    decreases words.len(),
{
    let begun = if current.len() > 0 {
        seq![current]
    } else {
        seq![]
    };
    assert(all_solid(begun) =~= solid(current)) by {
        lemma_all_solid_one(current);
    }
    if words.len() == 0 {
        assert(solid(current) + all_solid(words) =~= solid(current));
    } else {
        let word = words[0];
        let rest = words.drop_first();
        if columns(word) > cols {
            lemma_word_rows(word, cols);
            lemma_filled_rows(rest, cols, seq![], 0);
            let tail = filled_rows(rest, cols, seq![], 0);
            lemma_all_solid_concat(begun, word_rows(word, cols));
            lemma_all_solid_concat(begun + word_rows(word, cols), tail);
            assert(solid(current) + all_solid(words) =~= solid(current) + solid(word) + (solid(
                seq![],
            ) + all_solid(rest)));
        } else if current.len() == 0 {
            lemma_filled_rows(rest, cols, word, columns(word));
            assert(solid(current) + (solid(word) + all_solid(rest)) =~= solid(word) + all_solid(
                rest,
            ));
        } else if width + 1 + columns(word) <= cols {
            let next = current + seq![' '] + word;
            lemma_columns_concat(current + seq![' '], word);
            lemma_columns_push(current, ' ');
            assert(current.push(' ') =~= current + seq![' ']);
            lemma_filled_rows(rest, cols, next, width + 1 + columns(word));
            lemma_solid_concat(current + seq![' '], word);
            lemma_solid_concat(current, seq![' ']);
            lemma_solid_white(seq![' ']);
            assert(solid(current) + (solid(word) + all_solid(rest)) =~= (solid(current) + seq![]
                + solid(word)) + all_solid(rest));
        } else {
            lemma_filled_rows(rest, cols, word, columns(word));
            lemma_all_solid_concat(begun, filled_rows(rest, cols, word, columns(word)));
        }
    }
}

proof fn lemma_line_rows(line: Seq<char>, cols: nat)
    requires
        width_of(' ') == 1,
    ensures
        rows_fit(line_rows(line, cols), cols),
        cols > 0 ==> all_solid(line_rows(line, cols)) == solid(line),
{
    lemma_all_solid_one(seq![]);
    if cols > 0 {
        lemma_solid_words(line);
        lemma_filled_rows(text::word_list(line), cols, seq![], 0);
        assert(solid(seq![]) + solid(line) =~= solid(line));
    }
}

/// Breaks one word between characters into rows of at most `cols` columns.
///
/// The rows, put together, are the word. A row is wider than `cols` only where a single
/// character is.
pub fn wrap_word_by_chars(word: &str, cols: usize) -> (r: Vec<String>)
    ensures
        text::views(r@) == word_rows(word@, cols as nat),
        rows_fit(text::views(r@), cols as nat),
        cols > 0 ==> text::views(r@).flatten() == word@,
{
    let mut rows: Vec<String> = Vec::new();
    let chars = text::chars_of(word);
    if cols == 0 || chars.len() == 0 {
        text::push_text(&mut rows, String::new());
        assert(text::views(rows@) =~= seq![seq![]]);
        proof {
            lemma_flat(seq![], seq![]);
        }
        return rows;
    }
    let mut current = String::new();
    let mut filled: bool = false;
    let mut width: usize = 0;
    let mut i: usize = 0;
    assert(word@.skip(0) =~= word@);
    assert(text::views(rows@) =~= seq![]);
    assert(seq![] + char_rows(word@, cols as nat, seq![]) =~= char_rows(word@, cols as nat, seq![]));
    while i < chars.len()
        invariant
            chars@ == word@,
            i <= chars@.len(),
            filled == (current@.len() > 0),
            width == columns(current@),
            text::views(rows@) + char_rows(word@.skip(i as int), cols as nat, current@)
                == char_rows(word@, cols as nat, seq![]),
        decreases chars@.len() - i,
    {
        let c = chars[i];
        let w = char_display_width(c);
        let ghost before = text::views(rows@);
        let ghost begun = current@;
        assert(word@.skip(i as int).drop_first() =~= word@.skip(i + 1));
        if filled && (w > cols || width > cols - w) {
            text::push_text(&mut rows, current);
            current = String::new();
            width = 0;
            proof {
                let tail = char_rows(word@.skip(i + 1), cols as nat, seq![c]);
                assert(before + (seq![begun] + tail) =~= before.push(begun) + tail);
                assert(current@.push(c) =~= seq![c]);
            }
        }
        proof {
            lemma_columns_push(current@, c);
        }
        current.push(c);
        filled = true;
        width += w;
        i += 1;
    }
    assert(word@.skip(i as int) =~= seq![]);
    let ghost before = text::views(rows@);
    if filled {
        text::push_text(&mut rows, current);
    }
    proof {
        assert(before + seq![current@] =~= before.push(current@));
        lemma_word_rows(word@, cols as nat);
    }
    rows
}

/// Adds `more` at the end of `list`.
pub fn append_rows(list: &mut Vec<String>, more: Vec<String>)
    ensures
        text::views(final(list)@) == text::views(old(list)@) + text::views(more@),
{
    let mut i: usize = 0;
    assert(text::views(list@) =~= text::views(old(list)@) + text::views(more@).take(0));
    while i < more.len()
        invariant
            i <= more@.len(),
            text::views(list@) == text::views(old(list)@) + text::views(more@).take(i as int),
        decreases more@.len() - i,
    {
        text::push_text(list, more[i].clone());
        i += 1;
        assert(text::views(old(list)@) + text::views(more@).take(i as int) =~= (text::views(
            old(list)@,
        ) + text::views(more@).take(i - 1)).push(more@[i - 1]@));
    }
    assert(text::views(more@).take(i as int) =~= text::views(more@));
}

/// Wraps `line` into rows of at most `cols` columns: between words, and within a word
/// that no row can hold. Runs of white space become one space.
///
/// A row is wider than `cols` only where a single character is, and the rows hold the
/// characters of `line` that are not white space, in their order.
pub fn wrap_line(line: &str, cols: usize) -> (r: Vec<String>)
    ensures
        text::views(r@) == line_rows(line@, cols as nat),
        rows_fit(text::views(r@), cols as nat),
        cols > 0 ==> all_solid(text::views(r@)) == solid(line@),
{
    // Two words and the space between them take one column more than the words alone.
    let _space: usize = char_display_width(' ');
    proof {
        lemma_line_rows(line@, cols as nat);
    }
    let mut segments: Vec<String> = Vec::new();
    if line.unicode_len() == 0 || cols == 0 {
        text::push_text(&mut segments, String::new());
        assert(text::views(segments@) =~= seq![seq![]]);
        return segments;
    }
    let words = text::words(line);
    let ghost all = text::word_list(line@);
    let mut current = String::new();
    let mut filled: bool = false;
    let mut width: usize = 0;
    let mut i: usize = 0;
    assert(all.skip(0) =~= all);
    assert(text::views(segments@) =~= seq![]);
    assert(seq![] + filled_rows(all, cols as nat, seq![], 0) =~= filled_rows(
        all,
        cols as nat,
        seq![],
        0,
    ));
    while i < words.len()
        invariant
            text::views(words@) == all,
            i <= words@.len(),
            filled == (current@.len() > 0),
            width <= cols,
            text::views(segments@) + filled_rows(
                all.skip(i as int),
                cols as nat,
                current@,
                width as nat,
            ) == filled_rows(all, cols as nat, seq![], 0),
            !filled ==> width == 0,
        decreases words@.len() - i,
    {
        let word = &words[i];
        let w = text_display_width(word.as_str());
        let ghost before = text::views(segments@);
        let ghost begun = current@;
        let ghost rest = all.skip(i + 1);
        assert(text::views(words@)[i as int] == word@);
        assert(all.skip(i as int).drop_first() =~= rest);
        if w > cols {
            if filled {
                text::push_text(&mut segments, current);
                current = String::new();
                filled = false;
                width = 0;
            }
            let rows = wrap_word_by_chars(word.as_str(), cols);
            append_rows(&mut segments, rows);
            proof {
                let head = if begun.len() > 0 {
                    seq![begun]
                } else {
                    seq![]
                };
                let tail = filled_rows(rest, cols as nat, seq![], 0);
                assert(current@ =~= seq![]);
                assert(before + (head + word_rows(word@, cols as nat) + tail) =~= text::views(
                    segments@,
                ) + tail);
            }
        } else if !filled {
            current = word.clone();
            filled = word.unicode_len() > 0;
            width = w;
            assert(begun =~= seq![]);
        } else if width < cols && w <= cols - width - 1 {
            current.append(" ");
            current.append(word.as_str());
            width = width + 1 + w;
            proof {
                reveal_strlit(" ");
                assert(current@ =~= begun + seq![' '] + word@);
            }
        } else {
            text::push_text(&mut segments, current);
            current = word.clone();
            filled = word.unicode_len() > 0;
            width = w;
            proof {
                let tail = filled_rows(rest, cols as nat, word@, columns(word@));
                assert(before + (seq![begun] + tail) =~= before.push(begun) + tail);
            }
        }
        i += 1;
    }
    assert(all.skip(i as int) =~= seq![]);
    let ghost before = text::views(segments@);
    if filled {
        text::push_text(&mut segments, current);
        assert(before + seq![current@] =~= before.push(current@));
    } else {
        assert(before + seq![] =~= before);
    }
    if segments.len() == 0 {
        text::push_text(&mut segments, String::new());
        assert(text::views(segments@) =~= seq![seq![]]);
    }
    segments
}

/// The white space at the start of `line`, and the rest.
pub fn split_leading_whitespace(line: &str) -> (r: (String, &str))
    ensures
        r.0@ == indent_of(line@),
        r.1@ == content_of(line@),
{
    let chars = text::chars_of(line);
    let n = text::run_length(chars.as_slice(), 0, CharSet::White);
    assert(chars@.skip(0) =~= line@);
    (text::take(line, n).to_owned(), text::skip(line, n))
}

/// Wraps `line` into rows of at most `max_cols` columns, each with the indent of `line`.
///
/// A row is wider than `max_cols` only where it is the indent and a single character.
/// Where the indent leaves room, every row starts with it and the rows hold the
/// characters of `line` that are not white space, in their order.
pub fn wrap_line_respecting_indent(line: &str, max_cols: usize) -> (r: Vec<String>)
    ensures
        text::views(r@) == wrapped(line@, max_cols as nat),
        r@.len() > 0,
        forall|i: int|
            0 <= i < r@.len() ==> columns((#[trigger] r@[i])@) <= max_cols || r@[i]@.len()
                == indent_of(line@).len() + 1,
        columns(indent_of(line@)) < max_cols ==> all_solid(text::views(r@)) == solid(line@) && forall|
            i: int,
        |
            0 <= i < r@.len() ==> indent_of(line@).is_prefix_of((#[trigger] r@[i])@),
{
    proof {
        lemma_indent(line@);
    }
    let mut out: Vec<String> = Vec::new();
    if line.unicode_len() == 0 || max_cols == 0 {
        out.push(String::new());
        proof {
            assert(text::views(out@) =~= seq![seq![]]);
            lemma_all_solid_one(seq![]);
            assert(line@.len() == 0 ==> indent_of(line@).len() == 0);
        }
        return out;
    }
    let (prefix, content) = split_leading_whitespace(line);
    let prefix_width = text_display_width(prefix.as_str());
    if prefix_width >= max_cols {
        out.push(truncate_to_width(line, max_cols));
        assert(text::views(out@) =~= seq![cut(line@, max_cols as nat)]);
        return out;
    }
    if content.unicode_len() == 0 {
        proof {
            lemma_all_solid_one(prefix@);
            assert(prefix@ =~= line@);
        }
        out.push(prefix);
        assert(text::views(out@) =~= seq![indent_of(line@)]);
        return out;
    }
    let segments = wrap_line(content, max_cols - prefix_width);
    let ghost rows = text::views(segments@);
    let mut i: usize = 0;
    assert(text::views(out@) =~= indented(prefix@, rows.take(0)));
    while i < segments.len()
        invariant
            rows == text::views(segments@),
            i <= segments@.len(),
            text::views(out@) == indented(prefix@, rows.take(i as int)),
        decreases segments@.len() - i,
    {
        text::push_text(&mut out, text::concat(prefix.as_str(), segments[i].as_str()));
        i += 1;
        assert(indented(prefix@, rows.take(i as int)) =~= indented(prefix@, rows.take(i - 1)).push(
            prefix@ + rows[i - 1],
        ));
    }
    proof {
        assert(rows.take(i as int) =~= rows);
        lemma_indented(prefix@, rows);
        lemma_solid_concat(prefix@, content@);
        assert(prefix@ + content@ =~= line@);
        assert(solid(line@) =~= solid(content@));
        assert forall|k: int| 0 <= k < out@.len() implies columns((#[trigger] out@[k])@)
            <= max_cols || out@[k]@.len() == prefix@.len() + 1 by {
            assert(text::views(out@)[k] == prefix@ + rows[k]);
            assert(row_fits(rows[k], (max_cols - prefix_width) as nat));
            lemma_columns_concat(prefix@, rows[k]);
        }
        assert forall|k: int| 0 <= k < out@.len() implies prefix@.is_prefix_of(
            (#[trigger] out@[k])@,
        ) by {
            assert(text::views(out@)[k] == prefix@ + rows[k]);
            assert((prefix@ + rows[k]).take(prefix@.len() as int) =~= prefix@);
        }
    }
    out
}

/// The indent of a line is white space.
proof fn lemma_indent(line: Seq<char>)
    ensures
        text::lead(line, CharSet::White) <= line.len(),
        solid(indent_of(line)) == Seq::<char>::empty(),
{
    text::lemma_lead(line, CharSet::White);
    lemma_solid_white(indent_of(line));
}

/// White space before each row adds nothing that is not white space.
proof fn lemma_indented(prefix: Seq<char>, rows: Seq<Seq<char>>)
    requires
        solid(prefix) == Seq::<char>::empty(),
    ensures
        all_solid(indented(prefix, rows)) == all_solid(rows),
    decreases rows.len(),
{
    if rows.len() > 0 {
        lemma_solid_concat(prefix, rows[0]);
        assert(Seq::<char>::empty() + solid(rows[0]) =~= solid(rows[0]));
        lemma_indented(prefix, rows.drop_first());
        assert(indented(prefix, rows).drop_first() =~= indented(prefix, rows.drop_first()));
    }
}

// ── Styled lines ─────────────────────────────────────────────────────────────

/// How a line of the overlay is drawn.
#[derive(Clone, Copy, PartialEq, Eq, Debug, Structural)]
pub enum LineStyle {
    SectionHeader,
    Body,
    Muted,
    /// Stands for an answer that is awaited; drawn like a muted line.
    Loading,
    Code,
    SelectionLabel,
    SelectionText,
    Error,
}

/// One line of text and how it is drawn.
#[derive(Clone, Debug, PartialEq, Eq)]
pub struct DisplayLine {
    pub text: String,
    pub style: LineStyle,
}

/// What a styled line holds.
#[verifier::ext_equal]
pub ghost struct LineView {
    pub text: Seq<char>,
    pub style: LineStyle,
}

impl View for DisplayLine {
    type V = LineView;

    open spec fn view(&self) -> LineView {
        LineView { text: self.text@, style: self.style }
    }
}

/// What each of `lines` holds.
pub open spec fn line_views(lines: Seq<DisplayLine>) -> Seq<LineView> {
    Seq::new(lines.len(), |i: int| lines[i]@)
}

/// A line of `text` in `style`.
pub open spec fn styled(text: Seq<char>, style: LineStyle) -> LineView {
    LineView { text, style }
}

impl DisplayLine {
    /// A line of `text` in `style`.
    pub fn new(text: String, style: LineStyle) -> (r: Self)
        ensures
            r@ == styled(text@, style),
    {
        DisplayLine { text, style }
    }

    /// The same line once more.
    pub fn copy(&self) -> (r: Self)
        ensures
            r@ == self@,
    {
        DisplayLine { text: self.text.clone(), style: self.style }
    }
}

/// Adds a line of `text` in `style` at the end of `lines`.
pub fn push_line(lines: &mut Vec<DisplayLine>, text: &str, style: LineStyle)
    ensures
        line_views(final(lines)@) == line_views(old(lines)@).push(styled(text@, style)),
{
    lines.push(DisplayLine::new(text.to_owned(), style));
    assert(line_views(lines@) =~= line_views(old(lines)@).push(styled(text@, style)));
}

/// Each of `rows` in `style`.
pub open spec fn styled_rows(rows: Seq<Seq<char>>, style: LineStyle) -> Seq<LineView> {
    Seq::new(rows.len(), |i: int| styled(rows[i], style))
}

/// The rows of `lines`, each in the style of its line.
pub open spec fn wrapped_lines(lines: Seq<LineView>, cols: nat) -> Seq<LineView>
    decreases lines.len(),
{
    if lines.len() == 0 {
        seq![]
    } else {
        let last = lines.last();
        wrapped_lines(lines.drop_last(), cols) + if last.text.len() == 0 {
            seq![last]
        } else {
            styled_rows(wrapped(last.text, cols), last.style)
        }
    }
}

/// Wraps each of `lines` to `max_cols` columns; the rows have the style of their line.
pub fn wrap_display_lines(lines: &[DisplayLine], max_cols: usize) -> (r: Vec<DisplayLine>)
    ensures
        line_views(r@) == wrapped_lines(line_views(lines@), max_cols as nat),
{
    let mut out: Vec<DisplayLine> = Vec::new();
    let ghost all = line_views(lines@);
    let mut i: usize = 0;
    assert(line_views(out@) =~= wrapped_lines(all.take(0), max_cols as nat));
    while i < lines.len()
        invariant
            all == line_views(lines@),
            i <= lines@.len(),
            line_views(out@) == wrapped_lines(all.take(i as int), max_cols as nat),
        decreases lines@.len() - i,
    {
        let line = &lines[i];
        let ghost before = line_views(out@);
        assert(all.take(i + 1).drop_last() =~= all.take(i as int));
        assert(all.take(i + 1).last() == line@);
        if line.text.as_str().unicode_len() == 0 {
            out.push(line.copy());
            assert(line_views(out@) =~= before + seq![line@]);
        } else {
            let rows = wrap_line_respecting_indent(line.text.as_str(), max_cols);
            let ghost views = text::views(rows@);
            let mut j: usize = 0;
            assert(line_views(out@) =~= before + styled_rows(views.take(0), line.style));
            while j < rows.len()
                invariant
                    views == text::views(rows@),
                    j <= rows@.len(),
                    line_views(out@) == before + styled_rows(views.take(j as int), line.style),
                decreases rows@.len() - j,
            {
                push_line(&mut out, rows[j].as_str(), line.style);
                j += 1;
                assert(before + styled_rows(views.take(j as int), line.style) =~= (before
                    + styled_rows(views.take(j - 1), line.style)).push(
                    styled(views[j - 1], line.style),
                ));
            }
            assert(views.take(j as int) =~= views);
        }
        i += 1;
    }
    assert(all.take(i as int) =~= all);
    out
}

/// A text that fits is not cut, and one that does not is cut to a start of it, as long as fits.
pub proof fn law_cut(s: Seq<char>, cols: nat)
    requires
        cols > 0,
    ensures
        columns(s) <= cols ==> cut(s, cols) == s,
        cut(s, cols).is_prefix_of(s),
        columns(cut(s, cols)) <= cols,
        forall|n: int|
            #![trigger s.take(n)]
            cut(s, cols).len() < n <= s.len() ==> columns(s.take(n)) > cols,
{
    lemma_fitting(s, cols as int);
    let n = fitting(s, cols as int) as int;
    assert(s.take(s.len() as int) =~= s);
    if n < s.len() {
        assert(columns(s.take(s.len() as int)) > cols);
    }
    assert(s.take(n) =~= s.subrange(0, n));
    assert(cut(s, cols).len() == n);
}

/// A row begins with its text, as far as it fits, and is filled with spaces.
pub proof fn law_padded(s: Seq<char>, cols: nat)
    requires
        cols > 0,
        columns(s) <= cols,
    ensures
        s.is_prefix_of(padded(s, cols)),
        forall|k: int| s.len() <= k < padded(s, cols).len() ==> #[trigger] padded(s, cols)[k] == ' ',
        padded(s, cols).len() == s.len() + cols - columns(s),
{
    law_cut(s, cols);
    assert(padded(s, cols).take(s.len() as int) =~= s);
}

/// Whether a line is words with single spaces between them, behind an indent, and fits.
pub open spec fn is_short(line: Seq<char>, cols: nat) -> bool {
    &&& columns(line) <= cols
    &&& columns(content_of(line)) > 0
    &&& text::joined(text::word_list(content_of(line)), " "@) == content_of(line)
}

proof fn lemma_one_row(words: Seq<Seq<char>>, cols: nat, current: Seq<char>)
    requires
        width_of(' ') == 1,
        columns(current) <= cols,
        forall|k: int| 0 <= k < words.len() ==> (#[trigger] words[k]).len() > 0,
        words.len() > 0,
        current.len() == 0 ==> columns(text::joined(words, " "@)) <= cols,
        current.len() > 0 ==> columns(current + seq![' '] + text::joined(words, " "@)) <= cols,
    ensures
        filled_rows(words, cols, current, columns(current)) == seq![
            if current.len() == 0 {
                text::joined(words, " "@)
            } else {
                current + seq![' '] + text::joined(words, " "@)
            },
        ],
    decreases words.len(),
{
    reveal_strlit(" ");
    assert(" "@ =~= seq![' ']);
    let word = words[0];
    let rest = words.drop_first();
    let whole = text::joined(words, " "@);
    let tail = text::joined(rest, " "@);
    if rest.len() > 0 {
        text::lemma_joined_concat(seq![word], rest, " "@);
        assert(seq![word] + rest =~= words);
        assert(text::joined(seq![word], " "@) == word);
        assert(whole == word + " "@ + tail);
        lemma_columns_concat(word + " "@, tail);
        lemma_columns_concat(word, " "@);
    } else {
        assert(whole == word);
    }
    assert(columns(word) <= columns(whole));
    let next = if current.len() == 0 {
        word
    } else {
        current + seq![' '] + word
    };
    lemma_columns_concat(current + seq![' '], whole);
    lemma_columns_concat(current + seq![' '], word);
    lemma_columns_concat(current, seq![' ']);
    assert(columns(seq![' ']) == 1) by {
        assert(seq![' '].drop_last() =~= Seq::<char>::empty());
        reveal_with_fuel(columns, 2);
    }
    assert forall|k: int| 0 <= k < rest.len() implies (#[trigger] rest[k]).len() > 0 by {
        assert(rest[k] == words[k + 1]);
    }
    if rest.len() > 0 {
        let joined = if current.len() == 0 {
            whole
        } else {
            current + seq![' '] + whole
        };
        assert(next + seq![' '] + tail =~= joined);
        lemma_one_row(rest, cols, next);
    } else {
        reveal_with_fuel(filled_rows, 2);
    }
}

/// A line that fits is one row, as it is.
pub proof fn law_short_line_is_one_row(line: Seq<char>, cols: nat)
    requires
        width_of(' ') == 1,
        is_short(line, cols),
    ensures
        wrapped(line, cols) == seq![line],
{
    let prefix = indent_of(line);
    let content = content_of(line);
    text::lemma_lead(line, CharSet::White);
    assert(prefix + content =~= line);
    lemma_columns_concat(prefix, content);
    assert(columns(Seq::<char>::empty()) == 0);
    assert(content.len() > 0);
    let words = text::word_list(content);
    text::law_words(content);
    if words.len() == 0 {
        assert(text::joined(words, " "@).len() == 0);
    }
    let room = (cols - columns(prefix)) as nat;
    assert forall|k: int| 0 <= k < words.len() implies (#[trigger] words[k]).len() > 0 by {}
    lemma_one_row(words, room, seq![]);
    assert(line_rows(content, room) =~= seq![content]);
    assert(indented(prefix, seq![content]) =~= seq![line]);
}

/// Lines that fit are drawn as they are, each in its style; an empty one stays empty.
pub proof fn law_short_lines_stay(lines: Seq<LineView>, cols: nat)
    requires
        width_of(' ') == 1,
        forall|i: int|
            0 <= i < lines.len() ==> (#[trigger] lines[i]).text.len() == 0 || is_short(
                lines[i].text,
                cols,
            ),
    ensures
        wrapped_lines(lines, cols) == lines,
    decreases lines.len(),
{
    if lines.len() > 0 {
        let init = lines.drop_last();
        let last = lines.last();
        assert(last == lines[lines.len() - 1]);
        assert forall|i: int| 0 <= i < init.len() implies (#[trigger] init[i]).text.len() == 0
            || is_short(init[i].text, cols) by {
            assert(init[i] == lines[i]);
        }
        law_short_lines_stay(init, cols);
        if last.text.len() > 0 {
            law_short_line_is_one_row(last.text, cols);
            assert(styled_rows(seq![last.text], last.style) =~= seq![last]);
        }
        assert(init + seq![last] =~= lines);
    }
    assert(wrapped_lines(lines, cols) =~= lines);
}

/// The texts of lines.
pub open spec fn texts_of(lines: Seq<LineView>) -> Seq<Seq<char>> {
    Seq::new(lines.len(), |i: int| lines[i].text)
}

/// Wrapping keeps all that lines say, in its order: only white space is changed. No line is lost,
/// and each row has the style of a line.
pub proof fn law_wrapping_keeps_all(lines: Seq<LineView>, cols: nat)
    requires
        width_of(' ') == 1,
        forall|i: int|
            0 <= i < lines.len() ==> columns(indent_of((#[trigger] lines[i]).text)) < cols,
    ensures
        all_solid(texts_of(wrapped_lines(lines, cols))) == all_solid(texts_of(lines)),
        wrapped_lines(lines, cols).len() >= lines.len(),
        forall|r: int|
            0 <= r < wrapped_lines(lines, cols).len() ==> exists|i: int|
                0 <= i < lines.len() && (#[trigger] lines[i]).style == (
                #[trigger] wrapped_lines(lines, cols)[r]).style,
    decreases lines.len(),
{
    let all = wrapped_lines(lines, cols);
    if lines.len() == 0 {
        assert(texts_of(all) =~= texts_of(lines));
    } else {
        let init = lines.drop_last();
        let last = lines.last();
        assert(last == lines[lines.len() - 1]);
        assert forall|i: int| 0 <= i < init.len() implies columns(
            indent_of((#[trigger] init[i]).text),
        ) < cols by {
            assert(init[i] == lines[i]);
        }
        law_wrapping_keeps_all(init, cols);
        let before = wrapped_lines(init, cols);
        let rows = if last.text.len() == 0 {
            seq![last.text]
        } else {
            wrapped(last.text, cols)
        };
        lemma_wrapped_keeps(last.text, cols);
        let tail = all.skip(before.len() as int);
        assert(texts_of(tail) =~= rows);
        assert(texts_of(all) =~= texts_of(before) + texts_of(tail));
        assert(texts_of(lines) =~= texts_of(init) + seq![last.text]);
        lemma_all_solid_concat(texts_of(before), texts_of(tail));
        lemma_all_solid_concat(texts_of(init), seq![last.text]);
        lemma_all_solid_one(last.text);
        assert forall|r: int| 0 <= r < all.len() implies exists|i: int|
            0 <= i < lines.len() && (#[trigger] lines[i]).style == (#[trigger] all[r]).style by {
            if r < before.len() {
                assert(all[r] == before[r]);
                let i = choose|i: int|
                    0 <= i < init.len() && (#[trigger] init[i]).style == before[r].style;
                assert(lines[i] == init[i]);
            } else {
                assert(lines[lines.len() - 1].style == all[r].style);
            }
        }
    }
}

proof fn lemma_wrapped_keeps(line: Seq<char>, cols: nat)
    requires
        width_of(' ') == 1,
        columns(indent_of(line)) < cols,
    ensures
        line.len() > 0 ==> all_solid(wrapped(line, cols)) == solid(line),
        wrapped(line, cols).len() > 0,
{
    if line.len() > 0 {
        let prefix = indent_of(line);
        let content = content_of(line);
        lemma_indent(line);
        text::lemma_lead(line, CharSet::White);
        assert(prefix + content =~= line);
        lemma_solid_concat(prefix, content);
        lemma_solid_white(prefix);
        assert(seq![] + solid(content) =~= solid(content));
        if content.len() == 0 {
            lemma_all_solid_one(prefix);
            assert(solid(content) =~= seq![]);
        } else {
            let room = (cols - columns(prefix)) as nat;
            lemma_line_rows(content, room);
            lemma_indented(prefix, line_rows(content, room));
        }
    }
}

} // verus!
