//! Deterministic flag verification against local reference text.
use vstd::prelude::*;
use vstd::string::*;

use crate::text;
use crate::text::CharSet;
use crate::types::{ReferenceContext, ReferenceView};

verus! {

broadcast use vstd::string::group_string_axioms;

/// Result of checking flags mentioned in a model reply against reference text.
#[derive(Debug, Clone, PartialEq, Eq)]
pub struct VerifyResult {
    pub footer: String,
    /// `Some(true)` all matched, `Some(false)` some unverified, `None` skipped.
    pub verified: Option<bool>,
}

/// `-` and each of the letters in turn.
pub open spec fn cluster_flags(letters: Seq<char>) -> Seq<Seq<char>> {
    Seq::new(letters.len(), |i: int| seq!['-', letters[i]])
}

/// Whether `letters` are ASCII letters throughout.
pub open spec fn all_letters(letters: Seq<char>) -> bool {
    forall|i: int| 0 <= i < letters.len() ==> text::is_alpha(#[trigger] letters[i])
}

/// The flags in `s`, in the order in which they stand: `--name` as it is, `-l` as it is, and a
/// cluster such as `-lah` of up to six letters as its single flags. A longer cluster, or one
/// with a digit in it, is taken for something else.
pub open spec fn flags_in(s: Seq<char>) -> Seq<Seq<char>>
    decreases s.len(),
{
    if s.len() == 0 {
        seq![]
    } else if s[0] != '-' || s.len() == 1 {
        flags_in(s.drop_first())
    } else if s[1] == '-' {
        let n = text::lead(s.skip(2), CharSet::OptionName) as int;
        let found = if n > 0 {
            seq![s.take(n + 2)]
        } else {
            seq![]
        };
        if 0 <= n <= s.len() - 2 {
            found + flags_in(s.skip(n + 2))
        } else {
            found
        }
    } else if text::is_alpha(s[1]) {
        let n = text::lead(s.skip(1), CharSet::Alnum) as int;
        if 0 <= n <= s.len() - 1 {
            let letters = s.subrange(1, n + 1);
            let found = if n == 1 || (all_letters(letters) && n <= 6) {
                cluster_flags(letters)
            } else {
                seq![]
            };
            found + flags_in(s.skip(n + 1))
        } else {
            seq![]
        }
    } else {
        flags_in(s.drop_first())
    }
}

/// The flags in `text` in order, each once.
pub open spec fn flag_set(text: Seq<char>) -> Seq<Seq<char>> {
    text::sorted_set(flags_in(text))
}

proof fn lemma_sorted_set_push(list: Seq<Seq<char>>, x: Seq<char>)
    ensures
        text::sorted_set(list.push(x)) == if text::sorted_set(list).contains(x) {
            text::sorted_set(list)
        } else {
            text::inserted(text::sorted_set(list), x)
        },
{
    assert(list.push(x).drop_last() =~= list);
}

fn letters_only(chars: &[char], from: usize, to: usize) -> (r: bool)
    requires
        from <= to <= chars@.len(),
    ensures
        r == all_letters(chars@.subrange(from as int, to as int)),
{
    let ghost letters = chars@.subrange(from as int, to as int);
    let mut i: usize = from;
    while i < to
        invariant
            from <= i <= to <= chars@.len(),
            letters == chars@.subrange(from as int, to as int),
            forall|k: int| 0 <= k < i - from ==> text::is_alpha(#[trigger] letters[k]),
        decreases to - i,
    {
        assert(letters[i - from] == chars@[i as int]);
        if !text::is_ascii_alphabetic(chars[i]) {
            return false;
        }
        i += 1;
    }
    true
}

/// The flags that `text` mentions, in order, each once.
pub fn extract_flags(text: &str) -> (r: Vec<String>)
    ensures
        text::views(r@) == flag_set(text@),
{
    let chars = text::chars_of(text);
    let ghost all = text@;
    let ghost mut seen: Seq<Seq<char>> = seq![];
    let mut found: Vec<String> = Vec::new();
    let mut i: usize = 0;
    assert(all.skip(0) =~= all);
    assert(seen + flags_in(all) =~= flags_in(all));
    assert(text::views(found@) =~= seq![]);
    while i < chars.len()
        invariant
            i <= chars@.len(),
            chars@ == all,
            all == text@,
            text::views(found@) == text::sorted_set(seen),
            seen + flags_in(all.skip(i as int)) == flags_in(all),
        decreases chars@.len() - i,
    {
        let ghost rest = all.skip(i as int);
        assert(rest.drop_first() =~= all.skip(i + 1));
        if chars[i] != '-' || chars.len() - i == 1 {
            i += 1;
            continue;
        }
        assert(rest[1] == chars@[i + 1]);
        if chars[i + 1] == '-' {
            assert(rest.skip(2) =~= all.skip(i + 2));
            let n = text::run_length(chars.as_slice(), i + 2, CharSet::OptionName);
            let end: usize = i + 2 + n;
            assert(rest.skip(n + 2) =~= all.skip(end as int));
            if n > 0 {
                let flag = text::string_of(
                    vstd::slice::slice_subrange(chars.as_slice(), i, end),
                );
                assert(flag@ =~= rest.take(n + 2));
                text::insert_new(&mut found, flag);
                proof {
                    let f = rest.take(n + 2);
                    lemma_sorted_set_push(seen, f);
                    assert(seen.push(f) + flags_in(all.skip(end as int)) =~= seen + (seq![f]
                        + flags_in(all.skip(end as int))));
                    seen = seen.push(f);
                }
            } else {
                assert(seq![] + flags_in(all.skip(end as int)) =~= flags_in(all.skip(end as int)));
            }
            i = end;
        } else if text::is_ascii_alphabetic(chars[i + 1]) {
            assert(rest.skip(1) =~= all.skip(i + 1));
            let n = text::run_length(chars.as_slice(), i + 1, CharSet::Alnum);
            let end: usize = i + 1 + n;
            let ghost letters = rest.subrange(1, n + 1);
            assert(letters =~= all.subrange(i + 1, end as int));
            assert(rest.skip(n + 1) =~= all.skip(end as int));
            if n == 1 || (letters_only(chars.as_slice(), i + 1, end) && n <= 6) {
                let ghost tail = flags_in(all.skip(end as int));
                let ghost start = seen;
                let mut j: usize = i + 1;
                assert(start + cluster_flags(letters).take(0) =~= start);
                while j < end
                    invariant
                        i + 1 <= j <= end <= chars@.len(),
                        chars@ == all,
                        letters == all.subrange(i + 1, end as int),
                        text::views(found@) == text::sorted_set(seen),
                        seen == start + cluster_flags(letters).take(j - i - 1),
                    decreases end - j,
                {
                    let mut flag = String::new();
                    flag.push('-');
                    flag.push(chars[j]);
                    proof {
                        let f = cluster_flags(letters)[j - i - 1];
                        assert(flag@ =~= f);
                        lemma_sorted_set_push(seen, f);
                        assert(start + cluster_flags(letters).take(j - i) =~= seen.push(f));
                        seen = seen.push(f);
                    }
                    text::insert_new(&mut found, flag);
                    j += 1;
                }
                proof {
                    assert(cluster_flags(letters).take(j - i - 1) =~= cluster_flags(letters));
                    assert(seen + tail =~= start + (cluster_flags(letters) + tail));
                }
            } else {
                assert(seq![] + flags_in(all.skip(end as int)) =~= flags_in(all.skip(end as int)));
            }
            i = end;
        } else {
            i += 1;
        }
    }
    assert(all.skip(i as int) =~= seq![]);
    assert(seen + flags_in(all.skip(i as int)) =~= seen);
    found
}

/// Whether a reference mentions a flag, whatever the case of its letters.
pub open spec fn is_documented(flag: Seq<char>, body: Seq<char>) -> bool {
    text::has_sub(text::lowered(body), text::lowered(flag))
}

/// Those of `flags` that a reference does not mention.
pub open spec fn undocumented(flags: Seq<Seq<char>>, body: Seq<char>) -> Seq<Seq<char>>
    decreases flags.len(),
{
    if flags.len() == 0 {
        seq![]
    } else if is_documented(flags.last(), body) {
        undocumented(flags.drop_last(), body)
    } else {
        undocumented(flags.drop_last(), body).push(flags.last())
    }
}

/// The footer and the status for a reply.
pub open spec fn verdict(reply: Seq<char>, reference: ReferenceView) -> (Seq<char>, Option<bool>) {
    let flags = flag_set(reply);
    let missing = undocumented(flags, reference.body);
    if text::trimmed(reference.body).len() == 0 {
        ("Verification: skipped (no local reference)."@, None)
    } else if flags.len() == 0 {
        ("Verification: no flags to check."@, Some(true))
    } else if missing.len() == 0 {
        ("Verification: flags match local "@ + reference.source.shown() + "."@, Some(true))
    } else {
        (
            "Verification: unverified flags: "@ + text::joined(missing, ", "@)
                + " (not found in local "@ + reference.source.shown() + ")."@,
            Some(false),
        )
    }
}

/// Verify flags in `reply` against `reference` and return a footer + status.
pub fn verify_reply(reply: &str, reference: &ReferenceContext) -> (r: VerifyResult)
    ensures
        (r.footer@, r.verified) == verdict(reply@, reference@),
{
    if !reference.has_body() {
        return VerifyResult {
            footer: "Verification: skipped (no local reference).".to_owned(),
            verified: None,
        };
    }
    let flags = extract_flags(reply);
    assert(flags@.len() == text::views(flags@).len());
    if flags.len() == 0 {
        return VerifyResult {
            footer: "Verification: no flags to check.".to_owned(),
            verified: Some(true),
        };
    }
    let ghost all = text::views(flags@);
    let body_lower = text::to_ascii_lowercase(reference.body.as_str());
    let mut missing: Vec<String> = Vec::new();
    let mut i: usize = 0;
    assert(text::views(missing@) =~= seq![]);
    while i < flags.len()
        invariant
            i <= flags@.len(),
            all == text::views(flags@),
            body_lower@ == text::lowered(reference.body@),
            text::views(missing@) == undocumented(all.take(i as int), reference.body@),
        decreases flags@.len() - i,
    {
        assert(all.take(i + 1).drop_last() =~= all.take(i as int));
        assert(all.take(i + 1).last() == flags@[i as int]@);
        let needle = text::to_ascii_lowercase(flags[i].as_str());
        if !text::contains(body_lower.as_str(), needle.as_str()) {
            text::push_text(&mut missing, flags[i].clone());
        }
        i += 1;
    }
    assert(all.take(i as int) =~= all);
    let label = reference.source.label();
    if missing.len() == 0 {
        VerifyResult {
            footer: text::concat3("Verification: flags match local ", label, "."),
            verified: Some(true),
        }
    } else {
        let names = text::join(missing.as_slice(), ", ");
        let mut footer = text::concat3(
            "Verification: unverified flags: ",
            names.as_str(),
            " (not found in local ",
        );
        footer.append(label);
        footer.append(").");
        VerifyResult { footer, verified: Some(false) }
    }
}

/// A reply is vouched for exactly when there is a reference and it mentions every flag in the
/// reply; it is contradicted exactly when there is a reference that lacks one.
pub proof fn law_verdict(reply: Seq<char>, reference: ReferenceView)
    ensures
        verdict(reply, reference).1 is None <==> text::trimmed(reference.body).len() == 0,
        verdict(reply, reference).1 == Some(true) <==> text::trimmed(reference.body).len() > 0
            && forall|f: Seq<char>| #[trigger]
            flags_in(reply).contains(f) ==> is_documented(f, reference.body),
{
    let flags = flag_set(reply);
    text::law_sorted_set(flags_in(reply));
    lemma_undocumented(flags, reference.body);
    if undocumented(flags, reference.body).len() == 0 {
        assert forall|f: Seq<char>| #[trigger]
            flags_in(reply).contains(f) implies is_documented(f, reference.body) by {
            assert(flags.contains(f));
            let i = flags.index_of(f);
            assert(is_documented(flags[i], reference.body));
        }
    } else {
        let i = choose|i: int|
            0 <= i < flags.len() && !is_documented(#[trigger] flags[i], reference.body);
        assert(flags.contains(flags[i]));
        assert(flags_in(reply).contains(flags[i]));
    }
}

proof fn lemma_undocumented(flags: Seq<Seq<char>>, body: Seq<char>)
    ensures
        undocumented(flags, body).len() == 0 <==> forall|i: int|
            0 <= i < flags.len() ==> is_documented(#[trigger] flags[i], body),
    decreases flags.len(),
{
    if flags.len() > 0 {
        let init = flags.drop_last();
        lemma_undocumented(init, body);
        assert(flags.last() == flags[flags.len() - 1]);
        if undocumented(init, body).len() > 0 {
            let i = choose|i: int| 0 <= i < init.len() && !is_documented(#[trigger] init[i], body);
            assert(flags[i] == init[i]);
        } else {
            assert forall|i: int| 0 <= i < init.len() implies is_documented(
                #[trigger] flags[i],
                body,
            ) by {
                assert(flags[i] == init[i]);
            }
        }
    }
}

/// Append the verification footer to a reply (blank line separated).
pub fn append_footer(reply: &str, footer: &str) -> (r: String)
    ensures
        r@ == if text::rtrimmed(reply@).len() == 0 {
            footer@
        } else {
            text::rtrimmed(reply@) + "\n\n"@ + footer@
        },
{
    let reply = text::trim_end(reply);
    if reply.is_empty() {
        footer.to_owned()
    } else {
        text::concat3(reply, "\n\n", footer)
    }
}

/// A flag that stands in a text is found: a long one up to the end of its name, and a short one
/// of a single letter.
pub proof fn law_flags_are_found(
    before: Seq<char>,
    name: Seq<char>,
    letter: char,
    after: Seq<char>,
)
    requires
        !before.contains('-'),
        name.len() > 0,
        forall|k: int|
            0 <= k < name.len() ==> text::is_alnum(#[trigger] name[k]) || name[k] == '-' || name[k]
                == '_',
        text::is_alpha(letter),
        after.len() > 0 ==> !text::is_alnum(after[0]) && after[0] != '-' && after[0] != '_',
    ensures
        flag_set(before + seq!['-', '-'] + name + after).contains(seq!['-', '-'] + name),
        flag_set(before + seq!['-', letter] + after).contains(seq!['-', letter]),
{
    let long = seq!['-', '-'] + name + after;
    assert(before + seq!['-', '-'] + name + after =~= before + long);
    lemma_flags_behind(before, long);
    let rest = long.skip(2);
    let n = name.len() as int;
    assert forall|k: int| 0 <= k < n implies CharSet::OptionName.has(#[trigger] rest[k]) by {
        assert(rest[k] == name[k]);
    }
    if n < rest.len() {
        assert(rest[n] == after[0]);
    }
    text::lemma_lead_is(rest, CharSet::OptionName, n);
    assert(long.take(n + 2) =~= seq!['-', '-'] + name);
    assert(flags_in(long)[0] == seq!['-', '-'] + name);
    text::law_sorted_set(flags_in(before + long));
    assert(flags_in(before + long).contains(seq!['-', '-'] + name));
    let short = seq!['-', letter] + after;
    assert(before + seq!['-', letter] + after =~= before + short);
    lemma_flags_behind(before, short);
    let tail = short.skip(1);
    assert(tail[0] == letter);
    if tail.len() > 1 {
        assert(tail[1] == after[0]);
    }
    text::lemma_lead_is(tail, CharSet::Alnum, 1);
    assert(short.subrange(1, 2) =~= seq![letter]);
    assert(cluster_flags(seq![letter])[0] == seq!['-', letter]);
    assert(flags_in(short)[0] == seq!['-', letter]);
    text::law_sorted_set(flags_in(before + short));
    assert(flags_in(before + short).contains(seq!['-', letter]));
}

proof fn lemma_flags_behind(before: Seq<char>, tail: Seq<char>)
    requires
        !before.contains('-'),
    ensures
        flags_in(before + tail) == flags_in(tail),
    decreases before.len(),
{
    if before.len() == 0 {
        assert(before + tail =~= tail);
    } else {
        let rest = before.drop_first();
        assert(before.contains(before[0]));
        assert(!rest.contains('-')) by {
            if rest.contains('-') {
                let k = rest.index_of('-');
                assert(before[k + 1] == '-');
            }
        }
        assert((before + tail).drop_first() =~= rest + tail);
        lemma_flags_behind(rest, tail);
    }
}

/// A flag of the reply that the reference does not speak of, in whatever case, makes the verdict
/// negative, and the footer names it.
pub proof fn law_unverified_flags_are_named(
    reply: Seq<char>,
    reference: ReferenceView,
    flag: Seq<char>,
)
    requires
        text::trimmed(reference.body).len() > 0,
        flag_set(reply).contains(flag),
        !text::has_sub(text::lowered(reference.body), text::lowered(flag)),
    ensures
        verdict(reply, reference).1 == Some(false),
        text::has_sub(verdict(reply, reference).0, flag),
{
    let flags = flag_set(reply);
    let missing = undocumented(flags, reference.body);
    let k = flags.index_of(flag);
    lemma_undocumented_flag(flags, reference.body, k);
    let i = missing.index_of(flag);
    let list = text::joined(missing, ", "@);
    text::law_joined_holds_all(missing, ", "@);
    text::lemma_in_order_each(list, missing, i);
    let head = "Verification: unverified flags: "@;
    let tail = " (not found in local "@ + reference.source.shown() + ")."@;
    text::lemma_occurs(head, list, tail);
    assert(head + list + tail =~= verdict(reply, reference).0);
    text::lemma_sub_within(verdict(reply, reference).0, list, flag);
}

proof fn lemma_undocumented_flag(flags: Seq<Seq<char>>, body: Seq<char>, k: int)
    requires
        0 <= k < flags.len(),
        !is_documented(flags[k], body),
    ensures
        undocumented(flags, body).contains(flags[k]),
    decreases flags.len(),
{
    let init = flags.drop_last();
    let before = undocumented(init, body);
    let all = undocumented(flags, body);
    if k == init.len() {
        assert(all[before.len() as int] == flags[k]);
    } else {
        lemma_undocumented_flag(init, body, k);
        let i = before.index_of(flags[k]);
        assert(all[i] == flags[k]);
    }
}

/// A cluster of two to six letters is read as its single flags; a longer one is no flag.
pub proof fn law_clusters(before: Seq<char>, letters: Seq<char>, after: Seq<char>, i: int)
    requires
        !before.contains('-'),
        2 <= letters.len(),
        forall|k: int|
            0 <= k < letters.len() ==> 'a' <= #[trigger] letters[k] <= 'z' || 'A' <= letters[k]
                <= 'Z',
        after.len() > 0 ==> !text::is_alnum(after[0]),
        0 <= i < letters.len(),
    ensures
        letters.len() <= 6 ==> flag_set(before + (seq!['-'] + letters + after)).contains(
            seq!['-', letters[i]],
        ),
        letters.len() > 6 ==> flags_in(seq!['-'] + letters + after) == flags_in(after),
{
    let s = seq!['-'] + letters + after;
    let n = letters.len() as int;
    lemma_flags_behind(before, s);
    let tail = s.skip(1);
    assert forall|k: int| 0 <= k < n implies CharSet::Alnum.has(#[trigger] tail[k]) by {
        assert(tail[k] == letters[k]);
    }
    if n < tail.len() {
        assert(tail[n] == after[0]);
    }
    text::lemma_lead_is(tail, CharSet::Alnum, n);
    assert(s[1] == letters[0]);
    assert(s.subrange(1, n + 1) =~= letters);
    assert(s.skip(n + 1) =~= after);
    assert(all_letters(letters));
    if n <= 6 {
        let found = flags_in(s);
        assert(found == cluster_flags(letters) + flags_in(after));
        assert(found[i] == seq!['-', letters[i]]);
        text::law_sorted_set(flags_in(before + s));
        assert(flags_in(before + s).contains(seq!['-', letters[i]]));
    } else {
        assert(Seq::<Seq<char>>::empty() + flags_in(after) =~= flags_in(after));
    }
}

/// A reply whose flags are all spoken of in the reference, in whatever case, is verified; without
/// a reference, nothing is said.
pub proof fn law_documented_flags_are_verified(reply: Seq<char>, reference: ReferenceView)
    ensures
        text::trimmed(reference.body).len() > 0 && flag_set(reply).len() > 0 && (forall|i: int|
            0 <= i < flag_set(reply).len() ==> text::has_sub(
                text::lowered(reference.body),
                text::lowered(#[trigger] flag_set(reply)[i]),
            )) ==> verdict(reply, reference).1 == Some(true),
        text::trimmed(reference.body).len() == 0 ==> verdict(reply, reference).1 is None,
{
    lemma_undocumented(flag_set(reply), reference.body);
}

/// The footer tells what the flags were held against.
pub proof fn law_footer_names_the_source(reply: Seq<char>, reference: ReferenceView)
    requires
        text::trimmed(reference.body).len() > 0,
        flag_set(reply).len() > 0,
    ensures
        text::has_sub(verdict(reply, reference).0, reference.source.shown()),
{
    let missing = undocumented(flag_set(reply), reference.body);
    let source = reference.source.shown();
    if missing.len() == 0 {
        text::lemma_occurs("Verification: flags match local "@, source, "."@);
    } else {
        let head = "Verification: unverified flags: "@ + text::joined(missing, ", "@)
            + " (not found in local "@;
        text::lemma_occurs(head, source, ")."@);
        assert(head + source + ")."@ =~= verdict(reply, reference).0);
    }
}

} // verus!
