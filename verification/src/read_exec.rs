//! Read-only command execution tool (`run_command`).
//!
//! Lets the chat model inspect the user's machine without being able to change
//! it. Safety is structural rather than advisory:
//!
//! 1. Shell metacharacters are refused outright.
//! 2. The command is tokenized here — no shell is ever spawned, so `;`, `|`,
//!    and `$(…)` cannot chain or expand into a second command.
//! 3. Only binaries on the allowlist may run, with per-binary rules on subcommands,
//!    flags and other arguments. No argument can start another binary.
//! 4. Path arguments must resolve inside the working directory subtree or a small
//!    read-safe global set, and must never touch a known-secret path.
//! 5. Output is stripped of terminal escapes, secret-redacted, and truncated.
//!
//! What the file system and the process say is handed in as values ([`ArgFacts`],
//! [`RunOutcome`]); every decision on it is made here.
use vstd::prelude::*;
use vstd::string::*;

use crate::manpage;
use crate::path;
use crate::text;
use crate::text::CharSet;
use crate::types;

verus! {

broadcast use vstd::string::group_string_axioms;

/// Character budget for command output handed back to the model.
pub const OUTPUT_BUDGET_CHARS: usize = 4_000;

/// Cap on names offered when a path is not found.
pub const MAX_SUGGESTIONS: usize = 12;

/// Prefix of the progress status emitted for each executed command.
///
/// The UI strips this to recover the command, so both sides share the constant.
pub const RUNNING_STATUS_PREFIX: &'static str = "Running: ";

/// Why a command was refused. Rendered into text the model can act on.
#[derive(Debug, Clone, PartialEq, Eq)]
pub enum PolicyError {
    Empty,
    ShellMetachar(char),
    UnterminatedQuote,
    NotAllowed(String),
    DeniedSubcommand { bin: String, sub: String },
    DeniedFlag { bin: String, flag: String },
    PathOutsideScope(String),
    SecretPath(String),
    /// Path did not resolve; `similar` holds near-matches from its parent so
    /// the model can recover from a misspelling instead of concluding the
    /// thing does not exist.
    PathNotFound { token: String, similar: Vec<String> },
    SpawnFailed(String),
    TimedOut,
}

/// What a [`PolicyError`] says.
pub ghost enum Refusal {
    Empty,
    ShellMetachar(char),
    UnterminatedQuote,
    NotAllowed(Seq<char>),
    DeniedSubcommand { bin: Seq<char>, sub: Seq<char> },
    DeniedFlag { bin: Seq<char>, flag: Seq<char> },
    PathOutsideScope(Seq<char>),
    SecretPath(Seq<char>),
    PathNotFound { token: Seq<char>, similar: Seq<Seq<char>> },
    SpawnFailed(Seq<char>),
    TimedOut,
}

impl View for PolicyError {
    type V = Refusal;

    open spec fn view(&self) -> Refusal {
        match self {
            PolicyError::Empty => Refusal::Empty,
            PolicyError::ShellMetachar(c) => Refusal::ShellMetachar(*c),
            PolicyError::UnterminatedQuote => Refusal::UnterminatedQuote,
            PolicyError::NotAllowed(bin) => Refusal::NotAllowed(bin@),
            PolicyError::DeniedSubcommand { bin, sub } => Refusal::DeniedSubcommand {
                bin: bin@,
                sub: sub@,
            },
            PolicyError::DeniedFlag { bin, flag } => Refusal::DeniedFlag { bin: bin@, flag: flag@ },
            PolicyError::PathOutsideScope(p) => Refusal::PathOutsideScope(p@),
            PolicyError::SecretPath(p) => Refusal::SecretPath(p@),
            PolicyError::PathNotFound { token, similar } => Refusal::PathNotFound {
                token: token@,
                similar: text::views(similar@),
            },
            PolicyError::SpawnFailed(bin) => Refusal::SpawnFailed(bin@),
            PolicyError::TimedOut => Refusal::TimedOut,
        }
    }
}

impl Refusal {
    /// The text of the refusal.
    pub open spec fn message(self) -> Seq<char> {
        match self {
            Refusal::Empty => "run_command refused: no command was provided."@,
            Refusal::ShellMetachar(c) => "run_command refused: '"@ + seq![c]
                + "' is not supported. Pipes, redirects, subshells, and chaining are unavailable — run one simple command per call."@,
            Refusal::UnterminatedQuote => "run_command refused: unterminated quote in the command."@,
            Refusal::NotAllowed(bin) => "run_command refused: '"@ + bin
                + "' is not permitted. Only read-only inspection commands are allowed, such as ls, cat, head, wc, stat, find, grep, which, env, uname, ps, df, and git status/log/diff."@,
            Refusal::DeniedSubcommand { bin, sub } => "run_command refused: '"@ + bin + " "@ + sub
                + "' is not permitted. Only read-only "@ + bin + " subcommands are allowed."@,
            Refusal::DeniedFlag { bin, flag } => "run_command refused: the '"@ + flag
                + "' option of '"@ + bin + "' can modify the system."@,
            Refusal::PathOutsideScope(p) => "run_command refused: '"@ + p
                + "' is outside the working directory. Only files under the current directory can be read."@,
            Refusal::SecretPath(p) => "run_command refused: '"@ + p
                + "' may contain credentials and cannot be read."@,
            Refusal::PathNotFound { token, similar } => {
                let base = "run_command: '"@ + token + "' does not exist."@;
                if similar.len() > 0 {
                    base + " These names do exist there: "@ + text::joined(similar, ", "@)
                        + ". The intended item may be one of them under a different name or spelling."@
                } else {
                    base
                }
            },
            Refusal::SpawnFailed(bin) => "run_command error: '"@ + bin
                + "' could not be started (is it installed?)."@,
            Refusal::TimedOut => "run_command error: the command took too long and was stopped."@,
        }
    }
}

impl PolicyError {
    /// Refusal text for the model. Phrased instructionally so the next attempt
    /// is better rather than a repeat.
    pub fn as_tool_message(&self) -> (r: String)
        ensures
            r@ == self@.message(),
    {
        match self {
            PolicyError::Empty => "run_command refused: no command was provided.".to_owned(),
            PolicyError::ShellMetachar(c) => {
                let mut out = "run_command refused: '".to_owned();
                out.push(*c);
                out.append(
                    "' is not supported. Pipes, redirects, subshells, and chaining are unavailable — run one simple command per call.",
                );
                assert(out@ =~= self@.message());
                out
            },
            PolicyError::UnterminatedQuote => {
                "run_command refused: unterminated quote in the command.".to_owned()
            },
            PolicyError::NotAllowed(bin) => text::concat3(
                "run_command refused: '",
                bin.as_str(),
                "' is not permitted. Only read-only inspection commands are allowed, such as ls, cat, head, wc, stat, find, grep, which, env, uname, ps, df, and git status/log/diff.",
            ),
            PolicyError::DeniedSubcommand { bin, sub } => {
                let mut out = text::concat3("run_command refused: '", bin.as_str(), " ");
                out.append(sub.as_str());
                out.append("' is not permitted. Only read-only ");
                out.append(bin.as_str());
                out.append(" subcommands are allowed.");
                out
            },
            PolicyError::DeniedFlag { bin, flag } => {
                let mut out = text::concat3(
                    "run_command refused: the '",
                    flag.as_str(),
                    "' option of '",
                );
                out.append(bin.as_str());
                out.append("' can modify the system.");
                out
            },
            PolicyError::PathOutsideScope(p) => text::concat3(
                "run_command refused: '",
                p.as_str(),
                "' is outside the working directory. Only files under the current directory can be read.",
            ),
            PolicyError::SecretPath(p) => text::concat3(
                "run_command refused: '",
                p.as_str(),
                "' may contain credentials and cannot be read.",
            ),
            PolicyError::PathNotFound { token, similar } => {
                let mut out = text::concat3(
                    "run_command: '",
                    token.as_str(),
                    "' does not exist.",
                );
                if similar.len() > 0 {
                    out.append(" These names do exist there: ");
                    let names = text::join(similar.as_slice(), ", ");
                    out.append(names.as_str());
                    out.append(
                        ". The intended item may be one of them under a different name or spelling.",
                    );
                }
                out
            },
            PolicyError::SpawnFailed(bin) => text::concat3(
                "run_command error: '",
                bin.as_str(),
                "' could not be started (is it installed?).",
            ),
            PolicyError::TimedOut => {
                "run_command error: the command took too long and was stopped.".to_owned()
            },
        }
    }
}

// ── The kill switch and the root ─────────────────────────────────────────────

/// Whether the read-only command tool is available, by the value of `LEARNMINAL_READ_EXEC`:
/// it is, unless that is `0`, `false`, `off` or `no`.
pub fn enabled_from(value: Option<&str>) -> (r: bool)
    ensures
        r == types::switched_on(text::opt_text(value)),
{
    types::switch_is_on(value)
}

/// Directory the tool should be confined to for a request.
///
/// `cwd` is the shell's reported working directory and `resolved` the directory it resolves
/// to, where it is one; `current` is the process's own. `None` means no usable root, which
/// disables the tool.
pub fn inspect_root(cwd: &str, resolved: Option<&str>, current: Option<&str>) -> (r: Option<String>)
    ensures
        ({
            let chosen = if text::trimmed(cwd@).len() > 0 && resolved is Some {
                resolved
            } else {
                current
            };
            match r {
                Some(p) => chosen is Some && p@ == chosen->0@,
                None => chosen is None,
            }
        }),
{
    if !text::trim(cwd).is_empty() {
        if let Some(dir) = resolved {
            return Some(dir.to_owned());
        }
    }
    match current {
        Some(dir) => Some(dir.to_owned()),
        None => None,
    }
}

// ── Parsing ──────────────────────────────────────────────────────────────────

/// Characters that signal an attempt to chain, redirect, or expand.
///
/// Deliberately absent: `(`, `)` and `\`. Those carry no chaining meaning to
/// `execve`, and `find . \( -iname a -o -iname b \)` is the standard way to
/// group predicates.
pub open spec fn is_metachar(c: char) -> bool {
    c == '|' || c == '&' || c == ';' || c == '<' || c == '>' || c == '$' || c == '`' || c == '\n'
        || c == '\r' || c == '{' || c == '}'
}

/// The first shell metacharacter in `s`.
pub open spec fn first_metachar(s: Seq<char>) -> Option<char>
    decreases s.len(),
{
    if s.len() == 0 {
        None
    } else if is_metachar(s[0]) {
        Some(s[0])
    } else {
        first_metachar(s.drop_first())
    }
}

/// There is no first metacharacter exactly when there is none.
pub proof fn lemma_first_metachar(s: Seq<char>)
    ensures
        first_metachar(s) is None <==> forall|i: int|
            0 <= i < s.len() ==> !is_metachar(#[trigger] s[i]),
    decreases s.len(),
{
    if s.len() > 0 && !is_metachar(s[0]) {
        let t = s.drop_first();
        lemma_first_metachar(t);
        if first_metachar(t) is None {
            assert forall|i: int| 0 <= i < s.len() implies !is_metachar(#[trigger] s[i]) by {
                if i > 0 {
                    assert(s[i] == t[i - 1]);
                }
            }
        } else {
            let k = choose|k: int| 0 <= k < t.len() && is_metachar(#[trigger] t[k]);
            assert(s[k + 1] == t[k]);
        }
    }
}

fn find_metachar(s: &str) -> (r: Option<char>)
    ensures
        r == first_metachar(s@),
{
    let chars = text::chars_of(s);
    let mut i: usize = 0;
    assert(s@.skip(0) =~= s@);
    while i < chars.len()
        invariant
            i <= chars@.len(),
            chars@ == s@,
            first_metachar(s@) == first_metachar(s@.skip(i as int)),
        decreases chars@.len() - i,
    {
        let c = chars[i];
        assert(s@.skip(i as int)[0] == c);
        assert(s@.skip(i as int).drop_first() =~= s@.skip(i + 1));
        if c == '|' || c == '&' || c == ';' || c == '<' || c == '>' || c == '$' || c == '`' || c
            == '\n' || c == '\r' || c == '{' || c == '}' {
            return Some(c);
        }
        i += 1;
    }
    None
}

/// The word that `s` starts with, with its quotes and escapes resolved, and what stands behind
/// it. A word ends at white space. Quotes group and a backslash outside quotes escapes the next
/// character; `None` where a quote or an escape is not finished.
pub open spec fn first_word(s: Seq<char>) -> Option<(Seq<char>, Seq<char>)>
    decreases s.len(),
{
    if s.len() == 0 || text::is_white(s[0]) {
        Some((seq![], s))
    } else if s[0] == '\\' {
        if s.len() == 1 {
            None
        } else {
            match first_word(s.skip(2)) {
                Some((word, rest)) => Some((seq![s[1]] + word, rest)),
                None => None,
            }
        }
    } else if s[0] == '\'' || s[0] == '"' {
        let inside = s.drop_first();
        let n = text::lead(inside, CharSet::Not(s[0])) as int;
        if 0 <= n < inside.len() {
            match first_word(inside.skip(n + 1)) {
                Some((word, rest)) => Some((inside.take(n) + word, rest)),
                None => None,
            }
        } else {
            None
        }
    } else {
        match first_word(s.drop_first()) {
            Some((word, rest)) => Some((seq![s[0]] + word, rest)),
            None => None,
        }
    }
}

/// What stands behind the first word is no longer than the whole.
pub proof fn lemma_first_word(s: Seq<char>)
    ensures
        first_word(s) matches Some((word, rest)) ==> rest.len() <= s.len() && (s.len() > 0
            && !text::is_white(s[0]) ==> rest.len() < s.len()),
    decreases s.len(),
{
    if s.len() == 0 || text::is_white(s[0]) {
    } else if s[0] == '\\' {
        if s.len() > 1 {
            lemma_first_word(s.skip(2));
        }
    } else if s[0] == '\'' || s[0] == '"' {
        let inside = s.drop_first();
        let n = text::lead(inside, CharSet::Not(s[0])) as int;
        if 0 <= n < inside.len() {
            lemma_first_word(inside.skip(n + 1));
        }
    } else {
        lemma_first_word(s.drop_first());
    }
}

/// The words of a command line, `None` where a quote or an escape is not finished.
pub open spec fn token_list(s: Seq<char>) -> Option<Seq<Seq<char>>>
    decreases s.len(),
{
    let t = text::trimmed_start(s, CharSet::White);
    if t.len() == 0 {
        Some(seq![])
    } else {
        match first_word(t) {
            None => None,
            Some((word, rest)) => {
                proof {
                    lemma_first_word(t);
                    text::lemma_lead(s, CharSet::White);
                    assert(t[0] == s[text::lead(s, CharSet::White) as int]);
                }
                if rest.len() < s.len() {
                    match token_list(rest) {
                        Some(more) => Some(seq![word] + more),
                        None => None,
                    }
                } else {
                    None
                }
            },
        }
    }
}

/// Whether `c` has a meaning to the tokenizer besides being part of a word or white space.
pub open spec fn is_quoting(c: char) -> bool {
    c == '\\' || c == '\'' || c == '"'
}

/// A command line without quotes and escapes is split at white space and nowhere else.
pub proof fn law_plain_tokens(s: Seq<char>)
    requires
        forall|i: int| 0 <= i < s.len() ==> !is_quoting(#[trigger] s[i]),
    ensures
        token_list(s) == Some(text::word_list(s)),
    decreases s.len(),
{
    let t = text::trimmed_start(s, CharSet::White);
    text::lemma_lead(s, CharSet::White);
    if t.len() > 0 {
        let k = text::lead(s, CharSet::White) as int;
        assert(t[0] == s[k]);
        assert forall|i: int| 0 <= i < t.len() implies !is_quoting(#[trigger] t[i]) by {
            assert(t[i] == s[k + i]);
        }
        let n = text::lead(t, CharSet::NonWhite) as int;
        text::lemma_lead(t, CharSet::NonWhite);
        lemma_plain_word(t);
        let rest = t.skip(n);
        assert forall|i: int| 0 <= i < rest.len() implies !is_quoting(#[trigger] rest[i]) by {
            assert(rest[i] == t[n + i]);
        }
        law_plain_tokens(rest);
    }
}

proof fn lemma_plain_word(s: Seq<char>)
    requires
        forall|i: int| 0 <= i < s.len() ==> !is_quoting(#[trigger] s[i]),
    ensures
        ({
            let n = text::lead(s, CharSet::NonWhite) as int;
            first_word(s) == Some((s.take(n), s.skip(n)))
        }),
    decreases s.len(),
{
    let n = text::lead(s, CharSet::NonWhite) as int;
    text::lemma_lead(s, CharSet::NonWhite);
    if s.len() == 0 || text::is_white(s[0]) {
        assert(s.take(0) =~= seq![]);
        assert(s.skip(0) =~= s);
    } else {
        let t = s.drop_first();
        assert forall|i: int| 0 <= i < t.len() implies !is_quoting(#[trigger] t[i]) by {
            assert(t[i] == s[i + 1]);
        }
        lemma_plain_word(t);
        assert(!is_quoting(s[0]));
        assert(seq![s[0]] + t.take(n - 1) =~= s.take(n));
        assert(t.skip(n - 1) =~= s.skip(n));
    }
}

/// Reads one word of `chars` from `from` on, and says where it ends.
fn read_word(chars: &[char], from: usize) -> (r: Option<(String, usize)>)
    requires
        from <= chars@.len(),
    ensures
        match r {
            Some((word, end)) => from <= end <= chars@.len() && first_word(
                chars@.skip(from as int),
            ) == Some((word@, chars@.skip(end as int))),
            None => first_word(chars@.skip(from as int)) is None,
        },
{
    let ghost all = chars@;
    let ghost whole = first_word(all.skip(from as int));
    let mut word = String::new();
    let mut i: usize = from;
    loop
        invariant
            from <= i <= chars@.len(),
            all == chars@,
            whole == first_word(all.skip(from as int)),
            whole == match first_word(all.skip(i as int)) {
                Some((w, rest)) => Some((word@ + w, rest)),
                None => None,
            },
        decreases chars@.len() - i,
    {
        let ghost rest = all.skip(i as int);
        let ghost before = word@;
        if i == chars.len() || text::is_whitespace(chars[i]) {
            assert(before + seq![] =~= before);
            return Some((word, i));
        }
        let c = chars[i];
        assert(rest[0] == c);
        assert(rest.drop_first() =~= all.skip(i + 1));
        if c == '\\' {
            if chars.len() - i == 1 {
                return None;
            }
            word.push(chars[i + 1]);
            proof {
                assert(rest.skip(2) =~= all.skip(i + 2));
                match first_word(rest.skip(2)) {
                    Some((w, tail)) => {
                        assert(before + (seq![rest[1]] + w) =~= before.push(rest[1]) + w);
                    },
                    None => {},
                }
            }
            i += 2;
        } else if c == '\'' || c == '"' {
            let n = text::run_length(chars, i + 1, CharSet::Not(c));
            let end: usize = i + 1 + n;
            if end == chars.len() {
                return None;
            }
            let inside = text::string_of(vstd::slice::slice_subrange(chars, i + 1, end));
            word.append(inside.as_str());
            proof {
                assert(inside@ =~= rest.drop_first().take(n as int));
                assert(rest.drop_first().skip(n + 1) =~= all.skip(end + 1));
                match first_word(all.skip(end + 1)) {
                    Some((w, tail)) => {
                        assert(before + (inside@ + w) =~= (before + inside@) + w);
                    },
                    None => {},
                }
            }
            i = end + 1;
        } else {
            word.push(c);
            proof {
                match first_word(all.skip(i + 1)) {
                    Some((w, tail)) => {
                        assert(before + (seq![c] + w) =~= before.push(c) + w);
                    },
                    None => {},
                }
            }
            i += 1;
        }
    }
}

/// Quote-aware split into argv. Quotes group and backslash escapes the next
/// character; nothing else is interpreted.
pub fn tokenize(input: &str) -> (r: Result<Vec<String>, PolicyError>)
    ensures
        match r {
            Ok(tokens) => token_list(input@) == Some(text::views(tokens@)),
            Err(e) => token_list(input@) is None && e == PolicyError::UnterminatedQuote,
        },
{
    let chars = text::chars_of(input);
    let ghost all = input@;
    let mut tokens: Vec<String> = Vec::new();
    let mut i: usize = 0;
    assert(all.skip(0) =~= all);
    assert(text::views(tokens@) =~= seq![]);
    proof {
        if let Some(l) = token_list(all) {
            assert(seq![] + l =~= l);
        }
    }
    loop
        invariant
            i <= chars@.len(),
            chars@ == all,
            all == input@,
            token_list(all) == match token_list(all.skip(i as int)) {
                Some(more) => Some(text::views(tokens@) + more),
                None => None,
            },
        decreases chars@.len() - i,
    {
        let ghost rest = all.skip(i as int);
        let ghost before = text::views(tokens@);
        let skip = text::run_length(chars.as_slice(), i, CharSet::White);
        let start: usize = i + skip;
        let ghost t = text::trimmed_start(rest, CharSet::White);
        assert(t =~= all.skip(start as int));
        if start == chars.len() {
            assert(before + seq![] =~= before);
            return Ok(tokens);
        }
        proof {
            text::lemma_lead(rest, CharSet::White);
            assert(t[0] == rest[skip as int]);
            lemma_first_word(t);
        }
        match read_word(chars.as_slice(), start) {
            None => {
                return Err(PolicyError::UnterminatedQuote);
            },
            Some((word, end)) => {
                let ghost wv = word@;
                text::push_text(&mut tokens, word);
                proof {
                    assert(all.skip(end as int).len() < t.len());
                    if let Some(more) = token_list(all.skip(end as int)) {
                        assert(before + (seq![wv] + more) =~= before.push(wv) + more);
                    }
                }
                i = end;
            },
        }
    }
}

/// The words of a command, or why it is refused before any of them is looked at.
pub open spec fn parsed(command: Seq<char>) -> Result<Seq<Seq<char>>, Refusal> {
    let s = text::trimmed(command);
    if s.len() == 0 {
        Err(Refusal::Empty)
    } else {
        match first_metachar(s) {
            Some(c) => Err(Refusal::ShellMetachar(c)),
            None => match token_list(s) {
                None => Err(Refusal::UnterminatedQuote),
                Some(tokens) => if tokens.len() == 0 {
                    Err(Refusal::Empty)
                } else {
                    Ok(tokens)
                },
            },
        }
    }
}

/// Reject shell metacharacters, then split into argv without shell semantics.
pub fn parse_command(command: &str) -> (r: Result<Vec<String>, PolicyError>)
    ensures
        match r {
            Ok(tokens) => parsed(command@) == Ok::<Seq<Seq<char>>, Refusal>(text::views(tokens@)),
            Err(e) => parsed(command@) == Err::<Seq<Seq<char>>, Refusal>(e@),
        },
{
    let trimmed = text::trim(command);
    if trimmed.is_empty() {
        return Err(PolicyError::Empty);
    }
    if let Some(c) = find_metachar(trimmed) {
        return Err(PolicyError::ShellMetachar(c));
    }
    match tokenize(trimmed) {
        Err(e) => Err(e),
        Ok(tokens) => {
            if tokens.len() == 0 {
                Err(PolicyError::Empty)
            } else {
                Ok(tokens)
            }
        },
    }
}

// ── Policy ───────────────────────────────────────────────────────────────────

/// Whether an argument is a flag: it starts with `-` and has something behind it.
pub open spec fn is_flag(arg: Seq<char>) -> bool {
    arg.len() > 1 && arg[0] == '-'
}

fn flag_like(arg: &str) -> (r: bool)
    ensures
        r == is_flag(arg@),
{
    arg.unicode_len() > 1 && arg.get_char(0) == '-'
}

/// Whether an argument is a run of one-letter flags, with what stands behind them.
pub open spec fn is_run(arg: Seq<char>) -> bool {
    is_flag(arg) && arg[1] != '-'
}

/// Whether `flag` is the long flag `name`, or an abbreviation of it that is at least `least`.
pub open spec fn abbreviates(flag: Seq<char>, least: Seq<char>, name: Seq<char>) -> bool {
    least.is_prefix_of(flag) && flag.is_prefix_of(name)
}

fn is_short_for(flag: &str, least: &str, name: &str) -> (r: bool)
    ensures
        r == abbreviates(flag@, least@, name@),
{
    text::starts_with(flag, least) && text::starts_with(name, flag)
}

/// Binaries that may run with any arguments.
pub open spec fn is_plain_binary(w: Seq<char>) -> bool {
    ||| w == "ls"@
    ||| w == "pwd"@
    ||| w == "cat"@
    ||| w == "head"@
    ||| w == "wc"@
    ||| w == "stat"@
    ||| w == "du"@
    ||| w == "df"@
    ||| w == "realpath"@
    ||| w == "basename"@
    ||| w == "dirname"@
    ||| w == "readlink"@
    ||| w == "grep"@
    ||| w == "uname"@
    ||| w == "whoami"@
    ||| w == "id"@
    ||| w == "uptime"@
    ||| w == "printenv"@
    ||| w == "which"@
    ||| w == "ps"@
    ||| w == "free"@
    ||| w == "lscpu"@
    ||| w == "sw_vers"@
}

fn plain_binary(w: &str) -> (r: bool)
    ensures
        r == is_plain_binary(w@),
{
    text::same(w, "ls") || text::same(w, "pwd") || text::same(w, "cat") || text::same(w, "head") || text::same(w, "wc") || text::same(w, "stat") || text::same(w, "du") || text::same(w, "df") || text::same(w, "realpath") || text::same(w, "basename") || text::same(w, "dirname") || text::same(w, "readlink") || text::same(w, "grep") || text::same(w, "uname") || text::same(w, "whoami") || text::same(w, "id") || text::same(w, "uptime") || text::same(w, "printenv") || text::same(w, "which") || text::same(w, "ps") || text::same(w, "free") || text::same(w, "lscpu") || text::same(w, "sw_vers")
}

/// Subcommands of `git` that only read repository state.
pub open spec fn is_git_read(w: Seq<char>) -> bool {
    ||| w == "status"@
    ||| w == "log"@
    ||| w == "diff"@
    ||| w == "show"@
    ||| w == "branch"@
    ||| w == "remote"@
    ||| w == "rev-parse"@
    ||| w == "describe"@
    ||| w == "tag"@
    ||| w == "blame"@
    ||| w == "shortlog"@
    ||| w == "ls-files"@
    ||| w == "ls-remote"@
    ||| w == "count-objects"@
}

fn git_read(w: &str) -> (r: bool)
    ensures
        r == is_git_read(w@),
{
    text::same(w, "status") || text::same(w, "log") || text::same(w, "diff") || text::same(w, "show") || text::same(w, "branch") || text::same(w, "remote") || text::same(w, "rev-parse") || text::same(w, "describe") || text::same(w, "tag") || text::same(w, "blame") || text::same(w, "shortlog") || text::same(w, "ls-files") || text::same(w, "ls-remote") || text::same(w, "count-objects")
}

/// `find` predicates that write, delete, or execute.
pub open spec fn is_find_action(w: Seq<char>) -> bool {
    ||| w == "-delete"@
    ||| w == "-exec"@
    ||| w == "-execdir"@
    ||| w == "-ok"@
    ||| w == "-okdir"@
    ||| w == "-fprintf"@
    ||| w == "-fls"@
    ||| w == "-fprint"@
    ||| w == "-fprint0"@
}

fn find_action(w: &str) -> (r: bool)
    ensures
        r == is_find_action(w@),
{
    text::same(w, "-delete") || text::same(w, "-exec") || text::same(w, "-execdir") || text::same(w, "-ok") || text::same(w, "-okdir") || text::same(w, "-fprintf") || text::same(w, "-fls") || text::same(w, "-fprint") || text::same(w, "-fprint0")
}

/// Version probes: running a toolchain binary with anything else would execute user code
/// (`python3 script.py`) or mutate state (`npm install`).
pub open spec fn is_version_probe(w: Seq<char>) -> bool {
    ||| w == "--version"@
    ||| w == "-V"@
    ||| w == "-v"@
    ||| w == "version"@
}

fn version_probe(w: &str) -> (r: bool)
    ensures
        r == is_version_probe(w@),
{
    text::same(w, "--version") || text::same(w, "-V") || text::same(w, "-v") || text::same(w, "version")
}

/// Version probes of a binary that takes any other word for a file to run or to compile.
pub open spec fn is_version_flag(w: Seq<char>) -> bool {
    ||| w == "--version"@
    ||| w == "-V"@
    ||| w == "-v"@
}

fn version_flag(w: &str) -> (r: bool)
    ensures
        r == is_version_flag(w@),
{
    text::same(w, "--version") || text::same(w, "-V") || text::same(w, "-v")
}

/// Binaries that run or compile the file they are given, and may only be asked for their version.
pub open spec fn is_interpreter(w: Seq<char>) -> bool {
    ||| w == "node"@
    ||| w == "python3"@
    ||| w == "python"@
    ||| w == "rustc"@
}

fn interpreter(w: &str) -> (r: bool)
    ensures
        r == is_interpreter(w@),
{
    text::same(w, "node") || text::same(w, "python3") || text::same(w, "python") || text::same(
        w,
        "rustc",
    )
}

/// Other toolchain binaries, which may only be asked for their version.
pub open spec fn is_toolchain(w: Seq<char>) -> bool {
    ||| w == "cargo"@
    ||| w == "npm"@
}

fn toolchain(w: &str) -> (r: bool)
    ensures
        r == is_toolchain(w@),
{
    text::same(w, "cargo") || text::same(w, "npm")
}

/// Which first argument a binary takes.
#[derive(Debug, Clone, Copy, PartialEq, Eq, Structural)]
pub enum Subcommands {
    /// Anything.
    Any,
    /// The reading subcommands of `git`. `git config` is not among them because
    /// `git config --global k v` writes.
    GitRead,
    /// A version probe.
    VersionOnly,
    /// A version probe that is a flag.
    VersionFlag,
    /// The reading subcommands of `ollama`.
    OllamaRead,
}

impl Subcommands {
    /// Whether `sub` is permitted.
    pub open spec fn permits(self, sub: Seq<char>) -> bool {
        match self {
            Subcommands::Any => true,
            Subcommands::GitRead => is_git_read(sub),
            Subcommands::VersionOnly => is_version_probe(sub),
            Subcommands::VersionFlag => is_version_flag(sub),
            Subcommands::OllamaRead => sub == "list"@ || sub == "--version"@ || sub == "-v"@,
        }
    }

    fn allows(self, sub: &str) -> (r: bool)
        ensures
            r == self.permits(sub@),
    {
        match self {
            Subcommands::Any => true,
            Subcommands::GitRead => git_read(sub),
            Subcommands::VersionOnly => version_probe(sub),
            Subcommands::VersionFlag => version_flag(sub),
            Subcommands::OllamaRead => text::same(sub, "list") || text::same(sub, "--version")
                || text::same(sub, "-v"),
        }
    }
}

/// Arguments that flip a binary from read-only to destructive, or keep it from ending, wherever
/// they stand.
#[derive(Debug, Clone, Copy, PartialEq, Eq, Structural)]
pub enum DeniedFlags {
    Nothing,
    /// Following a file, which never ends.
    Follow,
    /// Writing the tree to a file.
    TreeOutput,
    /// Running programs over what is searched.
    Preprocessor,
    FindActions,
    SetClock,
    /// Overriding the configuration, or where the programs of `git` are.
    GitOverride,
}

impl DeniedFlags {
    /// Whether `flag` is denied.
    pub open spec fn denies(self, flag: Seq<char>) -> bool {
        match self {
            DeniedFlags::Nothing => false,
            DeniedFlags::Follow => flag == "-f"@ || flag == "--follow"@,
            DeniedFlags::TreeOutput => flag == "-o"@,
            DeniedFlags::Preprocessor => flag == "--pre"@ || flag == "--hostname-bin"@,
            DeniedFlags::FindActions => is_find_action(flag),
            DeniedFlags::SetClock => flag == "-s"@ || flag == "--set"@,
            DeniedFlags::GitOverride => flag == "-c"@ || flag == "--exec-path"@ || flag
                == "--config-env"@,
        }
    }

    fn holds(self, flag: &str) -> (r: bool)
        ensures
            r == self.denies(flag@),
    {
        match self {
            DeniedFlags::Nothing => false,
            DeniedFlags::Follow => text::same(flag, "-f") || text::same(flag, "--follow"),
            DeniedFlags::TreeOutput => text::same(flag, "-o"),
            DeniedFlags::Preprocessor => text::same(flag, "--pre") || text::same(
                flag,
                "--hostname-bin",
            ),
            DeniedFlags::FindActions => find_action(flag),
            DeniedFlags::SetClock => text::same(flag, "-s") || text::same(flag, "--set"),
            DeniedFlags::GitOverride => text::same(flag, "-c") || text::same(flag, "--exec-path")
                || text::same(flag, "--config-env"),
        }
    }
}

// ── Arguments ────────────────────────────────────────────────────────────────

/// Long flags of `rg` whose value may be the next argument.
pub open spec fn is_search_value_flag(w: Seq<char>) -> bool {
    ||| w == "--after-context"@
    ||| w == "--before-context"@
    ||| w == "--color"@
    ||| w == "--colors"@
    ||| w == "--context"@
    ||| w == "--context-separator"@
    ||| w == "--dfa-size-limit"@
    ||| w == "--encoding"@
    ||| w == "--engine"@
    ||| w == "--field-context-separator"@
    ||| w == "--field-match-separator"@
    ||| w == "--file"@
    ||| w == "--generate"@
    ||| w == "--glob"@
    ||| w == "--hyperlink-format"@
    ||| w == "--iglob"@
    ||| w == "--ignore-file"@
    ||| w == "--max-columns"@
    ||| w == "--max-count"@
    ||| w == "--max-depth"@
    ||| w == "--maxdepth"@
    ||| w == "--max-filesize"@
    ||| w == "--path-separator"@
    ||| w == "--pre-glob"@
    ||| w == "--regex-size-limit"@
    ||| w == "--regexp"@
    ||| w == "--replace"@
    ||| w == "--sort"@
    ||| w == "--sortr"@
    ||| w == "--threads"@
    ||| w == "--type"@
    ||| w == "--type-add"@
    ||| w == "--type-clear"@
    ||| w == "--type-not"@
}

fn search_value_flag(w: &str) -> (r: bool)
    ensures
        r == is_search_value_flag(w@),
{
    text::same(w, "--after-context") || text::same(w, "--before-context") || text::same(w, "--color") || text::same(w, "--colors") || text::same(w, "--context") || text::same(w, "--context-separator") || text::same(w, "--dfa-size-limit") || text::same(w, "--encoding") || text::same(w, "--engine") || text::same(w, "--field-context-separator") || text::same(w, "--field-match-separator") || text::same(w, "--file") || text::same(w, "--generate") || text::same(w, "--glob") || text::same(w, "--hyperlink-format") || text::same(w, "--iglob") || text::same(w, "--ignore-file") || text::same(w, "--max-columns") || text::same(w, "--max-count") || text::same(w, "--max-depth") || text::same(w, "--maxdepth") || text::same(w, "--max-filesize") || text::same(w, "--path-separator") || text::same(w, "--pre-glob") || text::same(w, "--regex-size-limit") || text::same(w, "--regexp") || text::same(w, "--replace") || text::same(w, "--sort") || text::same(w, "--sortr") || text::same(w, "--threads") || text::same(w, "--type") || text::same(w, "--type-add") || text::same(w, "--type-clear") || text::same(w, "--type-not")
}

/// Long flags of `tree` whose value may be the next argument.
pub open spec fn is_tree_value_flag(w: Seq<char>) -> bool {
    ||| w == "--charset"@
    ||| w == "--filelimit"@
    ||| w == "--gitfile"@
    ||| w == "--infofile"@
    ||| w == "--sort"@
    ||| w == "--timefmt"@
}

fn tree_value_flag(w: &str) -> (r: bool)
    ensures
        r == is_tree_value_flag(w@),
{
    text::same(w, "--charset") || text::same(w, "--filelimit") || text::same(w, "--gitfile") || text::same(w, "--infofile") || text::same(w, "--sort") || text::same(w, "--timefmt")
}

/// Long flags that select what `git branch` and `git tag` list, and take what to select it by.
pub open spec fn is_selecting_flag(name: Seq<char>) -> bool {
    ||| abbreviates(name, "--con"@, "--contains"@)
    ||| abbreviates(name, "--no-con"@, "--no-contains"@)
    ||| abbreviates(name, "--wi"@, "--without"@)
    ||| abbreviates(name, "--mer"@, "--merged"@)
    ||| abbreviates(name, "--no-mer"@, "--no-merged"@)
    ||| abbreviates(name, "--p"@, "--points-at"@)
}

fn selecting_flag(name: &str) -> (r: bool)
    ensures
        r == is_selecting_flag(name@),
{
    is_short_for(name, "--con", "--contains") || is_short_for(name, "--no-con", "--no-contains")
        || is_short_for(name, "--wi", "--without") || is_short_for(name, "--mer", "--merged")
        || is_short_for(name, "--no-mer", "--no-merged") || is_short_for(
        name,
        "--p",
        "--points-at",
    )
}

/// Long flags with which `git branch` and `git tag` list, and abbreviations of them. One that
/// stands for more than one flag is refused by `git` itself.
pub open spec fn is_listing_flag(name: Seq<char>) -> bool {
    ||| is_selecting_flag(name)
    ||| abbreviates(name, "--l"@, "--list"@)
    ||| abbreviates(name, "--c"@, "--contains"@)
    ||| abbreviates(name, "--c"@, "--column"@)
    ||| abbreviates(name, "--c"@, "--color"@)
    ||| abbreviates(name, "--f"@, "--format"@)
    ||| abbreviates(name, "--m"@, "--merged"@)
    ||| abbreviates(name, "--s"@, "--sort"@)
    ||| abbreviates(name, "--i"@, "--ignore-case"@)
    ||| abbreviates(name, "--o"@, "--omit-empty"@)
    ||| abbreviates(name, "--h"@, "--help"@)
    ||| abbreviates(name, "--n"@, "--no-contains"@)
    ||| abbreviates(name, "--n"@, "--no-column"@)
    ||| abbreviates(name, "--n"@, "--no-color"@)
    ||| abbreviates(name, "--n"@, "--no-format"@)
    ||| abbreviates(name, "--n"@, "--no-merged"@)
    ||| abbreviates(name, "--n"@, "--no-sort"@)
    ||| abbreviates(name, "--n"@, "--no-ignore-case"@)
    ||| abbreviates(name, "--n"@, "--no-omit-empty"@)
}

fn listing_flag(name: &str) -> (r: bool)
    ensures
        r == is_listing_flag(name@),
{
    selecting_flag(name) || is_short_for(name, "--l", "--list") || is_short_for(name, "--c", "--contains") || is_short_for(name, "--c", "--column") || is_short_for(name, "--c", "--color") || is_short_for(name, "--f", "--format") || is_short_for(name, "--m", "--merged") || is_short_for(name, "--s", "--sort") || is_short_for(name, "--i", "--ignore-case") || is_short_for(name, "--o", "--omit-empty") || is_short_for(name, "--h", "--help") || is_short_for(name, "--n", "--no-contains") || is_short_for(name, "--n", "--no-column") || is_short_for(name, "--n", "--no-color") || is_short_for(name, "--n", "--no-format") || is_short_for(name, "--n", "--no-merged") || is_short_for(name, "--n", "--no-sort") || is_short_for(name, "--n", "--no-ignore-case") || is_short_for(name, "--n", "--no-omit-empty")
}

/// Long flags with which only `git branch` lists, and abbreviations of them.
pub open spec fn is_branch_flag(name: Seq<char>) -> bool {
    ||| abbreviates(name, "--a"@, "--all"@)
    ||| abbreviates(name, "--a"@, "--abbrev"@)
    ||| abbreviates(name, "--r"@, "--remotes"@)
    ||| abbreviates(name, "--v"@, "--verbose"@)
    ||| abbreviates(name, "--q"@, "--quiet"@)
    ||| abbreviates(name, "--s"@, "--show-current"@)
    ||| abbreviates(name, "--n"@, "--no-abbrev"@)
    ||| abbreviates(name, "--n"@, "--no-verbose"@)
    ||| abbreviates(name, "--n"@, "--no-quiet"@)
}

fn branch_flag(name: &str) -> (r: bool)
    ensures
        r == is_branch_flag(name@),
{
    is_short_for(name, "--a", "--all") || is_short_for(name, "--a", "--abbrev") || is_short_for(name, "--r", "--remotes") || is_short_for(name, "--v", "--verbose") || is_short_for(name, "--q", "--quiet") || is_short_for(name, "--s", "--show-current") || is_short_for(name, "--n", "--no-abbrev") || is_short_for(name, "--n", "--no-verbose") || is_short_for(name, "--n", "--no-quiet")
}

/// One-letter flags with which `git branch` lists.
pub open spec fn is_branch_letter(c: char) -> bool {
    c == 'a' || c == 'r' || c == 'v' || c == 'i' || c == 'l' || c == 'q' || c == 'h'
}

/// One-letter flags with which `git tag` lists.
pub open spec fn is_tag_letter(c: char) -> bool {
    c == 'l' || c == 'n' || c == 'i' || c == 'h'
}

/// What an argument is to the binary that gets it.
#[derive(Debug, Clone, Copy, PartialEq, Eq, Structural)]
pub enum Role {
    /// A flag, or a run of them.
    Flag,
    /// The value of the flag before it.
    Value,
    /// Anything else.
    Word,
}

/// What the arguments before one say of it.
#[derive(Debug, Clone, Copy, PartialEq, Eq, Structural)]
pub struct Reading {
    /// No further argument is taken for a flag.
    pub ended: bool,
    /// The flag before it takes it for its value.
    pub awaiting: bool,
}

/// What the arguments of a binary, or of a subcommand, have to be.
#[derive(Debug, Clone, Copy, PartialEq, Eq, Structural)]
pub enum Arguments {
    /// Anything.
    Any,
    /// Flags, then assignments: anything else would be a program for `env` to start.
    Assignments,
    /// Flags of `hostname`: anything else would be a new name for the host.
    HostFlags,
    /// What `file` does not compile, nor unpack by running programs.
    FileRead,
    /// What has `tail` end.
    TailRead,
    /// What `tree` writes to no file.
    TreeRead,
    /// What has `rg` run no programs.
    Search,
    /// Flags and output formats of `date`: anything else would set the clock.
    ClockFormat,
    /// Only what is permitted where a subcommand stands, and `--verbose`.
    Each(Subcommands),
    /// Flags, and `list` with anything behind it.
    OllamaList,
    /// What has `git` show commits and changes, write to no file and run no program for it.
    History,
    /// What has `git ls-remote` run no program at the other end.
    RemoteRefs,
    /// Listing branches: a name without a listing flag would create one.
    BranchList,
    /// Listing tags: a name without a listing flag would create one.
    TagList,
    /// Listing remotes, or showing one.
    RemoteRead,
}

impl Arguments {
    /// Whether a one-letter flag takes a value: what stands behind it in its run, else the next
    /// argument.
    pub open spec fn takes_next(self, c: char) -> bool {
        match self {
            Arguments::Assignments => c == 'u' || c == 'C' || c == 'a' || c == 'P' || c == 'S',
            Arguments::FileRead => c == 'e' || c == 'F' || c == 'f' || c == 'm' || c == 'P',
            Arguments::TailRead => c == 'c' || c == 'n' || c == 's',
            Arguments::Search => c == 'A' || c == 'B' || c == 'C' || c == 'd' || c == 'E' || c
                == 'e' || c == 'f' || c == 'g' || c == 'j' || c == 'M' || c == 'm' || c == 'r' || c
                == 't' || c == 'T',
            Arguments::ClockFormat => c == 'd' || c == 'f' || c == 'r' || c == 's' || c == 'v' || c
                == 'z',
            Arguments::RemoteRefs => c == 'o',
            _ => false,
        }
    }

    /// Whether a one-letter flag takes what stands behind it in its run for its value.
    pub open spec fn takes_rest(self, c: char) -> bool {
        match self {
            Arguments::ClockFormat => self.takes_next(c) || c == 'I',
            Arguments::TagList => c == 'n',
            _ => self.takes_next(c),
        }
    }

    fn has_next(self, c: char) -> (r: bool)
        ensures
            r == self.takes_next(c),
    {
        match self {
            Arguments::Assignments => c == 'u' || c == 'C' || c == 'a' || c == 'P' || c == 'S',
            Arguments::FileRead => c == 'e' || c == 'F' || c == 'f' || c == 'm' || c == 'P',
            Arguments::TailRead => c == 'c' || c == 'n' || c == 's',
            Arguments::Search => c == 'A' || c == 'B' || c == 'C' || c == 'd' || c == 'E' || c
                == 'e' || c == 'f' || c == 'g' || c == 'j' || c == 'M' || c == 'm' || c == 'r' || c
                == 't' || c == 'T',
            Arguments::ClockFormat => c == 'd' || c == 'f' || c == 'r' || c == 's' || c == 'v' || c
                == 'z',
            Arguments::RemoteRefs => c == 'o',
            _ => false,
        }
    }

    fn has_rest(self, c: char) -> (r: bool)
        ensures
            r == self.takes_rest(c),
    {
        match self {
            Arguments::ClockFormat => self.has_next(c) || c == 'I',
            Arguments::TagList => c == 'n',
            _ => self.has_next(c),
        }
    }

    /// The one-letter flags at the start of a run, up to the first that takes the rest of it.
    pub open spec fn run_flags(self, run: Seq<char>) -> Seq<char>
        decreases run.len(),
    {
        if run.len() == 0 {
            seq![]
        } else if self.takes_rest(run[0]) {
            seq![run[0]]
        } else {
            seq![run[0]] + self.run_flags(run.drop_first())
        }
    }

    /// The one-letter flags in an argument.
    pub open spec fn letters(self, arg: Seq<char>) -> Seq<char> {
        if is_run(arg) {
            self.run_flags(arg.skip(1))
        } else {
            seq![]
        }
    }

    fn letters_of(self, arg: &str) -> (r: Vec<char>)
        ensures
            r@ == self.letters(arg@),
    {
        let mut out: Vec<char> = Vec::new();
        if !flag_like(arg) || arg.get_char(1) == '-' {
            return out;
        }
        let chars = text::chars_of(arg);
        let mut i: usize = 1;
        while i < chars.len()
            invariant
                1 <= i <= chars@.len(),
                chars@ == arg@,
                is_run(arg@),
                out@ + self.run_flags(arg@.skip(i as int)) == self.letters(arg@),
            decreases chars@.len() - i,
        {
            let ghost rest = arg@.skip(i as int);
            assert(rest[0] == chars@[i as int]);
            assert(rest.drop_first() =~= arg@.skip(i + 1));
            let ghost before = out@;
            out.push(chars[i]);
            if self.has_rest(chars[i]) {
                assert(out@ =~= before + seq![rest[0]]);
                return out;
            }
            i += 1;
            assert(out@ + self.run_flags(arg@.skip(i as int)) =~= before + self.run_flags(rest));
        }
        assert(out@ + self.run_flags(arg@.skip(i as int)) =~= out@);
        out
    }

    /// Whether an argument has a one-letter flag in it.
    pub open spec fn has_letter(self, arg: Seq<char>, letter: char) -> bool {
        self.letters(arg).contains(letter)
    }

    fn holds_letter(self, arg: &str, letter: char) -> (r: bool)
        ensures
            r == self.has_letter(arg@, letter),
    {
        let letters = self.letters_of(arg);
        let mut i: usize = 0;
        while i < letters.len()
            invariant
                i <= letters@.len(),
                letters@ == self.letters(arg@),
                forall|k: int| 0 <= k < i ==> #[trigger] letters@[k] != letter,
            decreases letters@.len() - i,
        {
            if letters[i] == letter {
                assert(self.letters(arg@)[i as int] == letter);
                return true;
            }
            i += 1;
        }
        false
    }

    /// Whether a long flag takes the next argument for its value.
    pub open spec fn long_awaits(self, flag: Seq<char>) -> bool {
        match self {
            Arguments::Assignments => abbreviates(flag, "--u"@, "--unset"@) || abbreviates(
                flag,
                "--c"@,
                "--chdir"@,
            ) || abbreviates(flag, "--a"@, "--argv0"@),
            Arguments::FileRead => abbreviates(flag, "--exc"@, "--exclude-quiet"@) || abbreviates(
                flag,
                "--f"@,
                "--files-from"@,
            ) || abbreviates(flag, "--ma"@, "--magic-file"@) || abbreviates(
                flag,
                "--pa"@,
                "--parameter"@,
            ) || abbreviates(flag, "--se"@, "--separator"@),
            Arguments::TailRead => abbreviates(flag, "--b"@, "--bytes"@) || abbreviates(
                flag,
                "--l"@,
                "--lines"@,
            ) || abbreviates(flag, "--m"@, "--max-unchanged-stats"@) || abbreviates(
                flag,
                "--p"@,
                "--pid"@,
            ) || abbreviates(flag, "--sl"@, "--sleep-interval"@),
            Arguments::TreeRead => is_tree_value_flag(flag),
            Arguments::Search => is_search_value_flag(flag),
            Arguments::ClockFormat => abbreviates(flag, "--da"@, "--date"@) || abbreviates(
                flag,
                "--f"@,
                "--file"@,
            ) || abbreviates(flag, "--ref"@, "--reference"@) || abbreviates(
                flag,
                "--rfc-3"@,
                "--rfc-3339"@,
            ),
            Arguments::RemoteRefs => abbreviates(flag, "--so"@, "--sort"@) || abbreviates(
                flag,
                "--se"@,
                "--server-option"@,
            ),
            Arguments::BranchList | Arguments::TagList => is_selecting_flag(flag) || abbreviates(
                flag,
                "--so"@,
                "--sort"@,
            ) || abbreviates(flag, "--form"@, "--format"@),
            _ => false,
        }
    }

    fn is_long_awaiting(self, flag: &str) -> (r: bool)
        ensures
            r == self.long_awaits(flag@),
    {
        match self {
            Arguments::Assignments => is_short_for(flag, "--u", "--unset") || is_short_for(
                flag,
                "--c",
                "--chdir",
            ) || is_short_for(flag, "--a", "--argv0"),
            Arguments::FileRead => is_short_for(flag, "--exc", "--exclude-quiet") || is_short_for(
                flag,
                "--f",
                "--files-from",
            ) || is_short_for(flag, "--ma", "--magic-file") || is_short_for(
                flag,
                "--pa",
                "--parameter",
            ) || is_short_for(flag, "--se", "--separator"),
            Arguments::TailRead => is_short_for(flag, "--b", "--bytes") || is_short_for(
                flag,
                "--l",
                "--lines",
            ) || is_short_for(flag, "--m", "--max-unchanged-stats") || is_short_for(
                flag,
                "--p",
                "--pid",
            ) || is_short_for(flag, "--sl", "--sleep-interval"),
            Arguments::TreeRead => tree_value_flag(flag),
            Arguments::Search => search_value_flag(flag),
            Arguments::ClockFormat => is_short_for(flag, "--da", "--date") || is_short_for(
                flag,
                "--f",
                "--file",
            ) || is_short_for(flag, "--ref", "--reference") || is_short_for(
                flag,
                "--rfc-3",
                "--rfc-3339",
            ),
            Arguments::RemoteRefs => is_short_for(flag, "--so", "--sort") || is_short_for(
                flag,
                "--se",
                "--server-option",
            ),
            Arguments::BranchList | Arguments::TagList => selecting_flag(flag) || is_short_for(
                flag,
                "--so",
                "--sort",
            ) || is_short_for(flag, "--form", "--format"),
            _ => false,
        }
    }

    /// Whether a flag takes the next argument for its value. `tree` reads on in a run behind a
    /// letter that takes one, and takes a number behind `-L` for its value.
    pub open spec fn awaits(self, flag: Seq<char>) -> bool {
        let letters = self.letters(flag);
        ||| self.long_awaits(flag)
        ||| letters.len() > 0 && letters.len() + 1 == flag.len() && self.takes_next(letters.last())
        ||| self == Arguments::TreeRead && (letters.contains('P') || letters.contains('I')
            || letters.contains('H') || letters.contains('T') || letters.len() > 0
            && letters.last() == 'L')
    }

    fn is_awaiting(self, flag: &str) -> (r: bool)
        ensures
            r == self.awaits(flag@),
    {
        if self.is_long_awaiting(flag) {
            return true;
        }
        let letters = self.letters_of(flag);
        let n = letters.len();
        if n > 0 && n == flag.unicode_len() - 1 && self.has_next(letters[n - 1]) {
            return true;
        }
        self == Arguments::TreeRead && (self.holds_letter(flag, 'P') || self.holds_letter(flag, 'I')
            || self.holds_letter(flag, 'H') || self.holds_letter(flag, 'T') || (n > 0
            && letters[n - 1] == 'L'))
    }

    /// Whether no argument behind the first word is taken for a flag.
    pub open spec fn stops_at_words(self) -> bool {
        self == Arguments::Assignments || self == Arguments::RemoteRead
    }

    /// What is known behind one more argument.
    pub open spec fn step(self, s: Reading, arg: Seq<char>) -> Reading {
        if s.awaiting {
            Reading { ended: s.ended, awaiting: false }
        } else if s.ended {
            s
        } else if is_flag(arg) {
            Reading { ended: arg == "--"@, awaiting: self.awaits(arg) }
        } else {
            Reading { ended: self.stops_at_words(), awaiting: false }
        }
    }

    fn next(self, s: Reading, arg: &str) -> (r: Reading)
        ensures
            r == self.step(s, arg@),
    {
        if s.awaiting {
            Reading { ended: s.ended, awaiting: false }
        } else if s.ended {
            s
        } else if flag_like(arg) {
            Reading { ended: text::same(arg, "--"), awaiting: self.is_awaiting(arg) }
        } else {
            Reading {
                ended: self == Arguments::Assignments || self == Arguments::RemoteRead,
                awaiting: false,
            }
        }
    }

    /// What the arguments before `i` say of the one there.
    pub open spec fn reading(self, args: Seq<Seq<char>>, i: int) -> Reading
        decreases i,
    {
        if i <= 0 {
            Reading { ended: false, awaiting: false }
        } else {
            self.step(self.reading(args, i - 1), args[i - 1])
        }
    }

    /// What an argument is, by what the arguments before it say.
    pub open spec fn role_after(self, s: Reading, arg: Seq<char>) -> Role {
        if s.awaiting {
            Role::Value
        } else if s.ended || !is_flag(arg) {
            Role::Word
        } else {
            Role::Flag
        }
    }

    fn take_role(self, s: Reading, arg: &str) -> (r: Role)
        ensures
            r == self.role_after(s, arg@),
    {
        if s.awaiting {
            Role::Value
        } else if s.ended || !flag_like(arg) {
            Role::Word
        } else {
            Role::Flag
        }
    }

    /// What the argument at `i` is.
    pub open spec fn role(self, args: Seq<Seq<char>>, i: int) -> Role {
        self.role_after(self.reading(args, i), args[i])
    }

    /// Whether a flag has the binary start a program.
    pub open spec fn starts_by(self, flag: Seq<char>) -> bool {
        let name = text::before(flag, '=');
        match self {
            Arguments::Assignments => self.has_letter(flag, 'S') || abbreviates(
                name,
                "--s"@,
                "--split-string"@,
            ),
            Arguments::FileRead => self.has_letter(flag, 'z') || self.has_letter(flag, 'Z')
                || abbreviates(name, "--u"@, "--uncompress-noreport"@),
            Arguments::Search => self.has_letter(flag, 'z') || name == "--search-zip"@,
            Arguments::History => abbreviates(name, "--ext"@, "--ext-diff"@) || name
                == "--show-signature"@,
            Arguments::RemoteRefs => abbreviates(name, "--u"@, "--upload-pack"@) || abbreviates(
                name,
                "--exe"@,
                "--exec"@,
            ),
            _ => false,
        }
    }

    fn is_started_by(self, flag: &str) -> (r: bool)
        ensures
            r == self.starts_by(flag@),
    {
        let name = text::split_first(flag, '=');
        match self {
            Arguments::Assignments => self.holds_letter(flag, 'S') || is_short_for(
                name,
                "--s",
                "--split-string",
            ),
            Arguments::FileRead => self.holds_letter(flag, 'z') || self.holds_letter(flag, 'Z')
                || is_short_for(name, "--u", "--uncompress-noreport"),
            Arguments::Search => self.holds_letter(flag, 'z') || text::same(name, "--search-zip"),
            Arguments::History => is_short_for(name, "--ext", "--ext-diff") || text::same(
                name,
                "--show-signature",
            ),
            Arguments::RemoteRefs => is_short_for(name, "--u", "--upload-pack") || is_short_for(
                name,
                "--exe",
                "--exec",
            ),
            _ => false,
        }
    }

    /// Whether a flag is one that only reads.
    pub open spec fn permits_flag(self, flag: Seq<char>) -> bool {
        let name = text::before(flag, '=');
        match self {
            Arguments::HostFlags => !(self.has_letter(flag, 'F') || self.has_letter(flag, 'b')
                || abbreviates(name, "--fi"@, "--file"@) || abbreviates(name, "--b"@, "--boot"@)),
            Arguments::FileRead => !(self.starts_by(flag) || self.has_letter(flag, 'C')
                || abbreviates(name, "--co"@, "--compile"@)),
            Arguments::TailRead => !(self.has_letter(flag, 'f') || self.has_letter(flag, 'F')
                || abbreviates(name, "--f"@, "--follow"@)),
            Arguments::TreeRead => !(self.has_letter(flag, 'o') || self.has_letter(flag, 'R')),
            Arguments::ClockFormat => !(self.has_letter(flag, 's') || abbreviates(
                name,
                "--s"@,
                "--set"@,
            )),
            Arguments::History => !(self.starts_by(flag) || name == "--output"@),
            Arguments::BranchList => if is_run(flag) {
                forall|k: int|
                    0 <= k < self.letters(flag).len() ==> is_branch_letter(
                        #[trigger] self.letters(flag)[k],
                    )
            } else {
                flag == "--"@ || is_listing_flag(name) || is_branch_flag(name)
            },
            Arguments::TagList => if is_run(flag) {
                forall|k: int|
                    0 <= k < self.letters(flag).len() ==> is_tag_letter(
                        #[trigger] self.letters(flag)[k],
                    )
            } else {
                flag == "--"@ || is_listing_flag(name)
            },
            _ => !self.starts_by(flag),
        }
    }

    fn has_listing_letters(self, flag: &str) -> (r: bool)
        requires
            self == Arguments::BranchList || self == Arguments::TagList,
        ensures
            r == forall|k: int|
                0 <= k < self.letters(flag@).len() ==> if self == Arguments::BranchList {
                    is_branch_letter(#[trigger] self.letters(flag@)[k])
                } else {
                    is_tag_letter(self.letters(flag@)[k])
                },
    {
        let letters = self.letters_of(flag);
        let mut i: usize = 0;
        while i < letters.len()
            invariant
                i <= letters@.len(),
                letters@ == self.letters(flag@),
                forall|k: int|
                    0 <= k < i ==> if self == Arguments::BranchList {
                        is_branch_letter(#[trigger] self.letters(flag@)[k])
                    } else {
                        is_tag_letter(self.letters(flag@)[k])
                    },
            decreases letters@.len() - i,
        {
            let c = letters[i];
            let fits = if self == Arguments::BranchList {
                c == 'a' || c == 'r' || c == 'v' || c == 'i' || c == 'l' || c == 'q' || c == 'h'
            } else {
                c == 'l' || c == 'n' || c == 'i' || c == 'h'
            };
            if !fits {
                assert(self.letters(flag@)[i as int] == c);
                return false;
            }
            i += 1;
        }
        true
    }

    fn admits_flag(self, flag: &str) -> (r: bool)
        requires
            is_flag(flag@),
        ensures
            r == self.permits_flag(flag@),
    {
        let name = text::split_first(flag, '=');
        match self {
            Arguments::HostFlags => !(self.holds_letter(flag, 'F') || self.holds_letter(flag, 'b')
                || is_short_for(name, "--fi", "--file") || is_short_for(name, "--b", "--boot")),
            Arguments::FileRead => !(self.is_started_by(flag) || self.holds_letter(flag, 'C')
                || is_short_for(name, "--co", "--compile")),
            Arguments::TailRead => !(self.holds_letter(flag, 'f') || self.holds_letter(flag, 'F')
                || is_short_for(name, "--f", "--follow")),
            Arguments::TreeRead => !(self.holds_letter(flag, 'o') || self.holds_letter(flag, 'R')),
            Arguments::ClockFormat => !(self.holds_letter(flag, 's') || is_short_for(
                name,
                "--s",
                "--set",
            )),
            Arguments::History => !(self.is_started_by(flag) || text::same(name, "--output")),
            Arguments::BranchList => if flag.get_char(1) != '-' {
                self.has_listing_letters(flag)
            } else {
                text::same(flag, "--") || listing_flag(name) || branch_flag(name)
            },
            Arguments::TagList => if flag.get_char(1) != '-' {
                self.has_listing_letters(flag)
            } else {
                text::same(flag, "--") || listing_flag(name)
            },
            _ => !self.is_started_by(flag),
        }
    }

    /// Whether the argument at `j` settles that words are harmless: with a listing flag they are
    /// patterns, with `-j` they are only converted, and behind a reading subcommand they are its
    /// arguments.
    pub open spec fn settles(self, args: Seq<Seq<char>>, j: int) -> bool {
        let arg = args[j];
        let name = text::before(arg, '=');
        match self {
            Arguments::ClockFormat => self.role(args, j) == Role::Flag && self.has_letter(arg, 'j'),
            Arguments::BranchList => self.role(args, j) == Role::Flag && (self.has_letter(arg, 'a')
                || self.has_letter(arg, 'r') || self.has_letter(arg, 'l') || is_selecting_flag(name)
                || abbreviates(name, "--li"@, "--list"@) || abbreviates(name, "--al"@, "--all"@)
                || abbreviates(name, "--rem"@, "--remotes"@) || abbreviates(
                name,
                "--sh"@,
                "--show-current"@,
            )),
            Arguments::TagList => self.role(args, j) == Role::Flag && (self.has_letter(arg, 'l')
                || self.has_letter(arg, 'n') || is_selecting_flag(name) || abbreviates(
                name,
                "--li"@,
                "--list"@,
            )),
            Arguments::RemoteRead | Arguments::OllamaList => self.role(args, j) == Role::Word,
            _ => false,
        }
    }

    fn is_settling(self, role: Role, arg: &str) -> (r: bool)
        ensures
            forall|args: Seq<Seq<char>>, j: int|
                args[j] == arg@ && self.role(args, j) == role ==> r == #[trigger] self.settles(
                    args,
                    j,
                ),
    {
        let name = text::split_first(arg, '=');
        match self {
            Arguments::ClockFormat => role == Role::Flag && self.holds_letter(arg, 'j'),
            Arguments::BranchList => role == Role::Flag && (self.holds_letter(arg, 'a')
                || self.holds_letter(arg, 'r') || self.holds_letter(arg, 'l') || selecting_flag(name)
                || is_short_for(name, "--li", "--list") || is_short_for(name, "--al", "--all")
                || is_short_for(name, "--rem", "--remotes") || is_short_for(
                name,
                "--sh",
                "--show-current",
            )),
            Arguments::TagList => role == Role::Flag && (self.holds_letter(arg, 'l')
                || self.holds_letter(arg, 'n') || selecting_flag(name) || is_short_for(
                name,
                "--li",
                "--list",
            )),
            Arguments::RemoteRead | Arguments::OllamaList => role == Role::Word,
            _ => false,
        }
    }

    /// Whether one of the first `n` arguments settles that words are harmless.
    pub open spec fn settled(self, args: Seq<Seq<char>>, n: int) -> bool {
        exists|j: int| 0 <= j < n && #[trigger] self.settles(args, j)
    }

    /// Whether one of the `n` words from `base` on settles that words are harmless.
    fn is_settled(self, words: &[String], base: usize, n: usize) -> (r: bool)
        requires
            base + n <= words@.len(),
        ensures
            r == self.settled(text::views(words@).skip(base as int), n as int),
    {
        let ghost args = text::views(words@).skip(base as int);
        let total = words.len();
        let mut s = Reading { ended: false, awaiting: false };
        let mut j: usize = 0;
        while j < n
            invariant
                j <= n,
                base + n <= total,
                total == words@.len(),
                args == text::views(words@).skip(base as int),
                s == self.reading(args, j as int),
                forall|k: int| 0 <= k < j ==> !#[trigger] self.settles(args, k),
            decreases n - j,
        {
            let arg = words[base + j].as_str();
            assert(args[j as int] == arg@);
            let role = self.take_role(s, arg);
            assert(role == self.role(args, j as int));
            if self.is_settling(role, arg) {
                assert(self.settles(args, j as int));
                return true;
            }
            s = self.next(s, arg);
            j += 1;
        }
        false
    }

    /// Whether the word at `i` may stand there.
    pub open spec fn permits_word(self, args: Seq<Seq<char>>, i: int) -> bool {
        let arg = args[i];
        match self {
            Arguments::Assignments => arg.contains('=') || arg == "-"@ && !self.reading(
                args,
                i,
            ).ended,
            Arguments::HostFlags => false,
            Arguments::ClockFormat => (arg.len() > 0 && arg[0] == '+') || self.settled(args, i),
            Arguments::BranchList | Arguments::TagList => self.settled(args, args.len() as int),
            Arguments::RemoteRead => arg == "show"@ || arg == "get-url"@ || self.settled(args, i),
            Arguments::OllamaList => arg == "list"@ || self.settled(args, i),
            _ => true,
        }
    }

    /// Whether the argument at `i` may stand there.
    pub open spec fn accepts(self, args: Seq<Seq<char>>, i: int) -> bool {
        let arg = args[i];
        match self {
            Arguments::Any => true,
            Arguments::Each(subcommands) => subcommands.permits(arg) || arg == "--verbose"@,
            _ => match self.role(args, i) {
                Role::Flag => self.permits_flag(arg),
                Role::Value => true,
                Role::Word => self.permits_word(args, i),
            },
        }
    }

    /// Whether the argument at `i` has the binary start a program.
    pub open spec fn starts_program(self, args: Seq<Seq<char>>, i: int) -> bool {
        match self {
            Arguments::Each(_) => !is_version_probe(args[i]) && args[i] != "--verbose"@,
            Arguments::Assignments => match self.role(args, i) {
                Role::Flag => self.starts_by(args[i]),
                Role::Value => false,
                Role::Word => !args[i].contains('=') && (args[i] != "-"@ || self.reading(
                    args,
                    i,
                ).ended),
            },
            _ => self.role(args, i) == Role::Flag && self.starts_by(args[i]),
        }
    }

    /// Whether the argument at `i` may stand there, where the arguments are the words from
    /// `base` on and `s` is what those before it say of it.
    fn admits(self, words: &[String], base: usize, i: usize, s: Reading) -> (r: bool)
        requires
            base <= i < words@.len(),
            s == self.reading(text::views(words@).skip(base as int), i - base),
        ensures
            r == self.accepts(text::views(words@).skip(base as int), i - base),
    {
        let ghost args = text::views(words@).skip(base as int);
        let arg = words[i].as_str();
        assert(args[i - base] == arg@);
        match self {
            Arguments::Any => {
                return true;
            },
            Arguments::Each(subcommands) => {
                return subcommands.allows(arg) || text::same(arg, "--verbose");
            },
            _ => {},
        }
        match self.take_role(s, arg) {
            Role::Flag => self.admits_flag(arg),
            Role::Value => true,
            Role::Word => match self {
                Arguments::Assignments => text::contains_char(arg, '=') || (text::same(arg, "-")
                    && !s.ended),
                Arguments::HostFlags => false,
                Arguments::ClockFormat => (arg.unicode_len() > 0 && arg.get_char(0) == '+')
                    || self.is_settled(words, base, i - base),
                Arguments::BranchList | Arguments::TagList => self.is_settled(
                    words,
                    base,
                    words.len() - base,
                ),
                Arguments::RemoteRead => text::same(arg, "show") || text::same(arg, "get-url")
                    || self.is_settled(words, base, i - base),
                Arguments::OllamaList => text::same(arg, "list") || self.is_settled(
                    words,
                    base,
                    i - base,
                ),
                _ => true,
            },
        }
    }
}

/// The place of the first argument, from `i` on, that may not stand where it does.
pub open spec fn first_stray(kind: Arguments, args: Seq<Seq<char>>, i: int) -> Option<int>
    decreases args.len() - i,
{
    if i >= args.len() {
        None
    } else if !kind.accepts(args, i) {
        Some(i)
    } else {
        first_stray(kind, args, i + 1)
    }
}

/// Where no argument is astray, each may stand where it does.
pub proof fn lemma_first_stray(kind: Arguments, args: Seq<Seq<char>>, from: int)
    ensures
        first_stray(kind, args, from) is None ==> forall|i: int|
            #![trigger args[i]]
            from <= i < args.len() ==> kind.accepts(args, i),
    decreases args.len() - from,
{
    if from < args.len() && kind.accepts(args, from) {
        lemma_first_stray(kind, args, from + 1);
    }
}

/// Why the argument at `i` is refused: `sub` is the subcommand before the arguments.
pub open spec fn stray_refusal(
    kind: Arguments,
    bin: Seq<char>,
    sub: Seq<char>,
    args: Seq<Seq<char>>,
    i: int,
) -> Refusal {
    let flag = kind.role(args, i) == Role::Flag;
    match kind {
        Arguments::Each(_) | Arguments::OllamaList => Refusal::DeniedSubcommand {
            bin,
            sub: args[i],
        },
        Arguments::BranchList | Arguments::TagList | Arguments::RemoteRead =>
            Refusal::DeniedSubcommand { bin, sub: sub + " "@ + args[i] },
        Arguments::Assignments => if flag {
            Refusal::DeniedFlag { bin, flag: text::before(args[i], '=') }
        } else {
            Refusal::NotAllowed(args[i])
        },
        _ => if flag {
            Refusal::DeniedFlag { bin, flag: text::before(args[i], '=') }
        } else {
            Refusal::DeniedSubcommand { bin, sub: args[i] }
        },
    }
}

fn refuse_stray(kind: Arguments, bin: &str, sub: &str, role: Role, arg: &str) -> (r: PolicyError)
    ensures
        forall|args: Seq<Seq<char>>, i: int|
            args[i] == arg@ && kind.role(args, i) == role ==> r@ == #[trigger] stray_refusal(
                kind,
                bin@,
                sub@,
                args,
                i,
            ),
{
    match kind {
        Arguments::Each(_) | Arguments::OllamaList => PolicyError::DeniedSubcommand {
            bin: bin.to_owned(),
            sub: arg.to_owned(),
        },
        Arguments::BranchList | Arguments::TagList | Arguments::RemoteRead =>
            PolicyError::DeniedSubcommand {
            bin: bin.to_owned(),
            sub: text::concat3(sub, " ", arg),
        },
        Arguments::Assignments => if role == Role::Flag {
            PolicyError::DeniedFlag {
                bin: bin.to_owned(),
                flag: text::split_first(arg, '=').to_owned(),
            }
        } else {
            PolicyError::NotAllowed(arg.to_owned())
        },
        _ => if role == Role::Flag {
            PolicyError::DeniedFlag {
                bin: bin.to_owned(),
                flag: text::split_first(arg, '=').to_owned(),
            }
        } else {
            PolicyError::DeniedSubcommand { bin: bin.to_owned(), sub: arg.to_owned() }
        },
    }
}

/// Why an argument among the words from `base` on is refused.
fn check_arguments(kind: Arguments, bin: &str, sub: &str, words: &[String], base: usize) -> (r:
    Option<PolicyError>)
    requires
        base <= words@.len(),
    ensures
        ({
            let args = text::views(words@).skip(base as int);
            match first_stray(kind, args, 0) {
                None => r is None,
                Some(i) => r is Some && r->0@ == stray_refusal(kind, bin@, sub@, args, i),
            }
        }),
{
    let ghost args = text::views(words@).skip(base as int);
    let mut s = Reading { ended: false, awaiting: false };
    let mut i: usize = base;
    while i < words.len()
        invariant
            base <= i <= words@.len(),
            args == text::views(words@).skip(base as int),
            s == kind.reading(args, i - base),
            first_stray(kind, args, 0) == first_stray(kind, args, i - base),
        decreases words@.len() - i,
    {
        let arg = words[i].as_str();
        assert(args[i - base] == arg@);
        if !kind.admits(words, base, i, s) {
            let role = kind.take_role(s, arg);
            assert(kind.role(args, i - base) == role);
            let refusal = refuse_stray(kind, bin, sub, role, arg);
            assert(refusal@ == stray_refusal(kind, bin@, sub@, args, i - base));
            return Some(refusal);
        }
        s = kind.next(s, arg);
        i += 1;
    }
    None
}

/// Subcommands of `git` that show commits and changes.
pub open spec fn is_git_history(w: Seq<char>) -> bool {
    ||| w == "log"@
    ||| w == "diff"@
    ||| w == "show"@
    ||| w == "blame"@
    ||| w == "shortlog"@
}

/// What the arguments of a subcommand of `git` have to be.
pub open spec fn git_arguments(sub: Seq<char>) -> Arguments {
    if sub == "branch"@ {
        Arguments::BranchList
    } else if sub == "tag"@ {
        Arguments::TagList
    } else if sub == "remote"@ {
        Arguments::RemoteRead
    } else if sub == "ls-remote"@ {
        Arguments::RemoteRefs
    } else if is_git_history(sub) {
        Arguments::History
    } else {
        Arguments::Any
    }
}

fn arguments_of_git(sub: &str) -> (r: Arguments)
    ensures
        r == git_arguments(sub@),
{
    if text::same(sub, "branch") {
        Arguments::BranchList
    } else if text::same(sub, "tag") {
        Arguments::TagList
    } else if text::same(sub, "remote") {
        Arguments::RemoteRead
    } else if text::same(sub, "ls-remote") {
        Arguments::RemoteRefs
    } else if text::same(sub, "log") || text::same(sub, "diff") || text::same(sub, "show")
        || text::same(sub, "blame") || text::same(sub, "shortlog") {
        Arguments::History
    } else {
        Arguments::Any
    }
}

/// The restrictions of a binary that the model is allowed to run.
#[derive(Debug, Clone, Copy, PartialEq, Eq, Structural)]
pub struct SafeCommand {
    /// What the first argument that is not a flag must be.
    pub subcommands: Subcommands,
    /// Flags that are refused.
    pub denied_flags: DeniedFlags,
    /// What the arguments have to be.
    pub arguments: Arguments,
}

/// The restrictions of a binary.
pub open spec fn restricted(
    subcommands: Subcommands,
    denied_flags: DeniedFlags,
    arguments: Arguments,
) -> SafeCommand {
    SafeCommand { subcommands, denied_flags, arguments }
}

/// The allowlist: the restrictions of a binary that may run.
pub open spec fn allowlist(bin: Seq<char>) -> Option<SafeCommand> {
    if bin == "env"@ {
        Some(restricted(Subcommands::Any, DeniedFlags::Nothing, Arguments::Assignments))
    } else if bin == "hostname"@ {
        Some(restricted(Subcommands::Any, DeniedFlags::Nothing, Arguments::HostFlags))
    } else if bin == "file"@ {
        Some(restricted(Subcommands::Any, DeniedFlags::Nothing, Arguments::FileRead))
    } else if bin == "tail"@ {
        Some(restricted(Subcommands::Any, DeniedFlags::Follow, Arguments::TailRead))
    } else if bin == "tree"@ {
        Some(restricted(Subcommands::Any, DeniedFlags::TreeOutput, Arguments::TreeRead))
    } else if bin == "rg"@ {
        Some(restricted(Subcommands::Any, DeniedFlags::Preprocessor, Arguments::Search))
    } else if bin == "find"@ {
        Some(restricted(Subcommands::Any, DeniedFlags::FindActions, Arguments::Any))
    } else if bin == "date"@ {
        Some(restricted(Subcommands::Any, DeniedFlags::SetClock, Arguments::ClockFormat))
    } else if bin == "git"@ {
        Some(restricted(Subcommands::GitRead, DeniedFlags::GitOverride, Arguments::Any))
    } else if is_interpreter(bin) {
        Some(restricted(Subcommands::VersionFlag, DeniedFlags::Nothing, Arguments::Each(Subcommands::VersionFlag)))
    } else if is_toolchain(bin) {
        Some(restricted(Subcommands::VersionOnly, DeniedFlags::Nothing, Arguments::Each(Subcommands::VersionOnly)))
    } else if bin == "go"@ {
        Some(restricted(Subcommands::VersionOnly, DeniedFlags::Nothing, Arguments::Any))
    } else if bin == "ollama"@ {
        Some(restricted(Subcommands::OllamaRead, DeniedFlags::Nothing, Arguments::OllamaList))
    } else if is_plain_binary(bin) {
        Some(restricted(Subcommands::Any, DeniedFlags::Nothing, Arguments::Any))
    } else {
        None
    }
}

fn restrict(subcommands: Subcommands, denied_flags: DeniedFlags, arguments: Arguments) -> (r:
    SafeCommand)
    ensures
        r == restricted(subcommands, denied_flags, arguments),
{
    SafeCommand { subcommands, denied_flags, arguments }
}

fn lookup(bin: &str) -> (r: Option<SafeCommand>)
    ensures
        r == allowlist(bin@),
{
    if text::same(bin, "env") {
        Some(restrict(Subcommands::Any, DeniedFlags::Nothing, Arguments::Assignments))
    } else if text::same(bin, "hostname") {
        Some(restrict(Subcommands::Any, DeniedFlags::Nothing, Arguments::HostFlags))
    } else if text::same(bin, "file") {
        Some(restrict(Subcommands::Any, DeniedFlags::Nothing, Arguments::FileRead))
    } else if text::same(bin, "tail") {
        Some(restrict(Subcommands::Any, DeniedFlags::Follow, Arguments::TailRead))
    } else if text::same(bin, "tree") {
        Some(restrict(Subcommands::Any, DeniedFlags::TreeOutput, Arguments::TreeRead))
    } else if text::same(bin, "rg") {
        Some(restrict(Subcommands::Any, DeniedFlags::Preprocessor, Arguments::Search))
    } else if text::same(bin, "find") {
        Some(restrict(Subcommands::Any, DeniedFlags::FindActions, Arguments::Any))
    } else if text::same(bin, "date") {
        Some(restrict(Subcommands::Any, DeniedFlags::SetClock, Arguments::ClockFormat))
    } else if text::same(bin, "git") {
        Some(restrict(Subcommands::GitRead, DeniedFlags::GitOverride, Arguments::Any))
    } else if interpreter(bin) {
        Some(restrict(Subcommands::VersionFlag, DeniedFlags::Nothing, Arguments::Each(Subcommands::VersionFlag)))
    } else if toolchain(bin) {
        Some(restrict(Subcommands::VersionOnly, DeniedFlags::Nothing, Arguments::Each(Subcommands::VersionOnly)))
    } else if text::same(bin, "go") {
        Some(restrict(Subcommands::VersionOnly, DeniedFlags::Nothing, Arguments::Any))
    } else if text::same(bin, "ollama") {
        Some(restrict(Subcommands::OllamaRead, DeniedFlags::Nothing, Arguments::OllamaList))
    } else if plain_binary(bin) {
        Some(restrict(Subcommands::Any, DeniedFlags::Nothing, Arguments::Any))
    } else {
        None
    }
}

/// The first of `args` that is a denied flag, without a value given to it by `=`.
pub open spec fn first_denied(args: Seq<Seq<char>>, denied: DeniedFlags) -> Option<Seq<char>>
    decreases args.len(),
{
    if args.len() == 0 {
        None
    } else if denied.denies(text::before(args[0], '=')) {
        Some(text::before(args[0], '='))
    } else {
        first_denied(args.drop_first(), denied)
    }
}

/// Whether an argument stands where a subcommand does.
pub open spec fn is_subcommand(arg: Seq<char>) -> bool {
    !(arg.len() > 0 && arg[0] == '-') || is_version_probe(arg)
}

/// The first of `args` that stands where a subcommand does.
pub open spec fn first_subcommand(args: Seq<Seq<char>>) -> Option<Seq<char>>
    decreases args.len(),
{
    if args.len() == 0 {
        None
    } else if is_subcommand(args[0]) {
        Some(args[0])
    } else {
        first_subcommand(args.drop_first())
    }
}

/// The arguments behind the first that stands where a subcommand does.
pub open spec fn after_subcommand(args: Seq<Seq<char>>) -> Seq<Seq<char>>
    decreases args.len(),
{
    if args.len() == 0 {
        seq![]
    } else if is_subcommand(args[0]) {
        args.drop_first()
    } else {
        after_subcommand(args.drop_first())
    }
}

/// Why the subcommand of a command is refused.
pub open spec fn subcommand_refusal(
    bin: Seq<char>,
    args: Seq<Seq<char>>,
    subcommands: Subcommands,
) -> Option<Refusal> {
    if subcommands == Subcommands::Any {
        None
    } else {
        match first_subcommand(args) {
            None => Some(Refusal::DeniedSubcommand { bin, sub: "(none)"@ }),
            Some(sub) => if subcommands.permits(sub) {
                None
            } else {
                Some(Refusal::DeniedSubcommand { bin, sub })
            },
        }
    }
}

/// The arguments of a command that are held to a rule, and the rule: for `git`, those behind
/// its subcommand.
pub open spec fn ruled_arguments(args: Seq<Seq<char>>, rule: SafeCommand) -> (
    Arguments,
    Seq<Seq<char>>,
) {
    if rule.subcommands == Subcommands::GitRead {
        (git_arguments(first_subcommand(args)->0), after_subcommand(args))
    } else {
        (rule.arguments, args)
    }
}

/// Why an argument of a command is refused, other than as a flag denied wherever it stands.
pub open spec fn argument_refusal(
    bin: Seq<char>,
    args: Seq<Seq<char>>,
    rule: SafeCommand,
) -> Option<Refusal> {
    let (kind, given) = ruled_arguments(args, rule);
    match first_stray(kind, given, 0) {
        None => None,
        Some(i) => Some(stray_refusal(kind, bin, first_subcommand(args)->0, given, i)),
    }
}

/// What the allowlist says of a command.
pub open spec fn policy(tokens: Seq<Seq<char>>) -> Result<SafeCommand, Refusal> {
    if tokens.len() == 0 {
        Err(Refusal::Empty)
    } else {
        let bin = tokens[0];
        let args = tokens.skip(1);
        if bin.contains('/') || allowlist(bin) is None {
            Err(Refusal::NotAllowed(bin))
        } else {
            let rule = allowlist(bin)->0;
            match first_denied(args, rule.denied_flags) {
                Some(flag) => Err(Refusal::DeniedFlag { bin, flag }),
                None => match subcommand_refusal(bin, args, rule.subcommands) {
                    Some(e) => Err(e),
                    None => match argument_refusal(bin, args, rule) {
                        Some(e) => Err(e),
                        None => Ok(rule),
                    },
                },
            }
        }
    }
}

fn find_denied(tokens: &[String], denied: DeniedFlags) -> (r: Option<String>)
    requires
        tokens@.len() > 0,
    ensures
        match r {
            Some(f) => first_denied(text::views(tokens@).skip(1), denied) == Some(f@),
            None => first_denied(text::views(tokens@).skip(1), denied) is None,
        },
{
    let ghost args = text::views(tokens@).skip(1);
    let mut i: usize = 1;
    assert(args.skip(0) =~= args);
    while i < tokens.len()
        invariant
            1 <= i <= tokens@.len(),
            args == text::views(tokens@).skip(1),
            first_denied(args, denied) == first_denied(args.skip(i - 1), denied),
        decreases tokens@.len() - i,
    {
        assert(args.skip(i - 1)[0] == tokens@[i as int]@);
        assert(args.skip(i - 1).drop_first() =~= args.skip(i as int));
        let flag = text::split_first(tokens[i].as_str(), '=');
        if denied.holds(flag) {
            return Some(flag.to_owned());
        }
        i += 1;
    }
    None
}

fn find_subcommand(tokens: &[String]) -> (r: Option<usize>)
    requires
        tokens@.len() > 0,
    ensures
        match r {
            Some(i) => i < tokens@.len() && first_subcommand(text::views(tokens@).skip(1)) == Some(
                tokens@[i as int]@,
            ) && after_subcommand(text::views(tokens@).skip(1)) == text::views(tokens@).skip(
                i + 1,
            ),
            None => first_subcommand(text::views(tokens@).skip(1)) is None,
        },
{
    let ghost args = text::views(tokens@).skip(1);
    let mut i: usize = 1;
    assert(args.skip(0) =~= args);
    while i < tokens.len()
        invariant
            1 <= i <= tokens@.len(),
            args == text::views(tokens@).skip(1),
            first_subcommand(args) == first_subcommand(args.skip(i - 1)),
            after_subcommand(args) == after_subcommand(args.skip(i - 1)),
        decreases tokens@.len() - i,
    {
        assert(args.skip(i - 1)[0] == tokens@[i as int]@);
        assert(args.skip(i - 1).drop_first() =~= args.skip(i as int));
        let arg = tokens[i].as_str();
        let flag = arg.unicode_len() > 0 && arg.get_char(0) == '-';
        if !flag || version_probe(arg) {
            assert(args.skip(i as int) =~= text::views(tokens@).skip(i + 1));
            return Some(i);
        }
        i += 1;
    }
    None
}

/// Resolve the binary against the allowlist and enforce its restrictions.
pub fn check_policy(tokens: &[String]) -> (r: Result<SafeCommand, PolicyError>)
    ensures
        match r {
            Ok(rule) => policy(text::views(tokens@)) == Ok::<SafeCommand, Refusal>(rule),
            Err(e) => policy(text::views(tokens@)) == Err::<SafeCommand, Refusal>(e@),
        },
{
    if tokens.len() == 0 {
        return Err(PolicyError::Empty);
    }
    let bin = &tokens[0];
    assert(text::views(tokens@)[0] == bin@);
    // Reject paths: only bare binary names resolved via PATH are permitted.
    if text::contains_char(bin.as_str(), '/') {
        return Err(PolicyError::NotAllowed(bin.clone()));
    }
    let rule = match lookup(bin.as_str()) {
        Some(rule) => rule,
        None => {
            return Err(PolicyError::NotAllowed(bin.clone()));
        },
    };
    if let Some(flag) = find_denied(tokens, rule.denied_flags) {
        return Err(PolicyError::DeniedFlag { bin: bin.clone(), flag });
    }
    let ghost args = text::views(tokens@).skip(1);
    let at = find_subcommand(tokens);
    let sub = match at {
        Some(i) => tokens[i].as_str(),
        None => "",
    };
    if rule.subcommands != Subcommands::Any {
        if at.is_none() {
            return Err(
                PolicyError::DeniedSubcommand { bin: bin.clone(), sub: "(none)".to_owned() },
            );
        }
        if !rule.subcommands.allows(sub) {
            return Err(PolicyError::DeniedSubcommand { bin: bin.clone(), sub: sub.to_owned() });
        }
    }
    let (kind, base) = match at {
        Some(i) if rule.subcommands == Subcommands::GitRead => (arguments_of_git(sub), i + 1),
        _ => (rule.arguments, 1),
    };
    match check_arguments(kind, bin.as_str(), sub, tokens, base) {
        None => Ok(rule),
        Some(refusal) => Err(refusal),
    }
}

/// An argument with a leading `~` expanded to the home directory.
pub open spec fn expanded(token: Seq<char>, home: Seq<char>) -> Seq<char> {
    if token == "~"@ {
        home
    } else if "~/"@.is_prefix_of(token) {
        path::joined_path(home, token.skip(2))
    } else {
        token
    }
}

/// A command with each argument expanded, where the home directory is known.
pub open spec fn expanded_tokens(tokens: Seq<Seq<char>>, home: Option<Seq<char>>) -> Seq<Seq<char>> {
    match home {
        None => tokens,
        Some(h) => Seq::new(
            tokens.len(),
            |i: int|
                if i == 0 {
                    tokens[i]
                } else {
                    expanded(tokens[i], h)
                },
        ),
    }
}

/// Expand a leading `~` in each argument to the user's home directory.
///
/// A shell would normally do this. Since none is ever spawned, a model writing the natural
/// `~/Videos` would otherwise pass `~` through as a literal filename. Expansion happens before
/// the scope and secret-path checks, so it widens nothing.
pub fn expand_tildes(tokens: Vec<String>, home: Option<&str>) -> (r: Vec<String>)
    ensures
        text::views(r@) == expanded_tokens(text::views(tokens@), text::opt_text(home)),
{
    let home = match home {
        Some(h) => h,
        None => {
            return tokens;
        },
    };
    let mut out: Vec<String> = Vec::new();
    let ghost want = expanded_tokens(text::views(tokens@), Some(home@));
    let mut i: usize = 0;
    assert(text::views(out@) =~= want.take(0));
    while i < tokens.len()
        invariant
            i <= tokens@.len(),
            want == expanded_tokens(text::views(tokens@), Some(home@)),
            text::views(out@) == want.take(i as int),
        decreases tokens@.len() - i,
    {
        let token = &tokens[i];
        assert(text::views(tokens@)[i as int] == token@);
        if i == 0 {
            text::push_text(&mut out, token.clone());
        } else if text::same(token.as_str(), "~") {
            text::push_text(&mut out, home.to_owned());
        } else if text::starts_with(token.as_str(), "~/") {
            proof {
                reveal_strlit("~/");
            }
            let n = token.as_str().unicode_len();
            let rest = token.as_str().substring_char(2, n);
            assert(rest@ =~= token@.skip(2));
            text::push_text(&mut out, path::join(home, rest));
        } else {
            text::push_text(&mut out, token.clone());
        }
        i += 1;
        assert(text::views(out@) =~= want.take(i as int));
    }
    assert(want.take(i as int) =~= want);
    out
}

/// The words of a command that the allowlist admits, expanded, or why it is refused.
pub open spec fn planned(command: Seq<char>, home: Option<Seq<char>>) -> Result<
    Seq<Seq<char>>,
    Refusal,
> {
    match parsed(command) {
        Err(e) => Err(e),
        Ok(words) => {
            let tokens = expanded_tokens(words, home);
            match policy(tokens) {
                Err(e) => Err(e),
                Ok(_) => Ok(tokens),
            }
        },
    }
}

/// Parse a command, expand its arguments, and hold it to the allowlist.
pub fn plan_command(command: &str, home: Option<&str>) -> (r: Result<Vec<String>, PolicyError>)
    ensures
        match r {
            Ok(tokens) => planned(command@, text::opt_text(home)) == Ok::<
                Seq<Seq<char>>,
                Refusal,
            >(text::views(tokens@)),
            Err(e) => planned(command@, text::opt_text(home)) == Err::<Seq<Seq<char>>, Refusal>(
                e@,
            ),
        },
{
    let words = match parse_command(command) {
        Ok(words) => words,
        Err(e) => {
            return Err(e);
        },
    };
    let tokens = expand_tildes(words, home);
    match check_policy(tokens.as_slice()) {
        Ok(_) => Ok(tokens),
        Err(e) => Err(e),
    }
}

// ── Paths ────────────────────────────────────────────────────────────────────

/// What the file system says of one argument, taken as a path from the root.
#[derive(Debug, Clone, PartialEq, Eq)]
pub struct ArgFacts {
    /// Whether something is there.
    pub exists: bool,
    /// The path without links, `.` and `..`, where it resolves.
    pub resolved: Option<String>,
    /// The directory that the path stands in, without links, `.` and `..`, where it resolves.
    pub parent: Option<String>,
    /// The names in that directory, in any order.
    pub names: Vec<String>,
}

/// What [`ArgFacts`] say.
pub ghost struct FactsView {
    pub exists: bool,
    pub resolved: Option<Seq<char>>,
    pub parent: Option<Seq<char>>,
    pub names: Seq<Seq<char>>,
}

impl View for ArgFacts {
    type V = FactsView;

    open spec fn view(&self) -> FactsView {
        FactsView {
            exists: self.exists,
            resolved: text::opt_string(self.resolved),
            parent: text::opt_string(self.parent),
            names: text::views(self.names@),
        }
    }
}

/// What each of the facts says.
pub open spec fn facts_views(facts: Seq<ArgFacts>) -> Seq<FactsView> {
    Seq::new(facts.len(), |i: int| facts[i]@)
}

/// Path components that are never readable, even inside the working directory.
///
/// The subtree rule alone is not enough: when the user's cwd *is* their home
/// directory, `~/.ssh` sits inside the allowed subtree.
pub open spec fn is_secret_name(w: Seq<char>) -> bool {
    ||| w == ".ssh"@
    ||| w == ".aws"@
    ||| w == ".gnupg"@
    ||| w == ".gpg"@
    ||| w == ".kube"@
    ||| w == ".docker"@
    ||| w == ".netrc"@
    ||| w == ".env"@
    ||| w == ".git-credentials"@
    ||| w == ".npmrc"@
    ||| w == ".pypirc"@
    ||| w == "id_rsa"@
    ||| w == "id_ed25519"@
    ||| w == "id_ecdsa"@
    ||| w == "id_dsa"@
    ||| w == "credentials"@
    ||| w == "secrets"@
}

fn secret_name(w: &str) -> (r: bool)
    ensures
        r == is_secret_name(w@),
{
    text::same(w, ".ssh") || text::same(w, ".aws") || text::same(w, ".gnupg") || text::same(w, ".gpg") || text::same(w, ".kube") || text::same(w, ".docker") || text::same(w, ".netrc") || text::same(w, ".env") || text::same(w, ".git-credentials") || text::same(w, ".npmrc") || text::same(w, ".pypirc") || text::same(w, "id_rsa") || text::same(w, "id_ed25519") || text::same(w, "id_ecdsa") || text::same(w, "id_dsa") || text::same(w, "credentials") || text::same(w, "secrets")
}

/// Extensions that usually indicate private key material.
pub open spec fn is_secret_extension(w: Seq<char>) -> bool {
    ||| w == "pem"@
    ||| w == "key"@
    ||| w == "p12"@
    ||| w == "pfx"@
    ||| w == "keystore"@
}

fn secret_extension(w: &str) -> (r: bool)
    ensures
        r == is_secret_extension(w@),
{
    text::same(w, "pem") || text::same(w, "key") || text::same(w, "p12") || text::same(w, "pfx") || text::same(w, "keystore")
}

/// Whether a path lies under a prefix that is readable regardless of the working directory.
pub open spec fn is_read_safe(p: Seq<char>) -> bool {
    ||| path::path_within(p, "/proc"@)
    ||| path::path_within(p, "/sys/devices"@)
    ||| path::path_within(p, "/etc/os-release"@)
    ||| path::path_within(p, "/etc/hostname"@)
    ||| path::path_within(p, "/etc/shells"@)
    ||| path::path_within(p, "/usr/share"@)
    ||| path::path_within(p, "/usr/lib/os-release"@)
}

fn is_read_safe_global(p: &str) -> (r: bool)
    ensures
        r == is_read_safe(p@),
{
    path::is_within(p, "/proc") || path::is_within(p, "/sys/devices") || path::is_within(p, "/etc/os-release") || path::is_within(p, "/etc/hostname") || path::is_within(p, "/etc/shells") || path::is_within(p, "/usr/share") || path::is_within(p, "/usr/lib/os-release")
}

/// Whether any component or extension marks a path as credential material.
pub open spec fn is_secret(p: Seq<char>) -> bool {
    ||| exists|i: int|
        0 <= i < path::component_list(p).len() && path::is_normal(
            #[trigger] path::component_list(p)[i],
        ) && is_secret_name(text::lowered(path::component_list(p)[i]))
    ||| (path::name_extension(p) is Some && is_secret_extension(
        text::lowered(path::name_extension(p)->0),
    ))
}

/// Whether any component or extension marks this path as credential material.
pub fn is_secret_path(p: &str) -> (r: bool)
    ensures
        r == is_secret(p@),
{
    let parts = path::components(p);
    let ghost list = path::component_list(p@);
    let mut i: usize = 0;
    while i < parts.len()
        invariant
            i <= parts@.len(),
            text::views(parts@) == list,
            list == path::component_list(p@),
            forall|k: int|
                0 <= k < i ==> !(path::is_normal(#[trigger] list[k]) && is_secret_name(
                    text::lowered(list[k]),
                )),
        decreases parts@.len() - i,
    {
        let part = parts[i].as_str();
        assert(list[i as int] == part@);
        let special = text::same(part, "/") || text::same(part, ".") || text::same(part, "..");
        if !special {
            let lower = text::to_ascii_lowercase(part);
            if secret_name(lower.as_str()) {
                return true;
            }
        }
        i += 1;
    }
    match path::extension(p) {
        Some(ext) => {
            let lower = text::to_ascii_lowercase(ext.as_str());
            secret_extension(lower.as_str())
        },
        None => false,
    }
}

/// Whether an argument is taken for a path.
pub open spec fn is_path_arg(token: Seq<char>, exists: bool) -> bool {
    &&& token.len() > 0
    &&& token[0] != '-'
    &&& token.contains('/') || token[0] == '.' || exists
}

/// Whether an argument should be treated as a path to validate.
pub fn is_path_candidate(token: &str, exists: bool) -> (r: bool)
    ensures
        r == is_path_arg(token@, exists),
{
    if token.is_empty() {
        return false;
    }
    let first = token.get_char(0);
    if first == '-' {
        return false;
    }
    text::contains_char(token, '/') || first == '.' || exists
}

/// Whether a resolved path may be read.
pub open spec fn in_scope(p: Seq<char>, root: Seq<char>) -> bool {
    !is_secret(p) && (path::path_within(p, root) || is_read_safe(p))
}

/// Those of `names` that are not hidden.
pub open spec fn shown_names(names: Seq<Seq<char>>) -> Seq<Seq<char>>
    decreases names.len(),
{
    if names.len() == 0 {
        seq![]
    } else if names.last().len() > 0 && names.last()[0] == '.' {
        shown_names(names.drop_last())
    } else {
        shown_names(names.drop_last()).push(names.last())
    }
}

/// Non-hidden names of a directory, sorted for stable output.
pub fn visible_entries(names: &[String]) -> (r: Vec<String>)
    ensures
        text::views(r@) == text::sorted(shown_names(text::views(names@))),
{
    let ghost all = text::views(names@);
    let mut out: Vec<String> = Vec::new();
    let mut i: usize = 0;
    assert(text::views(out@) =~= seq![]);
    while i < names.len()
        invariant
            i <= names@.len(),
            all == text::views(names@),
            text::views(out@) == shown_names(all.take(i as int)),
        decreases names@.len() - i,
    {
        assert(all.take(i + 1).drop_last() =~= all.take(i as int));
        assert(all.take(i + 1).last() == names@[i as int]@);
        let name = names[i].as_str();
        if !(name.unicode_len() > 0 && name.get_char(0) == '.') {
            text::push_text(&mut out, names[i].clone());
        }
        i += 1;
    }
    assert(all.take(i as int) =~= all);
    text::sort(out)
}

/// Whether the UTF-8 forms of two names share their first bytes: four, or three where one of
/// them has no more.
pub open spec fn shares_prefix(a: Seq<char>, b: Seq<char>) -> bool {
    let x = vstd::utf8::encode_utf8(a);
    let y = vstd::utf8::encode_utf8(b);
    let shorter = if x.len() < y.len() {
        x.len()
    } else {
        y.len()
    };
    let n = (if shorter < 4 {
        shorter
    } else {
        4
    }) as int;
    &&& n >= 3
    &&& vstd::utf8::is_char_boundary(x, n)
    &&& vstd::utf8::is_char_boundary(y, n)
    &&& x.take(n) == y.take(n)
}

fn have_common_prefix(a: &str, b: &str) -> (r: bool)
    ensures
        r == shares_prefix(a@, b@),
{
    let x = a.as_bytes();
    let y = b.as_bytes();
    let shorter: usize = if x.len() < y.len() {
        x.len()
    } else {
        y.len()
    };
    let n: usize = if shorter < 4 {
        shorter
    } else {
        4
    };
    if n < 3 || !a.is_char_boundary(n) || !b.is_char_boundary(n) {
        return false;
    }
    let mut i: usize = 0;
    while i < n
        invariant
            i <= n <= x@.len(),
            n <= y@.len(),
            forall|k: int| 0 <= k < i ==> x@[k] == #[trigger] y@[k],
            shares_prefix(a@, b@) == (x@.take(n as int) == y@.take(n as int)),
        decreases n - i,
    {
        if x[i] != y[i] {
            assert(x@.take(n as int)[i as int] != y@.take(n as int)[i as int]);
            return false;
        }
        i += 1;
    }
    assert(x@.take(n as int) =~= y@.take(n as int));
    true
}

/// Whether `name` is close to `needle`, which has no ASCII capitals: one holds the other, or
/// they start alike.
pub open spec fn is_near(needle: Seq<char>, name: Seq<char>) -> bool {
    let c = text::lowered(name);
    text::has_sub(c, needle) || text::has_sub(needle, c) || shares_prefix(needle, c)
}

/// Those of `names` that are close to `needle`.
pub open spec fn near_names(names: Seq<Seq<char>>, needle: Seq<char>) -> Seq<Seq<char>>
    decreases names.len(),
{
    if names.len() == 0 {
        seq![]
    } else if is_near(needle, names.last()) {
        near_names(names.drop_last(), needle).push(names.last())
    } else {
        near_names(names.drop_last(), needle)
    }
}

/// The first `n` of `list`, or all where there are no more.
pub open spec fn first_of(list: Seq<Seq<char>>, n: int) -> Seq<Seq<char>> {
    if n < list.len() {
        list.take(n)
    } else {
        list
    }
}

/// Names next to `target` that it may have been meant for: up to five that are close to it,
/// else the first that are there.
pub open spec fn similar_names(target: Seq<char>, names: Seq<Seq<char>>) -> Seq<Seq<char>> {
    let siblings = text::sorted(shown_names(names));
    match path::last_name(target) {
        None => seq![],
        Some(name) => {
            let close = near_names(siblings, text::lowered(name));
            if close.len() > 0 {
                first_of(close, 5)
            } else {
                first_of(siblings, MAX_SUGGESTIONS as int)
            }
        },
    }
}

fn cap(list: Vec<String>, n: usize) -> (r: Vec<String>)
    ensures
        text::views(r@) == first_of(text::views(list@), n as int),
{
    let mut list = list;
    if n < list.len() {
        let ghost all = text::views(list@);
        list.truncate(n);
        assert(text::views(list@) =~= all.take(n as int));
    }
    list
}

/// Names in `target`'s parent directory that plausibly match its final
/// component, so a near-miss reads as a spelling problem rather than absence.
///
/// A user asking about "Movies" on a machine that has "Videos" should not be
/// told the thing does not exist; the model needs the candidates to reason
/// about. Matching is deliberately loose — case differences, one name
/// containing the other, or a shared prefix.
pub fn similar_entries(target: &str, names: &[String]) -> (r: Vec<String>)
    ensures
        text::views(r@) == similar_names(target@, text::views(names@)),
{
    let name = match path::file_name(target) {
        Some(name) => name,
        None => {
            let none: Vec<String> = Vec::new();
            assert(text::views(none@) =~= seq![]);
            return none;
        },
    };
    let needle = text::to_ascii_lowercase(name.as_str());
    let siblings = visible_entries(names);
    let ghost all = text::views(siblings@);
    let mut close: Vec<String> = Vec::new();
    let mut i: usize = 0;
    assert(text::views(close@) =~= seq![]);
    while i < siblings.len()
        invariant
            i <= siblings@.len(),
            all == text::views(siblings@),
            text::views(close@) == near_names(all.take(i as int), needle@),
        decreases siblings@.len() - i,
    {
        assert(all.take(i + 1).drop_last() =~= all.take(i as int));
        assert(all.take(i + 1).last() == siblings@[i as int]@);
        let candidate = text::to_ascii_lowercase(siblings[i].as_str());
        if text::contains(candidate.as_str(), needle.as_str()) || text::contains(
            needle.as_str(),
            candidate.as_str(),
        ) || have_common_prefix(needle.as_str(), candidate.as_str()) {
            text::push_text(&mut close, siblings[i].clone());
        }
        i += 1;
    }
    assert(all.take(i as int) =~= all);
    // A lexical near-miss is a spelling problem. When there is none, the wanted
    // name may simply differ from the real one, so hand back what is actually there
    // and let the model make the connection.
    if close.len() > 0 {
        cap(close, 5)
    } else {
        cap(siblings, MAX_SUGGESTIONS)
    }
}

/// The names offered in place of `target`: none where its directory may not be read.
pub open spec fn suggestions(target: Seq<char>, facts: FactsView, root: Seq<char>) -> Seq<Seq<char>> {
    match facts.parent {
        None => seq![],
        Some(dir) => if in_scope(dir, root) {
            similar_names(target, facts.names)
        } else {
            seq![]
        },
    }
}

/// [`similar_entries`], but only when the containing directory is itself
/// readable under the current scope.
///
/// Suggestions are computed for paths that failed to resolve, which includes
/// paths pointing outside the sandbox — listing their neighbours would leak
/// filenames the tool is not allowed to read.
pub fn suggestions_within_scope(target: &str, facts: &ArgFacts, root: &str) -> (r: Vec<String>)
    ensures
        text::views(r@) == suggestions(target@, facts@, root@),
{
    let none: Vec<String> = Vec::new();
    assert(text::views(none@) =~= seq![]);
    match &facts.parent {
        None => none,
        Some(dir) => {
            if is_secret_path(dir.as_str()) {
                return none;
            }
            if !path::is_within(dir.as_str(), root) && !is_read_safe_global(dir.as_str()) {
                return none;
            }
            similar_entries(target, facts.names.as_slice())
        },
    }
}

/// Why one of `args` may not be touched, by what the file system says of each.
pub open spec fn path_refusal(
    args: Seq<Seq<char>>,
    facts: Seq<FactsView>,
    root: Seq<char>,
) -> Option<Refusal>
    decreases args.len(),
{
    if args.len() == 0 {
        None
    } else {
        let token = args[0];
        let f = facts[0];
        if !is_path_arg(token, f.exists) {
            path_refusal(args.drop_first(), facts.drop_first(), root)
        } else {
            match f.resolved {
                None => Some(
                    Refusal::PathNotFound {
                        token,
                        similar: suggestions(path::joined_path(root, token), f, root),
                    },
                ),
                Some(p) => if is_secret(p) {
                    Some(Refusal::SecretPath(token))
                } else if !in_scope(p, root) {
                    Some(Refusal::PathOutsideScope(token))
                } else {
                    path_refusal(args.drop_first(), facts.drop_first(), root)
                },
            }
        }
    }
}

/// Every path-like argument must resolve inside the allowed scope. `facts` has one entry for
/// each argument.
pub fn check_paths(tokens: &[String], root: &str, facts: &[ArgFacts]) -> (r: Result<
    (),
    PolicyError,
>)
    requires
        tokens@.len() == facts@.len() + 1,
    ensures
        match r {
            Ok(_) => path_refusal(text::views(tokens@).skip(1), facts_views(facts@), root@) is None,
            Err(e) => path_refusal(text::views(tokens@).skip(1), facts_views(facts@), root@)
                == Some(e@),
        },
{
    let ghost args = text::views(tokens@).skip(1);
    let ghost fv = facts_views(facts@);
    let mut i: usize = 0;
    assert(args.skip(0) =~= args && fv.skip(0) =~= fv);
    while i < facts.len()
        invariant
            i <= facts@.len(),
            tokens@.len() == facts@.len() + 1,
            args == text::views(tokens@).skip(1),
            fv == facts_views(facts@),
            path_refusal(args, fv, root@) == path_refusal(
                args.skip(i as int),
                fv.skip(i as int),
                root@,
            ),
        decreases facts@.len() - i,
    {
        let token = tokens[i + 1].as_str();
        let fact = &facts[i];
        assert(args.skip(i as int)[0] == token@);
        assert(fv.skip(i as int)[0] == fact@);
        assert(args.skip(i as int).drop_first() =~= args.skip(i + 1));
        assert(fv.skip(i as int).drop_first() =~= fv.skip(i + 1));
        if is_path_candidate(token, fact.exists) {
            match &fact.resolved {
                None => {
                    let target = path::join(root, token);
                    let similar = suggestions_within_scope(target.as_str(), fact, root);
                    return Err(PolicyError::PathNotFound { token: token.to_owned(), similar });
                },
                Some(p) => {
                    if is_secret_path(p.as_str()) {
                        return Err(PolicyError::SecretPath(token.to_owned()));
                    }
                    if !path::is_within(p.as_str(), root) && !is_read_safe_global(p.as_str()) {
                        return Err(PolicyError::PathOutsideScope(token.to_owned()));
                    }
                },
            }
        }
        i += 1;
    }
    assert(args.skip(i as int) =~= seq![]);
    Ok(())
}

/// A command that passes every check keeps within the rules: no shell metacharacter is in it,
/// its binary is a bare name on the allowlist, no argument starts another program or is a denied
/// flag, its subcommand is permitted, each argument is one that the binary or the subcommand of
/// `git` only reads with, and each argument that is taken for a path resolves to one that is no
/// secret and lies under the root or a read-safe prefix.
pub proof fn law_checked_command_is_read_only(
    command: Seq<char>,
    home: Option<Seq<char>>,
    root: Seq<char>,
    facts: Seq<FactsView>,
)
    requires
        planned(command, home) matches Ok(tokens) && tokens.len() == facts.len() + 1
            && path_refusal(tokens.skip(1), facts, root) is None,
    ensures
        forall|i: int|
            0 <= i < text::trimmed(command).len() ==> !is_metachar(
                #[trigger] text::trimmed(command)[i],
            ),
        planned(command, home) matches Ok(tokens) && {
            let rule = allowlist(tokens[0]);
            &&& !tokens[0].contains('/')
            &&& rule is Some
            &&& forall|i: int|
                1 <= i < tokens.len() ==> !rule->0.denied_flags.denies(
                    text::before(#[trigger] tokens[i], '='),
                )
            &&& rule->0.subcommands != Subcommands::Any ==> first_subcommand(tokens.skip(1))
                is Some && rule->0.subcommands.permits(first_subcommand(tokens.skip(1))->0)
            &&& ({
                let (kind, given) = ruled_arguments(tokens.skip(1), rule->0);
                forall|i: int|
                    #![trigger given[i]]
                    0 <= i < given.len() ==> kind.accepts(given, i) && !kind.starts_program(
                        given,
                        i,
                    )
            })
            &&& forall|i: int|
                1 <= i < tokens.len() && is_path_arg(#[trigger] tokens[i], facts[i - 1].exists)
                    ==> facts[i - 1].resolved is Some && in_scope(facts[i - 1].resolved->0, root)
        },
{
    lemma_first_metachar(text::trimmed(command));
    let tokens = planned(command, home)->Ok_0;
    let args = tokens.skip(1);
    let rule = allowlist(tokens[0])->0;
    lemma_first_denied(args, rule.denied_flags);
    lemma_path_refusal(args, facts, root);
    let (kind, given) = ruled_arguments(args, rule);
    lemma_first_stray(kind, given, 0);
    assert forall|i: int|
        #![trigger given[i]]
        0 <= i < given.len() implies kind.accepts(given, i) && !kind.starts_program(given, i) by {
        assert(kind.accepts(given, i));
    }
    assert forall|i: int| 1 <= i < tokens.len() implies !rule.denied_flags.denies(
        text::before(#[trigger] tokens[i], '='),
    ) by {
        assert(args[i - 1] == tokens[i]);
    }
    assert forall|i: int|
        1 <= i < tokens.len() && is_path_arg(
            #[trigger] tokens[i],
            facts[i - 1].exists,
        ) implies facts[i - 1].resolved is Some && in_scope(facts[i - 1].resolved->0, root) by {
        assert(args[i - 1] == tokens[i]);
    }
}

proof fn lemma_first_denied(args: Seq<Seq<char>>, denied: DeniedFlags)
    ensures
        first_denied(args, denied) is None ==> forall|i: int|
            0 <= i < args.len() ==> !denied.denies(text::before(#[trigger] args[i], '=')),
    decreases args.len(),
{
    if args.len() > 0 {
        let rest = args.drop_first();
        lemma_first_denied(rest, denied);
        if first_denied(args, denied) is None {
            assert forall|i: int| 0 <= i < args.len() implies !denied.denies(
                text::before(#[trigger] args[i], '='),
            ) by {
                if i > 0 {
                    assert(args[i] == rest[i - 1]);
                }
            }
        }
    }
}

proof fn lemma_path_refusal(args: Seq<Seq<char>>, facts: Seq<FactsView>, root: Seq<char>)
    requires
        args.len() == facts.len(),
        path_refusal(args, facts, root) is None,
    ensures
        forall|i: int|
            0 <= i < args.len() && is_path_arg(#[trigger] args[i], facts[i].exists)
                ==> facts[i].resolved is Some && in_scope(facts[i].resolved->0, root),
    decreases args.len(),
{
    if args.len() > 0 {
        let rest = args.drop_first();
        let more = facts.drop_first();
        lemma_path_refusal(rest, more, root);
        assert forall|i: int|
            0 <= i < args.len() && is_path_arg(
                #[trigger] args[i],
                facts[i].exists,
            ) implies facts[i].resolved is Some && in_scope(facts[i].resolved->0, root) by {
            if i > 0 {
                assert(args[i] == rest[i - 1]);
                assert(facts[i] == more[i - 1]);
            }
        }
    }
}

// ── Output ───────────────────────────────────────────────────────────────────

/// Whether the name of an environment variable marks its value as one to be hidden.
pub open spec fn is_secret_key(key: Seq<char>) -> bool {
    let k = text::uppered(text::trimmed(key));
    ||| text::has_sub(k, "TOKEN"@)
    ||| text::has_sub(k, "SECRET"@)
    ||| text::has_sub(k, "PASSWORD"@)
    ||| text::has_sub(k, "PASSWD"@)
    ||| text::has_sub(k, "CREDENTIAL"@)
    ||| text::has_sub(k, "APIKEY"@)
    ||| text::has_sub(k, "_KEY"@)
    ||| text::has_sub(k, "AUTH"@)
    ||| text::has_sub(k, "SESSION"@)
    ||| text::has_sub(k, "PRIVATE"@)
}

/// Whether the name of an environment variable marks its value as one to be hidden.
pub fn is_secret_env_key(key: &str) -> (r: bool)
    ensures
        r == is_secret_key(key@),
{
    let upper = text::to_ascii_uppercase(text::trim(key));
    let k = upper.as_str();
    text::contains(k, "TOKEN") || text::contains(k, "SECRET") || text::contains(k, "PASSWORD") || text::contains(k, "PASSWD") || text::contains(k, "CREDENTIAL") || text::contains(k, "APIKEY") || text::contains(k, "_KEY") || text::contains(k, "AUTH") || text::contains(k, "SESSION") || text::contains(k, "PRIVATE")
}

/// Whether a line gives the value of a variable that is to be hidden.
pub open spec fn is_secret_line(line: Seq<char>) -> bool {
    text::first_char(line, '=') is Some && is_secret_key(text::before(line, '='))
}

/// A line with a secret value hidden.
pub open spec fn redacted_line(line: Seq<char>) -> Seq<char> {
    if is_secret_line(line) {
        text::before(line, '=') + "=<redacted>"@
    } else {
        line
    }
}

/// Lines with secret values hidden, each with a line feed behind it.
pub open spec fn redacted_lines(lines: Seq<Seq<char>>) -> Seq<char>
    decreases lines.len(),
{
    if lines.len() == 0 {
        seq![]
    } else {
        redacted_lines(lines.drop_last()) + redacted_line(lines.last()) + "\n"@
    }
}

/// Replace values of environment variables whose names look sensitive.
///
/// `env` is genuinely useful for debugging and is also the fastest route for a
/// cloud credential to end up inside an LLM prompt.
pub fn redact_env_output(text: &str) -> (r: String)
    ensures
        r@ == redacted_lines(text::line_list(text@)),
{
    let lines = text::lines(text);
    let ghost all = text::line_list(text@);
    let mut out = String::new();
    let mut i: usize = 0;
    while i < lines.len()
        invariant
            i <= lines@.len(),
            text::views(lines@) == all,
            out@ == redacted_lines(all.take(i as int)),
        decreases lines@.len() - i,
    {
        let line = lines[i].as_str();
        assert(all.take(i + 1).drop_last() =~= all.take(i as int));
        assert(all.take(i + 1).last() == line@);
        let key = text::split_first(line, '=');
        if text::find_char(line, '=').is_some() && is_secret_env_key(key) {
            out.append(key);
            out.append("=<redacted>");
            proof {
                assert(redacted_lines(all.take(i as int)) + key@ + "=<redacted>"@ =~= redacted_lines(
                    all.take(i as int),
                ) + redacted_line(line@));
            }
        } else {
            out.append(line);
        }
        out.append("\n");
        i += 1;
    }
    assert(all.take(i as int) =~= all);
    out
}

/// Redaction hides the values: two outputs that differ only in the values of variables whose
/// names are sensitive come out the same.
pub proof fn law_redaction_hides_values(a: Seq<Seq<char>>, b: Seq<Seq<char>>)
    requires
        a.len() == b.len(),
        forall|i: int|
            0 <= i < a.len() ==> #[trigger] a[i] == #[trigger] b[i] || is_secret_line(a[i])
                && is_secret_line(b[i]) && text::before(a[i], '=') == text::before(b[i], '='),
    ensures
        redacted_lines(a) == redacted_lines(b),
    decreases a.len(),
{
    if a.len() > 0 {
        let x = a.drop_last();
        let y = b.drop_last();
        assert forall|i: int| 0 <= i < x.len() implies #[trigger] x[i] == #[trigger] y[i]
            || is_secret_line(x[i]) && is_secret_line(y[i]) && text::before(x[i], '=')
            == text::before(y[i], '=') by {
            assert(x[i] == a[i] && y[i] == b[i]);
        }
        law_redaction_hides_values(x, y);
        assert(a[a.len() - 1] == a.last() && b[b.len() - 1] == b.last());
    }
}

/// What became of a command that passed the checks.
#[derive(Debug, Clone, PartialEq, Eq)]
pub enum RunOutcome {
    /// It ended.
    Finished {
        success: bool,
        /// The exit code, unknown where a signal ended it.
        code: Option<i32>,
        stdout: Vec<u8>,
        stderr: Vec<u8>,
    },
    /// It could not be started.
    NotStarted,
    /// It was stopped after the time limit.
    TimedOut,
}

/// The name offered for the first argument that does not exist and has suggestions.
pub open spec fn hint_text(args: Seq<Seq<char>>, facts: Seq<FactsView>, root: Seq<char>) -> Seq<char>
    decreases args.len(),
{
    if args.len() == 0 {
        seq![]
    } else {
        let token = args[0];
        let f = facts[0];
        let similar = suggestions(path::joined_path(root, token), f, root);
        if token.len() == 0 || token[0] == '-' || f.exists || similar.len() == 0 {
            hint_text(args.drop_first(), facts.drop_first(), root)
        } else {
            "\n[hint] '"@ + token + "' does not exist, but these do: "@ + text::joined(
                similar,
                ", "@,
            )
                + ". The intended item may be one of them under a different name or spelling — check before concluding it is missing."@
        }
    }
}

/// "Did you mean" line for arguments of a failed command that do not exist.
pub fn spelling_hint(tokens: &[String], root: &str, facts: &[ArgFacts]) -> (r: String)
    requires
        tokens@.len() == facts@.len() + 1,
    ensures
        r@ == hint_text(text::views(tokens@).skip(1), facts_views(facts@), root@),
{
    let ghost args = text::views(tokens@).skip(1);
    let ghost fv = facts_views(facts@);
    let mut i: usize = 0;
    assert(args.skip(0) =~= args && fv.skip(0) =~= fv);
    while i < facts.len()
        invariant
            i <= facts@.len(),
            tokens@.len() == facts@.len() + 1,
            args == text::views(tokens@).skip(1),
            fv == facts_views(facts@),
            hint_text(args, fv, root@) == hint_text(args.skip(i as int), fv.skip(i as int), root@),
        decreases facts@.len() - i,
    {
        let token = tokens[i + 1].as_str();
        let fact = &facts[i];
        assert(args.skip(i as int)[0] == token@);
        assert(fv.skip(i as int)[0] == fact@);
        assert(args.skip(i as int).drop_first() =~= args.skip(i + 1));
        assert(fv.skip(i as int).drop_first() =~= fv.skip(i + 1));
        if !(token.is_empty() || token.get_char(0) == '-' || fact.exists) {
            let target = path::join(root, token);
            let similar = suggestions_within_scope(target.as_str(), fact, root);
            if similar.len() > 0 {
                let names = text::join(similar.as_slice(), ", ");
                let mut out = text::concat3(
                    "\n[hint] '",
                    token,
                    "' does not exist, but these do: ",
                );
                out.append(names.as_str());
                out.append(
                    ". The intended item may be one of them under a different name or spelling — check before concluding it is missing.",
                );
                return out;
            }
        }
        i += 1;
    }
    assert(args.skip(i as int) =~= seq![]);
    String::new()
}

/// What a command wrote: its output, then its errors where there are any.
pub open spec fn combined(stdout: Seq<char>, stderr: Seq<char>) -> Seq<char> {
    if text::trimmed(stderr).len() == 0 {
        stdout
    } else if stdout.len() > 0 && stdout.last() != '\n' {
        stdout + "\n"@ + text::rtrimmed(stderr) + "\n"@
    } else {
        stdout + text::rtrimmed(stderr) + "\n"@
    }
}

/// What is shown of a command's output.
pub open spec fn shown_output(bin: Seq<char>, stdout: Seq<char>, stderr: Seq<char>) -> Seq<char> {
    let body = manpage::cleaned(combined(stdout, stderr));
    let safe = if bin == "env"@ || bin == "printenv"@ {
        redacted_lines(text::line_list(body))
    } else {
        body
    };
    manpage::truncated(text::rtrimmed(safe), OUTPUT_BUDGET_CHARS as nat)
}

/// What is shown of a command's output keeps to its budget.
pub proof fn law_output_within_budget(bin: Seq<char>, stdout: Seq<char>, stderr: Seq<char>)
    ensures
        shown_output(bin, stdout, stderr).len() <= OUTPUT_BUDGET_CHARS,
{
    reveal_strlit("\n... [truncated]");
    let body = manpage::cleaned(combined(stdout, stderr));
    let safe = if bin == "env"@ || bin == "printenv"@ {
        redacted_lines(text::line_list(body))
    } else {
        body
    };
    let keep = (OUTPUT_BUDGET_CHARS - 16) as nat;
    text::lemma_trail(text::first_chars(text::rtrimmed(safe), keep), CharSet::White);
}

/// The answer of the tool for a command that ended.
pub open spec fn report(
    tokens: Seq<Seq<char>>,
    code: Option<i32>,
    stdout: Seq<char>,
    stderr: Seq<char>,
    hint: Seq<char>,
) -> Seq<char> {
    let body = shown_output(tokens[0], stdout, stderr);
    let exit = match code {
        Some(c) => c as int,
        None => -1,
    };
    let head = "$ "@ + text::joined(tokens, " "@) + "\n[exit "@ + text::signed_decimal(exit);
    if text::trimmed(body).len() == 0 {
        head + "] (no output)"@ + hint
    } else {
        head + "]\n"@ + body + hint
    }
}

/// The answer of the tool for a command that ended, with what it wrote as text.
pub fn format_report(
    tokens: &[String],
    code: Option<i32>,
    stdout: &str,
    stderr: &str,
    hint: &str,
) -> (r: String)
    requires
        tokens@.len() > 0,
    ensures
        r@ == report(text::views(tokens@), code, stdout@, stderr@, hint@),
{
    let mut body = stdout.to_owned();
    if !text::trim(stderr).is_empty() {
        let n = stdout.unicode_len();
        if n > 0 && stdout.get_char(n - 1) != '\n' {
            body.append("\n");
        }
        body.append(text::trim_end(stderr));
        body.append("\n");
    }
    assert(body@ =~= combined(stdout@, stderr@));
    let cleaned = manpage::clean(body.as_str());
    let bin = tokens[0].as_str();
    assert(text::views(tokens@)[0] == bin@);
    let safe = if text::same(bin, "env") || text::same(bin, "printenv") {
        redact_env_output(cleaned.as_str())
    } else {
        cleaned
    };
    let shown = manpage::truncate_chars(text::trim_end(safe.as_str()), OUTPUT_BUDGET_CHARS);
    let exit: i32 = match code {
        Some(c) => c,
        None => -1,
    };
    let line = text::join(tokens, " ");
    let mut out = text::concat3("$ ", line.as_str(), "\n[exit ");
    let number = text::i64_text(exit as i64);
    out.append(number.as_str());
    if text::trim(shown.as_str()).is_empty() {
        out.append("] (no output)");
    } else {
        out.append("]\n");
        out.append(shown.as_str());
    }
    out.append(hint);
    out
}

/// The answer of the tool: what the command gave, or why it was refused or failed.
pub open spec fn tool_answer(
    command: Seq<char>,
    home: Option<Seq<char>>,
    root: Seq<char>,
    facts: Seq<FactsView>,
    outcome: RunOutcome,
    facts_after: Seq<FactsView>,
) -> Seq<char> {
    match planned(command, home) {
        Err(e) => e.message(),
        Ok(tokens) => match path_refusal(tokens.skip(1), facts, root) {
            Some(e) => e.message(),
            None => match outcome {
                RunOutcome::NotStarted => Refusal::SpawnFailed(tokens[0]).message(),
                RunOutcome::TimedOut => Refusal::TimedOut.message(),
                RunOutcome::Finished { success, code, stdout, stderr } => report(
                    tokens,
                    code,
                    text::lossy_text(stdout@),
                    text::lossy_text(stderr@),
                    if success {
                        seq![]
                    } else {
                        hint_text(tokens.skip(1), facts_after, root)
                    },
                ),
            },
        },
    }
}

/// Run one read-only command rooted at `root` and format the result.
///
/// `facts` are what the file system said of the arguments before the command ran, `outcome` is
/// what became of it, and `facts_after` are what the file system said behind it. Refusals and
/// failures become short strings so a denied request does not abort the chat.
pub fn run_command_tool_result(
    command: &str,
    home: Option<&str>,
    root: &str,
    facts: &[ArgFacts],
    outcome: &RunOutcome,
    facts_after: &[ArgFacts],
) -> (r: String)
    requires
        planned(command@, text::opt_text(home)) matches Ok(tokens) ==> tokens.len() == facts@.len()
            + 1 && facts_after@.len() == facts@.len(),
    ensures
        r@ == tool_answer(
            command@,
            text::opt_text(home),
            root@,
            facts_views(facts@),
            *outcome,
            facts_views(facts_after@),
        ),
{
    let tokens = match plan_command(command, home) {
        Ok(tokens) => tokens,
        Err(e) => {
            return e.as_tool_message();
        },
    };
    if let Err(e) = check_paths(tokens.as_slice(), root, facts) {
        return e.as_tool_message();
    }
    match outcome {
        RunOutcome::NotStarted => {
            let e = PolicyError::SpawnFailed(tokens[0].clone());
            assert(text::views(tokens@)[0] == tokens@[0]@);
            e.as_tool_message()
        },
        RunOutcome::TimedOut => PolicyError::TimedOut.as_tool_message(),
        RunOutcome::Finished { success, code, stdout, stderr } => {
            let hint = if *success {
                String::new()
            } else {
                spelling_hint(tokens.as_slice(), root, facts_after)
            };
            let out = text::from_utf8_lossy(stdout.as_slice());
            let err = text::from_utf8_lossy(stderr.as_slice());
            format_report(tokens.as_slice(), *code, out.as_str(), err.as_str(), hint.as_str())
        },
    }
}

/// Whether a command is refused before anything runs.
pub open spec fn is_refused(
    command: Seq<char>,
    home: Option<Seq<char>>,
    root: Seq<char>,
    facts: Seq<FactsView>,
) -> bool {
    match planned(command, home) {
        Err(_) => true,
        Ok(tokens) => path_refusal(tokens.skip(1), facts, root) is Some,
    }
}

/// A refused command is answered with the refusal, whatever became of a run of it.
pub proof fn law_refusal_ignores_outcome(
    command: Seq<char>,
    home: Option<Seq<char>>,
    root: Seq<char>,
    facts: Seq<FactsView>,
    outcome: RunOutcome,
    facts_after: Seq<FactsView>,
)
    requires
        is_refused(command, home, root, facts),
    ensures
        match planned(command, home) {
            Err(e) => tool_answer(command, home, root, facts, outcome, facts_after) == e.message(),
            Ok(tokens) => path_refusal(tokens.skip(1), facts, root) matches Some(e) && tool_answer(
                command,
                home,
                root,
                facts,
                outcome,
                facts_after,
            ) == e.message(),
        },
{
}

// ── What a run of a command is answered ──────────────────────────────────────

/// Whether terminal formatting has nothing to take out of a text.
pub open spec fn is_plain_text(s: Seq<char>) -> bool {
    !s.contains('\x1b') && !s.contains('\x08')
}

/// The report of a command that ended shows what it was, how it ended, and all it wrote: its
/// output and behind it its errors, where there are any, and the hint last. Only where it wrote
/// nothing but white space, the report says that there was no output.
pub proof fn law_report_shows_both_streams(
    tokens: Seq<Seq<char>>,
    code: i32,
    stdout: Seq<char>,
    stderr: Seq<char>,
    hint: Seq<char>,
)
    requires
        tokens.len() > 0,
        tokens[0] != "env"@,
        tokens[0] != "printenv"@,
        is_plain_text(stdout),
        is_plain_text(stderr),
        stdout.len() + stderr.len() + 2 <= 4_000,
    ensures
        ({
            let r = report(tokens, Some(code), stdout, stderr, hint);
            &&& ("$ "@ + text::joined(tokens, " "@) + "\n[exit "@ + text::signed_decimal(
                code as int,
            ) + "]"@).is_prefix_of(r)
            &&& hint.is_suffix_of(r)
            &&& text::trimmed(stderr).len() > 0 ==> (text::rtrimmed(stderr) + hint).is_suffix_of(r)
            &&& text::trimmed(stderr).len() == 0 && text::trimmed(stdout).len() > 0 ==> (
            text::rtrimmed(stdout) + hint).is_suffix_of(r)
            &&& text::trimmed(stdout).len() > 0 ==> text::has_sub(r, text::rtrimmed(stdout))
            &&& text::trimmed(stdout).len() > 0 && text::trimmed(stderr).len() > 0
                ==> text::in_order(r, seq![text::rtrimmed(stdout), text::rtrimmed(stderr)])
            &&& text::trimmed(stdout).len() == 0 && text::trimmed(stderr).len() == 0 ==> (
            "(no output)"@ + hint).is_suffix_of(r)
        }),
{
    let r = report(tokens, Some(code), stdout, stderr, hint);
    let head = "$ "@ + text::joined(tokens, " "@) + "\n[exit "@ + text::signed_decimal(code as int);
    let out = text::rtrimmed(stdout);
    let err = text::rtrimmed(stderr);
    let body = text::rtrimmed(combined(stdout, stderr));
    lemma_combined(stdout, stderr);
    lemma_shown_whole(tokens[0], stdout, stderr);
    text::lemma_blank(stdout);
    text::lemma_blank(stderr);
    if text::trimmed(body).len() == 0 {
        lemma_report_empty(head, hint);
        text::lemma_blank(body);
        lemma_trimmed_twice(combined(stdout, stderr));
        assert(body.len() == 0);
    } else {
        lemma_report_filled(head, body, hint);
        lemma_report_body(head + "]\n"@, body, hint, out, err);
    }
}

proof fn lemma_trimmed_twice(s: Seq<char>)
    ensures
        text::rtrimmed(text::rtrimmed(s)) == text::rtrimmed(s),
{
    let t = text::rtrimmed(s);
    text::lemma_rtrimmed(s);
    text::lemma_rtrimmed(t);
    if t.len() > 0 && text::rtrimmed(t).len() < t.len() {
        assert(text::is_white(t[t.len() - 1]));
    }
    assert(t.take(t.len() as int) =~= t);
}

proof fn lemma_shown_whole(bin: Seq<char>, stdout: Seq<char>, stderr: Seq<char>)
    requires
        bin != "env"@,
        bin != "printenv"@,
        is_plain_text(combined(stdout, stderr)),
        combined(stdout, stderr).len() <= OUTPUT_BUDGET_CHARS,
    ensures
        shown_output(bin, stdout, stderr) == text::rtrimmed(combined(stdout, stderr)),
{
    let all = combined(stdout, stderr);
    manpage::law_plain_text_stays(all);
    text::lemma_rtrimmed(all);
}

proof fn lemma_report_empty(head: Seq<char>, hint: Seq<char>)
    ensures
        ({
            let r = head + "] (no output)"@ + hint;
            &&& (head + "]"@).is_prefix_of(r)
            &&& hint.is_suffix_of(r)
            &&& ("(no output)"@ + hint).is_suffix_of(r)
        }),
{
    reveal_strlit("]");
    reveal_strlit("] (no output)");
    reveal_strlit("(no output)");
    let r = head + "] (no output)"@ + hint;
    let open = head + "]"@;
    let end = "(no output)"@ + hint;
    assert(r.subrange(0, open.len() as int) =~= open);
    assert(r.subrange(r.len() - hint.len(), r.len() as int) =~= hint);
    assert(r.subrange(r.len() - end.len(), r.len() as int) =~= end);
}

proof fn lemma_report_filled(head: Seq<char>, body: Seq<char>, hint: Seq<char>)
    ensures
        (head + "]"@).is_prefix_of(head + "]\n"@ + body + hint),
{
    reveal_strlit("]");
    reveal_strlit("]\n");
    let r = head + "]\n"@ + body + hint;
    let open = head + "]"@;
    assert(r.subrange(0, open.len() as int) =~= open);
}

/// What stands at the start and at the end of a body stands in the report that holds it.
proof fn lemma_report_body(
    top: Seq<char>,
    body: Seq<char>,
    hint: Seq<char>,
    out: Seq<char>,
    err: Seq<char>,
)
    requires
        out.is_prefix_of(body),
        err.len() > 0 ==> err.is_suffix_of(body) && body.len() >= out.len() + err.len(),
        err.len() == 0 ==> body == out,
    ensures
        ({
            let r = top + body + hint;
            &&& hint.is_suffix_of(r)
            &&& err.len() > 0 ==> (err + hint).is_suffix_of(r)
            &&& err.len() == 0 ==> (out + hint).is_suffix_of(r)
            &&& text::has_sub(r, out)
            &&& err.len() > 0 ==> text::in_order(r, seq![out, err])
        }),
{
    let r = top + body + hint;
    let rest = body.skip(out.len() as int);
    assert(body =~= out + rest);
    assert(r.subrange(r.len() - hint.len(), r.len() as int) =~= hint);
    text::lemma_occurs(top, out, rest + hint);
    assert(top + out + (rest + hint) =~= r);
    if err.len() == 0 {
        assert(rest =~= seq![]);
        assert((out + hint) =~= r.subrange(r.len() - (out.len() + hint.len()), r.len() as int));
    } else {
        let between = body.subrange(out.len() as int, body.len() - err.len());
        assert(rest =~= between + err);
        assert(err + hint =~= r.subrange(r.len() - (err.len() + hint.len()), r.len() as int));
        lemma_two_in_order(top, out, between, err, hint);
        assert(r =~= top + out + between + err + hint);
    }
}

proof fn lemma_two_in_order(
    a: Seq<char>,
    x: Seq<char>,
    b: Seq<char>,
    y: Seq<char>,
    c: Seq<char>,
)
    ensures
        text::in_order(a + x + b + y + c, seq![x, y]),
{
    text::lemma_in_order_one(x);
    text::lemma_in_order_around(a, x, b, seq![x]);
    text::lemma_in_order_one(y);
    text::lemma_in_order_around(seq![], y, c, seq![y]);
    let s = a + x + b;
    let t = Seq::<char>::empty() + y + c;
    text::lemma_in_order_concat(s, t, seq![x], seq![y]);
    assert(s + t =~= a + x + b + y + c);
    assert(seq![x] + seq![y] =~= seq![x, y]);
}

proof fn lemma_combined(stdout: Seq<char>, stderr: Seq<char>)
    requires
        is_plain_text(stdout),
        is_plain_text(stderr),
    ensures
        ({
            let all = combined(stdout, stderr);
            let out = text::rtrimmed(stdout);
            let err = text::rtrimmed(stderr);
            let body = text::rtrimmed(all);
            &&& is_plain_text(all)
            &&& all.len() <= stdout.len() + stderr.len() + 2
            &&& err.len() > 0 ==> body.len() >= out.len() + err.len() && err.is_suffix_of(body)
            &&& err.len() == 0 ==> body == out
            &&& out.is_prefix_of(body)
        }),
{
    let all = combined(stdout, stderr);
    let out = text::rtrimmed(stdout);
    let err = text::rtrimmed(stderr);
    let body = text::rtrimmed(all);
    reveal_strlit("\n");
    text::lemma_rtrimmed(stdout);
    text::lemma_rtrimmed(stderr);
    text::lemma_rtrimmed(all);
    text::lemma_blank(stderr);
    assert forall|c: char| c == '\x1b' || c == '\x08' implies !#[trigger] all.contains(c) by {
        if all.contains(c) {
            let k = all.index_of(c);
            if k < stdout.len() {
                assert(stdout.contains(stdout[k]));
            } else if err.len() > 0 {
                let gap = all.len() - 1 - err.len();
                if k >= gap && k < all.len() - 1 {
                    assert(all[k] == err[k - gap]);
                    assert(err[k - gap] == stderr[k - gap]);
                    assert(stderr.contains(stderr[k - gap]));
                }
            }
        }
    }
    if err.len() > 0 {
        let n = all.len() - 1;
        assert(all[n] == '\n');
        assert(all[n - 1] == err.last());
        assert(body.len() == n) by {
            if body.len() > n {
                assert(body.last() == all[n]);
            }
            if body.len() < n {
                assert(text::is_white(all[n - 1]));
            }
        }
        assert(body.subrange(n - err.len(), n) =~= err);
        assert(body.subrange(0, out.len() as int) =~= out);
    } else {
        assert(all == stdout);
        assert(out.subrange(0, out.len() as int) =~= out);
    }
}

/// A command that passed the checks and ended is answered with its report: what it wrote to
/// each of its streams, and a hint on spelling only where it failed.
pub proof fn law_finished_command_is_reported(
    command: Seq<char>,
    home: Option<Seq<char>>,
    root: Seq<char>,
    facts: Seq<FactsView>,
    success: bool,
    code: Option<i32>,
    stdout: Vec<u8>,
    stderr: Vec<u8>,
    facts_after: Seq<FactsView>,
)
    requires
        !is_refused(command, home, root, facts),
    ensures
        planned(command, home) matches Ok(tokens) && ({
            let answer = tool_answer(
                command,
                home,
                root,
                facts,
                RunOutcome::Finished { success, code, stdout, stderr },
                facts_after,
            );
            let out = text::lossy_text(stdout@);
            let err = text::lossy_text(stderr@);
            &&& success ==> answer == report(tokens, code, out, err, seq![])
            &&& !success ==> hint_text(tokens.skip(1), facts_after, root).is_suffix_of(answer)
                && answer == report(
                tokens,
                code,
                out,
                err,
                hint_text(tokens.skip(1), facts_after, root),
            )
        }),
{
    let tokens = planned(command, home)->Ok_0;
    if !success {
        let hint = hint_text(tokens.skip(1), facts_after, root);
        let r = report(tokens, code, text::lossy_text(stdout@), text::lossy_text(stderr@), hint);
        assert(r.subrange(r.len() - hint.len(), r.len() as int) =~= hint);
    }
}

/// The value of a variable whose name speaks of a secret is hidden, and no other line changes.
pub proof fn law_secret_values_are_hidden(key: Seq<char>, value: Seq<char>)
    requires
        !key.contains('='),
    ensures
        text::has_sub(text::uppered(text::trimmed(key)), "TOKEN"@) || text::has_sub(
            text::uppered(text::trimmed(key)),
            "SECRET"@,
        ) || text::has_sub(text::uppered(text::trimmed(key)), "PASSWORD"@) || text::has_sub(
            text::uppered(text::trimmed(key)),
            "PASSWD"@,
        ) || text::has_sub(text::uppered(text::trimmed(key)), "CREDENTIAL"@) || text::has_sub(
            text::uppered(text::trimmed(key)),
            "APIKEY"@,
        ) || text::has_sub(text::uppered(text::trimmed(key)), "_KEY"@) || text::has_sub(
            text::uppered(text::trimmed(key)),
            "AUTH"@,
        ) || text::has_sub(text::uppered(text::trimmed(key)), "SESSION"@) || text::has_sub(
            text::uppered(text::trimmed(key)),
            "PRIVATE"@,
        ) ==> redacted_line(key + seq!['='] + value) == key + "=<redacted>"@,
        redacted_line(key + seq!['='] + value) == key + "=<redacted>"@ || redacted_line(
            key + seq!['='] + value,
        ) == key + seq!['='] + value,
        redacted_line(key) == key,
{
    let line = key + seq!['='] + value;
    let n = key.len() as int;
    assert forall|k: int| 0 <= k < n implies CharSet::Not('=').has(#[trigger] line[k]) by {
        assert(line[k] == key[k]);
        assert(key.contains(key[k]));
    }
    text::lemma_lead_is(line, CharSet::Not('='), n);
    assert(line.take(n) =~= key);
    assert forall|k: int| 0 <= k < n implies CharSet::Not('=').has(#[trigger] key[k]) by {
        assert(key.contains(key[k]));
    }
    text::lemma_lead_is(key, CharSet::Not('='), n);
}

/// Redaction keeps every line: splitting the text at line feeds gives back the lines, each with
/// its value hidden or as it was.
pub proof fn law_redaction_keeps_lines(lines: Seq<Seq<char>>)
    requires
        forall|k: int| 0 <= k < lines.len() ==> !(#[trigger] lines[k]).contains('\n'),
    ensures
        text::piece_list(redacted_lines(lines), '\n') == Seq::new(
            lines.len(),
            |k: int| redacted_line(lines[k]),
        ).push(seq![]),
{
    reveal_strlit("\n");
    assert("\n"@ =~= seq!['\n']);
    let shown = Seq::new(lines.len(), |k: int| redacted_line(lines[k]));
    let all = shown.push(Seq::<char>::empty());
    lemma_redacted_joined(lines);
    assert forall|k: int| 0 <= k < all.len() implies !(#[trigger] all[k]).contains('\n') by {
        if k < lines.len() {
            let line = lines[k];
            let key = text::before(line, '=');
            reveal_strlit("=<redacted>");
            text::lemma_lead(line, CharSet::Not('='));
            if redacted_line(line).contains('\n') {
                let i = redacted_line(line).index_of('\n');
                if is_secret_line(line) {
                    if i < key.len() {
                        assert(line.contains(line[i]));
                    } else {
                        assert("=<redacted>"@[i - key.len()] == '\n');
                    }
                }
            }
        }
    }
    text::law_join_and_split(all, '\n');
}

proof fn lemma_redacted_joined(lines: Seq<Seq<char>>)
    ensures
        redacted_lines(lines) == text::joined(
            Seq::new(lines.len(), |k: int| redacted_line(lines[k])).push(seq![]),
            seq!['\n'],
        ),
    decreases lines.len(),
{
    reveal_strlit("\n");
    assert("\n"@ =~= seq!['\n']);
    let empty = Seq::<char>::empty();
    let shown = Seq::new(lines.len(), |k: int| redacted_line(lines[k]));
    let all = shown.push(empty);
    if lines.len() == 0 {
        assert(all =~= seq![empty]);
        assert(redacted_lines(lines) =~= empty);
    } else {
        let init = lines.drop_last();
        let before = Seq::new(init.len(), |k: int| redacted_line(init[k]));
        lemma_redacted_joined(init);
        assert(shown =~= before.push(redacted_line(lines.last())));
        assert(all.drop_last() =~= shown);
        assert(text::joined(all, seq!['\n']) =~= text::joined(shown, seq!['\n']) + seq!['\n']);
        if init.len() == 0 {
            assert(shown =~= seq![redacted_line(lines.last())]);
            assert(redacted_lines(init) =~= empty);
            assert(redacted_lines(lines) =~= text::joined(all, seq!['\n']));
        } else {
            assert(before.push(empty).drop_last() =~= before);
            assert(shown.drop_last() =~= before);
            assert(text::joined(before.push(empty), seq!['\n']) =~= text::joined(
                before,
                seq!['\n'],
            ) + seq!['\n']);
            assert(redacted_lines(lines) =~= text::joined(all, seq!['\n']));
        }
    }
}

/// What stands in quotes is one argument, word for word, and what stands behind it is read on.
pub proof fn law_quotes_group(quote: char, inside: Seq<char>, rest: Seq<char>)
    requires
        quote == '\'' || quote == '"',
        !inside.contains(quote),
        token_list(rest) is Some,
    ensures
        token_list(seq![quote] + inside + seq![quote]) == Some(seq![inside]),
        token_list(seq![quote] + inside + seq![quote, ' '] + rest) == Some(
            seq![inside] + token_list(rest)->0,
        ),
        token_list(seq![quote] + inside) is None,
{
    let empty = Seq::<char>::empty();
    assert(token_list(empty) == Some(Seq::<Seq<char>>::empty()));
    lemma_quoted(quote, inside, empty);
    assert(seq![quote] + inside + seq![quote] + empty =~= seq![quote] + inside + seq![quote]);
    assert(seq![inside] + Seq::<Seq<char>>::empty() =~= seq![inside]);
    lemma_blank_before(rest);
    lemma_quoted(quote, inside, seq![' '] + rest);
    assert(seq![quote] + inside + seq![quote] + (seq![' '] + rest) =~= seq![quote] + inside
        + seq![quote, ' '] + rest);
    let open = seq![quote] + inside;
    assert(open.drop_first() =~= inside);
    assert forall|k: int| 0 <= k < inside.len() implies CharSet::Not(quote).has(
        #[trigger] inside[k],
    ) by {
        assert(inside.contains(inside[k]));
    }
    text::lemma_lead_is(inside, CharSet::Not(quote), inside.len() as int);
    text::lemma_lead_is(open, CharSet::White, 0);
    assert(open.skip(0) =~= open);
}

proof fn lemma_blank_before(rest: Seq<char>)
    ensures
        token_list(seq![' '] + rest) == token_list(rest),
{
    let s = seq![' '] + rest;
    text::lemma_lead(rest, CharSet::White);
    let n = text::lead(rest, CharSet::White) as int;
    assert forall|k: int| 0 <= k < n + 1 implies CharSet::White.has(#[trigger] s[k]) by {
        if k > 0 {
            assert(s[k] == rest[k - 1]);
        }
    }
    if n + 1 < s.len() {
        assert(s[n + 1] == rest[n]);
    }
    text::lemma_lead_is(s, CharSet::White, n + 1);
    assert(text::trimmed_start(s, CharSet::White) =~= text::trimmed_start(rest, CharSet::White));
    let t = text::trimmed_start(rest, CharSet::White);
    if t.len() > 0 {
        assert(t[0] == rest[n]);
        lemma_first_word(t);
    }
}

proof fn lemma_quoted(quote: char, inside: Seq<char>, rest: Seq<char>)
    requires
        quote == '\'' || quote == '"',
        !inside.contains(quote),
        rest.len() == 0 || rest[0] == ' ',
        token_list(rest) is Some,
    ensures
        token_list(seq![quote] + inside + seq![quote] + rest) == Some(
            seq![inside] + token_list(rest)->0,
        ),
{
    let s = seq![quote] + inside + seq![quote] + rest;
    let behind = s.drop_first();
    let n = inside.len() as int;
    assert forall|k: int| 0 <= k < n implies CharSet::Not(quote).has(#[trigger] behind[k]) by {
        assert(behind[k] == inside[k]);
        assert(inside.contains(inside[k]));
    }
    assert(behind[n] == quote);
    text::lemma_lead_is(behind, CharSet::Not(quote), n);
    assert(behind.skip(n + 1) =~= rest);
    assert(behind.take(n) =~= inside);
    assert(first_word(rest) == Some((Seq::<char>::empty(), rest)));
    assert(inside + Seq::<char>::empty() =~= inside);
    assert(first_word(s) == Some((inside, rest)));
    text::lemma_lead_is(s, CharSet::White, 0);
    assert(s.skip(0) =~= s);
}

/// A leading `~` stands for the home directory, and no other argument changes.
pub proof fn law_tilde_is_home(token: Seq<char>, home: Seq<char>)
    ensures
        expanded(seq!['~'], home) == home,
        token.len() == 0 || token[0] != '~' ==> expanded(token, home) == token,
        token.len() > 0 && token[0] != '/' && home.len() > 0 && home.last() != '/' ==> expanded(
            seq!['~', '/'] + token,
            home,
        ) == home + seq!['/'] + token,
{
    reveal_strlit("~");
    reveal_strlit("~/");
    reveal_strlit("/");
    assert("~"@ =~= seq!['~']);
    assert("/"@ =~= seq!['/']);
    let s = seq!['~', '/'] + token;
    assert(s.subrange(0, 2) =~= "~/"@);
    assert(s.skip(2) =~= token);
    assert("~"@[0] == '~' && "~/"@[0] == '~');
    if token.len() > 0 {
        assert(s.len() != "~"@.len());
    }
}

/// The binaries that may run: these and no others.
pub proof fn law_allowlist(bin: Seq<char>)
    ensures
        allowlist(bin) is Some <==> seq![
            "ls"@,
            "pwd"@,
            "cat"@,
            "head"@,
            "tail"@,
            "wc"@,
            "file"@,
            "stat"@,
            "du"@,
            "df"@,
            "tree"@,
            "realpath"@,
            "basename"@,
            "dirname"@,
            "readlink"@,
            "grep"@,
            "rg"@,
            "find"@,
            "uname"@,
            "hostname"@,
            "whoami"@,
            "id"@,
            "uptime"@,
            "date"@,
            "env"@,
            "printenv"@,
            "which"@,
            "ps"@,
            "free"@,
            "lscpu"@,
            "sw_vers"@,
            "git"@,
            "node"@,
            "python3"@,
            "python"@,
            "rustc"@,
            "cargo"@,
            "go"@,
            "npm"@,
            "ollama"@,
        ].contains(bin),
{
    let all = seq![
        "ls"@,
        "pwd"@,
        "cat"@,
        "head"@,
        "tail"@,
        "wc"@,
        "file"@,
        "stat"@,
        "du"@,
        "df"@,
        "tree"@,
        "realpath"@,
        "basename"@,
        "dirname"@,
        "readlink"@,
        "grep"@,
        "rg"@,
        "find"@,
        "uname"@,
        "hostname"@,
        "whoami"@,
        "id"@,
        "uptime"@,
        "date"@,
        "env"@,
        "printenv"@,
        "which"@,
        "ps"@,
        "free"@,
        "lscpu"@,
        "sw_vers"@,
        "git"@,
        "node"@,
        "python3"@,
        "python"@,
        "rustc"@,
        "cargo"@,
        "go"@,
        "npm"@,
        "ollama"@,
    ];
    assert(all[0] == "ls"@ && all[1] == "pwd"@ && all[2] == "cat"@ && all[3] == "head"@ && all[4]
        == "tail"@ && all[5] == "wc"@ && all[6] == "file"@ && all[7] == "stat"@ && all[8] == "du"@
        && all[9] == "df"@ && all[10] == "tree"@ && all[11] == "realpath"@ && all[12]
        == "basename"@ && all[13] == "dirname"@ && all[14] == "readlink"@ && all[15] == "grep"@
        && all[16] == "rg"@ && all[17] == "find"@ && all[18] == "uname"@ && all[19] == "hostname"@
        && all[20] == "whoami"@ && all[21] == "id"@ && all[22] == "uptime"@ && all[23] == "date"@
        && all[24] == "env"@ && all[25] == "printenv"@ && all[26] == "which"@ && all[27] == "ps"@
        && all[28] == "free"@ && all[29] == "lscpu"@ && all[30] == "sw_vers"@ && all[31] == "git"@
        && all[32] == "node"@ && all[33] == "python3"@ && all[34] == "python"@ && all[35]
        == "rustc"@ && all[36] == "cargo"@ && all[37] == "go"@ && all[38] == "npm"@ && all[39]
        == "ollama"@);
    if all.contains(bin) {
        let k = all.index_of(bin);
        assert(all[k] == bin);
    }
}

/// A flag that makes a binary write, delete or run something is refused wherever it stands.
pub proof fn law_dangerous_flags_are_refused(tokens: Seq<Seq<char>>, i: int)
    requires
        1 <= i < tokens.len(),
        ({
            let bin = tokens[0];
            let flag = tokens[i];
            ||| bin == "find"@ && (flag == "-delete"@ || flag == "-exec"@ || flag == "-execdir"@
                || flag == "-ok"@ || flag == "-okdir"@ || flag == "-fprintf"@ || flag == "-fls"@
                || flag == "-fprint"@ || flag == "-fprint0"@)
            ||| bin == "date"@ && (flag == "-s"@ || flag == "--set"@)
            ||| bin == "git"@ && (flag == "-c"@ || flag == "--exec-path"@)
            ||| bin == "rg"@ && (flag == "--pre"@ || flag == "--hostname-bin"@)
            ||| bin == "tree"@ && flag == "-o"@
            ||| bin == "tail"@ && (flag == "-f"@ || flag == "--follow"@)
        }),
    ensures
        policy(tokens) is Err,
{
    reveal_strlit("find");
    reveal_strlit("date");
    reveal_strlit("git");
    reveal_strlit("rg");
    reveal_strlit("tree");
    reveal_strlit("tail");
    reveal_strlit("env");
    reveal_strlit("hostname");
    reveal_strlit("file");
    assert("find"@[0] == 'f' && "find"@[2] == 'n' && "file"@[0] == 'f' && "file"@[2] == 'l');
    assert("date"@[0] == 'd' && "tree"@[0] == 't' && "tree"@[1] == 'r' && "tail"@[0] == 't'
        && "tail"@[1] == 'a');
    assert("find"@.len() == 4 && "file"@.len() == 4 && "date"@.len() == 4 && "tree"@.len() == 4
        && "tail"@.len() == 4 && "git"@.len() == 3 && "env"@.len() == 3 && "rg"@.len() == 2
        && "hostname"@.len() == 8);
    assert("git"@[0] == 'g' && "env"@[0] == 'e');
    reveal_strlit("-delete");
    reveal_strlit("-exec");
    reveal_strlit("-execdir");
    reveal_strlit("-ok");
    reveal_strlit("-okdir");
    reveal_strlit("-fprintf");
    reveal_strlit("-fls");
    reveal_strlit("-fprint");
    reveal_strlit("-fprint0");
    reveal_strlit("-s");
    reveal_strlit("--set");
    reveal_strlit("-c");
    reveal_strlit("--exec-path");
    reveal_strlit("--pre");
    reveal_strlit("--hostname-bin");
    reveal_strlit("-o");
    reveal_strlit("-f");
    reveal_strlit("--follow");
    let flag = tokens[i];
    assert(!flag.contains('='));
    lemma_before_whole(flag);
    if let Ok(rule) = policy(tokens) {
        lemma_first_denied(tokens.skip(1), rule.denied_flags);
        assert(tokens.skip(1)[i - 1] == flag);
    }
}

proof fn lemma_before_whole(s: Seq<char>)
    requires
        !s.contains('='),
    ensures
        text::before(s, '=') == s,
{
    assert forall|k: int| 0 <= k < s.len() implies CharSet::Not('=').has(#[trigger] s[k]) by {
        assert(s.contains(s[k]));
    }
    text::lemma_lead_is(s, CharSet::Not('='), s.len() as int);
    assert(s.take(s.len() as int) =~= s);
}

/// `git` runs only where its subcommand reads.
pub proof fn law_git_only_reads(tokens: Seq<Seq<char>>)
    requires
        tokens.len() > 0,
        tokens[0] == "git"@,
        policy(tokens) is Ok,
    ensures
        first_subcommand(tokens.skip(1)) matches Some(sub) && seq![
            "status"@,
            "log"@,
            "diff"@,
            "show"@,
            "branch"@,
            "remote"@,
            "rev-parse"@,
            "describe"@,
            "tag"@,
            "blame"@,
            "shortlog"@,
            "ls-files"@,
            "ls-remote"@,
            "count-objects"@,
        ].contains(sub),
{
    reveal_strlit("git");
    reveal_strlit("env");
    reveal_strlit("hostname");
    reveal_strlit("file");
    reveal_strlit("tail");
    reveal_strlit("tree");
    reveal_strlit("rg");
    reveal_strlit("find");
    reveal_strlit("date");
    assert("git"@[0] == 'g' && "env"@[0] == 'e' && "git"@.len() == 3);
    let all = seq![
        "status"@,
        "log"@,
        "diff"@,
        "show"@,
        "branch"@,
        "remote"@,
        "rev-parse"@,
        "describe"@,
        "tag"@,
        "blame"@,
        "shortlog"@,
        "ls-files"@,
        "ls-remote"@,
        "count-objects"@,
    ];
    assert(all[0] == "status"@ && all[1] == "log"@ && all[2] == "diff"@ && all[3] == "show"@
        && all[4] == "branch"@ && all[5] == "remote"@ && all[6] == "rev-parse"@ && all[7]
        == "describe"@ && all[8] == "tag"@ && all[9] == "blame"@ && all[10] == "shortlog"@ && all[11]
        == "ls-files"@ && all[12] == "ls-remote"@ && all[13] == "count-objects"@);
}

/// A path with a name in it that stands for keys or credentials is never in scope, whatever the
/// case of its letters; nor is any path outside the root that is not read-safe.
pub proof fn law_secrets_are_out_of_scope(p: Seq<char>, root: Seq<char>, i: int)
    ensures
        0 <= i < path::component_list(p).len() && path::is_normal(path::component_list(p)[i]) && ({
            let name = text::lowered(path::component_list(p)[i]);
            ||| name == ".ssh"@ || name == ".aws"@ || name == ".gnupg"@ || name == ".gpg"@
            ||| name == ".kube"@ || name == ".docker"@ || name == ".netrc"@ || name == ".env"@
            ||| name == ".git-credentials"@ || name == ".npmrc"@ || name == ".pypirc"@
            ||| name == "id_rsa"@ || name == "id_ed25519"@ || name == "id_ecdsa"@ || name
                == "id_dsa"@
            ||| name == "credentials"@ || name == "secrets"@
        }) ==> !in_scope(p, root),
        !path::component_list(root).is_prefix_of(path::component_list(p)) && !(path::component_list(
            "/proc"@,
        ).is_prefix_of(path::component_list(p)) || path::component_list(
            "/sys/devices"@,
        ).is_prefix_of(path::component_list(p)) || path::component_list(
            "/etc/os-release"@,
        ).is_prefix_of(path::component_list(p)) || path::component_list(
            "/etc/hostname"@,
        ).is_prefix_of(path::component_list(p)) || path::component_list(
            "/etc/shells"@,
        ).is_prefix_of(path::component_list(p)) || path::component_list(
            "/usr/share"@,
        ).is_prefix_of(path::component_list(p)) || path::component_list(
            "/usr/lib/os-release"@,
        ).is_prefix_of(path::component_list(p))) ==> !in_scope(p, root),
{
}

/// A plain command on files under the root passes the path checks: each argument that is no flag
/// and resolves to a path in scope is let through.
pub proof fn law_paths_in_scope_pass(
    args: Seq<Seq<char>>,
    facts: Seq<FactsView>,
    root: Seq<char>,
)
    requires
        args.len() == facts.len(),
        forall|i: int|
            #![trigger facts[i]]
            0 <= i < args.len() ==> facts[i].resolved is Some && !is_secret(
                facts[i].resolved->0,
            ) && path::path_within(facts[i].resolved->0, root),
    ensures
        path_refusal(args, facts, root) is None,
    decreases args.len(),
{
    if args.len() > 0 {
        assert(facts[0].resolved is Some);
        let more = facts.drop_first();
        assert forall|i: int| #![trigger more[i]] 0 <= i < args.drop_first().len() implies
            more[i].resolved is Some && !is_secret(more[i].resolved->0) && path::path_within(
            more[i].resolved->0,
            root,
        ) by {
            assert(more[i] == facts[i + 1]);
        }
        law_paths_in_scope_pass(args.drop_first(), more, root);
    }
}

/// A refusal names what was refused.
pub proof fn law_refusals_name_what_was_refused(
    c: char,
    word: Seq<char>,
    other: Seq<char>,
    similar: Seq<Seq<char>>,
    i: int,
)
    ensures
        text::has_sub(Refusal::ShellMetachar(c).message(), seq![c]),
        text::has_sub(Refusal::NotAllowed(word).message(), word),
        text::has_sub(
            Refusal::DeniedSubcommand { bin: word, sub: other }.message(),
            word + " "@ + other,
        ),
        text::has_sub(Refusal::DeniedFlag { bin: word, flag: other }.message(), other),
        text::has_sub(Refusal::DeniedFlag { bin: word, flag: other }.message(), word),
        text::has_sub(Refusal::PathOutsideScope(word).message(), word),
        text::has_sub(Refusal::SecretPath(word).message(), word),
        text::has_sub(Refusal::SpawnFailed(word).message(), word),
        text::has_sub(Refusal::PathNotFound { token: word, similar }.message(), word),
        0 <= i < similar.len() ==> text::has_sub(
            Refusal::PathNotFound { token: word, similar }.message(),
            similar[i],
        ),
{
    lemma_named_refusals(c, word, other);
    let m = Refusal::PathNotFound { token: word, similar }.message();
    let base = "run_command: '"@ + word + "' does not exist."@;
    text::lemma_occurs("run_command: '"@, word, "' does not exist."@);
    if similar.len() > 0 {
        let list = text::joined(similar, ", "@);
        let lead = " These names do exist there: "@;
        let tail = ". The intended item may be one of them under a different name or spelling."@;
        let rest = lead + list + tail;
        text::lemma_occurs(seq![], base, rest);
        assert(Seq::<char>::empty() + base + rest =~= m);
        text::lemma_sub_within(m, base, word);
        text::lemma_occurs(base + lead, list, tail);
        assert(base + lead + list + tail =~= m);
        if 0 <= i < similar.len() {
            text::law_joined_holds_all(similar, ", "@);
            text::lemma_in_order_each(list, similar, i);
            text::lemma_sub_within(m, list, similar[i]);
        }
    }
}

proof fn lemma_named_refusals(c: char, word: Seq<char>, other: Seq<char>)
    ensures
        text::has_sub(Refusal::ShellMetachar(c).message(), seq![c]),
        text::has_sub(Refusal::NotAllowed(word).message(), word),
        text::has_sub(
            Refusal::DeniedSubcommand { bin: word, sub: other }.message(),
            word + " "@ + other,
        ),
        text::has_sub(Refusal::DeniedFlag { bin: word, flag: other }.message(), other),
        text::has_sub(Refusal::DeniedFlag { bin: word, flag: other }.message(), word),
        text::has_sub(Refusal::PathOutsideScope(word).message(), word),
        text::has_sub(Refusal::SecretPath(word).message(), word),
        text::has_sub(Refusal::SpawnFailed(word).message(), word),
{
    text::lemma_occurs(
        "run_command refused: '"@,
        seq![c],
        "' is not supported. Pipes, redirects, subshells, and chaining are unavailable — run one simple command per call."@,
    );
    text::lemma_occurs(
        "run_command refused: '"@,
        word,
        "' is not permitted. Only read-only inspection commands are allowed, such as ls, cat, head, wc, stat, find, grep, which, env, uname, ps, df, and git status/log/diff."@,
    );
    let both = word + " "@ + other;
    let rest = "' is not permitted. Only read-only "@ + word + " subcommands are allowed."@;
    text::lemma_occurs("run_command refused: '"@, both, rest);
    assert("run_command refused: '"@ + both + rest =~= (Refusal::DeniedSubcommand {
        bin: word,
        sub: other,
    }).message());
    let m = (Refusal::DeniedFlag { bin: word, flag: other }).message();
    let tail = "' option of '"@ + word + "' can modify the system."@;
    text::lemma_occurs("run_command refused: the '"@, other, tail);
    assert("run_command refused: the '"@ + other + tail =~= m);
    let head = "run_command refused: the '"@ + other + "' option of '"@;
    text::lemma_occurs(head, word, "' can modify the system."@);
    assert(head + word + "' can modify the system."@ =~= m);
    text::lemma_occurs(
        "run_command refused: '"@,
        word,
        "' is outside the working directory. Only files under the current directory can be read."@,
    );
    text::lemma_occurs(
        "run_command refused: '"@,
        word,
        "' may contain credentials and cannot be read."@,
    );
    text::lemma_occurs(
        "run_command error: '"@,
        word,
        "' could not be started (is it installed?)."@,
    );
}

/// Whether a character joins commands, redirects them, or stands for what a shell fills in.
pub open spec fn is_shell_sign(c: char) -> bool {
    seq!['|', '&', ';', '<', '>', '$', '`', '\n', '\r', '{', '}'].contains(c)
}

/// A command with a sign for the shell in it is refused, wherever the sign stands.
pub proof fn law_shell_signs_are_refused(command: Seq<char>, i: int)
    requires
        0 <= i < text::trimmed(command).len(),
        is_shell_sign(text::trimmed(command)[i]),
    ensures
        parsed(command) matches Err(Refusal::ShellMetachar(c)) && is_shell_sign(c),
{
    lemma_first_sign(text::trimmed(command), i);
}

proof fn lemma_sign(c: char)
    ensures
        is_metachar(c) <==> is_shell_sign(c),
{
    let all = seq!['|', '&', ';', '<', '>', '$', '`', '\n', '\r', '{', '}'];
    if is_metachar(c) {
        assert(all[0] == '|' && all[1] == '&' && all[2] == ';' && all[3] == '<' && all[4] == '>'
            && all[5] == '$' && all[6] == '`' && all[7] == '\n' && all[8] == '\r' && all[9] == '{'
            && all[10] == '}');
    }
}

proof fn lemma_first_sign(s: Seq<char>, i: int)
    requires
        0 <= i < s.len(),
        is_shell_sign(s[i]),
    ensures
        first_metachar(s) matches Some(c) && is_shell_sign(c),
    decreases s.len(),
{
    lemma_sign(s[0]);
    if !is_metachar(s[0]) {
        assert(s.drop_first()[i - 1] == s[i]);
        lemma_first_sign(s.drop_first(), i - 1);
    }
}

proof fn lemma_no_sign(s: Seq<char>)
    requires
        forall|i: int| 0 <= i < s.len() ==> !is_shell_sign(#[trigger] s[i]),
    ensures
        first_metachar(s) is None,
    decreases s.len(),
{
    if s.len() > 0 {
        let rest = s.drop_first();
        assert forall|i: int| 0 <= i < rest.len() implies !is_shell_sign(#[trigger] rest[i]) by {
            assert(rest[i] == s[i + 1]);
        }
        lemma_no_sign(rest);
        lemma_sign(s[0]);
        assert(!is_shell_sign(s[0]));
    }
}

/// Whether a word has no white space, no quotes and no signs for the shell in it.
pub open spec fn is_simple(word: Seq<char>) -> bool {
    word.len() > 0 && forall|i: int|
        0 <= i < word.len() ==> !text::is_white(#[trigger] word[i]) && !is_shell_sign(word[i])
            && word[i] != '\\' && word[i] != '\'' && word[i] != '"'
}

/// A command of simple words is read as these words, in their order.
pub proof fn law_simple_command_is_parsed(words: Seq<Seq<char>>)
    requires
        words.len() > 0,
        forall|k: int| 0 <= k < words.len() ==> is_simple(#[trigger] words[k]),
    ensures
        parsed(text::joined(words, seq![' '])) == Ok::<Seq<Seq<char>>, Refusal>(words),
{
    let line = text::joined(words, seq![' ']);
    lemma_simple_line(words);
    text::lemma_trimmed_same(line);
    lemma_no_sign(line);
    assert forall|k: int| 0 <= k < words.len() implies (#[trigger] words[k]).len() > 0 && (forall|
        i: int,
    |
        0 <= i < words[k].len() ==> !text::is_white(#[trigger] words[k][i])) by {
        assert(is_simple(words[k]));
    }
    text::law_join_and_read_words(words);
    law_plain_tokens(line);
}

proof fn lemma_simple_line(words: Seq<Seq<char>>)
    requires
        words.len() > 0,
        forall|k: int| 0 <= k < words.len() ==> is_simple(#[trigger] words[k]),
    ensures
        ({
            let line = text::joined(words, seq![' ']);
            &&& line.len() > 0
            &&& text::is_tight(line)
            &&& forall|i: int|
                0 <= i < line.len() ==> !is_shell_sign(#[trigger] line[i]) && !is_quoting(line[i])
        }),
    decreases words.len(),
{
    let line = text::joined(words, seq![' ']);
    let last = words[words.len() - 1];
    assert(is_simple(last));
    assert(is_simple(words[0]));
    assert(!text::is_white(last[last.len() - 1]));
    assert(!text::is_white(words[0][0]));
    if words.len() > 1 {
        let init = words.drop_last();
        assert forall|k: int| 0 <= k < init.len() implies is_simple(#[trigger] init[k]) by {
            assert(init[k] == words[k]);
        }
        lemma_simple_line(init);
        let before = text::joined(init, seq![' ']);
        lemma_sign(' ');
        assert forall|i: int| 0 <= i < line.len() implies !is_shell_sign(#[trigger] line[i])
            && !is_quoting(line[i]) by {
            if i < before.len() {
                assert(line[i] == before[i]);
            } else if i == before.len() {
                assert(line[i] == ' ');
            } else {
                assert(line[i] == last[i - before.len() - 1]);
            }
        }
    } else {
        assert(line == last);
    }
}

/// What stands behind a backslash belongs to the word as it is, and so does what stands in
/// quotes; the word goes on behind it.
pub proof fn law_words_are_put_together(s: Seq<char>, c: char, quote: char, inside: Seq<char>)
    requires
        first_word(s) is Some,
        quote == '\'' || quote == '"',
        !inside.contains(quote),
        !text::is_white(c),
        c != '\\' && c != '\'' && c != '"',
    ensures
        ({
            let (word, rest) = first_word(s)->0;
            &&& first_word(seq!['\\', c] + s) == Some((seq![c] + word, rest))
            &&& first_word(seq!['\\', ' '] + s) == Some((seq![' '] + word, rest))
            &&& first_word(seq![c] + s) == Some((seq![c] + word, rest))
            &&& first_word(seq![quote] + (inside + seq![quote] + s)) == Some(
                (inside + word, rest),
            )
        }),
        first_word(seq!['\\']) is None,
        first_word(seq![quote] + inside) is None,
{
    assert((seq!['\\', c] + s).skip(2) =~= s);
    assert((seq!['\\', ' '] + s).skip(2) =~= s);
    assert((seq![c] + s).drop_first() =~= s);
    let tail = inside + seq![quote] + s;
    assert((seq![quote] + tail).drop_first() =~= tail);
    text::law_before(inside, quote, s);
    assert(tail.skip(inside.len() as int + 1) =~= s);
    assert(tail.take(inside.len() as int) =~= inside);
    assert((seq![quote] + inside).drop_first() =~= inside);
}

/// What the names of the programs begin with.
proof fn lemma_names()
    ensures
        "env"@.len() == 3 && "env"@[0] == 'e' && "env"@[1] == 'n' && "env"@[2] == 'v',
        "hostname"@.len() == 8 && "hostname"@[0] == 'h' && "hostname"@[1] == 'o' && "hostname"@[2] == 's' && "hostname"@[3] == 't',
        "file"@.len() == 4 && "file"@[0] == 'f' && "file"@[1] == 'i' && "file"@[2] == 'l' && "file"@[3] == 'e',
        "tail"@.len() == 4 && "tail"@[0] == 't' && "tail"@[1] == 'a' && "tail"@[2] == 'i' && "tail"@[3] == 'l',
        "tree"@.len() == 4 && "tree"@[0] == 't' && "tree"@[1] == 'r' && "tree"@[2] == 'e' && "tree"@[3] == 'e',
        "rg"@.len() == 2 && "rg"@[0] == 'r' && "rg"@[1] == 'g',
        "find"@.len() == 4 && "find"@[0] == 'f' && "find"@[1] == 'i' && "find"@[2] == 'n' && "find"@[3] == 'd',
        "date"@.len() == 4 && "date"@[0] == 'd' && "date"@[1] == 'a' && "date"@[2] == 't' && "date"@[3] == 'e',
        "git"@.len() == 3 && "git"@[0] == 'g' && "git"@[1] == 'i' && "git"@[2] == 't',
        "node"@.len() == 4 && "node"@[0] == 'n' && "node"@[1] == 'o' && "node"@[2] == 'd' && "node"@[3] == 'e',
        "python3"@.len() == 7 && "python3"@[0] == 'p' && "python3"@[1] == 'y' && "python3"@[2] == 't' && "python3"@[3] == 'h',
        "python"@.len() == 6 && "python"@[0] == 'p' && "python"@[1] == 'y' && "python"@[2] == 't' && "python"@[3] == 'h',
        "rustc"@.len() == 5 && "rustc"@[0] == 'r' && "rustc"@[1] == 'u' && "rustc"@[2] == 's' && "rustc"@[3] == 't',
        "cargo"@.len() == 5 && "cargo"@[0] == 'c' && "cargo"@[1] == 'a' && "cargo"@[2] == 'r' && "cargo"@[3] == 'g',
        "npm"@.len() == 3 && "npm"@[0] == 'n' && "npm"@[1] == 'p' && "npm"@[2] == 'm',
        "go"@.len() == 2 && "go"@[0] == 'g' && "go"@[1] == 'o',
        "ollama"@.len() == 6 && "ollama"@[0] == 'o' && "ollama"@[1] == 'l' && "ollama"@[2] == 'l' && "ollama"@[3] == 'a',
        "ls"@.len() == 2 && "ls"@[0] == 'l' && "ls"@[1] == 's',
        "pwd"@.len() == 3 && "pwd"@[0] == 'p' && "pwd"@[1] == 'w' && "pwd"@[2] == 'd',
        "cat"@.len() == 3 && "cat"@[0] == 'c' && "cat"@[1] == 'a' && "cat"@[2] == 't',
        "head"@.len() == 4 && "head"@[0] == 'h' && "head"@[1] == 'e' && "head"@[2] == 'a' && "head"@[3] == 'd',
        "wc"@.len() == 2 && "wc"@[0] == 'w' && "wc"@[1] == 'c',
        "stat"@.len() == 4 && "stat"@[0] == 's' && "stat"@[1] == 't' && "stat"@[2] == 'a' && "stat"@[3] == 't',
        "du"@.len() == 2 && "du"@[0] == 'd' && "du"@[1] == 'u',
        "df"@.len() == 2 && "df"@[0] == 'd' && "df"@[1] == 'f',
        "realpath"@.len() == 8 && "realpath"@[0] == 'r' && "realpath"@[1] == 'e' && "realpath"@[2] == 'a' && "realpath"@[3] == 'l',
        "basename"@.len() == 8 && "basename"@[0] == 'b' && "basename"@[1] == 'a' && "basename"@[2] == 's' && "basename"@[3] == 'e',
        "dirname"@.len() == 7 && "dirname"@[0] == 'd' && "dirname"@[1] == 'i' && "dirname"@[2] == 'r' && "dirname"@[3] == 'n',
        "readlink"@.len() == 8 && "readlink"@[0] == 'r' && "readlink"@[1] == 'e' && "readlink"@[2] == 'a' && "readlink"@[3] == 'd',
        "grep"@.len() == 4 && "grep"@[0] == 'g' && "grep"@[1] == 'r' && "grep"@[2] == 'e' && "grep"@[3] == 'p',
        "uname"@.len() == 5 && "uname"@[0] == 'u' && "uname"@[1] == 'n' && "uname"@[2] == 'a' && "uname"@[3] == 'm',
        "whoami"@.len() == 6 && "whoami"@[0] == 'w' && "whoami"@[1] == 'h' && "whoami"@[2] == 'o' && "whoami"@[3] == 'a',
        "id"@.len() == 2 && "id"@[0] == 'i' && "id"@[1] == 'd',
        "uptime"@.len() == 6 && "uptime"@[0] == 'u' && "uptime"@[1] == 'p' && "uptime"@[2] == 't' && "uptime"@[3] == 'i',
        "printenv"@.len() == 8 && "printenv"@[0] == 'p' && "printenv"@[1] == 'r' && "printenv"@[2] == 'i' && "printenv"@[3] == 'n',
        "which"@.len() == 5 && "which"@[0] == 'w' && "which"@[1] == 'h' && "which"@[2] == 'i' && "which"@[3] == 'c',
        "ps"@.len() == 2 && "ps"@[0] == 'p' && "ps"@[1] == 's',
        "free"@.len() == 4 && "free"@[0] == 'f' && "free"@[1] == 'r' && "free"@[2] == 'e' && "free"@[3] == 'e',
        "lscpu"@.len() == 5 && "lscpu"@[0] == 'l' && "lscpu"@[1] == 's' && "lscpu"@[2] == 'c' && "lscpu"@[3] == 'p',
        "sw_vers"@.len() == 7 && "sw_vers"@[0] == 's' && "sw_vers"@[1] == 'w' && "sw_vers"@[2] == '_' && "sw_vers"@[3] == 'v',
{
    reveal_strlit("env");
    reveal_strlit("hostname");
    reveal_strlit("file");
    reveal_strlit("tail");
    reveal_strlit("tree");
    reveal_strlit("rg");
    reveal_strlit("find");
    reveal_strlit("date");
    reveal_strlit("git");
    reveal_strlit("node");
    reveal_strlit("python3");
    reveal_strlit("python");
    reveal_strlit("rustc");
    reveal_strlit("cargo");
    reveal_strlit("npm");
    reveal_strlit("go");
    reveal_strlit("ollama");
    reveal_strlit("ls");
    reveal_strlit("pwd");
    reveal_strlit("cat");
    reveal_strlit("head");
    reveal_strlit("wc");
    reveal_strlit("stat");
    reveal_strlit("du");
    reveal_strlit("df");
    reveal_strlit("realpath");
    reveal_strlit("basename");
    reveal_strlit("dirname");
    reveal_strlit("readlink");
    reveal_strlit("grep");
    reveal_strlit("uname");
    reveal_strlit("whoami");
    reveal_strlit("id");
    reveal_strlit("uptime");
    reveal_strlit("printenv");
    reveal_strlit("which");
    reveal_strlit("ps");
    reveal_strlit("free");
    reveal_strlit("lscpu");
    reveal_strlit("sw_vers");
}

/// Whether a program only reads, whatever it is given.
pub open spec fn only_reads(bin: Seq<char>) -> bool {
    ||| bin == "ls"@
    ||| bin == "pwd"@
    ||| bin == "cat"@
    ||| bin == "head"@
    ||| bin == "wc"@
    ||| bin == "stat"@
    ||| bin == "du"@
    ||| bin == "df"@
    ||| bin == "realpath"@
    ||| bin == "basename"@
    ||| bin == "dirname"@
    ||| bin == "readlink"@
    ||| bin == "grep"@
    ||| bin == "uname"@
    ||| bin == "whoami"@
    ||| bin == "id"@
    ||| bin == "uptime"@
    ||| bin == "printenv"@
    ||| bin == "which"@
    ||| bin == "ps"@
    ||| bin == "free"@
    ||| bin == "lscpu"@
    ||| bin == "sw_vers"@
}

proof fn lemma_no_slash(bin: Seq<char>)
    requires
        only_reads(bin) || bin == "tail"@ || bin == "tree"@ || bin == "rg"@ || bin == "find"@ || bin
            == "file"@ || bin == "env"@ || bin == "date"@ || bin == "git"@ || bin == "hostname"@,
    ensures
        !bin.contains('/'),
{
    lemma_names();
    reveal_strlit("hostname");
    reveal_strlit("realpath");
    reveal_strlit("basename");
    reveal_strlit("dirname");
    reveal_strlit("readlink");
    reveal_strlit("uname");
    reveal_strlit("whoami");
    reveal_strlit("uptime");
    reveal_strlit("printenv");
    reveal_strlit("which");
    reveal_strlit("lscpu");
    reveal_strlit("sw_vers");
}

proof fn lemma_reader_rule(bin: Seq<char>)
    requires
        only_reads(bin),
    ensures
        allowlist(bin) == Some(
            restricted(Subcommands::Any, DeniedFlags::Nothing, Arguments::Any),
        ),
{
    lemma_names();
}

proof fn lemma_nothing_strays(args: Seq<Seq<char>>, i: int)
    requires
        0 <= i <= args.len(),
    ensures
        first_stray(Arguments::Any, args, i) is None,
    decreases args.len() - i,
{
    if i < args.len() {
        lemma_nothing_strays(args, i + 1);
    }
}

proof fn lemma_nothing_denied(args: Seq<Seq<char>>)
    ensures
        first_denied(args, DeniedFlags::Nothing) is None,
    decreases args.len(),
{
    if args.len() > 0 {
        lemma_nothing_denied(args.drop_first());
    }
}

/// A program that only reads is run with whatever it is given. A program that is not known, and
/// one that is named by a path, is refused by its name.
pub proof fn law_readers_are_run(bin: Seq<char>, other: Seq<char>, args: Seq<Seq<char>>)
    requires
        only_reads(bin),
        other.contains('/') || allowlist(other) is None,
    ensures
        policy(seq![bin] + args) is Ok,
        policy(seq![other] + args) == Err::<SafeCommand, Refusal>(Refusal::NotAllowed(other)),
        policy(seq![]) == Err::<SafeCommand, Refusal>(Refusal::Empty),
{
    let tokens = seq![bin] + args;
    assert(tokens.skip(1) =~= args);
    lemma_no_slash(bin);
    lemma_reader_rule(bin);
    lemma_nothing_denied(args);
    lemma_nothing_strays(args, 0);
}

/// Whether an argument is no flag.
pub open spec fn is_bare_word(arg: Seq<char>) -> bool {
    arg.len() > 0 && arg[0] != '-'
}

proof fn lemma_words_are_words(kind: Arguments, args: Seq<Seq<char>>, i: int)
    requires
        0 <= i <= args.len(),
        forall|k: int| 0 <= k < args.len() ==> is_bare_word(#[trigger] args[k]),
    ensures
        !kind.reading(args, i).awaiting,
        i < args.len() ==> kind.role(args, i) == Role::Word,
    decreases i,
{
    if i > 0 {
        lemma_words_are_words(kind, args, i - 1);
        assert(is_bare_word(args[i - 1]));
    }
    if i < args.len() {
        assert(is_bare_word(args[i]));
    }
}

proof fn lemma_words_pass(kind: Arguments, args: Seq<Seq<char>>, i: int)
    requires
        0 <= i <= args.len(),
        forall|k: int| 0 <= k < args.len() ==> is_bare_word(#[trigger] args[k]),
        kind !is Each,
        kind is Any || forall|k: int| 0 <= k < args.len() ==> #[trigger] kind.permits_word(args, k),
    ensures
        first_stray(kind, args, i) is None,
    decreases args.len() - i,
{
    if i < args.len() {
        lemma_words_are_words(kind, args, i);
        if kind !is Any {
            assert(kind.permits_word(args, i));
        }
        lemma_words_pass(kind, args, i + 1);
    }
}

proof fn lemma_denied_are_flags(denied: DeniedFlags, w: Seq<char>)
    requires
        denied.denies(w),
    ensures
        w.len() > 0,
        w[0] == '-',
{
    reveal_strlit("-f");
    reveal_strlit("--follow");
    reveal_strlit("-o");
    reveal_strlit("--pre");
    reveal_strlit("--hostname-bin");
    reveal_strlit("-delete");
    reveal_strlit("-exec");
    reveal_strlit("-execdir");
    reveal_strlit("-ok");
    reveal_strlit("-okdir");
    reveal_strlit("-fprintf");
    reveal_strlit("-fls");
    reveal_strlit("-fprint");
    reveal_strlit("-fprint0");
    reveal_strlit("-s");
    reveal_strlit("--set");
    reveal_strlit("-c");
    reveal_strlit("--exec-path");
    reveal_strlit("--config-env");
}

proof fn lemma_words_are_not_denied(args: Seq<Seq<char>>, denied: DeniedFlags)
    requires
        forall|k: int| 0 <= k < args.len() ==> is_bare_word(#[trigger] args[k]),
    ensures
        first_denied(args, denied) is None,
    decreases args.len(),
{
    if args.len() > 0 {
        let w = text::before(args[0], '=');
        assert(is_bare_word(args[0]));
        text::lemma_lead(args[0], CharSet::Not('='));
        if denied.denies(w) {
            lemma_denied_are_flags(denied, w);
            assert(w[0] == args[0][0]);
        }
        let rest = args.drop_first();
        assert forall|k: int| 0 <= k < rest.len() implies is_bare_word(#[trigger] rest[k]) by {
            assert(rest[k] == args[k + 1]);
        }
        lemma_words_are_not_denied(rest, denied);
    }
}

/// The programs that look at files are run on any files; `env` is run to set variables, and `date`
/// to show the time in a format.
pub proof fn law_files_are_looked_at(bin: Seq<char>, args: Seq<Seq<char>>)
    requires
        forall|k: int| 0 <= k < args.len() ==> is_bare_word(#[trigger] args[k]),
    ensures
        bin == "tail"@ || bin == "tree"@ || bin == "rg"@ || bin == "find"@ || bin == "file"@
            ==> policy(seq![bin] + args) is Ok,
        bin == "env"@ && (forall|k: int| 0 <= k < args.len() ==> (#[trigger] args[k]).contains('='))
            ==> policy(seq![bin] + args) is Ok,
        bin == "date"@ && (forall|k: int| 0 <= k < args.len() ==> (#[trigger] args[k])[0] == '+')
            ==> policy(seq![bin] + args) is Ok,
        bin == "hostname"@ && args.len() == 0 ==> policy(seq![bin] + args) is Ok,
{
    let tokens = seq![bin] + args;
    assert(tokens.skip(1) =~= args);
    lemma_names();
    if bin == "tail"@ || bin == "tree"@ || bin == "rg"@ || bin == "find"@ || bin == "file"@ || bin
        == "env"@ || bin == "date"@ || bin == "hostname"@ {
        lemma_no_slash(bin);
        let rule = allowlist(bin)->0;
        lemma_words_are_not_denied(args, rule.denied_flags);
        let kind = rule.arguments;
        assert(kind !is Each);
        let fits = kind is Any || forall|k: int|
            0 <= k < args.len() ==> #[trigger] kind.permits_word(args, k);
        if fits {
            lemma_words_pass(kind, args, 0);
        }
        if bin == "date"@ && (forall|k: int|
            0 <= k < args.len() ==> (#[trigger] args[k])[0] == '+') {
            assert forall|k: int| 0 <= k < args.len() implies #[trigger] kind.permits_word(
                args,
                k,
            ) by {
                assert(is_bare_word(args[k]));
                assert(args[k][0] == '+');
            }
        }
        if bin == "env"@ && (forall|k: int|
            0 <= k < args.len() ==> (#[trigger] args[k]).contains('=')) {
            assert forall|k: int| 0 <= k < args.len() implies #[trigger] kind.permits_word(
                args,
                k,
            ) by {
                assert(args[k].contains('='));
            }
        }
    }
}

proof fn lemma_first_stray_is(kind: Arguments, args: Seq<Seq<char>>, i: int, j: int)
    requires
        0 <= i <= j < args.len(),
        forall|k: int| i <= k < j ==> #[trigger] kind.accepts(args, k),
        !kind.accepts(args, j),
    ensures
        first_stray(kind, args, i) == Some(j),
    decreases j - i,
{
    if i < j {
        assert(kind.accepts(args, i));
        lemma_first_stray_is(kind, args, i + 1, j);
    }
}

/// `env` starts no other program, whatever variables it sets before: the program is refused by
/// its name. `date` does not set the clock, and `hostname` does not set the name.
pub proof fn law_nothing_is_started_or_set(
    settings: Seq<Seq<char>>,
    word: Seq<char>,
    rest: Seq<Seq<char>>,
)
    requires
        forall|k: int|
            0 <= k < settings.len() ==> is_bare_word(#[trigger] settings[k]) && settings[k].contains(
                '=',
            ),
        is_bare_word(word),
        !word.contains('='),
        word[0] != '+',
        forall|k: int| 0 <= k < rest.len() ==> is_bare_word(#[trigger] rest[k]),
    ensures
        policy(seq!["env"@] + (settings + seq![word] + rest)) == Err::<SafeCommand, Refusal>(
            Refusal::NotAllowed(word),
        ),
        policy(seq!["date"@] + (seq![word] + rest)) is Err,
        policy(seq!["hostname"@] + (seq![word] + rest)) is Err,
{
    lemma_names();
    let args = settings + seq![word] + rest;
    let tokens = seq!["env"@] + args;
    assert(tokens.skip(1) =~= args);
    let n = settings.len() as int;
    assert forall|k: int| 0 <= k < args.len() implies is_bare_word(#[trigger] args[k]) by {
        if k < n {
            assert(args[k] == settings[k]);
        } else if k > n {
            assert(args[k] == rest[k - n - 1]);
        }
    }
    lemma_words_are_not_denied(args, DeniedFlags::Nothing);
    lemma_no_slash("env"@);
    let kind = Arguments::Assignments;
    assert forall|k: int| 0 <= k < n implies #[trigger] kind.accepts(args, k) by {
        lemma_words_are_words(kind, args, k);
        assert(args[k] == settings[k]);
    }
    lemma_words_are_words(kind, args, n);
    assert(args[n] == word);
    reveal_strlit("-");
    assert("-"@[0] == '-');
    assert(!kind.accepts(args, n));
    lemma_first_stray_is(kind, args, 0, n);
    let short = seq![word] + rest;
    assert forall|k: int| 0 <= k < short.len() implies is_bare_word(#[trigger] short[k]) by {
        if k > 0 {
            assert(short[k] == rest[k - 1]);
        }
    }
    let clock = Arguments::ClockFormat;
    lemma_words_are_words(clock, short, 0);
    assert(short[0] == word);
    assert(!clock.settled(short, 0));
    assert(!clock.accepts(short, 0));
    lemma_first_stray_is(clock, short, 0, 0);
    assert((seq!["date"@] + short).skip(1) =~= short);
    lemma_words_are_not_denied(short, DeniedFlags::SetClock);
    let host = Arguments::HostFlags;
    lemma_words_are_words(host, short, 0);
    assert(!host.accepts(short, 0));
    lemma_first_stray_is(host, short, 0, 0);
    assert((seq!["hostname"@] + short).skip(1) =~= short);
    lemma_words_are_not_denied(short, DeniedFlags::Nothing);
}

proof fn lemma_git_names()
    ensures
        "status"@.len() == 6 && "status"@[0] == 's' && "status"@[1] == 't' && "status"@[2] == 'a' && "status"@[3] == 't',
        "log"@.len() == 3 && "log"@[0] == 'l' && "log"@[1] == 'o' && "log"@[2] == 'g',
        "diff"@.len() == 4 && "diff"@[0] == 'd' && "diff"@[1] == 'i' && "diff"@[2] == 'f' && "diff"@[3] == 'f',
        "show"@.len() == 4 && "show"@[0] == 's' && "show"@[1] == 'h' && "show"@[2] == 'o' && "show"@[3] == 'w',
        "branch"@.len() == 6 && "branch"@[0] == 'b' && "branch"@[1] == 'r' && "branch"@[2] == 'a' && "branch"@[3] == 'n',
        "remote"@.len() == 6 && "remote"@[0] == 'r' && "remote"@[1] == 'e' && "remote"@[2] == 'm' && "remote"@[3] == 'o',
        "rev-parse"@.len() == 9 && "rev-parse"@[0] == 'r' && "rev-parse"@[1] == 'e' && "rev-parse"@[2] == 'v' && "rev-parse"@[3] == '-',
        "describe"@.len() == 8 && "describe"@[0] == 'd' && "describe"@[1] == 'e' && "describe"@[2] == 's' && "describe"@[3] == 'c',
        "tag"@.len() == 3 && "tag"@[0] == 't' && "tag"@[1] == 'a' && "tag"@[2] == 'g',
        "blame"@.len() == 5 && "blame"@[0] == 'b' && "blame"@[1] == 'l' && "blame"@[2] == 'a' && "blame"@[3] == 'm',
        "shortlog"@.len() == 8 && "shortlog"@[0] == 's' && "shortlog"@[1] == 'h' && "shortlog"@[2] == 'o' && "shortlog"@[3] == 'r',
        "ls-files"@.len() == 8 && "ls-files"@[0] == 'l' && "ls-files"@[1] == 's' && "ls-files"@[2] == '-' && "ls-files"@[3] == 'f',
        "ls-remote"@.len() == 9 && "ls-remote"@[0] == 'l' && "ls-remote"@[1] == 's' && "ls-remote"@[2] == '-' && "ls-remote"@[3] == 'r',
        "count-objects"@.len() == 13 && "count-objects"@[0] == 'c' && "count-objects"@[1] == 'o' && "count-objects"@[2] == 'u' && "count-objects"@[3] == 'n',
{
    reveal_strlit("status");
    reveal_strlit("log");
    reveal_strlit("diff");
    reveal_strlit("show");
    reveal_strlit("branch");
    reveal_strlit("remote");
    reveal_strlit("rev-parse");
    reveal_strlit("describe");
    reveal_strlit("tag");
    reveal_strlit("blame");
    reveal_strlit("shortlog");
    reveal_strlit("ls-files");
    reveal_strlit("ls-remote");
    reveal_strlit("count-objects");
}

/// The commands of `git` that read are run on any words. A branch or a tag that is named and not
/// listed would be made, and is refused; so is any other command.
pub proof fn law_git_commands(sub: Seq<char>, args: Seq<Seq<char>>)
    requires
        is_bare_word(sub),
        forall|k: int| 0 <= k < args.len() ==> is_bare_word(#[trigger] args[k]),
    ensures
        sub == "status"@ || sub == "log"@ || sub == "diff"@ || sub == "show"@ || sub == "rev-parse"@
            || sub == "describe"@ || sub == "blame"@ || sub == "shortlog"@ || sub == "ls-files"@
            || sub == "ls-remote"@ || sub == "count-objects"@ ==> policy(
            seq!["git"@] + (seq![sub] + args),
        ) is Ok,
        (sub == "branch"@ || sub == "tag"@ || sub == "remote"@) && args.len() == 0 ==> policy(
            seq!["git"@] + (seq![sub] + args),
        ) is Ok,
        (sub == "branch"@ || sub == "tag"@) && args.len() > 0 ==> policy(
            seq!["git"@] + (seq![sub] + args),
        ) == Err::<SafeCommand, Refusal>(
            Refusal::DeniedSubcommand { bin: "git"@, sub: sub + " "@ + args[0] },
        ),
        !is_git_read(sub) ==> policy(seq!["git"@] + (seq![sub] + args)) == Err::<
            SafeCommand,
            Refusal,
        >(Refusal::DeniedSubcommand { bin: "git"@, sub }),
{
    lemma_names();
    lemma_git_names();
    lemma_no_slash("git"@);
    let given = seq![sub] + args;
    let tokens = seq!["git"@] + given;
    assert(tokens.skip(1) =~= given);
    assert forall|k: int| 0 <= k < given.len() implies is_bare_word(#[trigger] given[k]) by {
        if k > 0 {
            assert(given[k] == args[k - 1]);
        }
    }
    lemma_words_are_not_denied(given, DeniedFlags::GitOverride);
    assert(given[0] == sub);
    assert(first_subcommand(given) == Some(sub));
    assert(given.drop_first() =~= args);
    assert(after_subcommand(given) == args);
    let kind = git_arguments(sub);
    if kind is Any || kind is History || kind is RemoteRefs || args.len() == 0 {
        lemma_words_pass(kind, args, 0);
    } else if kind is BranchList || kind is TagList {
        assert forall|j: int| 0 <= j < args.len() implies !#[trigger] kind.settles(args, j) by {
            lemma_words_are_words(kind, args, j);
        }
        lemma_words_are_words(kind, args, 0);
        assert(!kind.accepts(args, 0));
        lemma_first_stray_is(kind, args, 0, 0);
    }
}

/// The programs that run other programs are only asked for their version.
pub proof fn law_only_versions_are_asked(bin: Seq<char>, word: Seq<char>, rest: Seq<Seq<char>>)
    requires
        bin == "node"@ || bin == "python3"@ || bin == "python"@ || bin == "rustc"@ || bin
            == "cargo"@ || bin == "npm"@ || bin == "go"@,
        is_bare_word(word),
        word != "version"@,
    ensures
        policy(seq![bin, "--version"@]) is Ok,
        policy(seq![bin]) is Err,
        policy(seq![bin, word] + rest) == Err::<SafeCommand, Refusal>(
            Refusal::DeniedSubcommand { bin, sub: word },
        ),
{
    lemma_names();
    assert(!bin.contains('/')) by {
        reveal_strlit("node");
        reveal_strlit("python3");
        reveal_strlit("python");
        reveal_strlit("rustc");
        reveal_strlit("cargo");
        reveal_strlit("npm");
        reveal_strlit("go");
    }
    reveal_strlit("--version");
    reveal_strlit("-V");
    reveal_strlit("-v");
    assert("--version"@[0] == '-' && "-V"@[0] == '-' && "-v"@[0] == '-');
    let one = seq!["--version"@];
    assert(seq![bin, "--version"@].skip(1) =~= one);
    assert(seq![bin].skip(1) =~= Seq::<Seq<char>>::empty());
    lemma_nothing_denied(one);
    lemma_nothing_denied(Seq::empty());
    let rule = allowlist(bin)->0;
    assert(rule.denied_flags == DeniedFlags::Nothing);
    assert(first_subcommand(one) == Some("--version"@));
    assert(one[0] == "--version"@);
    assert(rule.arguments.accepts(one, 0));
    reveal_with_fuel(first_stray, 2);
    let many = seq![word] + rest;
    assert((seq![bin, word] + rest).skip(1) =~= many);
    lemma_nothing_denied(many);
    assert(many[0] == word);
    assert(first_subcommand(many) == Some(word));
}

/// A path that is not there is reported as missing, one that may hold secrets as such, and one
/// outside of the directory as outside, under the name that was given; flags and words that name
/// no file are passed over.
pub proof fn law_paths_are_checked(
    before: Seq<Seq<char>>,
    facts: Seq<FactsView>,
    token: Seq<char>,
    f: FactsView,
    root: Seq<char>,
)
    requires
        before.len() == facts.len(),
        forall|k: int|
            #![trigger before[k]]
            0 <= k < before.len() ==> before[k].len() > 0 && before[k][0] == '-',
        is_bare_word(token),
        token.contains('/') || f.exists,
    ensures
        f.resolved is None ==> path_refusal(before.push(token), facts.push(f), root) == Some(
            Refusal::PathNotFound {
                token,
                similar: suggestions(path::joined_path(root, token), f, root),
            },
        ),
        f.resolved matches Some(p) ==> (is_secret(p) ==> path_refusal(
            before.push(token),
            facts.push(f),
            root,
        ) == Some(Refusal::SecretPath(token))),
        f.resolved matches Some(p) ==> (!is_secret(p) && !path::path_within(p, root)
            && !is_read_safe(p) ==> path_refusal(before.push(token), facts.push(f), root) == Some(
            Refusal::PathOutsideScope(token),
        )),
        f.resolved matches Some(p) ==> (!is_secret(p) && path::path_within(p, root)
            ==> path_refusal(before.push(token), facts.push(f), root) is None),
        path_refusal(before, facts, root) is None,
    decreases before.len(),
{
    let args = before.push(token);
    let known = facts.push(f);
    if before.len() == 0 {
        assert(args.drop_first() =~= Seq::<Seq<char>>::empty());
        assert(known.drop_first() =~= Seq::<FactsView>::empty());
        reveal_with_fuel(path_refusal, 2);
    } else {
        let rest = before.drop_first();
        let more = facts.drop_first();
        assert(args.drop_first() =~= rest.push(token));
        assert(known.drop_first() =~= more.push(f));
        assert forall|k: int| #![trigger rest[k]] 0 <= k < rest.len() implies rest[k].len() > 0
            && rest[k][0] == '-' by {
            assert(rest[k] == before[k + 1]);
        }
        law_paths_are_checked(rest, more, token, f, root);
        assert(before[0].len() > 0 && before[0][0] == '-');
        assert(args[0] == before[0]);
    }
}

proof fn lemma_shown_are_names(names: Seq<Seq<char>>, i: int)
    requires
        0 <= i < shown_names(names).len(),
    ensures
        names.contains(shown_names(names)[i]),
        shown_names(names)[i].len() == 0 || shown_names(names)[i][0] != '.',
    decreases names.len(),
{
    let init = names.drop_last();
    let before = shown_names(init);
    if i < before.len() {
        lemma_shown_are_names(init, i);
        let k = init.index_of(before[i]);
        assert(names[k] == before[i]);
    } else {
        assert(names[names.len() - 1] == names.last());
    }
}

proof fn lemma_near_are_names(names: Seq<Seq<char>>, needle: Seq<char>, i: int)
    requires
        0 <= i < near_names(names, needle).len(),
    ensures
        names.contains(near_names(names, needle)[i]),
    decreases names.len(),
{
    let init = names.drop_last();
    let before = near_names(init, needle);
    if i < before.len() {
        lemma_near_are_names(init, needle, i);
        let k = init.index_of(before[i]);
        assert(names[k] == before[i]);
    } else {
        assert(names[names.len() - 1] == names.last());
    }
}

proof fn lemma_near_is_kept(names: Seq<Seq<char>>, needle: Seq<char>, k: int)
    requires
        0 <= k < names.len(),
        is_near(needle, names[k]),
    ensures
        near_names(names, needle).contains(names[k]),
    decreases names.len(),
{
    let init = names.drop_last();
    let before = near_names(init, needle);
    let all = near_names(names, needle);
    if k < init.len() {
        lemma_near_is_kept(init, needle, k);
        let i = before.index_of(names[k]);
        assert(all[i] == names[k]);
    } else {
        assert(all[before.len() as int] == names[k]);
    }
}

proof fn lemma_shown_is_kept(names: Seq<Seq<char>>, k: int)
    requires
        0 <= k < names.len(),
        names[k].len() > 0,
        names[k][0] != '.',
    ensures
        shown_names(names).contains(names[k]),
    decreases names.len(),
{
    let init = names.drop_last();
    let before = shown_names(init);
    let all = shown_names(names);
    if k < init.len() {
        lemma_shown_is_kept(init, k);
        let i = before.index_of(names[k]);
        assert(all[i] == names[k]);
    } else {
        assert(all[before.len() as int] == names[k]);
    }
}

proof fn lemma_sorted_holds(list: Seq<Seq<char>>, x: Seq<char>)
    ensures
        text::sorted(list).contains(x) <==> list.contains(x),
{
    text::law_sorted(list);
    let order = text::sorted(list);
    order.to_multiset_ensures();
    list.to_multiset_ensures();
    assert(order.contains(x) <==> order.to_multiset().count(x) > 0);
    assert(list.contains(x) <==> list.to_multiset().count(x) > 0);
}

/// The names that are offered in place of a missing one are names in the directory that are not
/// hidden. One that holds the missing name, in whatever case, or is held by it, is offered, unless
/// five others are.
pub proof fn law_similar_names(
    dirs: Seq<Seq<char>>,
    name: Seq<char>,
    names: Seq<Seq<char>>,
    i: int,
    k: int,
)
    requires
        name.len() > 0,
        !name.contains('/'),
        path::is_normal(name),
        forall|d: int|
            0 <= d < dirs.len() ==> (#[trigger] dirs[d]).len() > 0 && !dirs[d].contains('/')
                && dirs[d] != "."@,
    ensures
        ({
            let target = seq!['/'] + text::joined(dirs.push(name), seq!['/']);
            let similar = similar_names(target, names);
            &&& 0 <= i < similar.len() ==> names.contains(similar[i]) && (similar[i].len() == 0
                || similar[i][0] != '.')
            &&& 0 <= k < names.len() && names[k].len() > 0 && names[k][0] != '.' && (text::has_sub(
                text::lowered(names[k]),
                text::lowered(name),
            ) || text::has_sub(text::lowered(name), text::lowered(names[k]))) ==> similar.contains(
                names[k],
            ) || similar.len() >= 5
        }),
{
    let parts = dirs.push(name);
    assert forall|d: int| 0 <= d < parts.len() implies (#[trigger] parts[d]).len() > 0
        && !parts[d].contains('/') && parts[d] != "."@ by {
        if d < dirs.len() {
            assert(parts[d] == dirs[d]);
        }
    }
    path::law_components(parts);
    let target = seq!['/'] + text::joined(parts, seq!['/']);
    assert(path::last_name(target) == Some(name));
    let siblings = text::sorted(shown_names(names));
    let needle = text::lowered(name);
    let close = near_names(siblings, needle);
    let similar = similar_names(target, names);
    if 0 <= i < similar.len() {
        let s = similar[i];
        if close.len() > 0 {
            assert(s == close[i]);
            lemma_near_are_names(siblings, needle, i);
        } else {
            assert(s == siblings[i]);
            assert(siblings.contains(s));
        }
        lemma_sorted_holds(shown_names(names), s);
        let j = shown_names(names).index_of(s);
        lemma_shown_are_names(names, j);
    }
    if 0 <= k < names.len() && names[k].len() > 0 && names[k][0] != '.' && (text::has_sub(
        text::lowered(names[k]),
        needle,
    ) || text::has_sub(needle, text::lowered(names[k]))) {
        lemma_shown_is_kept(names, k);
        lemma_sorted_holds(shown_names(names), names[k]);
        let j = siblings.index_of(names[k]);
        lemma_near_is_kept(siblings, needle, j);
        let c = close.index_of(names[k]);
        if close.len() <= 5 {
            assert(similar =~= close);
            assert(similar[c] == names[k]);
        }
    }
}

/// A missing name is pointed out with the names that are there; what is there is not.
pub proof fn law_hint(
    before: Seq<Seq<char>>,
    facts: Seq<FactsView>,
    token: Seq<char>,
    f: FactsView,
    root: Seq<char>,
    i: int,
)
    requires
        before.len() == facts.len(),
        forall|k: int|
            #![trigger facts[k]]
            0 <= k < before.len() ==> facts[k].exists,
        is_bare_word(token),
        !f.exists,
    ensures
        hint_text(before, facts, root).len() == 0,
        ({
            let similar = suggestions(path::joined_path(root, token), f, root);
            let hint = hint_text(before.push(token), facts.push(f), root);
            &&& similar.len() == 0 ==> hint.len() == 0
            &&& similar.len() > 0 ==> text::has_sub(hint, token)
            &&& 0 <= i < similar.len() ==> text::has_sub(hint, similar[i])
        }),
    decreases before.len(),
{
    let args = before.push(token);
    let known = facts.push(f);
    let similar = suggestions(path::joined_path(root, token), f, root);
    if before.len() == 0 {
        assert(args.drop_first() =~= Seq::<Seq<char>>::empty());
        assert(known.drop_first() =~= Seq::<FactsView>::empty());
        reveal_with_fuel(hint_text, 2);
        if similar.len() > 0 {
            lemma_hint_parts(token, similar, i);
        }
    } else {
        let rest = before.drop_first();
        let more = facts.drop_first();
        assert(args.drop_first() =~= rest.push(token));
        assert(known.drop_first() =~= more.push(f));
        assert forall|k: int| #![trigger more[k]] 0 <= k < rest.len() implies more[k].exists by {
            assert(more[k] == facts[k + 1]);
        }
        law_hint(rest, more, token, f, root, i);
        assert(facts[0].exists);
        assert(known[0] == facts[0]);
    }
}

proof fn lemma_hint_parts(token: Seq<char>, similar: Seq<Seq<char>>, i: int)
    ensures
        ({
            let hint = "\n[hint] '"@ + token + "' does not exist, but these do: "@ + text::joined(
                similar,
                ", "@,
            )
                + ". The intended item may be one of them under a different name or spelling — check before concluding it is missing."@;
            &&& text::has_sub(hint, token)
            &&& 0 <= i < similar.len() ==> text::has_sub(hint, similar[i])
        }),
{
    let list = text::joined(similar, ", "@);
    let tail = ". The intended item may be one of them under a different name or spelling — check before concluding it is missing."@;
    let middle = "' does not exist, but these do: "@;
    let head = "\n[hint] '"@;
    let hint = head + token + middle + list + tail;
    text::lemma_occurs(head, token, middle + list + tail);
    assert(head + token + (middle + list + tail) =~= hint);
    text::lemma_occurs(head + token + middle, list, tail);
    if 0 <= i < similar.len() {
        text::law_joined_holds_all(similar, ", "@);
        text::lemma_in_order_each(list, similar, i);
        text::lemma_sub_within(hint, list, similar[i]);
    }
}

/// A command that could not be started, or took too long, is reported as such.
pub proof fn law_unfinished_command_is_reported(
    command: Seq<char>,
    home: Option<Seq<char>>,
    root: Seq<char>,
    facts: Seq<FactsView>,
    facts_after: Seq<FactsView>,
)
    requires
        !is_refused(command, home, root, facts),
    ensures
        planned(command, home) matches Ok(tokens) && tool_answer(
            command,
            home,
            root,
            facts,
            RunOutcome::NotStarted,
            facts_after,
        ) == Refusal::SpawnFailed(tokens[0]).message() && text::has_sub(
            tool_answer(command, home, root, facts, RunOutcome::NotStarted, facts_after),
            tokens[0],
        ),
        tool_answer(command, home, root, facts, RunOutcome::TimedOut, facts_after)
            == "run_command error: the command took too long and was stopped."@,
{
    let tokens = planned(command, home)->Ok_0;
    lemma_named_refusals(' ', tokens[0], seq![]);
}

/// A command of simple words is run as these words, where they are permitted; a home directory
/// stands for a tilde and nothing else is changed.
pub proof fn law_simple_command_is_planned(words: Seq<Seq<char>>, home: Option<Seq<char>>)
    requires
        words.len() > 0,
        forall|k: int| 0 <= k < words.len() ==> is_simple(#[trigger] words[k]) && words[k][0] != '~',
        policy(words) is Ok,
    ensures
        planned(text::joined(words, seq![' ']), home) == Ok::<Seq<Seq<char>>, Refusal>(words),
{
    assert forall|k: int| 0 <= k < words.len() implies is_simple(#[trigger] words[k]) by {}
    law_simple_command_is_parsed(words);
    if let Some(h) = home {
        assert forall|k: int| 0 <= k < words.len() implies expanded_tokens(words, home)[k]
            == words[k] by {
            law_tilde_is_home(words[k], h);
            assert(words[k][0] != '~');
        }
        assert(expanded_tokens(words, home) =~= words);
    }
}

/// What the environment holds is shown with the secrets hidden, line by line; what any other
/// program writes is shown as it is.
pub proof fn law_environment_is_redacted(bin: Seq<char>, lines: Seq<Seq<char>>)
    requires
        lines.len() > 0,
        lines.last().len() > 0,
        forall|k: int|
            0 <= k < lines.len() ==> !(#[trigger] lines[k]).contains('\n') && !lines[k].contains(
                '\r',
            ),
        is_plain_text(text::joined(lines, seq!['\n'])),
        redacted_lines(lines).len() <= 4_000,
        text::joined(lines, seq!['\n']).len() <= 4_000,
    ensures
        bin == "env"@ || bin == "printenv"@ ==> shown_output(
            bin,
            text::joined(lines, seq!['\n']),
            seq![],
        ) == text::rtrimmed(redacted_lines(lines)),
        bin != "env"@ && bin != "printenv"@ ==> shown_output(
            bin,
            text::joined(lines, seq!['\n']),
            seq![],
        ) == text::rtrimmed(text::joined(lines, seq!['\n'])),
{
    let whole = text::joined(lines, seq!['\n']);
    text::lemma_blank(Seq::<char>::empty());
    assert(combined(whole, seq![]) == whole);
    manpage::law_plain_text_stays(whole);
    text::law_join_and_read_lines(lines);
    text::lemma_rtrimmed(redacted_lines(lines));
    text::lemma_rtrimmed(whole);
}

proof fn lemma_run_letter(kind: Arguments, a: Seq<char>, c: char, b: Seq<char>)
    requires
        forall|k: int| 0 <= k < a.len() ==> !kind.takes_rest(#[trigger] a[k]),
    ensures
        kind.run_flags(a + seq![c] + b).contains(c),
    decreases a.len(),
{
    let run = a + seq![c] + b;
    let flags = kind.run_flags(run);
    if a.len() == 0 {
        assert(run[0] == c);
        assert(flags[0] == c);
    } else {
        let rest = a.drop_first();
        assert(run.drop_first() =~= rest + seq![c] + b);
        assert forall|k: int| 0 <= k < rest.len() implies !kind.takes_rest(#[trigger] rest[k]) by {
            assert(rest[k] == a[k + 1]);
        }
        lemma_run_letter(kind, rest, c, b);
        assert(!kind.takes_rest(a[0]));
        let more = kind.run_flags(rest + seq![c] + b);
        let i = more.index_of(c);
        assert(flags[i + 1] == c);
    }
}

/// A letter that stands for what is not permitted is found in a run of letters, behind others that
/// take no value: to follow a file, to write one, to set the clock, or to start a program.
pub proof fn law_letters_in_runs_are_refused(a: Seq<char>, c: char, b: Seq<char>)
    requires
        a.len() > 0 ==> a[0] != '-',
        c != '-',
        !a.contains('='),
        !b.contains('='),
        c != '=',
    ensures
        (c == 'f' || c == 'F') && !a.contains('c') && !a.contains('n') && !a.contains('s')
            ==> policy(seq!["tail"@, seq!['-'] + (a + seq![c] + b)]) is Err,
        c == 'o' || c == 'R' ==> policy(seq!["tree"@, seq!['-'] + (a + seq![c] + b)]) is Err,
        c == 'C' && !a.contains('e') && !a.contains('F') && !a.contains('f') && !a.contains('m')
            && !a.contains('P') ==> policy(seq!["file"@, seq!['-'] + (a + seq![c] + b)]) is Err,
        c == 's' && !a.contains('d') && !a.contains('f') && !a.contains('r') && !a.contains('v')
            && !a.contains('z') && !a.contains('I') && !a.contains('s') ==> policy(
            seq!["date"@, seq!['-'] + (a + seq![c] + b)],
        ) is Err,
{
    lemma_names();
    let run = a + seq![c] + b;
    let flag = seq!['-'] + run;
    assert(flag.skip(1) =~= run);
    assert(flag[1] != '-');
    assert forall|k: int| 0 <= k < a.len() implies a.contains(#[trigger] a[k]) by {}
    if (c == 'f' || c == 'F') && !a.contains('c') && !a.contains('n') && !a.contains('s') {
        lemma_run_letter(Arguments::TailRead, a, c, b);
        lemma_one_flag("tail"@, flag);
    }
    if c == 'o' || c == 'R' {
        lemma_run_letter(Arguments::TreeRead, a, c, b);
        lemma_one_flag("tree"@, flag);
    }
    if c == 'C' && !a.contains('e') && !a.contains('F') && !a.contains('f') && !a.contains('m')
        && !a.contains('P') {
        lemma_run_letter(Arguments::FileRead, a, c, b);
        lemma_one_flag("file"@, flag);
    }
    if c == 's' && !a.contains('d') && !a.contains('f') && !a.contains('r') && !a.contains('v')
        && !a.contains('z') && !a.contains('I') && !a.contains('s') {
        lemma_run_letter(Arguments::ClockFormat, a, c, b);
        lemma_one_flag("date"@, flag);
    }
}

proof fn lemma_one_flag(bin: Seq<char>, flag: Seq<char>)
    requires
        bin == "tail"@ || bin == "tree"@ || bin == "file"@ || bin == "date"@,
        is_flag(flag),
        allowlist(bin) matches Some(rule) && rule.subcommands == Subcommands::Any
            && rule.arguments !is Any && rule.arguments !is Each && !rule.arguments.permits_flag(
            flag,
        ),
    ensures
        policy(seq![bin, flag]) is Err,
{
    let args = seq![flag];
    assert(seq![bin, flag].skip(1) =~= args);
    let kind = allowlist(bin)->0.arguments;
    assert(kind.role(args, 0) == Role::Flag);
    assert(args[0] == flag);
    assert(!kind.accepts(args, 0));
    lemma_first_stray_is(kind, args, 0, 0);
}

/// The few places outside of the directory that tell of the system are in scope, unless they may
/// hold secrets; a file with the extension of a key or a certificate never is.
pub proof fn law_scope(p: Seq<char>, root: Seq<char>)
    ensures
        !is_secret(p) && path::path_within(p, root) ==> in_scope(p, root),
        !is_secret(p) && (path::path_within(p, "/proc"@) || path::path_within(p, "/sys/devices"@)
            || path::path_within(p, "/etc/os-release"@) || path::path_within(p, "/etc/hostname"@)
            || path::path_within(p, "/etc/shells"@) || path::path_within(p, "/usr/share"@)
            || path::path_within(p, "/usr/lib/os-release"@)) ==> in_scope(p, root),
        path::name_extension(p) matches Some(e) ==> (text::lowered(e) == "pem"@ || text::lowered(e)
            == "key"@ || text::lowered(e) == "p12"@ || text::lowered(e) == "pfx"@ || text::lowered(
            e,
        ) == "keystore"@ ==> !in_scope(p, root)),
{
}

/// A long output is cut to its start.
pub proof fn law_long_output(bin: Seq<char>, stdout: Seq<char>)
    requires
        bin != "env"@,
        bin != "printenv"@,
        is_plain_text(stdout),
    ensures
        shown_output(bin, stdout, seq![]) == manpage::truncated(text::rtrimmed(stdout), 4_000),
{
    text::lemma_blank(Seq::<char>::empty());
    assert(combined(stdout, seq![]) == stdout);
    manpage::law_plain_text_stays(stdout);
}

/// A long flag that is not permitted is refused under each of its abbreviations, with a value
/// behind it or not.
pub proof fn law_abbreviations_are_refused(flag: Seq<char>, value: Seq<char>)
    requires
        !flag.contains('='),
    ensures
        "--f"@.is_prefix_of(flag) && flag.is_prefix_of("--follow"@) ==> policy(
            seq!["tail"@, flag],
        ) is Err && policy(seq!["tail"@, flag + seq!['='] + value]) is Err,
        "--s"@.is_prefix_of(flag) && flag.is_prefix_of("--set"@) ==> policy(
            seq!["date"@, flag],
        ) is Err && policy(seq!["date"@, flag + seq!['='] + value]) is Err,
        "--co"@.is_prefix_of(flag) && flag.is_prefix_of("--compile"@) ==> policy(
            seq!["file"@, flag],
        ) is Err && policy(seq!["file"@, flag + seq!['='] + value]) is Err,
{
    lemma_names();
    reveal_strlit("--f");
    reveal_strlit("--s");
    reveal_strlit("--co");
    text::law_before(flag, '=', value);
    let longer = flag + seq!['='] + value;
    if "--f"@.is_prefix_of(flag) && flag.is_prefix_of("--follow"@) {
        assert(flag[0] == "--f"@[0]);
        assert(longer[0] == flag[0]);
        lemma_one_flag("tail"@, flag);
        lemma_one_flag("tail"@, longer);
    }
    if "--s"@.is_prefix_of(flag) && flag.is_prefix_of("--set"@) {
        assert(flag[0] == "--s"@[0]);
        assert(longer[0] == flag[0]);
        lemma_one_flag("date"@, flag);
        lemma_one_flag("date"@, longer);
    }
    if "--co"@.is_prefix_of(flag) && flag.is_prefix_of("--compile"@) {
        assert(flag[0] == "--co"@[0]);
        assert(longer[0] == flag[0]);
        lemma_one_flag("file"@, flag);
        lemma_one_flag("file"@, longer);
    }
}

/// A flag that takes a value takes the next word, and the words behind it are files again.
pub proof fn law_values_are_taken(value: Seq<char>, files: Seq<Seq<char>>)
    requires
        forall|k: int| 0 <= k < files.len() ==> is_bare_word(#[trigger] files[k]),
        is_bare_word(value),
    ensures
        policy(seq!["tail"@, "-n"@, value] + files) is Ok,
        policy(seq!["tail"@, "-c"@, value] + files) is Ok,
{
    lemma_tail_value("-n"@, 'n', value, files);
    lemma_tail_value("-c"@, 'c', value, files);
}

proof fn lemma_tail_value(flag: Seq<char>, c: char, value: Seq<char>, files: Seq<Seq<char>>)
    requires
        forall|k: int| 0 <= k < files.len() ==> is_bare_word(#[trigger] files[k]),
        is_bare_word(value),
        c == 'n' && flag == "-n"@ || c == 'c' && flag == "-c"@,
    ensures
        policy(seq!["tail"@, flag, value] + files) is Ok,
{
    lemma_names();
    reveal_strlit("-n");
    reveal_strlit("-c");
    reveal_strlit("-f");
    reveal_strlit("--follow");
    reveal_strlit("--f");
    reveal_strlit("--");
    assert(flag.len() == 2 && flag[0] == '-' && flag[1] == c);
    assert("-f"@[1] == 'f' && "--follow"@.len() == 8);
    let kind = Arguments::TailRead;
    let args = seq![flag, value] + files;
    let tokens = seq!["tail"@, flag, value] + files;
    assert(tokens.skip(1) =~= args);
    lemma_no_slash("tail"@);
    assert(!flag.contains('='));
    lemma_before_whole(flag);
    let rest = seq![value] + files;
    assert forall|k: int| 0 <= k < rest.len() implies is_bare_word(#[trigger] rest[k]) by {
        if k > 0 {
            assert(rest[k] == files[k - 1]);
        }
    }
    lemma_words_are_not_denied(rest, DeniedFlags::Follow);
    assert(args.drop_first() =~= rest);
    assert(first_denied(args, DeniedFlags::Follow) is None);
    assert(flag.skip(1) =~= seq![c]);
    assert(kind.letters(flag) =~= seq![c]) by {
        assert(kind.takes_rest(c));
        assert(kind.run_flags(seq![c]) == seq![c]);
    }
    assert(kind.awaits(flag)) by {
        assert(kind.letters(flag).last() == c);
    }
    assert(!abbreviates(flag, "--f"@, "--follow"@));
    assert(kind.permits_flag(flag));
    lemma_after_value(kind, args, args.len() as int, flag);
    lemma_all_accepted(kind, args, 0);
}

proof fn lemma_after_value(kind: Arguments, args: Seq<Seq<char>>, n: int, flag: Seq<char>)
    requires
        kind == Arguments::TailRead,
        2 <= n <= args.len(),
        args[0] == flag,
        is_flag(flag),
        flag != "--"@,
        kind.awaits(flag),
        kind.permits_flag(flag),
        forall|k: int| 1 <= k < args.len() ==> is_bare_word(#[trigger] args[k]),
    ensures
        forall|i: int| 0 <= i < n ==> #[trigger] kind.accepts(args, i),
        kind.reading(args, n) == (Reading { ended: false, awaiting: false }),
    decreases n,
{
    assert(kind.reading(args, 0) == (Reading { ended: false, awaiting: false }));
    assert(kind.reading(args, 1) == kind.step(kind.reading(args, 0), args[0]));
    assert(kind.reading(args, 2) == kind.step(kind.reading(args, 1), args[1]));
    if n > 2 {
        lemma_after_value(kind, args, n - 1, flag);
        assert(is_bare_word(args[n - 1]));
    }
    assert(kind.accepts(args, 0));
    assert(kind.accepts(args, 1));
}

proof fn lemma_all_accepted(kind: Arguments, args: Seq<Seq<char>>, i: int)
    requires
        0 <= i <= args.len(),
        forall|k: int| 0 <= k < args.len() ==> #[trigger] kind.accepts(args, k),
    ensures
        first_stray(kind, args, i) is None,
    decreases args.len() - i,
{
    if i < args.len() {
        assert(kind.accepts(args, i));
        lemma_all_accepted(kind, args, i + 1);
    }
}

/// A name that begins with the same four letters as the missing one is near to it.
pub proof fn law_same_beginning_is_near(needle: Seq<char>, name: Seq<char>)
    requires
        vstd::utf8::is_ascii_chars(needle),
        vstd::utf8::is_ascii_chars(text::lowered(name)),
        needle.len() >= 4,
        name.len() >= 4,
        needle.take(4) == text::lowered(name).take(4),
    ensures
        is_near(needle, name),
{
    let c = text::lowered(name);
    lemma_ascii_start(needle);
    lemma_ascii_start(c);
    let x = vstd::utf8::encode_utf8(needle);
    let y = vstd::utf8::encode_utf8(c);
    assert(x.take(4) =~= y.take(4)) by {
        assert forall|i: int| 0 <= i < 4 implies x[i] == y[i] by {
            assert(needle.take(4)[i] == c.take(4)[i]);
            assert(needle[i] as u8 == x[i]);
            assert(c[i] as u8 == y[i]);
        }
    }
}

proof fn lemma_ascii_start(s: Seq<char>)
    requires
        vstd::utf8::is_ascii_chars(s),
        s.len() >= 4,
    ensures
        vstd::utf8::encode_utf8(s).len() == s.len(),
        forall|i: int|
            #![trigger s[i]]
            0 <= i < s.len() ==> s[i] as u8 == vstd::utf8::encode_utf8(s)[i],
        vstd::utf8::is_char_boundary(vstd::utf8::encode_utf8(s), 4),
{
    let x = vstd::utf8::encode_utf8(s);
    vstd::utf8::is_ascii_chars_encode_utf8(s);
    vstd::utf8::encode_utf8_valid_utf8(s);
    if s.len() == 4 {
        vstd::utf8::is_char_boundary_start_end_of_seq(x);
    } else {
        vstd::utf8::is_char_boundary_iff_not_is_continuation_byte(x, 4);
        assert(s[4] as u8 == x[4]);
        assert(!vstd::utf8::is_continuation_byte(x[4]));
    }
}

/// A command that was ended by a signal has no exit code, and is reported with minus one.
pub proof fn law_no_exit_code(
    tokens: Seq<Seq<char>>,
    stdout: Seq<char>,
    stderr: Seq<char>,
    hint: Seq<char>,
)
    ensures
        report(tokens, None, stdout, stderr, hint) == report(
            tokens,
            Some(-1i32),
            stdout,
            stderr,
            hint,
        ),
        ("$ "@ + text::joined(tokens, " "@)).is_prefix_of(
            report(tokens, None, stdout, stderr, hint),
        ),
        hint.is_suffix_of(report(tokens, None, stdout, stderr, hint)),
{
    let r = report(tokens, None, stdout, stderr, hint);
    let head = "$ "@ + text::joined(tokens, " "@);
    assert(r.take(head.len() as int) =~= head);
    assert(r.subrange(r.len() - hint.len(), r.len() as int) =~= hint);
}

} // verus!
