//! Journal of past chat interactions keyed by program.
//!
//! The notes are kept in a database; what goes into a row, what a row means and
//! how rows are asked for is decided here.
use vstd::prelude::*;
use vstd::string::*;

use crate::path;
use crate::settings::SETTINGS_DIR_NAME;
use crate::text;

verus! {

broadcast use vstd::string::group_string_axioms;

/// File holding the journal in the state directory.
pub const DB_FILE_NAME: &'static str = "journal.db";

/// Key of notes that belong to no program.
pub const GENERAL_PROGRAM: &'static str = "_general";

#[derive(Debug, Clone, PartialEq, Eq)]
pub struct JournalNote {
    pub id: i64,
    pub program: String,
    pub question: String,
    pub reply: String,
    pub last_command: String,
    pub reference_source: String,
    /// `Some(true)` all flags matched, `Some(false)` had unverified flags, `None` skipped.
    pub verified: Option<bool>,
    pub created_at: i64,
}

/// What a [`JournalNote`] says.
pub ghost struct NoteView {
    pub id: i64,
    pub program: Seq<char>,
    pub question: Seq<char>,
    pub reply: Seq<char>,
    pub last_command: Seq<char>,
    pub reference_source: Seq<char>,
    pub verified: Option<bool>,
    pub created_at: i64,
}

impl View for JournalNote {
    type V = NoteView;

    open spec fn view(&self) -> NoteView {
        NoteView {
            id: self.id,
            program: self.program@,
            question: self.question@,
            reply: self.reply@,
            last_command: self.last_command@,
            reference_source: self.reference_source@,
            verified: self.verified,
            created_at: self.created_at,
        }
    }
}

/// What each of the notes says.
pub open spec fn note_views(notes: Seq<JournalNote>) -> Seq<NoteView> {
    Seq::new(notes.len(), |i: int| notes[i]@)
}

#[derive(Debug, Clone, PartialEq, Eq)]
pub struct ProgramSummary {
    pub program: String,
    pub note_count: i64,
}

/// The columns of a note as they are stored.
#[derive(Debug, Clone, PartialEq, Eq)]
pub struct NoteRow {
    pub program: String,
    pub question: String,
    pub reply: String,
    pub last_command: Option<String>,
    pub reference_source: Option<String>,
    /// 1 for verified, 0 for not verified, nothing where the check was skipped.
    pub verified: Option<i64>,
}

/// What a [`NoteRow`] says.
pub ghost struct RowView {
    pub program: Seq<char>,
    pub question: Seq<char>,
    pub reply: Seq<char>,
    pub last_command: Option<Seq<char>>,
    pub reference_source: Option<Seq<char>>,
    pub verified: Option<i64>,
}

impl View for NoteRow {
    type V = RowView;

    open spec fn view(&self) -> RowView {
        RowView {
            program: self.program@,
            question: self.question@,
            reply: self.reply@,
            last_command: text::opt_string(self.last_command),
            reference_source: text::opt_string(self.reference_source),
            verified: self.verified,
        }
    }
}

/// The database file under the home directory.
pub fn default_db_path(home: Option<&str>) -> (r: Option<String>)
    ensures
        match r {
            Some(p) => home is Some && p@ == path::joined_path(
                path::joined_path(home->0@, SETTINGS_DIR_NAME@),
                DB_FILE_NAME@,
            ),
            None => home is None,
        },
{
    match home {
        Some(home) => {
            let dir = path::join(home, SETTINGS_DIR_NAME);
            Some(path::join(dir.as_str(), DB_FILE_NAME))
        },
        None => None,
    }
}

/// The key under which notes on a program are kept.
pub open spec fn program_key(program: Seq<char>) -> Seq<char> {
    let name = text::trimmed(program);
    if name.len() == 0 {
        GENERAL_PROGRAM@
    } else {
        match path::last_name(name) {
            Some(last) => last,
            None => name,
        }
    }
}

/// Normalize a program key for storage/lookup.
pub fn normalize_program(program: &str) -> (r: String)
    ensures
        r@ == program_key(program@),
{
    let name = text::trim(program);
    if name.is_empty() {
        GENERAL_PROGRAM.to_owned()
    } else {
        // Strip path components: `/usr/bin/git` → `git`
        match path::file_name(name) {
            Some(last) => last,
            None => name.to_owned(),
        }
    }
}

/// How the status of a check is stored.
pub open spec fn stored_status(verified: Option<bool>) -> Option<i64> {
    match verified {
        Some(true) => Some(1i64),
        Some(false) => Some(0i64),
        None => None,
    }
}

/// How a stored status is read.
pub open spec fn read_status(stored: Option<i64>) -> Option<bool> {
    match stored {
        Some(v) => Some(v != 0),
        None => None,
    }
}

/// The row for a note, or nothing where its question or its reply is blank.
pub open spec fn row_for(
    program: Seq<char>,
    question: Seq<char>,
    reply: Seq<char>,
    last_command: Seq<char>,
    reference_source: Seq<char>,
    verified: Option<bool>,
) -> Option<RowView> {
    if text::trimmed(question).len() == 0 || text::trimmed(reply).len() == 0 {
        None
    } else {
        Some(
            RowView {
                program: program_key(program),
                question: text::trimmed(question),
                reply: text::trimmed(reply),
                last_command: Some(last_command),
                reference_source: Some(reference_source),
                verified: stored_status(verified),
            },
        )
    }
}

/// The row to insert for a note, or nothing where there is nothing to keep.
pub fn prepare_note(
    program: &str,
    question: &str,
    reply: &str,
    last_command: &str,
    reference_source: &str,
    verified: Option<bool>,
) -> (r: Option<NoteRow>)
    ensures
        ({
            let want = row_for(
                program@,
                question@,
                reply@,
                last_command@,
                reference_source@,
                verified,
            );
            match r {
                Some(row) => want == Some(row@),
                None => want is None,
            }
        }),
{
    let program = normalize_program(program);
    let question = text::trim(question);
    let reply = text::trim(reply);
    if question.is_empty() || reply.is_empty() {
        return None;
    }
    let stored: Option<i64> = match verified {
        Some(v) => {
            if v {
                Some(1i64)
            } else {
                Some(0i64)
            }
        },
        None => None,
    };
    Some(
        NoteRow {
            program,
            question: question.to_owned(),
            reply: reply.to_owned(),
            last_command: Some(last_command.to_owned()),
            reference_source: Some(reference_source.to_owned()),
            verified: stored,
        },
    )
}

/// The note that a row holds.
pub open spec fn note_in(id: i64, row: RowView, created_at: i64) -> NoteView {
    NoteView {
        id,
        program: row.program,
        question: row.question,
        reply: row.reply,
        last_command: match row.last_command {
            Some(c) => c,
            None => seq![],
        },
        reference_source: match row.reference_source {
            Some(s) => s,
            None => "none"@,
        },
        verified: read_status(row.verified),
        created_at,
    }
}

/// The note that a row holds.
pub fn row_to_note(id: i64, row: NoteRow, created_at: i64) -> (r: JournalNote)
    ensures
        r@ == note_in(id, row@, created_at),
{
    let last_command = match row.last_command {
        Some(c) => c,
        None => String::new(),
    };
    let reference_source = match row.reference_source {
        Some(s) => s,
        None => "none".to_owned(),
    };
    let verified = match row.verified {
        Some(v) => Some(v != 0),
        None => None,
    };
    JournalNote {
        id,
        program: row.program,
        question: row.question,
        reply: row.reply,
        last_command,
        reference_source,
        verified,
        created_at,
    }
}

/// A note that is kept comes back as it was given, but for white space around its question and
/// its reply, under the key of its program.
pub proof fn law_note_round_trip(
    program: Seq<char>,
    question: Seq<char>,
    reply: Seq<char>,
    last_command: Seq<char>,
    reference_source: Seq<char>,
    verified: Option<bool>,
    id: i64,
    created_at: i64,
)
    requires
        text::trimmed(question).len() > 0,
        text::trimmed(reply).len() > 0,
    ensures
        row_for(program, question, reply, last_command, reference_source, verified) matches Some(
            row,
        ) && note_in(id, row, created_at) == (NoteView {
            id,
            program: program_key(program),
            question: text::trimmed(question),
            reply: text::trimmed(reply),
            last_command,
            reference_source,
            verified,
            created_at,
        }),
{
}

/// How many rows a query asks for: at least one.
pub fn row_limit(limit: usize) -> (r: i64)
    ensures
        r == (if limit == 0 {
            1usize
        } else {
            limit
        }) as i64,
{
    let n: usize = if limit == 0 {
        1
    } else {
        limit
    };
    n as i64
}

/// The pattern that matches text with `query` in it.
pub fn search_pattern(query: &str) -> (r: String)
    ensures
        r@ == "%"@ + text::trimmed(query@) + "%"@,
{
    text::concat3("%", text::trim(query), "%")
}

/// Notes are kept under the name of the program, without the path to it; notes on no program are
/// kept together.
pub proof fn law_program_key(dirs: Seq<Seq<char>>, name: Seq<char>, blank: Seq<char>)
    requires
        name.len() > 0,
        text::is_tight(name),
        !name.contains('/'),
        path::is_normal(name),
        forall|k: int|
            0 <= k < dirs.len() ==> (#[trigger] dirs[k]).len() > 0 && !dirs[k].contains('/')
                && dirs[k] != "."@,
        text::trimmed(blank).len() == 0,
    ensures
        program_key(seq!['/'] + text::joined(dirs.push(name), seq!['/'])) == name,
        program_key(name) == name,
        program_key(blank) == "_general"@,
{
    let names = dirs.push(name);
    assert forall|k: int| 0 <= k < names.len() implies (#[trigger] names[k]).len() > 0
        && !names[k].contains('/') && names[k] != "."@ by {
        if k < dirs.len() {
            assert(names[k] == dirs[k]);
        }
    }
    path::law_components(names);
    let p = seq!['/'] + text::joined(names, seq!['/']);
    assert(names.drop_last() =~= dirs);
    assert(p.last() == name.last()) by {
        if dirs.len() == 0 {
            assert(text::joined(names, seq!['/']) == name);
        }
    }
    text::lemma_trimmed_same(p);
    text::lemma_trimmed_same(name);
    assert forall|k: int| 0 <= k < seq![name].len() implies !(#[trigger] seq![name][k]).contains(
        '/',
    ) by {}
    text::law_join_and_split(seq![name], '/');
    assert(text::joined(seq![name], seq!['/']) == name);
    path::lemma_named(seq![name]);
    let list = path::component_list(name);
    assert(list.last() == name) by {
        if name[0] == '/' {
            assert(name.contains(name[0]));
        }
        assert(text::piece_list(name, '/') =~= seq![name]);
        assert(list =~= seq![name]);
    }
}

} // verus!
