//! Persistent user preferences stored in `~/.ai-cli-learning/settings.json`.
//!
//! Preferences (model selection, experience level) are kept independently from
//! the terminal configuration. The text of the file is handed in and out; what is
//! in it is decided here.
use vstd::prelude::*;
use vstd::string::*;

use crate::json;
use crate::json::JsonView;
use crate::path;
use crate::text;

verus! {

broadcast use vstd::string::group_string_axioms;

/// Directory holding Learnminal preferences under the user's home.
pub const SETTINGS_DIR_NAME: &'static str = ".ai-cli-learning";

/// File holding the preferences in that directory.
pub const SETTINGS_FILE_NAME: &'static str = "settings.json";

/// User experience with the terminal and overall technical knowledge.
#[derive(Debug, Clone, Copy, PartialEq, Eq, Structural)]
pub enum ExperienceLevel {
    Beginner,
    Novice,
    Professional,
    Expert,
}

impl Default for ExperienceLevel {
    fn default() -> (r: Self)
        ensures
            r == ExperienceLevel::Beginner,
    {
        ExperienceLevel::Beginner
    }
}

impl ExperienceLevel {
    /// Canonical lowercase name used for persistence and slash commands.
    pub open spec fn name(self) -> Seq<char> {
        match self {
            ExperienceLevel::Beginner => "beginner"@,
            ExperienceLevel::Novice => "novice"@,
            ExperienceLevel::Professional => "professional"@,
            ExperienceLevel::Expert => "expert"@,
        }
    }

    /// Human-readable title for overlay display.
    pub open spec fn title(self) -> Seq<char> {
        match self {
            ExperienceLevel::Beginner => "Beginner"@,
            ExperienceLevel::Novice => "Novice"@,
            ExperienceLevel::Professional => "Professional"@,
            ExperienceLevel::Expert => "Expert"@,
        }
    }

    /// The level with this name, whatever the case of its letters and the white space around.
    pub open spec fn named(s: Seq<char>) -> Option<ExperienceLevel> {
        let name = text::lowered(text::trimmed(s));
        if name == "beginner"@ {
            Some(ExperienceLevel::Beginner)
        } else if name == "novice"@ {
            Some(ExperienceLevel::Novice)
        } else if name == "professional"@ {
            Some(ExperienceLevel::Professional)
        } else if name == "expert"@ {
            Some(ExperienceLevel::Expert)
        } else {
            None
        }
    }

    /// All tiers in display order.
    pub open spec fn in_order() -> Seq<ExperienceLevel> {
        seq![
            ExperienceLevel::Beginner,
            ExperienceLevel::Novice,
            ExperienceLevel::Professional,
            ExperienceLevel::Expert,
        ]
    }

    /// Who the tier is for.
    pub open spec fn audience(self) -> Seq<char> {
        match self {
            ExperienceLevel::Beginner => "new to the terminal; explain basics step by step"@,
            ExperienceLevel::Novice => "some shell experience; explain non-obvious details"@,
            ExperienceLevel::Professional => "comfortable daily CLI user; stay concise"@,
            ExperienceLevel::Expert => "deep terminal knowledge; terse and high-signal"@,
        }
    }

    /// All tiers in display order.
    pub fn all() -> (r: Vec<ExperienceLevel>)
        ensures
            r@ == ExperienceLevel::in_order(),
    {
        let mut out: Vec<ExperienceLevel> = Vec::new();
        out.push(ExperienceLevel::Beginner);
        out.push(ExperienceLevel::Novice);
        out.push(ExperienceLevel::Professional);
        out.push(ExperienceLevel::Expert);
        out
    }

    /// Canonical lowercase name used for persistence and slash commands.
    pub fn as_str(self) -> (r: &'static str)
        ensures
            r@ == self.name(),
    {
        match self {
            ExperienceLevel::Beginner => "beginner",
            ExperienceLevel::Novice => "novice",
            ExperienceLevel::Professional => "professional",
            ExperienceLevel::Expert => "expert",
        }
    }

    /// Human-readable title for overlay display.
    pub fn label(self) -> (r: &'static str)
        ensures
            r@ == self.title(),
    {
        match self {
            ExperienceLevel::Beginner => "Beginner",
            ExperienceLevel::Novice => "Novice",
            ExperienceLevel::Professional => "Professional",
            ExperienceLevel::Expert => "Expert",
        }
    }

    /// Short description of who this tier is for.
    pub fn description(self) -> (r: &'static str)
        ensures
            r@ == self.audience(),
    {
        match self {
            ExperienceLevel::Beginner => "new to the terminal; explain basics step by step",
            ExperienceLevel::Novice => "some shell experience; explain non-obvious details",
            ExperienceLevel::Professional => "comfortable daily CLI user; stay concise",
            ExperienceLevel::Expert => "deep terminal knowledge; terse and high-signal",
        }
    }

    /// The level with this name.
    pub fn parse_name(s: &str) -> (r: Option<ExperienceLevel>)
        ensures
            r == ExperienceLevel::named(s@),
    {
        let lowered = text::to_ascii_lowercase(text::trim(s));
        let name = lowered.as_str();
        if text::same(name, "beginner") {
            Some(ExperienceLevel::Beginner)
        } else if text::same(name, "novice") {
            Some(ExperienceLevel::Novice)
        } else if text::same(name, "professional") {
            Some(ExperienceLevel::Professional)
        } else if text::same(name, "expert") {
            Some(ExperienceLevel::Expert)
        } else {
            None
        }
    }
}

impl std::str::FromStr for ExperienceLevel {
    type Err = ();

    fn from_str(s: &str) -> (r: Result<Self, ()>)
        ensures
            match r {
                Ok(level) => ExperienceLevel::named(s@) == Some(level),
                Err(_) => ExperienceLevel::named(s@) is None,
            },
    {
        match ExperienceLevel::parse_name(s) {
            Some(level) => Ok(level),
            None => Err(()),
        }
    }
}

/// A level is found again by its name.
pub proof fn law_level_names(level: ExperienceLevel)
    ensures
        ExperienceLevel::named(level.name()) == Some(level),
{
    reveal_strlit("beginner");
    reveal_strlit("novice");
    reveal_strlit("professional");
    reveal_strlit("expert");
    let s = level.name();
    assert(forall|i: int| 0 <= i < s.len() ==> text::is_lower(#[trigger] s[i]));
    text::lemma_trimmed_same(s);
    assert(text::lowered(s) =~= s);
    if level == ExperienceLevel::Expert {
        assert("expert"@[0] != "novice"@[0]);
    }
}

// ── Where settings are ───────────────────────────────────────────────────────

/// `~/.ai-cli-learning`, or `None` when the home directory is not known.
pub fn state_dir(home: Option<&str>) -> (r: Option<String>)
    ensures
        match r {
            Some(dir) => home is Some && dir@ == path::joined_path(home->0@, SETTINGS_DIR_NAME@),
            None => home is None,
        },
{
    match home {
        Some(home) => Some(path::join(home, SETTINGS_DIR_NAME)),
        None => None,
    }
}

/// The settings file under `dir`.
pub fn settings_path(dir: &str) -> (r: String)
    ensures
        r@ == path::joined_path(dir@, SETTINGS_FILE_NAME@),
{
    path::join(dir, SETTINGS_FILE_NAME)
}

// ── What is in them ──────────────────────────────────────────────────────────

/// The setting under `key`, trimmed, where it is a string that is not blank.
pub open spec fn setting(v: Option<JsonView>, key: Seq<char>) -> Option<Seq<char>> {
    match v {
        None => None,
        Some(v) => match v.text_at(key) {
            None => None,
            Some(t) => if text::trimmed(t).len() == 0 {
                None
            } else {
                Some(text::trimmed(t))
            },
        },
    }
}

/// The preferred model in settings.
pub open spec fn model_in(v: Option<JsonView>) -> Option<Seq<char>> {
    setting(v, "ollama_model"@)
}

/// The experience level in settings.
pub open spec fn level_in(v: Option<JsonView>) -> Option<ExperienceLevel> {
    match setting(v, "experience_level"@) {
        Some(name) => ExperienceLevel::named(name),
        None => None,
    }
}

/// The setting under `key` in settings that were read.
pub fn setting_of(settings: Option<&json::Json>, key: &str) -> (r: Option<String>)
    ensures
        ({
            let v = match settings {
                Some(j) => Some(j@),
                None => None,
            };
            match r {
                Some(t) => setting(v, key@) == Some(t@),
                None => setting(v, key@) is None,
            }
        }),
{
    let v = match settings {
        Some(j) => j,
        None => {
            return None;
        },
    };
    let found = match v.get(key) {
        Some(found) => found,
        None => {
            return None;
        },
    };
    match found.as_str() {
        None => None,
        Some(t) => {
            let t = text::trim(t);
            if t.is_empty() {
                None
            } else {
                Some(t.to_owned())
            }
        },
    }
}

fn read_setting(file: Option<&str>, key: &str) -> (r: Option<String>)
    ensures
        match r {
            Some(t) => setting(json::parsed_opt(text::opt_text(file)), key@) == Some(t@),
            None => setting(json::parsed_opt(text::opt_text(file)), key@) is None,
        },
{
    match file {
        None => None,
        Some(s) => match json::parse(s) {
            None => None,
            Some(v) => setting_of(Some(&v), key),
        },
    }
}

/// Preferred Ollama model from the settings file, if any.
pub fn get_preferred_model(file: Option<&str>) -> (r: Option<String>)
    ensures
        match r {
            Some(m) => model_in(json::parsed_opt(text::opt_text(file))) == Some(m@),
            None => model_in(json::parsed_opt(text::opt_text(file))) is None,
        },
{
    read_setting(file, "ollama_model")
}

/// Experience level from the settings file, if one is there.
pub fn read_experience_level(file: Option<&str>) -> (r: Option<ExperienceLevel>)
    ensures
        r == level_in(json::parsed_opt(text::opt_text(file))),
{
    match read_setting(file, "experience_level") {
        Some(name) => ExperienceLevel::parse_name(name.as_str()),
        None => None,
    }
}

/// Experience level from the settings file, defaulting to [`ExperienceLevel::Beginner`].
pub fn get_experience_level(file: Option<&str>) -> (r: ExperienceLevel)
    ensures
        r == match level_in(json::parsed_opt(text::opt_text(file))) {
            Some(level) => level,
            None => ExperienceLevel::Beginner,
        },
{
    match read_experience_level(file) {
        Some(level) => level,
        None => ExperienceLevel::Beginner,
    }
}

/// The settings file with the preferred model set.
///
/// What is written reads back: the model unless it is blank, the experience level as it was,
/// and the strings under all other keys as they were.
pub fn set_preferred_model(file: Option<&str>, model: &str) -> (r: String)
    ensures
        r@ == json::with_text(text::opt_text(file), "ollama_model"@, text::trimmed(model@)),
        model_in(json::parsed_json(r@)) == if text::trimmed(model@).len() > 0 {
            Some(text::trimmed(model@))
        } else {
            None
        },
        level_in(json::parsed_json(r@)) == level_in(json::parsed_opt(text::opt_text(file))),
        forall|k: Seq<char>|
            k != "ollama_model"@ ==> #[trigger] setting(json::parsed_json(r@), k) == setting(
                json::parsed_opt(text::opt_text(file)),
                k,
            ),
{
    proof {
        text::lemma_trimmed(model@);
        reveal_strlit("ollama_model");
        reveal_strlit("experience_level");
        assert("ollama_model"@.len() != "experience_level"@.len());
    }
    let r = json::set_text(file, "ollama_model", text::trim(model));
    proof {
        lemma_kept(text::opt_text(file), r@, "ollama_model"@);
    }
    r
}

/// The settings file with the experience level set.
///
/// What is written reads back: the level, the preferred model as it was, and the strings under
/// all other keys as they were.
pub fn set_experience_level(file: Option<&str>, level: ExperienceLevel) -> (r: String)
    ensures
        r@ == json::with_text(text::opt_text(file), "experience_level"@, level.name()),
        level_in(json::parsed_json(r@)) == Some(level),
        model_in(json::parsed_json(r@)) == model_in(json::parsed_opt(text::opt_text(file))),
        forall|k: Seq<char>|
            k != "experience_level"@ ==> #[trigger] setting(json::parsed_json(r@), k) == setting(
                json::parsed_opt(text::opt_text(file)),
                k,
            ),
{
    proof {
        law_level_names(level);
        reveal_strlit("ollama_model");
        reveal_strlit("experience_level");
        assert("ollama_model"@.len() != "experience_level"@.len());
    }
    let r = json::set_text(file, "experience_level", level.as_str());
    proof {
        lemma_kept(text::opt_text(file), r@, "experience_level"@);
        lemma_level_name(level);
    }
    r
}

proof fn lemma_kept(old: Option<Seq<char>>, new: Seq<char>, key: Seq<char>)
    requires
        json::parsed_json(new) is Some,
        forall|k: Seq<char>|
            k != key ==> #[trigger] json::parsed_json(new)->0.text_at(k) == JsonView::Object(
                json::old_members(json::parsed_opt(old)),
            ).text_at(k),
    ensures
        forall|k: Seq<char>|
            k != key ==> #[trigger] setting(json::parsed_json(new), k) == setting(
                json::parsed_opt(old),
                k,
            ),
{
    assert forall|k: Seq<char>| k != key implies #[trigger] setting(json::parsed_json(new), k)
        == setting(json::parsed_opt(old), k) by {
        let kept = JsonView::Object(json::old_members(json::parsed_opt(old)));
        assert(json::parsed_json(new)->0.text_at(k) == kept.text_at(k));
    }
}

proof fn lemma_level_name(level: ExperienceLevel)
    ensures
        level.name().len() > 0,
        text::trimmed(level.name()) == level.name(),
{
    reveal_strlit("beginner");
    reveal_strlit("novice");
    reveal_strlit("professional");
    reveal_strlit("expert");
    text::lemma_trimmed_same(level.name());
}

/// A setting is the text that stands beside its key, without the white space around it; a blank
/// one, one that is no text and one of another key are none.
pub proof fn law_setting(
    members: Seq<(Seq<char>, JsonView)>,
    i: int,
    before: Seq<char>,
    value: Seq<char>,
    after: Seq<char>,
)
    requires
        0 <= i < members.len(),
        forall|k: int| 0 <= k < i ==> (#[trigger] members[k]).0 != members[i].0,
        value.len() > 0,
        text::is_tight(value),
        forall|k: int| 0 <= k < before.len() ==> text::is_white(#[trigger] before[k]),
        forall|k: int| 0 <= k < after.len() ==> text::is_white(#[trigger] after[k]),
    ensures
        ({
            let settings = Some(JsonView::Object(members));
            let key = members[i].0;
            &&& members[i].1 == JsonView::Text(before + value + after) ==> setting(settings, key)
                == Some(value)
            &&& members[i].1 == JsonView::Text(before) ==> setting(settings, key) is None
            &&& members[i].1 !is Text ==> setting(settings, key) is None
            &&& key == "ollama_model"@ && members[i].1 == JsonView::Text(before + value + after)
                ==> model_in(settings) == Some(value)
            &&& key == "experience_level"@ && members[i].1 == JsonView::Text(before) ==> level_in(
                settings,
            ) is None
            &&& key == "experience_level"@ && members[i].1 == JsonView::Text(
                before + value + after,
            ) ==> level_in(settings) == ExperienceLevel::named(value)
        }),
        setting(None, value) is None,
{
    json::lemma_lookup(members, i);
    text::law_trimmed_core(before, value, after);
    text::lemma_blank(before);
}

/// A level is known by its name in whatever case, with white space around it or not; its label is
/// its name. All levels are listed once.
pub proof fn law_levels(level: ExperienceLevel, name: Seq<char>)
    requires
        name.len() > 0,
        text::is_tight(name),
        text::lowered(name) == level.name(),
    ensures
        ExperienceLevel::named(name) == Some(level),
        text::lowered(level.title()) == level.name(),
        ExperienceLevel::in_order().contains(level),
        ExperienceLevel::in_order().no_duplicates(),
{
    text::lemma_trimmed_same(name);
    law_level_names(level);
    text::lemma_trimmed_same(level.name());
    reveal_strlit("beginner");
    reveal_strlit("novice");
    reveal_strlit("professional");
    reveal_strlit("expert");
    reveal_strlit("Beginner");
    reveal_strlit("Novice");
    reveal_strlit("Professional");
    reveal_strlit("Expert");
    assert("beginner"@.len() == 8 && "novice"@.len() == 6 && "professional"@.len() == 12
        && "expert"@.len() == 6);
    assert("novice"@[0] == 'n' && "expert"@[0] == 'e');
    assert(text::lowered("Beginner"@) =~= "beginner"@);
    assert(text::lowered("Novice"@) =~= "novice"@);
    assert(text::lowered("Professional"@) =~= "professional"@);
    assert(text::lowered("Expert"@) =~= "expert"@);
    let all = ExperienceLevel::in_order();
    assert(all[0] is Beginner && all[1] is Novice && all[2] is Professional && all[3] is Expert);
    assert(all.contains(all[0]) && all.contains(all[1]) && all.contains(all[2]) && all.contains(
        all[3],
    ));
}

} // verus!
