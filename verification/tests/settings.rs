use learnminal::json::{parse, Json};
use learnminal::settings::{
    get_experience_level, get_preferred_model, read_experience_level, set_experience_level,
    set_preferred_model, settings_path, setting_of, state_dir, ExperienceLevel,
    SETTINGS_FILE_NAME,
};

fn text_at(file: &str, key: &str) -> Option<String> {
    let value = parse(file).unwrap();
    value.get(key).and_then(Json::as_str).map(str::to_owned)
}

#[test]
fn missing_settings_file_yields_none() {
    assert!(get_preferred_model(None).is_none());
}

#[test]
fn round_trips_preferred_model() {
    let file = set_preferred_model(None, "gemma4:e4b-mlx");
    assert_eq!(get_preferred_model(Some(&file)).as_deref(), Some("gemma4:e4b-mlx"));
}

#[test]
fn overwrite_preserves_other_keys() {
    let file = set_preferred_model(Some(r#"{"other":"keep","ollama_model":"old"}"#), "new-model");
    assert_eq!(text_at(&file, "other").as_deref(), Some("keep"));
    assert_eq!(text_at(&file, "ollama_model").as_deref(), Some("new-model"));
    assert!(file.ends_with("}\n"));
}

#[test]
fn blank_model_reads_as_none() {
    assert!(get_preferred_model(Some(r#"{"ollama_model":"   "}"#)).is_none());
}

#[test]
fn round_trips_experience_level() {
    let file = set_experience_level(None, ExperienceLevel::Professional);
    assert_eq!(read_experience_level(Some(&file)), Some(ExperienceLevel::Professional));
}

#[test]
fn missing_experience_level_defaults_to_beginner() {
    assert!(read_experience_level(None).is_none());
    assert_eq!(ExperienceLevel::default(), ExperienceLevel::Beginner);
    assert_eq!(get_experience_level(None), ExperienceLevel::Beginner);
}

#[test]
fn invalid_experience_level_reads_as_none() {
    assert!(read_experience_level(Some(r#"{"experience_level":"wizard"}"#)).is_none());
}

#[test]
fn blank_experience_level_reads_as_none() {
    assert!(read_experience_level(Some(r#"{"experience_level":"   "}"#)).is_none());
}

#[test]
fn experience_level_parse_is_case_insensitive() {
    assert_eq!("Beginner".parse(), Ok(ExperienceLevel::Beginner));
    assert_eq!("NOVICE".parse(), Ok(ExperienceLevel::Novice));
    assert_eq!("  Professional  ".parse(), Ok(ExperienceLevel::Professional));
    assert_eq!("expert".parse(), Ok(ExperienceLevel::Expert));
    assert!("intermediate".parse::<ExperienceLevel>().is_err());
}

#[test]
fn writing_experience_level_preserves_other_keys() {
    let file = set_experience_level(
        Some(r#"{"ollama_model":"gemma","other":"keep"}"#),
        ExperienceLevel::Expert,
    );
    assert_eq!(text_at(&file, "ollama_model").as_deref(), Some("gemma"));
    assert_eq!(text_at(&file, "other").as_deref(), Some("keep"));
    assert_eq!(text_at(&file, "experience_level").as_deref(), Some("expert"));
}

#[test]
fn a_file_that_is_no_object_is_replaced() {
    let file = set_preferred_model(Some("[1, 2"), "m");
    assert_eq!(get_preferred_model(Some(&file)).as_deref(), Some("m"));
    let file = set_preferred_model(Some("[1, 2]"), "m");
    assert_eq!(get_preferred_model(Some(&file)).as_deref(), Some("m"));
}

#[test]
fn every_level_has_a_name_that_reads_back() {
    for level in ExperienceLevel::all() {
        assert_eq!(ExperienceLevel::parse_name(level.as_str()), Some(level));
        assert!(!level.label().is_empty());
        assert!(!level.description().is_empty());
    }
    assert_eq!(ExperienceLevel::all().len(), 4);
}

#[test]
fn settings_live_under_the_home_directory() {
    let dir = state_dir(Some("/home/u")).unwrap();
    assert_eq!(dir, "/home/u/.ai-cli-learning");
    assert_eq!(settings_path(&dir), format!("{dir}/{SETTINGS_FILE_NAME}"));
    assert!(state_dir(None).is_none());
    let json = parse(r#"{"k":" v "}"#).unwrap();
    assert_eq!(setting_of(Some(&json), "k").as_deref(), Some("v"));
    assert_eq!(setting_of(None, "k"), None);
}
