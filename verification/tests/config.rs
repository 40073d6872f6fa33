use gitfugue::{choose_config, load, ConfigError, Entry, RepoConfig, Scale};

#[test]
fn missing_file_is_default() {
    let (c, palette) = load(None).unwrap();
    assert!(c.scale.is_none() && c.bpm.is_none());
    assert!(!palette);
}

#[test]
fn parses_scale_and_bpm() {
    let (c, _) = load(Some("scale = \"dorian\"\nbpm = 92\n")).unwrap();
    assert_eq!(c.scale, Some(Scale::Dorian));
    assert_eq!(c.bpm, Some(92));
}

#[test]
fn rejects_bad_values() {
    assert!(load(Some("scale = \"phrygian-dominant\"\n")).is_err());
    assert!(load(Some("bpm = 999\n")).is_err());
}

#[test]
fn an_empty_file_is_default() {
    let (c, palette) = load(Some("")).unwrap();
    assert!(c.scale.is_none() && c.bpm.is_none() && !palette);
    let d = RepoConfig::default();
    assert!(d.scale.is_none() && d.bpm.is_none());
}

#[test]
fn every_fault_is_told() {
    let told = |text: &str| load(Some(text)).unwrap_err();
    assert!(matches!(told("scale = "), ConfigError::InvalidToml(_)));
    assert!(told("scale = ").message("/r/.gitfugue.toml").starts_with("invalid TOML in /r/.gitfugue.toml: "));
    assert_eq!(told("scale = 3"), ConfigError::ScaleNotText);
    assert_eq!(told("scale = \"x\""), ConfigError::UnknownScale("x".to_string()));
    assert_eq!(told("bpm = \"92\""), ConfigError::BpmNotInteger);
    assert_eq!(told("bpm = 92.0"), ConfigError::BpmNotInteger);
    assert_eq!(told("bpm = 29"), ConfigError::BpmOutOfRange);
    assert_eq!(told("bpm = 241"), ConfigError::BpmOutOfRange);
    // The scale is looked at first.
    assert_eq!(told("bpm = 0\nscale = true"), ConfigError::ScaleNotText);
}

#[test]
fn messages_name_the_fault() {
    assert_eq!(ConfigError::ScaleNotText.message("f"), ".gitfugue.toml: `scale` must be a string");
    assert_eq!(
        ConfigError::UnknownScale("x".to_string()).message("f"),
        ".gitfugue.toml: unknown scale 'x' (pentatonic | minor-pentatonic | dorian | aeolian)"
    );
    assert_eq!(ConfigError::BpmNotInteger.message("f"), ".gitfugue.toml: `bpm` must be an integer");
    assert_eq!(ConfigError::BpmOutOfRange.message("f"), ".gitfugue.toml: bpm out of range 30-240");
    assert_eq!(ConfigError::InvalidToml("bad".to_string()).message("f"), "invalid TOML in f: bad");
}

#[test]
fn the_range_of_tempos_is_inclusive() {
    assert_eq!(load(Some("bpm = 30")).unwrap().0.bpm, Some(30));
    assert_eq!(load(Some("bpm = 240")).unwrap().0.bpm, Some(240));
}

#[test]
fn a_palette_is_passed_over() {
    let (c, palette) = load(Some("palette = \"chamber\"\nbpm = 100\n")).unwrap();
    assert!(palette);
    assert_eq!(c.bpm, Some(100));
}

#[test]
fn entries_choose() {
    let c = choose_config(Some(Entry::Text("aeolian".to_string())), Some(Entry::Integer(70))).unwrap();
    assert_eq!((c.scale, c.bpm), (Some(Scale::Aeolian), Some(70)));
    assert_eq!(choose_config(None, Some(Entry::Other)).unwrap_err(), ConfigError::BpmNotInteger);
}

#[test]
fn the_words_of_the_parser_are_handed_on() {
    for text in ["scale = ", "bpm = 1\nbpm = 2\n", "[", "a = 'x"] {
        let words = text.parse::<toml::Table>().unwrap_err().to_string();
        assert_eq!(load(Some(text)).unwrap_err(), ConfigError::InvalidToml(words));
    }
}
