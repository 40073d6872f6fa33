use gitfugue::{Key, Lang, Scale};

#[test]
fn extensions_choose_the_family() {
    let cases = [
        ("src/main.rs", Lang::Systems),
        ("a.hpp", Lang::Systems),
        ("a.PY", Lang::Python),
        ("web/app.tsx", Lang::JsTs),
        ("main.go", Lang::Go),
        ("A.kt", Lang::Jvm),
        ("index.html", Lang::Markup),
        ("README.md", Lang::Docs),
        ("Cargo.lock", Lang::Config),
        ("run.ps1", Lang::Shell),
        ("Makefile", Lang::Shell),
        ("docker/Dockerfile", Lang::Shell),
        ("makefile.zig", Lang::Other),
        ("LICENSE", Lang::Other),
        ("", Lang::Other),
        (".rs", Lang::Other),
        ("dir.rs/", Lang::Systems),
    ];
    for (path, lang) in cases {
        assert_eq!(Lang::from_path(path), lang, "{path}");
    }
}

#[test]
fn families_have_instruments() {
    assert_eq!((Lang::Systems.gm_program(), Lang::Systems.instrument_name()), (42, "cello"));
    assert_eq!((Lang::Python.gm_program(), Lang::Python.instrument_name()), (0, "piano"));
    assert_eq!((Lang::Shell.gm_program(), Lang::Shell.instrument_name()), (115, "woodblock"));
    assert_eq!((Lang::Other.gm_program(), Lang::Other.instrument_name()), (24, "nylon guitar"));
}

#[test]
fn scales_are_named_and_found() {
    assert_eq!(Scale::parse("pentatonic"), Some(Scale::MajorPentatonic));
    assert_eq!(Scale::parse("major-pentatonic"), Some(Scale::MajorPentatonic));
    assert_eq!(Scale::parse("Dorian"), None);
    assert_eq!(Scale::Aeolian.name(), "aeolian");
    assert_eq!(Scale::Dorian.degrees(), [0, 2, 3, 5, 7, 9, 10]);
    assert_eq!(Scale::MinorPentatonic.degrees(), [0, 3, 5, 7, 10]);
}

#[test]
fn keys_are_named() {
    assert_eq!(Key { root: 0 }.name(), "C");
    assert_eq!(Key { root: 10 }.name(), "Bb");
    assert_eq!(Key { root: 23 }.name(), "B");
}
