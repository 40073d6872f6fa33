use gitfugue::{
    bar_count, build_history_model, build_units, can_render, choose_compression, choose_params,
    choose_seed, commit_limit, composable, compose, output_kind, output_path, render_midi,
    scale_flag, static_model, summary, ComposeParams, Key, NoteEvent, OutputKind, RawCommit,
    RawFile, RepoConfig, RepoModel, Scale, Score, Voice,
};

fn score() -> Score {
    Score {
        bpm_base: 82,
        key: Key { root: 10 },
        scale: Scale::MajorPentatonic,
        voices: vec![Voice { name: "a".into(), channel: 0, program: 0 }],
        events: vec![NoteEvent { voice: 0, pitch: 60, start: 1900, dur: 21, velocity: 80 }],
        tempo_map: vec![(0, 82)],
        program_changes: vec![],
        liner_notes: vec![],
        seed: 0x7e82_feef_2124_7d02,
    }
}

#[test]
fn a_scale_flag_names_a_scale() {
    assert_eq!(scale_flag(None).unwrap(), None);
    assert_eq!(scale_flag(Some("minor-pentatonic")).unwrap(), Some(Scale::MinorPentatonic));
    assert_eq!(
        scale_flag(Some("ionian")).unwrap_err(),
        "unknown scale 'ionian' (pentatonic | minor-pentatonic | dorian | aeolian)"
    );
}

#[test]
fn a_seed_comes_from_the_flag_or_the_hash() {
    assert_eq!(choose_seed(Some("deadbeef"), "x"), Ok(0xdead_beef));
    assert_eq!(choose_seed(Some("0xCAFED00D"), "x"), Ok(0xcafe_d00d));
    assert_eq!(choose_seed(Some("0x0x12"), "x"), Ok(0x12));
    assert_eq!(choose_seed(Some("+f"), "x"), Ok(15));
    assert_eq!(choose_seed(Some("0x"), "x"), Err("--seed must be hex".to_string()));
    assert_eq!(choose_seed(Some("11112222333344445"), "x"), Err("--seed must be hex".to_string()));
    assert_eq!(choose_seed(None, "0123456789abcdefffff"), Ok(0x0123_4567_89ab_cdef));
    assert_eq!(choose_seed(None, "12"), Ok(0x12));
    assert_eq!(choose_seed(None, ""), Err("unexpected tree hash format".to_string()));
    assert_eq!(choose_seed(None, "xyz"), Err("unexpected tree hash format".to_string()));
}

#[test]
fn a_told_seed_can_be_given() {
    let seed = score().seed;
    let told = format!("{seed:016x}");
    assert_eq!(choose_seed(Some(&told), ""), Ok(seed));
    assert_eq!(choose_seed(None, &format!("{told}0123456789abcdef01234567")), Ok(seed));
}

#[test]
fn flags_win_over_the_configuration() {
    let config = RepoConfig { scale: Some(Scale::Dorian), bpm: Some(90) };
    let p = choose_params(Some(Scale::Aeolian), None, Some(45), config);
    assert_eq!((p.scale, p.bpm, p.duration_secs), (Some(Scale::Aeolian), Some(90), Some(45)));
    let q = choose_params(None, Some(120), None, config);
    assert_eq!((q.scale, q.bpm, q.duration_secs), (Some(Scale::Dorian), Some(120), None));
}

#[test]
fn a_piece_needs_text() {
    assert_eq!(static_model(1, vec![]).err().unwrap(), "no analyzable text files at HEAD");
    let file = RawFile { path: "a.md".to_string(), content: b"hi".to_vec() };
    match static_model(5, build_units(&[file])).unwrap() {
        RepoModel::Static { seed, units } => assert_eq!((seed, units.len()), (5, 1)),
        RepoModel::History { .. } => panic!("a static model was built"),
    }
}

#[test]
fn commits_are_limited_unless_asked_for() {
    assert_eq!(commit_limit(false, false), Some(300));
    assert_eq!(commit_limit(true, false), None);
    assert_eq!(commit_limit(false, true), None);
}

#[test]
fn long_histories_are_compressed() {
    assert_eq!(choose_compression(10_000, false), 1);
    assert_eq!(choose_compression(300, true), 1);
    assert_eq!(choose_compression(301, true), 2);
    assert_eq!(choose_compression(10_000, true), 34);
    assert_eq!(choose_compression(u32::MAX, true), 14_316_558);
}

#[test]
fn an_output_path_gets_the_format() {
    let at = |out: &str| output_path(Some(out), "mid", None).unwrap();
    assert_eq!(at("song.mid"), "song.mid");
    assert_eq!(at("song.xyz"), "song.xyz");
    assert_eq!(at("song"), "song.mid");
    assert_eq!(at("dir.d/song"), "dir.d/song.mid");
    assert_eq!(at("song/"), "song.mid");
    assert_eq!(at("song/."), "song.mid");
    assert_eq!(at(".hidden"), ".hidden.mid");
    assert_eq!(at(".."), "..");
    assert_eq!(at("/"), "/");
    assert_eq!(output_path(Some("song"), "", None).unwrap(), "song");
}

#[test]
fn an_output_path_can_be_made_up() {
    assert_eq!(output_path(None, "mid", Some("repo")).unwrap(), "repo.mid");
    assert_eq!(output_path(None, "wav", Some("repo")).unwrap(), "repo.wav");
    assert_eq!(output_path(None, "mid", None).unwrap(), "gitfugue.mid");
    assert_eq!(output_path(None, "ogg", None).unwrap_err(), "unknown format 'ogg' (mid | wav)");
}

#[test]
fn an_extension_chooses_the_format() {
    assert_eq!(output_kind("a/b.mid"), Ok(OutputKind::Midi));
    assert_eq!(output_kind("b.midi"), Ok(OutputKind::Midi));
    assert_eq!(output_kind("b.wav"), Ok(OutputKind::Wav));
    let refused = Err("unsupported output extension (use .mid)".to_string());
    assert_eq!(output_kind("b.MID"), refused);
    assert_eq!(output_kind("mid"), refused);
    assert_eq!(output_kind(".mid"), refused);
}

#[test]
fn bars_hold_all_notes() {
    let mut s = score();
    assert_eq!(bar_count(&s), 2);
    s.events[0].dur = 20;
    assert_eq!(bar_count(&s), 1);
    s.events.clear();
    assert_eq!(bar_count(&s), 0);
    s.events.push(NoteEvent { voice: 0, pitch: 0, start: u32::MAX, dur: u32::MAX, velocity: 0 });
    assert_eq!(bar_count(&s), 4_473_925);
}

#[test]
fn the_summary_tells_the_piece() {
    assert_eq!(
        summary(&score(), "git-fugue.mid"),
        "wrote git-fugue.mid (2 bars, Bb major pentatonic, 82 bpm, 1 voices, seed 7e82feef21247d02)"
    );
}

#[test]
fn ordinary_repositories_can_be_composed_and_written() {
    let params = ComposeParams { scale: None, bpm: None, duration_secs: None };
    let file = RawFile { path: "src/a.rs".to_string(), content: b"fn a() {\n}\n".to_vec() };
    let model = static_model(77, build_units(&[file])).unwrap();
    assert!(composable(&model, &params));
    let score = compose(&model, &params);
    assert!(can_render(&score));
    assert!(render_midi(&score).is_ok());
    let long = ComposeParams { scale: None, bpm: Some(60_000), duration_secs: Some(80_000) };
    assert!(!composable(&model, &long));
}

#[test]
fn ordinary_histories_can_be_composed_and_written() {
    let params = ComposeParams { scale: None, bpm: Some(30), duration_secs: None };
    let raw: Vec<RawCommit> = (0..50)
        .map(|i| RawCommit {
            hash: format!("{:040x}", i * 7919),
            author_name: format!("Author {}", i % 7),
            author_email: format!("a{}@x", i % 7),
            timestamp: i * i * 5000,
            diff_magnitude: (i * 31) as u32,
            is_merge: i % 9 == 0,
        })
        .collect();
    let model = build_history_model(&raw, 99, "main".to_string(), 50, 1);
    assert!(composable(&model, &params));
    let score = compose(&model, &params);
    assert!(can_render(&score));
    assert!(render_midi(&score).is_ok());
}
