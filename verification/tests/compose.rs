use gitfugue::{
    composable, compose, fnv1a, CodeUnit, ComposeParams, FnUnit, Lang, RepoModel, Scale, BAR, SLOT,
};

fn unit(path: &str, lang_hint: &str, loc: u32, nesting: u8, fns: usize) -> CodeUnit {
    let path = format!("{path}.{lang_hint}");
    CodeUnit {
        depth: (path.split('/').count() - 1) as u8,
        language: Lang::from_path(&path),
        loc,
        nesting_max: nesting,
        ident_hash: fnv1a(path.as_bytes()),
        functions: (0..fns)
            .map(|i| FnUnit {
                name_hash: i as u64 * 7919 + 13,
                lines: 10 + i as u32 * 5,
                nesting,
            })
            .collect(),
        path,
    }
}

fn model() -> RepoModel {
    RepoModel::Static {
        seed: 0xDEADBEEF,
        units: vec![
            unit("src/main", "rs", 120, 3, 4),
            unit("src/util", "rs", 60, 5, 2),
            unit("docs/readme", "md", 40, 1, 1),
            unit("scripts/build", "sh", 25, 2, 2),
        ],
    }
}

#[test]
fn deterministic_score() {
    let p = ComposeParams {
        scale: None,
        bpm: None,
        duration_secs: None,
    };
    let a = compose(&model(), &p);
    let b = compose(&model(), &p);
    assert_eq!(a.bpm_base, b.bpm_base);
    assert_eq!(a.events.len(), b.events.len());
    for (x, y) in a.events.iter().zip(&b.events) {
        assert_eq!((x.pitch, x.start, x.dur, x.velocity), (y.pitch, y.start, y.dur, y.velocity));
    }
}

#[test]
fn melody_pitches_in_scale_or_neighbors() {
    let p = ComposeParams {
        scale: Some(Scale::MajorPentatonic),
        bpm: Some(100),
        duration_secs: Some(60),
    };
    let s = compose(&model(), &p);
    let drone_voice = s.voices.len() - 1;
    let major: &[u8] = Scale::MajorPentatonic.degrees();
    let minor: &[u8] = Scale::MinorPentatonic.degrees();
    let mut off_scale = 0usize;
    let mut total = 0usize;
    for e in s.events.iter().filter(|e| e.voice != drone_voice) {
        total += 1;
        let pc = ((e.pitch as i32 - s.key.root as i32).rem_euclid(12)) as u8;
        if !major.contains(&pc) && !minor.contains(&pc) {
            off_scale += 1; // only allowed as neighbor tones
        }
    }
    assert!(total > 50, "expected a real number of notes, got {total}");
    assert!(
        (off_scale as f64) < (total as f64) * 0.1,
        "too many off-scale notes: {off_scale}/{total}"
    );
}

#[test]
fn respects_overrides() {
    let p = ComposeParams {
        scale: Some(Scale::Dorian),
        bpm: Some(99),
        duration_secs: Some(45),
    };
    let s = compose(&model(), &p);
    assert_eq!(s.bpm_base, 99);
    assert_eq!(s.scale, Scale::Dorian);
}

#[test]
fn different_seeds_differ() {
    let p = ComposeParams {
        scale: None,
        bpm: None,
        duration_secs: None,
    };
    let a = compose(&model(), &p);
    let b = match model() {
        RepoModel::Static { units, .. } => {
            compose(&RepoModel::Static { seed: 0xCAFED00D, units }, &p)
        }
        _ => unreachable!(),
    };
    let sig_a: Vec<u8> = a.events.iter().take(40).map(|e| e.pitch).collect();
    let sig_b: Vec<u8> = b.events.iter().take(40).map(|e| e.pitch).collect();
    assert_ne!(sig_a, sig_b, "different seeds must produce different songs");
}

#[test]
fn drone_covers_the_piece() {
    let p = ComposeParams { scale: None, bpm: Some(90), duration_secs: Some(60) };
    let s = compose(&model(), &p);
    let drone = s.voices.len() - 1;
    assert_eq!(s.voices[drone].name, "drone");
    let end = s.events.iter().map(|e| e.start + e.dur).max().unwrap();
    for tick in (0..end).step_by(120) {
        assert!(
            s.events
                .iter()
                .any(|e| e.voice == drone && e.start <= tick && tick < e.start + e.dur),
            "no drone at {tick}"
        );
    }
}

#[test]
fn static_liner_notes() {
    let p = ComposeParams {
        scale: Some(Scale::Dorian),
        bpm: Some(96),
        duration_secs: Some(60),
    };
    let s = compose(&model(), &p);
    assert_eq!(
        s.liner_notes[0],
        format!("key: {} dorian  bpm: 96  target: 60s (24 bars)", s.key.name())
    );
    // 245 lines of code share 24 bars: 40/245, 25/245 and 180/245 of them.
    assert_eq!(s.liner_notes[1], "section docs: 3 bars (40 loc, 1 files)");
    assert_eq!(s.liner_notes[2], "section scripts: 2 bars (25 loc, 1 files)");
    assert_eq!(s.liner_notes[3], "section src: 17 bars (180 loc, 2 files)");
    assert_eq!(s.liner_notes[4], "voice 0: cello");
    assert_eq!(s.liner_notes[5], "voice 1: ambient pad");
    assert_eq!(s.liner_notes[6], "voice 2: woodblock");
    assert_eq!(s.liner_notes.len(), 7);
    assert_eq!(s.tempo_map, vec![(0, 96)]);
    assert_eq!(s.seed, 0xDEADBEEF);
    assert!(s.program_changes.is_empty());
}

#[test]
fn crowded_sections_are_sampled() {
    let m = RepoModel::Static {
        seed: 1,
        units: vec![unit("src/lib", "py", 100, 2, 40), unit("readme", "md", 1, 0, 1)],
    };
    let p = ComposeParams { scale: None, bpm: Some(120), duration_secs: Some(20) };
    let s = compose(&m, &p);
    // 20 s at 120 make 10 bars; the readme's share is rounded up to one.
    assert_eq!(s.liner_notes[1], "section .: 1 bars (1 loc, 1 files)");
    assert_eq!(s.liner_notes[2], "section src: 9 bars (100 loc, 1 files)");
    assert_eq!(s.liner_notes[3], "  src: sampled 3 of 40 motifs (stride 17)");
    let end = s.events.iter().map(|e| e.start + e.dur).max().unwrap();
    assert!(end <= 12 * BAR);
}

#[test]
fn no_units_still_make_a_score() {
    let m = RepoModel::Static { seed: 5, units: vec![] };
    let p = ComposeParams { scale: None, bpm: None, duration_secs: None };
    let s = compose(&m, &p);
    assert!(s.events.is_empty());
    assert_eq!(s.voices.len(), 1);
    assert!((70..=110).contains(&s.bpm_base));
}

#[test]
fn many_files_are_composable_and_endless_pieces_are_not() {
    let free = ComposeParams { scale: None, bpm: None, duration_secs: None };
    let units: Vec<CodeUnit> =
        (0..300_000u32).map(|i| unit(&format!("src/f{i}"), "rs", 8, 0, 1)).collect();
    let many = RepoModel::Static { seed: 1, units };
    assert!(composable(&many, &free));
    let endless = ComposeParams { scale: None, bpm: Some(240), duration_secs: Some(u32::MAX) };
    assert!(!composable(&many, &endless));
    // Four million bars; few phrases are repeated a bounded number of times and fall short.
    let long = ComposeParams { scale: None, bpm: Some(100), duration_secs: Some(9_600_000) };
    assert!(composable(&model(), &long));
}

#[test]
fn every_note_is_on_the_grid() {
    for secs in [20u32, 60, 170] {
        let p = ComposeParams { scale: None, bpm: None, duration_secs: Some(secs) };
        let s = compose(&model(), &p);
        assert!(s.events.iter().all(|e| e.start % SLOT == 0 && e.dur % SLOT == 0 && e.dur > 0));
    }
}
