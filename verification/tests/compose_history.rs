use gitfugue::playing::{play_percussion_bar, play_theme_bar};
use gitfugue::{
    composable, compose_history, midi_to_steps, steps_to_midi, Author, CommitNode, ComposeParams,
    Key, NoteEvent, RepoModel, Rng, Scale, Score, Theme, BAR, SLOT,
};

const HH_CLOSED: u8 = 42;
const HH_OPEN: u8 = 46;

fn authors() -> Vec<Author> {
    vec![
        Author { email: "alice@example.com".into(), name: "Alice".into(), commits: 5, is_bot: false },
        Author { email: "bob@example.com".into(), name: "Bob".into(), commits: 3, is_bot: false },
        Author { email: "49699333+dependabot[bot]@users.noreply.github.com".into(), name: "dependabot[bot]".into(), commits: 2, is_bot: true },
    ]
}

fn commits() -> Vec<CommitNode> {
    let day = 86_400i64;
    (0..10u64)
        .map(|i| CommitNode {
            hash: 0x1000 + i * 0x9E3779B9,
            short: format!("{:07x}", i),
            author_id: match i % 4 {
                0 | 1 => 0,
                2 => 1,
                _ => 2,
            },
            timestamp: 1_600_000_000 + i as i64 * day,
            diff_magnitude: (i as u32 + 1) * 37,
            is_merge: i == 7,
            folded: 1,
        })
        .collect()
}

/// The bars of the subject that a seed gives.
fn subject_bars(seed: u64) -> u32 {
    2 + Rng::new(seed).child("subject").below(3) as u32
}

fn params() -> ComposeParams {
    ComposeParams { scale: None, bpm: None, duration_secs: None }
}

#[test]
fn deterministic() {
    let a = compose_history(0xFEED, "main", &commits(), &authors(), 10, &params());
    let b = compose_history(0xFEED, "main", &commits(), &authors(), 10, &params());
    assert_eq!(a.events.len(), b.events.len());
    for (x, y) in a.events.iter().zip(&b.events) {
        assert_eq!(
            (x.voice, x.pitch, x.start, x.dur, x.velocity),
            (y.voice, y.pitch, y.start, y.dur, y.velocity)
        );
    }
    assert_eq!(a.tempo_map, b.tempo_map);
}

#[test]
fn identity_seed_sets_globals_commits_extend() {
    let short = compose_history(0xFEED, "main", &commits()[..5], &authors(), 5, &params());
    let long = compose_history(0xFEED, "main", &commits(), &authors(), 10, &params());
    // Same identity: same key, scale, tempo.
    assert_eq!(short.key.root, long.key.root);
    assert_eq!(short.bpm_base, long.bpm_base);
    // More commits: longer piece.
    let end = |s: &Score| s.events.iter().map(|e| e.start + e.dur).max().unwrap();
    assert!(end(&long) > end(&short));
}

#[test]
fn bots_play_percussion() {
    let s = compose_history(0xFEED, "main", &commits(), &authors(), 10, &params());
    let hh = s.voices.iter().position(|v| v.name == "hi-hat").unwrap();
    assert_eq!(s.voices[hh].channel, 9, "percussion must be channel 10");
    let bot_notes: Vec<_> = s.events.iter().filter(|e| e.voice == hh).collect();
    assert!(!bot_notes.is_empty(), "dependabot bars must drum");
    assert!(bot_notes.iter().all(|e| e.pitch == HH_CLOSED || e.pitch == HH_OPEN));
}

#[test]
fn anchor_is_voice_zero() {
    let s = compose_history(0xFEED, "main", &commits(), &authors(), 10, &params());
    assert!(s.voices[0].name.contains("anchor"));
    // Exposition: the first notes belong to the anchor.
    assert_eq!(s.events.iter().min_by_key(|e| e.start).unwrap().voice, 0);
}

#[test]
fn melody_stays_in_scale() {
    let p = ComposeParams { scale: Some(Scale::Dorian), bpm: Some(90), duration_secs: None };
    let s = compose_history(0xFEED, "main", &commits(), &authors(), 10, &p);
    let hh = s.voices.iter().position(|v| v.name == "hi-hat").unwrap();
    for e in s.events.iter().filter(|e| e.voice != hh) {
        let pc = ((e.pitch as i32 - s.key.root as i32).rem_euclid(12)) as u8;
        assert!(
            Scale::Dorian.degrees().contains(&pc),
            "pitch {} (pc {pc}) off-scale",
            e.pitch
        );
    }
}

#[test]
fn tempo_map_varies_with_commit_cadence() {
    let mut cs = commits();
    // A burst of rapid commits, then a huge gap.
    for (i, c) in cs.iter_mut().enumerate() {
        c.timestamp = 1_600_000_000
            + if i < 5 { i as i64 * 3_600 } else { 100 * 86_400 + i as i64 * 86_400 };
    }
    let s = compose_history(0xFEED, "main", &cs, &authors(), 10, &params());
    assert!(s.tempo_map.len() > 1, "tempo should modulate");
}

#[test]
fn history_liner_notes() {
    let p = ComposeParams { scale: Some(Scale::Aeolian), bpm: Some(100), duration_secs: None };
    let mut cs = commits();
    // A hiatus of sixty days before the last commit.
    cs[9].timestamp += 60 * 86_400;
    let s = compose_history(0xFEED, "trunk", &cs, &authors(), 700, &p);
    let l = &s.liner_notes;
    assert_eq!(
        l[0],
        format!("key: {} aeolian  bpm: 100  (identity from root commit)", s.key.name())
    );
    assert_eq!(l[1], "range: 10 first-parent commits on trunk (of 700 total)");
    assert!(l[2].starts_with("alice@example.com -> ") && l[2].ends_with(" (5 commits)"));
    assert!(l[3].starts_with("bob@example.com -> ") && l[3].ends_with(" (3 commits)"));
    assert_eq!(l[4], "dependabot[bot] -> hi-hat (2 commits)");
    let bars = subject_bars(0xFEED);
    assert_eq!(l[5], format!("subject: {bars} bars, stated by anchor"));
    assert_eq!(l[6], format!("bar {}: merge 0000007", bars + 8));
    assert_eq!(l[7], format!("bar {}: 61-day gap, breath", bars + 10));
    assert_eq!(l.len(), 8);
    let end = s.events.iter().map(|e| e.start + e.dur).max().unwrap();
    // One bar for each commit, one for the breath, and the closing one.
    assert_eq!(end, (bars + 10 + 1 + 1) * BAR);
}

#[test]
fn folded_commits_are_named() {
    let mut cs = commits();
    cs[3].folded = 4;
    let s = compose_history(1, "main", &cs, &authors(), 99, &params());
    assert_eq!(
        s.liner_notes[1],
        "range: 13 first-parent commits on main compressed into 10 bars (of 99 total)"
    );
}

#[test]
fn long_tail_shares_the_ensemble() {
    let people: Vec<Author> = (0..7u32)
        .map(|i| Author {
            email: format!("dev{i}@example.com"),
            name: format!("Dev {i}"),
            commits: 10 - i,
            is_bot: false,
        })
        .collect();
    let cs: Vec<CommitNode> = (0..7usize)
        .map(|i| CommitNode {
            hash: i as u64 * 77 + 5,
            short: "abc".into(),
            author_id: i,
            timestamp: i as i64 * 1000,
            diff_magnitude: 10,
            is_merge: false,
            folded: 1,
        })
        .collect();
    let s = compose_history(3, "main", &cs, &people, 7, &params());
    // Anchor, four leads, the ensemble.
    assert_eq!(s.voices.len(), 6);
    assert_eq!(s.voices[5].name, "string ensemble");
    let channels: Vec<u8> = s.voices.iter().map(|v| v.channel).collect();
    assert_eq!(channels, vec![0, 1, 2, 3, 4, 5]);
    let programs: Vec<u8> = s.voices.iter().map(|v| v.program).collect();
    assert_eq!(programs, vec![42, 40, 4, 73, 11, 48]);
    // The email's hash picks the instrument; the third author finds the violin taken.
    let names: Vec<&str> = s.voices[1..5].iter().map(|v| v.name.as_str()).collect();
    assert_eq!(names, ["violin", "electric piano", "flute", "vibraphone"]);
    for i in 1..5 {
        for j in i + 1..5 {
            assert_ne!(s.voices[i].name, s.voices[j].name);
        }
    }
    assert!(s
        .liner_notes
        .iter()
        .any(|l| l == "3 more authors -> string ensemble (15 commits)"));
}

#[test]
fn ranking_breaks_ties_by_email() {
    let mut people = authors();
    people[0].commits = 3;
    let s = compose_history(3, "main", &commits(), &people, 7, &params());
    assert!(s.liner_notes[2].starts_with("alice@example.com"));
    people[0].email = "zoe@example.com".into();
    let s = compose_history(3, "main", &commits(), &people, 7, &params());
    assert!(s.liner_notes[2].starts_with("bob@example.com"));
}

#[test]
fn tempo_tiers() {
    // Gaps of one day are the rhythm; each tier has its gap.
    let gaps = [100i64, 100, 100, 100, 100, 40, 60, 100, 300, 500];
    let mut t = 0i64;
    let mut cs = vec![];
    for (i, g) in gaps.iter().enumerate() {
        cs.push(CommitNode {
            hash: i as u64,
            short: "a".into(),
            author_id: 0,
            timestamp: t,
            diff_magnitude: 1,
            is_merge: false,
            folded: 1,
        });
        t += g;
    }
    cs.push(CommitNode {
        hash: 99,
        short: "a".into(),
        author_id: 0,
        timestamp: t,
        diff_magnitude: 1,
        is_merge: false,
        folded: 1,
    });
    let p = ComposeParams { scale: None, bpm: Some(100), duration_secs: None };
    let s = compose_history(3, "main", &cs, &authors(), 7, &p);
    let tempi: Vec<u16> = s.tempo_map.iter().map(|x| x.1).collect();
    assert_eq!(tempi, vec![100, 115, 108, 100, 92, 85]);
    let p = ComposeParams { scale: None, bpm: Some(31), duration_secs: None };
    let s = compose_history(3, "main", &cs, &authors(), 7, &p);
    assert!(s.tempo_map.iter().all(|x| x.1 >= 30));
}

#[test]
fn no_commits_leave_exposition_and_close() {
    let s = compose_history(3, "main", &[], &[], 0, &params());
    let end = s.events.iter().map(|e| e.start + e.dur).max().unwrap();
    assert_eq!(end, (subject_bars(3) + 1) * BAR);
    assert_eq!(s.voices.len(), 1);
    assert_eq!(s.voices[0].name, "anchor (cello)");
}

#[test]
fn earlier_bars_stay_as_they_are() {
    let short = compose_history(0xFEED, "main", &commits()[..6], &authors(), 6, &params());
    let long = compose_history(0xFEED, "main", &commits(), &authors(), 10, &params());
    let end = (subject_bars(0xFEED) + 6) * BAR;
    let before = |s: &Score| -> Vec<(usize, u8, u32, u32, u8)> {
        s.events
            .iter()
            .filter(|e| e.start < end)
            .map(|e| (e.voice, e.pitch, e.start, e.dur, e.velocity))
            .collect()
    };
    assert_eq!(before(&short), before(&long));
}

#[test]
fn every_note_is_inside_the_piece_and_in_a_voice() {
    for seed in 0..20u64 {
        let s = compose_history(seed, "main", &commits(), &authors(), 10, &params());
        let end = (subject_bars(seed) + 10 + 1) * BAR;
        for e in &s.events {
            assert!(e.voice < s.voices.len() && e.dur > 0 && e.start + e.dur <= end);
            assert!((30..=115).contains(&e.velocity));
            assert!(e.start % SLOT == 0 && e.dur % SLOT == 0);
            if s.voices[e.voice].channel == 9 {
                assert!(e.pitch == HH_CLOSED || e.pitch == HH_OPEN);
            }
        }
    }
}

/// The subject of a piece, by its seed and its global choices.
fn subject(seed: u64, s: &Score) -> Theme {
    let mut root = Rng::new(seed).child("global");
    root.below(12);
    root.weighted(&[60, 40]);
    root.range(70, 110);
    let center = (60 + root.range(-3, 4)) as u8;
    Theme::generate(&mut Rng::new(seed).child("subject"), s.key, s.scale, center)
}

#[test]
fn the_exposition_states_the_subject() {
    for seed in 0..40u64 {
        let s = compose_history(seed, "main", &commits(), &authors(), 10, &params());
        let t = subject(seed, &s);
        let stated: Vec<&NoteEvent> =
            s.events.iter().filter(|e| e.start < t.bars * BAR).collect();
        assert_eq!(stated.len(), t.notes.len());
        for (e, n) in stated.iter().zip(&t.notes) {
            assert_eq!(
                (e.voice, e.start, e.pitch),
                (0, n.slot * SLOT, steps_to_midi(s.key, s.scale, n.degree))
            );
        }
    }
}

#[test]
fn new_commits_leave_the_foundation() {
    let long = compose_history(0xFEED, "main", &commits(), &authors(), 10, &params());
    let short = compose_history(0xFEED, "dev", &commits()[3..5], &authors(), 2, &params());
    let end = subject_bars(0xFEED) * BAR;
    let first = |s: &Score| -> Vec<NoteEvent> {
        s.events.iter().filter(|e| e.start < end).copied().collect()
    };
    assert!(!first(&long).is_empty());
    assert_eq!(first(&long), first(&short));
}

#[test]
fn bars_draw_as_much_as_they_play() {
    let key = Key { root: 0 };
    let scale = Scale::MajorPentatonic;
    let home = midi_to_steps(key, scale, 60);
    let mut notes: Vec<NoteEvent> = Vec::new();
    // A bar without entries draws nothing.
    let mut rng = Rng::new(5);
    play_theme_bar(&mut notes, Vec::new(), 0, 1, key, scale, 900, &mut rng);
    assert!(notes.is_empty());
    assert_eq!(rng.next_u64(), Rng::new(5).next_u64());
    // Five entries of a middling commit draw five times.
    let entries: Vec<(u32, i32, u8)> = (0..5u32).map(|i| (i * 3, home + i as i32, 1)).collect();
    let mut rng = Rng::new(5);
    play_theme_bar(&mut notes, entries, 0, 1, key, scale, 20, &mut rng);
    assert_eq!(notes.len(), 5);
    let mut other = Rng::new(5);
    for _ in 0..5 {
        other.next_u64();
    }
    assert_eq!(rng.next_u64(), other.next_u64());
    // Eight hats draw eight times, and once more before the turn of the bar.
    let mut rng = Rng::new(6);
    let mut hats: Vec<NoteEvent> = Vec::new();
    play_percussion_bar(&mut hats, 0, 1, 0, &mut rng);
    assert_eq!(hats.len(), 8);
    let mut other = Rng::new(6);
    for _ in 0..9 {
        other.next_u64();
    }
    assert_eq!(rng.next_u64(), other.next_u64());
}

#[test]
fn only_counts_that_fit_are_composable() {
    let model = |commits: Vec<CommitNode>, authors: Vec<Author>| RepoModel::History {
        identity_seed: 1,
        branch: "main".to_string(),
        commits,
        authors,
        total_commits: 10,
    };
    assert!(composable(&model(commits(), authors()), &params()));
    // An author that is not there.
    assert!(!composable(&model(commits(), authors()[..1].to_vec()), &params()));
    // Commits that stand for too many.
    let mut folded = commits();
    folded[0].folded = u32::MAX;
    assert!(!composable(&model(folded, authors()), &params()));
    // A tail of too many commits; four leads may have as many as they like.
    let crowd = |n: usize| -> Vec<Author> {
        (0..n)
            .map(|i| Author {
                email: format!("{i}@x"),
                name: String::new(),
                commits: u32::MAX,
                is_bot: false,
            })
            .collect()
    };
    assert!(composable(&model(commits(), crowd(5)), &params()));
    assert!(!composable(&model(commits(), crowd(6)), &params()));
}
