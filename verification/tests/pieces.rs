use gitfugue::{
    compose, compose_history, fnv1a, Author, CodeUnit, CommitNode, ComposeParams, FnUnit, Lang,
    NoteEvent, RepoModel, Scale,
};

/// A hash over all that the notes say.
fn digest(events: &[NoteEvent]) -> u64 {
    let mut bytes: Vec<u8> = Vec::new();
    for e in events {
        bytes.push(e.voice as u8);
        bytes.push(e.pitch);
        bytes.extend_from_slice(&e.start.to_le_bytes());
        bytes.extend_from_slice(&e.dur.to_le_bytes());
        bytes.push(e.velocity);
    }
    fnv1a(&bytes)
}

fn unit(path: &str, lang_hint: &str, loc: u32, nesting: u8, fns: usize) -> CodeUnit {
    let path = format!("{path}.{lang_hint}");
    CodeUnit {
        depth: (path.split('/').count() - 1) as u8,
        language: Lang::from_path(&path),
        loc,
        nesting_max: nesting,
        ident_hash: fnv1a(path.as_bytes()),
        functions: (0..fns)
            .map(|i| FnUnit {
                name_hash: i as u64 * 7919 + 13,
                lines: 10 + i as u32 * 5,
                nesting,
            })
            .collect(),
        path,
    }
}

fn few() -> Vec<CodeUnit> {
    vec![
        unit("src/main", "rs", 120, 3, 4),
        unit("src/util", "rs", 60, 5, 2),
        unit("docs/readme", "md", 40, 1, 1),
        unit("scripts/build", "sh", 25, 2, 2),
    ]
}

/// A unit of every family, from flat to deeply nested.
fn many() -> Vec<CodeUnit> {
    let places = [
        ("a", "rs"),
        ("a/b", "py"),
        ("c", "ts"),
        ("c/d/e", "go"),
        ("f", "java"),
        ("g", "css"),
        ("h/i", "md"),
        ("j", "toml"),
        ("k", "sh"),
        ("l", "zig"),
    ];
    places
        .iter()
        .enumerate()
        .map(|(i, (dir, ext))| {
            unit(&format!("{dir}/f{i}"), ext, 20 + i as u32 * 13, i as u8, 3 + i % 4)
        })
        .collect()
}

fn played(seed: u64, units: Vec<CodeUnit>, params: ComposeParams) -> (usize, u64) {
    let s = compose(&RepoModel::Static { seed, units }, &params);
    (s.events.len(), digest(&s.events))
}

fn pinned(scale: Option<Scale>, bpm: Option<u16>, duration_secs: Option<u32>) -> ComposeParams {
    ComposeParams { scale, bpm, duration_secs }
}

#[test]
fn static_pieces_are_what_they_were() {
    assert_eq!(played(0xDEADBEEF, few(), pinned(None, None, None)), (273, 0x51b5fd9c326a1029));
    assert_eq!(played(1, few(), pinned(None, None, None)), (453, 0x6bf87e606c44cbcb));
    assert_eq!(
        played(0xCAFED00D, few(), pinned(Some(Scale::Dorian), Some(99), Some(45))),
        (108, 0x428a6148f7172d12)
    );
    assert_eq!(
        played(7, few(), pinned(Some(Scale::MajorPentatonic), Some(100), Some(60))),
        (158, 0xa5b3a2d55106b148)
    );
}

#[test]
fn static_pieces_of_all_families_are_what_they_were() {
    let expected = [
        (549, 0x04006b1c520d5d4a),
        (541, 0xae90dbf268d3cf28),
        (467, 0xe4e71402d5f69063),
        (353, 0x171645b8b364ea5a),
        (397, 0x703113ec952fb4eb),
    ];
    for (i, piece) in expected.iter().enumerate() {
        assert_eq!(played(i as u64 * 0x123456789, many(), pinned(None, None, Some(170))), *piece);
    }
}

#[test]
fn the_first_notes_of_a_static_piece() {
    let s = compose(
        &RepoModel::Static { seed: 0xDEADBEEF, units: few() },
        &pinned(None, None, None),
    );
    assert_eq!(
        s.events[..3],
        [
            NoteEvent { voice: 1, pitch: 61, start: 0, dur: 240, velocity: 80 },
            NoteEvent { voice: 3, pitch: 40, start: 0, dur: 3840, velocity: 44 },
            NoteEvent { voice: 3, pitch: 47, start: 0, dur: 3840, velocity: 38 },
        ]
    );
}

fn author(email: &str, commits: u32, is_bot: bool) -> Author {
    Author { email: email.to_string(), name: email.to_string(), commits, is_bot }
}

#[test]
fn history_pieces_are_what_they_were() {
    let authors = [
        author("alice@example.com", 5, false),
        author("bob@example.com", 3, false),
        author("49699333+dependabot[bot]@users.noreply.github.com", 2, true),
    ];
    let commits: Vec<CommitNode> = (0..10u64)
        .map(|i| CommitNode {
            hash: 0x1000 + i * 0x9E3779B9,
            short: format!("{i:07x}"),
            author_id: [0, 0, 1, 2][i as usize % 4],
            timestamp: 1_600_000_000 + i as i64 * 86_400,
            diff_magnitude: (i as u32 + 1) * 37,
            is_merge: i == 7,
            folded: 1,
        })
        .collect();
    let s = compose_history(0xFEED, "main", &commits, &authors, 10, &pinned(None, None, None));
    assert_eq!((s.events.len(), digest(&s.events)), (99, 0x0c3f525b3c2beb13));
    assert_eq!(s.tempo_map, [(0, 83)]);
    let p = pinned(Some(Scale::Aeolian), Some(100), None);
    let s = compose_history(3, "main", &commits, &authors, 10, &p);
    assert_eq!((s.events.len(), digest(&s.events)), (118, 0x92c5aefb8e1401b5));
}

/// The finalizer of the generator, to scatter hashes.
fn scatter(i: u64) -> u64 {
    let mut z = i.wrapping_add(0x9e37_79b9_7f4a_7c15);
    z = (z ^ (z >> 30)).wrapping_mul(0xbf58_476d_1ce4_e5b9);
    z = (z ^ (z >> 27)).wrapping_mul(0x94d0_49bb_1331_11eb);
    z ^ (z >> 31)
}

#[test]
fn long_history_pieces_are_what_they_were() {
    let mut authors: Vec<Author> =
        (0..7u32).map(|i| author(&format!("a{i}@x"), 10 + (i * 7) % 5, false)).collect();
    authors.push(author("r", 3, true));
    let commits: Vec<CommitNode> = (0..120u64)
        .map(|i| CommitNode {
            hash: scatter(i),
            short: String::new(),
            author_id: (i * i) as usize % 8,
            timestamp: (i * i) as i64 * 5_000 + (i % 5) as i64 * 90_000,
            diff_magnitude: (i * i * 31) as u32 % 5_000,
            is_merge: i % 9 == 0,
            folded: 1,
        })
        .collect();
    let expected = [
        (None, 623, 0x041fe0da4543c038, 94, 7_680),
        (Some(Scale::Dorian), 598, 0x8941a8ed4ff87096, 105, 9_600),
        (Some(Scale::Aeolian), 624, 0x5e25dabf0785cbb5, 72, 7_680),
        (Some(Scale::MinorPentatonic), 625, 0x4651dad089b28fce, 78, 7_680),
        (Some(Scale::MajorPentatonic), 624, 0x672d417be2993271, 79, 5_760),
        (None, 631, 0xc525e1b7d8c696ce, 90, 9_600),
    ];
    for (seed, (scale, notes, hash, bpm, first)) in expected.into_iter().enumerate() {
        let p = pinned(scale, None, None);
        let s = compose_history(seed as u64, "main", &commits, &authors, 120, &p);
        assert_eq!((s.events.len(), digest(&s.events)), (notes, hash));
        assert_eq!((s.tempo_map.len(), s.tempo_map[0], s.tempo_map[1].0), (43, (0, bpm), first));
    }
}
