use gitfugue::{ops_for_diff, slot_weight, Key, Rng, Scale, Theme};

fn theme() -> (Theme, Key, Scale) {
    let key = Key { root: 2 };
    let scale = Scale::MajorPentatonic;
    let mut rng = Rng::new(99).child("theme");
    (Theme::generate(&mut rng, key, scale, 62), key, scale)
}

#[test]
fn subject_is_two_to_four_bars() {
    let (t, _, _) = theme();
    assert!((2..=4).contains(&t.bars));
    assert!(!t.notes.is_empty());
    // Sorted, unique slots.
    for w in t.notes.windows(2) {
        assert!(w[0].slot < w[1].slot);
    }
}

#[test]
fn mutation_is_deterministic() {
    let (mut a, _, _) = theme();
    let (mut b, _, _) = theme();
    let mut ra = Rng::new(0xABCD).child("mutation");
    let mut rb = Rng::new(0xABCD).child("mutation");
    a.mutate(&mut ra, 4);
    b.mutate(&mut rb, 4);
    assert_eq!(a.notes, b.notes);
}

#[test]
fn mutation_changes_the_theme() {
    let (mut a, _, _) = theme();
    let before = a.notes.clone();
    let mut r = Rng::new(0x1234).child("mutation");
    a.mutate(&mut r, 3);
    assert_ne!(before, a.notes);
}

#[test]
fn heavy_mutation_keeps_theme_playable() {
    let (mut t, _, _) = theme();
    let r = Rng::new(5).child("mutation");
    for i in 0..200 {
        let mut cr = r.child_u64(i);
        t.mutate(&mut cr, 5);
    }
    assert!(t.notes.len() >= 3, "theme decayed to nothing");
    for n in &t.notes {
        assert!(n.slot < t.bars * 16);
    }
    // Slots stay unique.
    for w in t.notes.windows(2) {
        assert!(w[0].slot < w[1].slot, "colliding slots after mutation");
    }
}

#[test]
fn ops_scale_with_diff() {
    assert_eq!(ops_for_diff(0), 1);
    assert!(ops_for_diff(50) <= ops_for_diff(5000));
    assert_eq!(ops_for_diff(u32::MAX), 5);
}

#[test]
fn ops_by_size() {
    for d in [0u32, 1, 6, 7, 62, 63, 510, 511, 4094, 4095, 1 << 30] {
        assert_eq!(ops_for_diff(d), (1 + (d as u64 + 1).ilog2() / 3).min(5));
    }
}

#[test]
fn weights_follow_the_meter() {
    assert_eq!(slot_weight(0), 3);
    assert_eq!(slot_weight(4), 2);
    assert_eq!(slot_weight(8), 2);
    assert_eq!(slot_weight(12), 2);
    assert_eq!(slot_weight(1), 1);
    assert_eq!(slot_weight(15), 1);
}

#[test]
fn bars_hold_their_own_notes() {
    let (t, _, _) = theme();
    let mut all = 0;
    for b in 0..t.bars {
        for (slot, degree, weight) in t.bar(b) {
            assert!(slot < 16);
            assert!(t
                .notes
                .iter()
                .any(|n| n.slot == b * 16 + slot && n.degree == degree && n.weight == weight));
            all += 1;
        }
    }
    assert_eq!(all, t.notes.len());
    assert!(t.bar(t.bars).is_empty());
}

#[test]
fn mutation_stays_in_the_register() {
    for seed in 0..100u64 {
        let (mut t, _, _) = theme();
        t.mutate(&mut Rng::new(seed), 20);
        assert!(t.notes.iter().all(|n| t.lo <= n.degree && n.degree <= t.hi));
    }
}

#[test]
fn no_operators_leave_the_theme_alone() {
    let (mut t, _, _) = theme();
    let before = t.notes.clone();
    t.mutate(&mut Rng::new(1), 0);
    assert_eq!(t.notes, before);
}

#[test]
fn nothing_is_drawn_without_operators() {
    let (mut t, _, _) = theme();
    let mut rng = Rng::new(1);
    t.mutate(&mut rng, 0);
    assert_eq!(rng.next_u64(), Rng::new(1).next_u64());
}

#[test]
fn operators_change_the_size_by_one_at_most() {
    let (mut t, _, _) = theme();
    for i in 0..2000u64 {
        let before = t.notes.len();
        let ops = (i % 6) as u32;
        t.mutate(&mut Rng::new(i), ops);
        assert!(t.notes.len().abs_diff(before) <= ops as usize);
        assert!(t.notes.len() >= 3 && t.notes.len() <= 8 * t.bars as usize);
    }
}
