use gitfugue::{
    divide, midi_to_steps, pick_positions, steps_to_midi, Contour, Key, MelodyWalk, Real, Rng,
    Scale,
};

fn key() -> Key {
    Key { root: 9 } // A
}

fn units(x: f64) -> i128 {
    // Exact: every number here is a multiple of 2^-107 with few bits.
    (x * 2f64.powi(107)) as i128
}

fn target(c: Contour, x: f64) -> f64 {
    match c {
        Contour::Arch => 1.0 - (2.0 * x - 1.0).powi(2) * 2.0,
        Contour::Ramp => 2.0 * x - 1.0,
        Contour::Valley => (2.0 * x - 1.0).powi(2) * 2.0 - 1.0,
        Contour::Plateau => 0.2,
        Contour::Zigzag => {
            if ((x * 4.0) as u32) % 2 == 0 {
                0.6
            } else {
                -0.6
            }
        }
    }
}

#[test]
fn walk_stays_in_scale() {
    let scale = Scale::MajorPentatonic;
    let mut walk = MelodyWalk::new(key(), scale, 69);
    let mut rng = Rng::new(123);
    for i in 0..500 {
        let pull = Contour::Arch.target(divide(i, 500));
        let p = walk.step(&mut rng, pull);
        let pc = (p as i32 - key().root as i32).rem_euclid(12) as u8;
        assert!(
            scale.degrees().contains(&pc),
            "pitch {p} (pc {pc}) not in scale"
        );
    }
}

#[test]
fn walk_stays_in_register() {
    let mut walk = MelodyWalk::new(key(), Scale::Dorian, 69);
    let mut rng = Rng::new(7);
    for _ in 0..1000 {
        let p = walk.step(&mut rng, Real { units: 0 });
        assert!(p >= 69 - 24 && p <= 69 + 24, "pitch {p} left register");
    }
}

#[test]
fn roundtrip_steps_midi() {
    // Stay inside the 0..=127 MIDI range: the clamp in
    // steps_to_midi is a safety net, not part of the mapping.
    for scale in [Scale::MajorPentatonic, Scale::Aeolian] {
        for s in 0..40 {
            let m = steps_to_midi(key(), scale, s);
            assert_eq!(midi_to_steps(key(), scale, m), s);
        }
    }
}

#[test]
fn steps_outside_the_midi_range_are_clamped() {
    assert_eq!(steps_to_midi(key(), Scale::Dorian, -100), 0);
    assert_eq!(steps_to_midi(key(), Scale::Dorian, 1000), 127);
    assert_eq!(steps_to_midi(key(), Scale::Dorian, i32::MAX), 127);
    assert_eq!(steps_to_midi(key(), Scale::Dorian, i32::MIN), 0);
}

#[test]
fn pitches_between_steps_go_down() {
    let c = Key { root: 0 };
    assert_eq!(midi_to_steps(c, Scale::MajorPentatonic, 60), 25);
    assert_eq!(midi_to_steps(c, Scale::MajorPentatonic, 61), 25);
    assert_eq!(midi_to_steps(c, Scale::MajorPentatonic, 62), 26);
    assert_eq!(midi_to_steps(Key { root: 11 }, Scale::MajorPentatonic, 0), -5);
}

#[test]
fn quotients_are_those_of_doubles() {
    for d in 1..200u32 {
        for n in 0..=d {
            assert_eq!(divide(n, d).units, units(n as f64 / d as f64), "{n}/{d}");
        }
    }
    assert_eq!(divide(1, u32::MAX).units, units(1.0 / u32::MAX as f64));
    assert_eq!(
        divide(u32::MAX - 1, u32::MAX).units,
        units((u32::MAX - 1) as f64 / u32::MAX as f64)
    );
}

#[test]
fn contours_are_those_of_doubles() {
    let all = [
        Contour::Arch,
        Contour::Ramp,
        Contour::Valley,
        Contour::Plateau,
        Contour::Zigzag,
    ];
    for d in 1..200u32 {
        for n in 0..=d {
            for c in all {
                assert_eq!(
                    c.target(divide(n, d)).units,
                    units(target(c, n as f64 / d as f64)),
                    "{c:?} at {n}/{d}"
                );
            }
        }
    }
}

#[test]
fn contour_names() {
    assert_eq!(Contour::nth(0).name(), "arch");
    assert_eq!(Contour::nth(1).name(), "ramp");
    assert_eq!(Contour::nth(2).name(), "valley");
    assert_eq!(Contour::nth(3).name(), "plateau");
    assert_eq!(Contour::nth(4).name(), "zigzag");
}

/// The walk as it goes with hardware doubles.
struct FloatWalk {
    scale: Scale,
    pos: i32,
    lo: i32,
    hi: i32,
    resolve: i32,
}

impl FloatWalk {
    fn step(&mut self, rng: &mut Rng, pull: f64) -> u8 {
        let interval: i32 = if self.resolve != 0 {
            let d = self.resolve;
            self.resolve = 0;
            d
        } else {
            let size = match rng.weighted(&[60, 30, 10]) {
                0 => 1,
                1 => 2,
                _ => rng.range(3, 5) as i32,
            };
            let target = self.lo as f64 + (pull + 1.0) / 2.0 * (self.hi - self.lo) as f64;
            let toward = if (target - self.pos as f64) >= 0.0 { 1 } else { -1 };
            let dir = if rng.weighted(&[70, 30]) == 0 { toward } else { -toward };
            if size >= 3 {
                self.resolve = -dir;
            }
            size * dir
        };
        self.pos += interval;
        if self.pos > self.hi {
            self.pos = self.hi - (self.pos - self.hi);
            self.resolve = 0;
        }
        if self.pos < self.lo {
            self.pos = self.lo + (self.lo - self.pos);
            self.resolve = 0;
        }
        steps_to_midi(key(), self.scale, self.pos)
    }
}

#[test]
fn walk_goes_as_with_doubles() {
    for scale in [Scale::MajorPentatonic, Scale::Dorian] {
        for seed in 0..50u64 {
            let mut walk = MelodyWalk::new(key(), scale, 60);
            let center = midi_to_steps(key(), scale, 60);
            let span = scale.degrees().len() as i32 * 3 / 2;
            let mut other = FloatWalk {
                scale,
                pos: center,
                lo: center - span,
                hi: center + span,
                resolve: 0,
            };
            let mut a = Rng::new(seed);
            let mut b = Rng::new(seed);
            for i in 0..64u32 {
                let c = Contour::nth(seed % 5);
                let p = walk.step(&mut a, c.target(divide(i, 64)));
                let q = other.step(&mut b, target(c, i as f64 / 64.0));
                assert_eq!(p, q, "seed {seed} note {i}");
            }
        }
    }
}

#[test]
fn positions_rise_inside_the_bar() {
    for seed in 0..200u64 {
        for density in 0..20u32 {
            for last in [false, true] {
                let p = pick_positions(&mut Rng::new(seed), density, last);
                let room = if last { 13 } else { 16 };
                assert_eq!(p.len(), density.min(room) as usize);
                assert!(p.iter().all(|s| *s < room));
                assert!(p.windows(2).all(|w| w[0] < w[1]));
            }
        }
    }
}

#[test]
fn positions_prefer_the_downbeat() {
    let mut hits = [0u32; 16];
    for seed in 0..1000u64 {
        for s in pick_positions(&mut Rng::new(seed), 4, false) {
            hits[s as usize] += 1;
        }
    }
    assert!(hits[0] > hits[8] && hits[8] > hits[4] && hits[4] > hits[2] && hits[2] > hits[1]);
}

#[test]
fn leaps_are_resolved_by_a_step_back() {
    let scale = Scale::Dorian;
    let center = midi_to_steps(key(), scale, 60);
    let mut leaps = 0;
    for seed in 0..200u64 {
        let mut walk = MelodyWalk::new(key(), scale, 60);
        let mut rng = Rng::new(seed);
        let mut at = center;
        let mut leap: i32 = 0;
        for i in 0..64u32 {
            let p = walk.step(&mut rng, Contour::Ramp.target(divide(i, 64)));
            let to = midi_to_steps(key(), scale, p);
            if leap != 0 {
                assert_eq!(to - at, -leap.signum());
                leaps += 1;
                leap = 0;
            } else if (to - at).abs() >= 3 && (to - center).abs() <= 4 {
                // Far enough from the ends of the register not to have been reflected.
                leap = to - at;
            }
            at = to;
        }
    }
    assert!(leaps > 100);
}
