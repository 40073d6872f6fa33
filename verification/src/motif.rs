//! Phrases of the static mode: the motif of a function.

use vstd::prelude::*;

use crate::binary::{divide, double, quotient, round_double, Real};
use crate::compose::{lemma_placed_on_grid, on_grid, BAR, SLOT};
use crate::model::{CodeUnit, FnUnit, Key, Lang, NoteEvent, Scale, UnitView};
use crate::rng::{advance, draw_fraction, Rng};
use crate::theme::{coin, coin_step};
use crate::theory::{
    clamp, contour_at, contour_target, in_scale, lemma_pitch_in_scale, lemma_positions,
    lemma_register, lemma_walk_start, lemma_walk_step, pick_positions, pitch_of, positions,
    positions_state, walk_pitch, walk_start, walk_state, walk_step, walk_wf, Contour, MelodyWalk,
    WalkView,
};

verus! {

/// The tension of a function, in eighths: its nesting depth, at most eight.
pub open spec fn tension(nesting: u8) -> int {
    if nesting < 8 {
        nesting as int
    } else {
        8
    }
}

/// The scale of a phrase: high tension borrows the parallel minor.
pub open spec fn phrase_scale(scale: Scale, t: int) -> Scale {
    if t >= 7 && scale == Scale::MajorPentatonic {
        Scale::MinorPentatonic
    } else {
        scale
    }
}

/// The register center of a family's instrument.
pub open spec fn lang_center(lang: Lang) -> int {
    match lang {
        Lang::Systems => 48,
        Lang::Python => 64,
        Lang::JsTs => 64,
        Lang::Go => 67,
        Lang::Jvm => 55,
        Lang::Markup => 60,
        Lang::Docs => 57,
        Lang::Config => 62,
        Lang::Shell => 72,
        Lang::Other => 60,
    }
}

/// The register center of a unit's phrases: the directory depth chooses the octave.
pub open spec fn phrase_center(unit: UnitView) -> int {
    clamp(lang_center(unit.language) + (unit.depth % 3 - 1) * 12, 36, 84)
}

/// How many notes a bar has: four to ten, by the tension, and one less in the last bar.
pub open spec fn bar_density(t: int, last_bar: bool) -> nat {
    (4 + (3 * t + 2) / 4 - if last_bar {
        1int
    } else {
        0
    }) as nat
}

/// The velocity of a note on a sixteenth of the bar, when the drawn fraction is `k`: strong
/// beats are louder, and tension widens the variation. The sum is made in doubles, here in
/// units of 2^-54.
pub open spec fn phrase_velocity(t: int, slot: int, k: int) -> int {
    let one: int = 0x40_0000_0000_0000;
    let accent: int = if slot == 0 || slot == 8 {
        96
    } else if slot % 4 == 0 {
        48
    } else {
        0
    };
    let spread = 12 + 7 * t;
    let variation = double(double(k * spread) - spread * (one / 4));
    let sum = double((528 + 10 * t + accent) * (one / 8) + variation);
    clamp(sum, 30 * one, 115 * one) / one
}

/// How many sixteenths a note is held out of `gap`: in a quarter of the cases three
/// quarters of them.
pub open spec fn held(gap: int, k: int) -> int {
    if k < 0x8_0000_0000_0000 && gap > 1 {
        (gap * 3) / 4
    } else {
        gap
    }
}

/// Whether the drawn fraction `k` admits a neighbor tone at the tension.
pub open spec fn admits_neighbor(t: int, k: int) -> bool {
    k < t * 0x4_0000_0000_0000 - 5404319552844595
}

/// What a phrase is made with.
pub struct Motif {
    pub t: int,
    pub contour: Contour,
    pub bars: int,
    pub start: int,
    pub voice: usize,
}

/// A phrase as far as it has been composed: its notes, its walk, and the generator's state.
#[verifier::ext_equal]
pub struct Phrase {
    pub notes: Seq<NoteEvent>,
    pub walk: WalkView,
    pub state: u64,
}

/// The room of the `i`th note of a bar, up to the next one; a quarter at most at the end of
/// the phrase.
pub open spec fn note_gap(slots: Seq<u32>, i: int, last_bar: bool) -> int {
    if i + 1 < slots.len() {
        slots[i + 1] - slots[i]
    } else if last_bar && 16 - slots[i] > 4 {
        4
    } else {
        16 - slots[i]
    }
}

/// The notes of one place in a phrase: one note, or a note, its neighbor and the note
/// again.
pub open spec fn figure(
    voice: usize,
    pitch: int,
    start: int,
    dur: int,
    velocity: int,
    neighbor: Option<int>,
) -> Seq<NoteEvent> {
    match neighbor {
        Some(n) => seq![
            NoteEvent {
                voice,
                pitch: pitch as u8,
                start: start as u32,
                dur: ((dur - 2) * SLOT) as u32,
                velocity: velocity as u8,
            },
            NoteEvent {
                voice,
                pitch: n as u8,
                start: (start + (dur - 2) * SLOT) as u32,
                dur: SLOT,
                velocity: (velocity - 10) as u8,
            },
            NoteEvent {
                voice,
                pitch: pitch as u8,
                start: (start + (dur - 1) * SLOT) as u32,
                dur: SLOT,
                velocity: (velocity - 6) as u8,
            },
        ],
        None => seq![
            NoteEvent {
                voice,
                pitch: pitch as u8,
                start: start as u32,
                dur: (dur * SLOT) as u32,
                velocity: velocity as u8,
            },
        ],
    }
}

/// The phrase with the `i`th note of a bar.
pub open spec fn note_added(m: Motif, p: Phrase, bar: int, slots: Seq<u32>, i: int) -> Phrase {
    let slot = slots[i] as int;
    let progress = quotient((bar * 16 + slot) as nat, (m.bars * 16) as nat);
    let pull = contour_target(m.contour, progress);
    let walk = walk_step(p.walk, p.state, pull);
    let pitch = walk_pitch(walk);
    let s1 = walk_state(p.walk, p.state, pull);
    let velocity = phrase_velocity(m.t, slot, draw_fraction(s1) as int);
    let s2 = advance(s1);
    let dur = held(note_gap(slots, i, bar == m.bars - 1), draw_fraction(s2) as int);
    let s3 = advance(s2);
    let s4 = if m.t >= 5 {
        advance(s3)
    } else {
        s3
    };
    let mordent = m.t >= 5 && admits_neighbor(m.t, draw_fraction(s3) as int) && dur >= 3 && pitch
        > 1;
    let neighbor = if mordent {
        Some(pitch - coin_step(s4))
    } else {
        None
    };
    let start = m.start + bar * BAR + slot * SLOT;
    Phrase {
        notes: p.notes + figure(m.voice, pitch, start, dur, velocity, neighbor),
        walk,
        state: if mordent {
            advance(s4)
        } else {
            s4
        },
    }
}

/// The phrase with the first `k` notes of a bar.
pub open spec fn notes_added(m: Motif, p: Phrase, bar: int, slots: Seq<u32>, k: int) -> Phrase
    decreases k,
{
    if k <= 0 {
        p
    } else {
        note_added(m, notes_added(m, p, bar, slots, k - 1), bar, slots, k - 1)
    }
}

/// The phrase with its first `b` bars.
pub open spec fn bars_added(m: Motif, p: Phrase, b: int) -> Phrase
    decreases b,
{
    if b <= 0 {
        p
    } else {
        let before = bars_added(m, p, b - 1);
        let density = bar_density(m.t, b == m.bars);
        let slots = positions(before.state, density, b == m.bars);
        let state = positions_state(before.state, density, b == m.bars);
        notes_added(m, Phrase { state, ..before }, b - 1, slots, slots.len() as int)
    }
}

/// The motif of a function.
pub open spec fn motif_of(f: FnUnit, bars: int, start: int, voice: usize) -> Motif {
    Motif {
        t: tension(f.nesting),
        contour: contour_at((f.name_hash % 5) as int),
        bars,
        start,
        voice,
    }
}

/// A function's phrase: its notes, and the generator's state behind them.
pub open spec fn phrase_made(
    state: u64,
    key: Key,
    scale: Scale,
    unit: UnitView,
    f: FnUnit,
    bars: int,
    start: int,
    voice: usize,
) -> Phrase {
    let walk = walk_start(key, phrase_scale(scale, tension(f.nesting)), phrase_center(unit));
    bars_added(
        motif_of(f, bars, start, voice),
        Phrase { notes: seq![], walk, state },
        bars,
    )
}

/// The notes of a function's phrase.
pub open spec fn phrase_notes(
    state: u64,
    key: Key,
    scale: Scale,
    unit: UnitView,
    f: FnUnit,
    bars: int,
    start: int,
    voice: usize,
) -> Seq<NoteEvent> {
    phrase_made(state, key, scale, unit, f, bars, start, voice).notes
}

/// The register center of a family's instrument.
fn center_of(lang: Lang) -> (r: i32)
    ensures
        r == lang_center(lang),
        48 <= r <= 72,
{
    match lang {
        Lang::Systems => 48,
        Lang::Python => 64,
        Lang::JsTs => 64,
        Lang::Go => 67,
        Lang::Jvm => 55,
        Lang::Markup => 60,
        Lang::Docs => 57,
        Lang::Config => 62,
        Lang::Shell => 72,
        Lang::Other => 60,
    }
}

/// The velocity of a note.
fn velocity_of(t: u8, slot: u32, k: u64) -> (r: u8)
    requires
        t <= 8,
        k < 0x20_0000_0000_0000,
    ensures
        r == phrase_velocity(t as int, slot as int, k as int),
        30 <= r <= 115,
{
    let one: i128 = 0x40_0000_0000_0000;
    let accent: i128 = if slot == 0 || slot == 8 {
        96
    } else if slot % 4 == 0 {
        48
    } else {
        0
    };
    let spread: i128 = 12 + 7 * t as i128;
    proof {
        assert(0 <= k * spread <= 0x20_0000_0000_0000 * 68) by (nonlinear_arith)
            requires
                0 <= k <= 0x20_0000_0000_0000,
                0 <= spread <= 68,
        ;
    }
    let product: i128 = round_double(k as i128 * spread);
    let variation: i128 = round_double(product - spread * (one / 4));
    let sum: i128 = round_double((528 + 10 * t as i128 + accent) * (one / 8) + variation);
    let bounded: i128 = if sum < 30 * one {
        30 * one
    } else if sum > 115 * one {
        115 * one
    } else {
        sum
    };
    (bounded / one) as u8
}

/// A function's phrase while it is being composed.
struct Draft {
    t: u8,
    contour: Contour,
    bars: u32,
    start: u32,
    voice: usize,
    walk: MelodyWalk,
}

impl Draft {
    spec fn motif(&self) -> Motif {
        Motif {
            t: self.t as int,
            contour: self.contour,
            bars: self.bars as int,
            start: self.start as int,
            voice: self.voice,
        }
    }

    spec fn wf(&self) -> bool {
        &&& self.t <= 8
        &&& self.start + self.bars * BAR <= u32::MAX
        &&& walk_wf(self.walk@)
    }

    /// Adds the notes of one place of a bar.
    fn add_note(
        &mut self,
        notes: &mut Vec<NoteEvent>,
        rng: &mut Rng,
        bar: u32,
        slots: &Vec<u32>,
        i: usize,
    )
        requires
            old(self).wf(),
            bar < old(self).bars,
            i < slots@.len(),
            forall|j: int| 0 <= j < slots@.len() ==> #[trigger] slots@[j] < 16,
            forall|j: int, k: int|
                0 <= j < k < slots@.len() ==> #[trigger] slots@[j] < #[trigger] slots@[k],
        ensures
            final(self).wf(),
            final(self).motif() == old(self).motif(),
            (Phrase { notes: final(notes)@, walk: final(self).walk@, state: final(rng)@ })
                == note_added(
                old(self).motif(),
                Phrase { notes: old(notes)@, walk: old(self).walk@, state: old(rng)@ },
                bar as int,
                slots@,
                i as int,
            ),
    {
        let ghost p = Phrase { notes: notes@, walk: self.walk@, state: rng@ };
        let ghost m = self.motif();
        let slot: u32 = slots[i];
        assert(slots@[i as int] < 16);
        let gap: u32 = room_of(slots, i, bar == self.bars - 1);
        let at: u32 = bar * 16 + slot;
        let pull: Real = self.contour.target(divide(at, self.bars * 16));
        let pitch: u8 = self.walk.step(rng, pull);
        let velocity: u8 = velocity_of(self.t, slot, rng.fraction());
        let dur: u32 = held_slots(gap, rng.fraction());
        let start: u32 = self.start + bar * BAR + slot * SLOT;
        let mut lucky: bool = false;
        if self.t >= 5 {
            lucky = lucky_neighbor(self.t, rng.fraction());
        }
        let mut neighbor: Option<u8> = None;
        if lucky && dur >= 3 && pitch > 1 {
            let side: i32 = coin(rng);
            neighbor = Some(
                if side == 1 {
                    pitch - 1
                } else {
                    pitch + 1
                },
            );
        }
        push_figure(notes, self.voice, pitch, start, dur, velocity, neighbor);
        proof {
            let q = note_added(m, p, bar as int, slots@, i as int);
            assert(self.walk@ == q.walk);
            assert(rng@ == q.state);
            assert(notes@ == q.notes);
        }
    }
}

/// The room of a note of a bar.
fn room_of(slots: &Vec<u32>, i: usize, last_bar: bool) -> (r: u32)
    requires
        i < slots@.len(),
        forall|j: int| 0 <= j < slots@.len() ==> #[trigger] slots@[j] < 16,
        forall|j: int, k: int|
            0 <= j < k < slots@.len() ==> #[trigger] slots@[j] < #[trigger] slots@[k],
    ensures
        r == note_gap(slots@, i as int, last_bar),
        1 <= r <= 16 - slots@[i as int],
{
    let slot: u32 = slots[i];
    assert(slots@[i as int] < 16);
    if i < slots.len() - 1 {
        assert(slots@[i as int] < slots@[i + 1]);
        assert(slots@[i + 1] < 16);
        slots[i + 1] - slot
    } else if last_bar && 16 - slot > 4 {
        4
    } else {
        16 - slot
    }
}

/// How many sixteenths a note is held.
fn held_slots(gap: u32, k: u64) -> (r: u32)
    requires
        1 <= gap <= 16,
    ensures
        r == held(gap as int, k as int),
        1 <= r <= gap,
{
    if k < 0x8_0000_0000_0000 && gap > 1 {
        (gap * 3) / 4
    } else {
        gap
    }
}

/// Whether the drawn fraction admits a neighbor tone at the tension.
fn lucky_neighbor(t: u8, k: u64) -> (r: bool)
    requires
        5 <= t <= 8,
    ensures
        r == admits_neighbor(t as int, k as int),
{
    let threshold: u64 = t as u64 * 0x4_0000_0000_0000 - 5404319552844595;
    k < threshold
}

/// Adds the notes of one place in a phrase.
fn push_figure(
    notes: &mut Vec<NoteEvent>,
    voice: usize,
    pitch: u8,
    start: u32,
    dur: u32,
    velocity: u8,
    neighbor: Option<u8>,
)
    requires
        1 <= dur <= 16,
        start + dur * SLOT <= u32::MAX,
        velocity >= 30,
        neighbor is Some ==> dur >= 3,
    ensures
        final(notes)@ == old(notes)@ + figure(
            voice,
            pitch as int,
            start as int,
            dur as int,
            velocity as int,
            match neighbor {
                Some(n) => Some(n as int),
                None => None,
            },
        ),
{
    let ghost before = notes@;
    match neighbor {
        Some(n) => {
            let d1: u32 = dur - 2;
            notes.push(NoteEvent { voice, pitch, start, dur: d1 * SLOT, velocity });
            notes.push(
                NoteEvent {
                    voice,
                    pitch: n,
                    start: start + d1 * SLOT,
                    dur: SLOT,
                    velocity: velocity - 10,
                },
            );
            notes.push(
                NoteEvent {
                    voice,
                    pitch,
                    start: start + (d1 + 1) * SLOT,
                    dur: SLOT,
                    velocity: velocity - 6,
                },
            );
        },
        None => {
            notes.push(NoteEvent { voice, pitch, start, dur: dur * SLOT, velocity });
        },
    }
    assert(notes@ =~= before + figure(
        voice,
        pitch as int,
        start as int,
        dur as int,
        velocity as int,
        match neighbor {
            Some(n) => Some(n as int),
            None => None,
        },
    ));
}

/// Composes a function's phrase.
#[verifier::rlimit(30)]
pub fn gen_phrase(
    notes: &mut Vec<NoteEvent>,
    rng: &mut Rng,
    key: Key,
    scale: Scale,
    unit: &CodeUnit,
    f: &FnUnit,
    bars: u32,
    start: u32,
    voice: usize,
)
    requires
        start + bars * BAR <= u32::MAX,
    ensures
        final(notes)@ == old(notes)@ + phrase_notes(
            old(rng)@,
            key,
            scale,
            unit@,
            *f,
            bars as int,
            start as int,
            voice,
        ),
        final(rng)@ == phrase_made(
            old(rng)@,
            key,
            scale,
            unit@,
            *f,
            bars as int,
            start as int,
            voice,
        ).state,
{
    let t: u8 = if f.nesting < 8 {
        f.nesting
    } else {
        8
    };
    let local: Scale = if t >= 7 && scale == Scale::MajorPentatonic {
        Scale::MinorPentatonic
    } else {
        scale
    };
    let wanted: i32 = center_of(unit.language) + ((unit.depth % 3) as i32 - 1) * 12;
    let center: i32 = if wanted < 36 {
        36
    } else if wanted > 84 {
        84
    } else {
        wanted
    };
    let contour: Contour = Contour::nth(f.name_hash % 5);
    let walk = MelodyWalk::new(key, local, center as u8);
    let ghost m = motif_of(*f, bars as int, start as int, voice);
    let ghost first = Phrase { notes: seq![], walk: walk@, state: rng@ };
    let ghost earlier = notes@;
    let mut draft = Draft { t, contour, bars, start, voice, walk };
    assert(notes@ =~= earlier + first.notes);
    for bar in 0..bars
        invariant
            draft.wf(),
            draft.motif() == m,
            bars == draft.bars,
            t == m.t,
            t <= 8,
            bars == m.bars,
            notes@ == earlier + bars_added(m, first, bar as int).notes,
            draft.walk@ == bars_added(m, first, bar as int).walk,
            rng@ == bars_added(m, first, bar as int).state,
    {
        let ghost before = bars_added(m, first, bar as int);
        let last_bar: bool = bar == bars - 1;
        let density: u32 = 4 + (3 * t as u32 + 2) / 4 - if last_bar {
            1
        } else {
            0
        };
        let slots: Vec<u32> = pick_positions(rng, density, last_bar);
        let ghost mid = Phrase { state: rng@, ..before };
        for i in 0..slots.len()
            invariant
                draft.wf(),
                draft.motif() == m,
                bars == draft.bars,
                bar < bars,
                forall|j: int| 0 <= j < slots@.len() ==> #[trigger] slots@[j] < 16,
                forall|j: int, k: int|
                    0 <= j < k < slots@.len() ==> #[trigger] slots@[j] < #[trigger] slots@[k],
                notes@ == earlier + notes_added(m, mid, bar as int, slots@, i as int).notes,
                draft.walk@ == notes_added(m, mid, bar as int, slots@, i as int).walk,
                rng@ == notes_added(m, mid, bar as int, slots@, i as int).state,
        {
            let ghost q = notes_added(m, mid, bar as int, slots@, i as int);
            let ghost now = Phrase { notes: notes@, walk: draft.walk@, state: rng@ };
            draft.add_note(notes, rng, bar, &slots, i);
            proof {
                lemma_note_shift(m, now, q, earlier, bar as int, slots@, i as int);
            }
        }
    }
}

/// Notes that were there before do not change what is added.
proof fn lemma_note_shift(
    m: Motif,
    p: Phrase,
    q: Phrase,
    earlier: Seq<NoteEvent>,
    bar: int,
    slots: Seq<u32>,
    i: int,
)
    requires
        p.notes == earlier + q.notes,
        p.walk == q.walk,
        p.state == q.state,
    ensures
        note_added(m, p, bar, slots, i).notes == earlier + note_added(m, q, bar, slots, i).notes,
        note_added(m, p, bar, slots, i).walk == note_added(m, q, bar, slots, i).walk,
        note_added(m, p, bar, slots, i).state == note_added(m, q, bar, slots, i).state,
{
    assert(note_added(m, p, bar, slots, i).notes =~= earlier + note_added(
        m,
        q,
        bar,
        slots,
        i,
    ).notes);
}

/// Whether a pitch is in the scale, or beside a pitch of the scale.
pub open spec fn near_scale(key: Key, scale: Scale, pitch: int) -> bool {
    in_scale(key, scale, pitch) || in_scale(key, scale, pitch - 1) || in_scale(
        key,
        scale,
        pitch + 1,
    )
}

/// Whether a note belongs to a phrase: it is in the phrase's voice, inside its bars and on
/// their sixteenths, and in the scale; where tension is high, it may also be a neighbor of a
/// note in the scale.
pub open spec fn phrase_note(m: Motif, key: Key, scale: Scale, e: NoteEvent) -> bool {
    &&& e.voice == m.voice
    &&& m.start <= e.start
    &&& e.start + e.dur <= m.start + m.bars * BAR
    &&& e.dur >= SLOT
    &&& on_grid(e, m.start)
    &&& 20 <= e.velocity <= 115
    &&& e.pitch <= 127
    &&& near_scale(key, scale, e.pitch as int)
    &&& m.t < 5 ==> in_scale(key, scale, e.pitch as int)
}

/// Whether all notes belong to a phrase.
pub open spec fn phrase_notes_ok(
    m: Motif,
    key: Key,
    scale: Scale,
    notes: Seq<NoteEvent>,
) -> bool {
    forall|i: int| 0 <= i < notes.len() ==> phrase_note(m, key, scale, #[trigger] notes[i])
}

/// Whether a walk moves in a register inside the MIDI range, with room for neighbors.
spec fn walk_in_range(w: WalkView) -> bool {
    &&& walk_wf(w)
    &&& forall|s: int| w.lo <= s <= w.hi ==> 0 <= #[trigger] pitch_of(w.key, w.scale, s) <= 126
}

proof fn lemma_figure(
    m: Motif,
    key: Key,
    scale: Scale,
    pitch: int,
    start: int,
    dur: int,
    velocity: int,
    neighbor: Option<int>,
    place: int,
)
    requires
        0 <= pitch <= 126,
        in_scale(key, scale, pitch),
        0 <= m.start <= start,
        m.start + m.bars * BAR <= u32::MAX,
        1 <= dur <= 16,
        start + dur * SLOT <= m.start + m.bars * BAR,
        start == m.start + place * SLOT,
        30 <= velocity <= 115,
        neighbor is Some ==> m.t >= 5 && dur >= 3 && pitch > 1 && pitch - 1 <= neighbor->0 <= pitch
            + 1,
    ensures
        phrase_notes_ok(
            m,
            key,
            scale,
            figure(m.voice, pitch, start, dur, velocity, neighbor),
        ),
        figure(m.voice, pitch, start, dur, velocity, neighbor).len() <= 3,
{
    let notes = figure(m.voice, pitch, start, dur, velocity, neighbor);
    if neighbor is Some {
        lemma_placed_on_grid(notes[0], m.start, place, dur - 2);
        lemma_placed_on_grid(notes[1], m.start, place + dur - 2, 1);
        lemma_placed_on_grid(notes[2], m.start, place + dur - 1, 1);
    } else {
        lemma_placed_on_grid(notes[0], m.start, place, dur);
    }
}

proof fn lemma_note_added(m: Motif, p: Phrase, bar: int, slots: Seq<u32>, i: int)
    requires
        walk_in_range(p.walk),
        phrase_notes_ok(m, p.walk.key, p.walk.scale, p.notes),
        0 <= bar < m.bars <= 4,
        0 <= m.t <= 8,
        0 <= m.start,
        m.start + m.bars * BAR <= u32::MAX,
        0 <= i < slots.len(),
        forall|j: int| 0 <= j < slots.len() ==> #[trigger] slots[j] < 16,
        forall|j: int, k: int|
            0 <= j < k < slots.len() ==> #[trigger] slots[j] < #[trigger] slots[k],
    ensures
        ({
            let q = note_added(m, p, bar, slots, i);
            &&& walk_in_range(q.walk)
            &&& q.walk.key == p.walk.key
            &&& q.walk.scale == p.walk.scale
            &&& phrase_notes_ok(m, p.walk.key, p.walk.scale, q.notes)
            &&& q.notes.len() <= p.notes.len() + 3
        }),
{
    let slot = slots[i] as int;
    let progress = quotient((bar * 16 + slot) as nat, (m.bars * 16) as nat);
    let pull = contour_target(m.contour, progress);
    lemma_walk_step(p.walk, p.state, pull);
    let walk = walk_step(p.walk, p.state, pull);
    let pitch = walk_pitch(walk);
    assert(0 <= pitch_of(walk.key, walk.scale, walk.pos) <= 126);
    lemma_pitch_in_scale(walk.key, walk.scale, walk.pos);
    let s1 = walk_state(p.walk, p.state, pull);
    let velocity = phrase_velocity(m.t, slot, draw_fraction(s1) as int);
    let one: int = 0x40_0000_0000_0000;
    assert(30 <= velocity <= 115);
    let s2 = advance(s1);
    let gap = note_gap(slots, i, bar == m.bars - 1);
    assert(1 <= gap && slot + gap <= 16) by {
        assert(slots[i] < 16);
        if i + 1 < slots.len() {
            assert(slots[i] < slots[i + 1]);
            assert(slots[i + 1] < 16);
        }
    }
    let dur = held(gap, draw_fraction(s2) as int);
    assert(1 <= dur <= gap);
    let s3 = advance(s2);
    let s4 = if m.t >= 5 {
        advance(s3)
    } else {
        s3
    };
    let mordent = m.t >= 5 && admits_neighbor(m.t, draw_fraction(s3) as int) && dur >= 3 && pitch
        > 1;
    let neighbor = if mordent {
        Some(pitch - coin_step(s4))
    } else {
        None
    };
    let start = m.start + bar * BAR + slot * SLOT;
    assert(start + dur * SLOT <= m.start + m.bars * BAR) by {
        assert(slot * SLOT + dur * SLOT <= BAR);
    }
    lemma_figure(
        m,
        walk.key,
        walk.scale,
        pitch,
        start,
        dur,
        velocity,
        neighbor,
        bar * 16 + slot,
    );
    let more = figure(m.voice, pitch, start, dur, velocity, neighbor);
    let q = note_added(m, p, bar, slots, i);
    assert(q.notes == p.notes + more);
    assert forall|j: int| 0 <= j < q.notes.len() implies phrase_note(
        m,
        p.walk.key,
        p.walk.scale,
        #[trigger] q.notes[j],
    ) by {
        if j < p.notes.len() {
            assert(q.notes[j] == p.notes[j]);
        } else {
            assert(q.notes[j] == more[j - p.notes.len()]);
        }
    }
}

proof fn lemma_notes_added(m: Motif, p: Phrase, bar: int, slots: Seq<u32>, k: int)
    requires
        walk_in_range(p.walk),
        phrase_notes_ok(m, p.walk.key, p.walk.scale, p.notes),
        0 <= bar < m.bars <= 4,
        0 <= m.t <= 8,
        0 <= m.start,
        m.start + m.bars * BAR <= u32::MAX,
        0 <= k <= slots.len(),
        forall|j: int| 0 <= j < slots.len() ==> #[trigger] slots[j] < 16,
        forall|j: int, k: int|
            0 <= j < k < slots.len() ==> #[trigger] slots[j] < #[trigger] slots[k],
    ensures
        ({
            let q = notes_added(m, p, bar, slots, k);
            &&& walk_in_range(q.walk)
            &&& q.walk.key == p.walk.key
            &&& q.walk.scale == p.walk.scale
            &&& phrase_notes_ok(m, p.walk.key, p.walk.scale, q.notes)
            &&& q.notes.len() <= p.notes.len() + 3 * k
        }),
    decreases k,
{
    if k > 0 {
        lemma_notes_added(m, p, bar, slots, k - 1);
        lemma_note_added(m, notes_added(m, p, bar, slots, k - 1), bar, slots, k - 1);
    }
}

proof fn lemma_bars_added(m: Motif, p: Phrase, b: int)
    requires
        walk_in_range(p.walk),
        p.notes.len() == 0,
        0 <= b <= m.bars <= 4,
        0 <= m.t <= 8,
        0 <= m.start,
        m.start + m.bars * BAR <= u32::MAX,
    ensures
        ({
            let q = bars_added(m, p, b);
            &&& walk_in_range(q.walk)
            &&& q.walk.key == p.walk.key
            &&& q.walk.scale == p.walk.scale
            &&& phrase_notes_ok(m, p.walk.key, p.walk.scale, q.notes)
            &&& q.notes.len() <= 30 * b
        }),
    decreases b,
{
    if b > 0 {
        lemma_bars_added(m, p, b - 1);
        let before = bars_added(m, p, b - 1);
        let density = bar_density(m.t, b == m.bars);
        let slots = positions(before.state, density, b == m.bars);
        let state = positions_state(before.state, density, b == m.bars);
        lemma_positions(before.state, density, b == m.bars);
        lemma_notes_added(m, Phrase { state, ..before }, b - 1, slots, slots.len() as int);
    }
}

/// The notes of a function's phrase sound in its voice and inside its bars. They are in the
/// scale, which may be the parallel minor, and in tense phrases also beside it; and no bar
/// has more than thirty of them.
pub proof fn lemma_phrase_notes(
    state: u64,
    key: Key,
    scale: Scale,
    unit: UnitView,
    f: FnUnit,
    bars: int,
    start: int,
    voice: usize,
)
    requires
        key.root < 12,
        0 <= bars <= 4,
        0 <= start,
        start + bars * BAR <= u32::MAX,
    ensures
        phrase_notes_ok(
            motif_of(f, bars, start, voice),
            key,
            phrase_scale(scale, tension(f.nesting)),
            phrase_notes(state, key, scale, unit, f, bars, start, voice),
        ),
        phrase_notes(state, key, scale, unit, f, bars, start, voice).len() <= 30 * bars,
{
    let s = phrase_scale(scale, tension(f.nesting));
    let center = phrase_center(unit);
    let walk = walk_start(key, s, center);
    lemma_walk_start(key, s, center);
    assert forall|x: int| walk.lo <= x <= walk.hi implies 0 <= #[trigger] pitch_of(key, s, x)
        <= 126 by {
        lemma_register(key, s, center, x);
    }
    lemma_bars_added(
        motif_of(f, bars, start, voice),
        Phrase { notes: seq![], walk, state },
        bars,
    );
}

} // verus!
