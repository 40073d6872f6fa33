//! The subject and its mutations.
//!
//! A theme is two to four bars of notes on the grid of sixteenths, each with a scale
//! step, generated from the identity seed. Every commit applies mutation operators that
//! its own hash chooses: interval nudge, rhythmic displacement, ornament, swap of two
//! notes, and, rarely, inversion of the contour. Larger diffs apply more of them.

use vstd::prelude::*;

use crate::binary::{divide, quotient, Real};
use crate::model::{Key, Scale};
use crate::rng::{advance, draw_below, draw_weighted, lemma_draw_below, weight_sum, Rng};
use crate::sorting::{
    lemma_sorted_holds, lemma_sorted_in_order, lemma_sorted_len, lemma_sorted_of_ordered, placed,
    sort, sorted, views, Ranked, Sortable,
};
use crate::theory::{
    clamp, contour_at, contour_target, lemma_positions, lemma_register, lemma_steps_bounds,
    lemma_steps_roundtrip, lemma_walk_start, lemma_walk_step, midi_to_steps, pick_positions,
    pitch_of, positions, positions_state, scale_len, steps_of, walk_pitch, walk_start, walk_state,
    walk_step, walk_wf, Contour, MelodyWalk, WalkView,
};

verus! {

/// A note of a theme.
#[derive(Debug, Clone, Copy, PartialEq, Eq, Structural)]
pub struct ThemeNote {
    /// The sixteenth that the note stands on, counted across the whole theme.
    pub slot: u32,
    /// The absolute scale step.
    pub degree: i32,
    /// The metric weight: heavier notes survive thinning longer.
    pub weight: u8,
}

impl View for ThemeNote {
    type V = ThemeNote;

    open spec fn view(&self) -> ThemeNote {
        *self
    }
}

/// Notes rank by slot.
impl Ranked for ThemeNote {
    open spec fn le(self, other: Self) -> bool {
        self.slot <= other.slot
    }

    proof fn le_total(a: Self, b: Self) {
    }

    proof fn le_transitive(a: Self, b: Self, c: Self) {
    }
}

impl Sortable for ThemeNote {
    fn no_higher(&self, other: &Self) -> (r: bool) {
        self.slot <= other.slot
    }
}

/// What a `Theme` says.
#[verifier::ext_equal]
pub struct ThemeView {
    pub bars: u32,
    pub notes: Seq<ThemeNote>,
    pub center: int,
    pub lo: int,
    pub hi: int,
}

/// The weight of a sixteenth of a bar: the downbeat 3, the other beats 2, the rest 1.
pub open spec fn metric_weight(slot_in_bar: int) -> u8 {
    if slot_in_bar == 0 {
        3
    } else if slot_in_bar % 4 == 0 {
        2
    } else {
        1
    }
}

/// Whether one of the notes stands on the slot.
pub open spec fn has_slot(notes: Seq<ThemeNote>, slot: int) -> bool {
    exists|i: int| 0 <= i < notes.len() && (#[trigger] notes[i]).slot == slot
}

/// Whether no two notes stand on one slot.
pub open spec fn distinct_slots(notes: Seq<ThemeNote>) -> bool {
    forall|i: int, j: int|
        0 <= i < j < notes.len() ==> (#[trigger] notes[i]).slot != (#[trigger] notes[j]).slot
}

/// Whether each note stands behind the one before it.
pub open spec fn rising_slots(notes: Seq<ThemeNote>) -> bool {
    forall|i: int, j: int|
        0 <= i < j < notes.len() ==> (#[trigger] notes[i]).slot < (#[trigger] notes[j]).slot
}

/// Whether every note stands inside the bars and within `reach` steps of the center.
pub open spec fn notes_within(t: ThemeView, reach: int) -> bool {
    forall|i: int|
        0 <= i < t.notes.len() ==> (#[trigger] t.notes[i]).slot < t.bars * 16 && t.center - reach
            <= t.notes[i].degree <= t.center + reach
}

/// Whether a theme has bars, and a register around its center.
pub open spec fn theme_frame(t: ThemeView) -> bool {
    &&& 1 <= t.bars <= 0xfff_ffff
    &&& -200 <= t.center <= 200
    &&& t.center - 10 <= t.lo <= t.center <= t.hi <= t.center + 10
}

/// How far from the center a theme's notes can stand.
pub const REACH: i32 = 400;

/// A theme as it stands between mutations: its notes lie inside its bars, each behind the
/// one before it.
pub open spec fn theme_wf(t: ThemeView) -> bool {
    &&& theme_frame(t)
    &&& rising_slots(t.notes)
    &&& notes_within(t, REACH as int)
}

/// A theme in the middle of a mutation.
spec fn theme_loose(t: ThemeView, reach: int) -> bool {
    &&& theme_frame(t)
    &&& distinct_slots(t.notes)
    &&& notes_within(t, reach)
}

/// One up or one down, as a fair coin falls.
pub open spec fn coin_step(state: u64) -> int {
    if draw_weighted(state, seq![50u32, 50]) == 0 {
        1
    } else {
        -1
    }
}

/// Moves the pitch of one note by a step.
pub open spec fn nudged(t: ThemeView, state: u64) -> (ThemeView, u64) {
    if t.notes.len() == 0 {
        (t, state)
    } else {
        let i = draw_below(state, t.notes.len() as int);
        let n = t.notes[i];
        let to = ThemeNote { degree: (n.degree + coin_step(advance(state))) as i32, ..n };
        (ThemeView { notes: t.notes.update(i, to), ..t }, advance(advance(state)))
    }
}

/// Moves one note by a sixteenth, if that one is free and lies in the same bar.
pub open spec fn displaced(t: ThemeView, state: u64) -> (ThemeView, u64) {
    if t.notes.len() == 0 {
        (t, state)
    } else {
        let i = draw_below(state, t.notes.len() as int);
        let n = t.notes[i];
        let slot = n.slot + coin_step(advance(state));
        let end = advance(advance(state));
        if slot < 0 || slot / 16 != n.slot as int / 16 || has_slot(t.notes, slot) {
            (t, end)
        } else {
            let to = ThemeNote {
                slot: slot as u32,
                weight: metric_weight(slot % 16),
                degree: n.degree,
            };
            (ThemeView { notes: t.notes.update(i, to), ..t }, end)
        }
    }
}

/// The last of the lightest among the first `k` notes.
pub open spec fn lightest(notes: Seq<ThemeNote>, k: int) -> int
    decreases k,
{
    if k <= 1 {
        0
    } else if notes[k - 1].weight <= notes[lightest(notes, k - 1)].weight {
        k - 1
    } else {
        lightest(notes, k - 1)
    }
}

/// Adds a light note one sixteenth and one step away in front of a note, if there is room,
/// or takes the lightest note away, if more than three are there. A bar of few notes
/// gains one, a bar of many loses one, and a coin decides in between.
pub open spec fn ornamented(t: ThemeView, state: u64) -> (ThemeView, u64) {
    if t.notes.len() == 0 {
        (t, state)
    } else {
        let per_bar = t.notes.len() as int / t.bars as int;
        let open = 3 < per_bar <= 7;
        let s1 = if open {
            advance(state)
        } else {
            state
        };
        if per_bar > 7 || (open && draw_weighted(state, seq![50u32, 50]) == 1) {
            if t.notes.len() > 3 {
                (
                    ThemeView {
                        notes: t.notes.remove(lightest(t.notes, t.notes.len() as int)),
                        ..t
                    },
                    s1,
                )
            } else {
                (t, s1)
            }
        } else {
            let anchor = t.notes[draw_below(s1, t.notes.len() as int)];
            let slot = anchor.slot - 1;
            let s2 = advance(s1);
            if anchor.slot == 0 || slot / 16 != anchor.slot as int / 16 || has_slot(t.notes, slot) {
                (t, s2)
            } else {
                let pickup = ThemeNote {
                    slot: slot as u32,
                    degree: (anchor.degree + coin_step(s2)) as i32,
                    weight: 0,
                };
                (ThemeView { notes: t.notes.push(pickup), ..t }, advance(s2))
            }
        }
    }
}

/// Exchanges the pitches of two notes.
pub open spec fn swapped(t: ThemeView, state: u64) -> (ThemeView, u64) {
    if t.notes.len() < 2 {
        (t, state)
    } else {
        let i = draw_below(state, t.notes.len() as int);
        let j = draw_below(advance(state), t.notes.len() as int);
        let a = t.notes[i];
        let b = t.notes[j];
        (
            ThemeView {
                notes: t.notes.update(i, ThemeNote { degree: b.degree, ..a }).update(
                    j,
                    ThemeNote { degree: a.degree, ..b },
                ),
                ..t
            },
            advance(advance(state)),
        )
    }
}

/// Mirrors every pitch at the center.
pub open spec fn inverted(t: ThemeView) -> ThemeView {
    ThemeView {
        notes: t.notes.map_values(
            |n: ThemeNote| ThemeNote { degree: (2 * t.center - n.degree) as i32, ..n },
        ),
        ..t
    }
}

/// The weights of the mutation operators.
pub open spec fn operator_weights() -> Seq<u32> {
    seq![25u32, 25, 20, 25, 5]
}

/// The theme and the generator's state after one mutation operator.
pub open spec fn mutation(t: ThemeView, state: u64) -> (ThemeView, u64) {
    let op = draw_weighted(state, operator_weights());
    let s = advance(state);
    if op == 0 {
        nudged(t, s)
    } else if op == 1 {
        displaced(t, s)
    } else if op == 2 {
        ornamented(t, s)
    } else if op == 3 {
        swapped(t, s)
    } else {
        (inverted(t), s)
    }
}

/// The theme and the generator's state after `n` mutation operators.
pub open spec fn mutations(t: ThemeView, state: u64, n: nat) -> (ThemeView, u64)
    decreases n,
{
    if n == 0 {
        (t, state)
    } else {
        let before = mutations(t, state, (n - 1) as nat);
        mutation(before.0, before.1)
    }
}

/// The notes with their pitches brought into the register.
pub open spec fn confined(notes: Seq<ThemeNote>, lo: int, hi: int) -> Seq<ThemeNote> {
    notes.map_values(
        |n: ThemeNote| ThemeNote { degree: clamp(n.degree as int, lo, hi) as i32, ..n },
    )
}

/// The theme after a commit that applies `ops` operators: their result, confined to the
/// register and in the order of the slots.
pub open spec fn mutated(t: ThemeView, state: u64, ops: nat) -> ThemeView {
    let m = mutations(t, state, ops).0;
    ThemeView { notes: sorted(confined(m.notes, m.lo, m.hi)), ..m }
}

/// A theme under construction: its notes so far, the walk, and the generator's state.
#[verifier::ext_equal]
pub struct Draft {
    pub notes: Seq<ThemeNote>,
    pub walk: WalkView,
    pub state: u64,
}

/// The draft with the notes on the first `k` slots of a bar added.
pub open spec fn bar_drafted(
    d: Draft,
    contour: Contour,
    bar: int,
    bars: int,
    slots: Seq<u32>,
    k: int,
) -> Draft
    decreases k,
{
    if k <= 0 {
        d
    } else {
        let before = bar_drafted(d, contour, bar, bars, slots, k - 1);
        let at = bar * 16 + slots[k - 1];
        let pull = contour_target(contour, quotient(at as nat, (bars * 16) as nat));
        let walk = walk_step(before.walk, before.state, pull);
        let note = ThemeNote {
            slot: at as u32,
            degree: steps_of(walk.key, walk.scale, walk_pitch(walk)) as i32,
            weight: metric_weight(slots[k - 1] as int),
        };
        Draft {
            notes: before.notes.push(note),
            walk,
            state: walk_state(before.walk, before.state, pull),
        }
    }
}

/// The draft with the first `b` bars added: five to seven notes each.
pub open spec fn bars_drafted(d: Draft, contour: Contour, bars: int, b: int) -> Draft
    decreases b,
{
    if b <= 0 {
        d
    } else {
        let before = bars_drafted(d, contour, bars, b - 1);
        let density = (5 + draw_below(before.state, 3)) as nat;
        let s = advance(before.state);
        let slots = positions(s, density, b == bars);
        bar_drafted(
            Draft { state: positions_state(s, density, b == bars), ..before },
            contour,
            b - 1,
            bars,
            slots,
            slots.len() as int,
        )
    }
}

/// How many bars a subject has: two to four.
pub open spec fn subject_bars(state: u64) -> int {
    2 + draw_below(state, 3)
}

/// The notes of a subject, its walk, and the generator's state behind it.
pub open spec fn subject_draft(state: u64, key: Key, scale: Scale, center_midi: int) -> Draft {
    bars_drafted(
        Draft {
            notes: seq![],
            walk: walk_start(key, scale, center_midi),
            state: advance(advance(state)),
        },
        contour_at(draw_below(advance(state), 5)),
        subject_bars(state),
        subject_bars(state),
    )
}

/// The subject that a generator in `state` gives.
pub open spec fn subject(state: u64, key: Key, scale: Scale, center_midi: int) -> ThemeView {
    let center = steps_of(key, scale, center_midi);
    let span = (scale_len(scale) * 3) / 2;
    ThemeView {
        bars: subject_bars(state) as u32,
        notes: subject_draft(state, key, scale, center_midi).notes,
        center,
        lo: center - span,
        hi: center + span,
    }
}

/// The notes that stand in a bar.
pub open spec fn notes_of_bar(notes: Seq<ThemeNote>, bar: int) -> Seq<ThemeNote> {
    notes.filter(|n: ThemeNote| bar * 16 <= n.slot < bar * 16 + 16)
}

/// The notes of a bar as sixteenth in the bar, scale step and weight.
pub open spec fn bar_view(notes: Seq<ThemeNote>, bar: int) -> Seq<(u32, i32, u8)> {
    notes_of_bar(notes, bar).map_values(
        |n: ThemeNote| ((n.slot - bar * 16) as u32, n.degree, n.weight),
    )
}

/// The binary logarithm, rounded down.
pub open spec fn log2(n: nat) -> nat
    decreases n,
{
    if n <= 1 {
        0
    } else {
        1 + log2(n / 2)
    }
}

/// How many mutation operators a commit applies.
pub open spec fn operator_count(diff_magnitude: nat) -> int {
    let n = 1 + log2(diff_magnitude + 1) / 3;
    if n < 5 {
        n as int
    } else {
        5
    }
}

proof fn lemma_coin()
    ensures
        weight_sum(seq![50u32, 50], 2) == 100,
        weight_sum(operator_weights(), 5) == 100,
{
    reveal_with_fuel(weight_sum, 6);
}

proof fn lemma_lightest(notes: Seq<ThemeNote>, k: int)
    requires
        1 <= k <= notes.len(),
    ensures
        0 <= lightest(notes, k) < k,
    decreases k,
{
    if k > 1 {
        lemma_lightest(notes, k - 1);
    }
}

/// A removed note is one of the lightest, and the last of them.
pub proof fn lemma_lightest_is_last_least(notes: Seq<ThemeNote>, k: int)
    requires
        1 <= k <= notes.len(),
    ensures
        0 <= lightest(notes, k) < k,
        forall|i: int|
            0 <= i < k ==> notes[lightest(notes, k)].weight <= (#[trigger] notes[i]).weight,
        forall|i: int|
            lightest(notes, k) < i < k ==> notes[lightest(notes, k)].weight
                < (#[trigger] notes[i]).weight,
    decreases k,
{
    if k > 1 {
        lemma_lightest_is_last_least(notes, k - 1);
    }
}

proof fn lemma_loose_count(t: ThemeView, reach: int)
    requires
        theme_loose(t, reach),
    ensures
        t.notes.len() <= t.bars * 16,
{
    lemma_distinct_bound(t.notes, t.bars * 16);
}

/// Notes on distinct slots below `n` are at most `n` many.
proof fn lemma_distinct_bound(notes: Seq<ThemeNote>, n: int)
    requires
        n >= 0,
        distinct_slots(notes),
        forall|i: int| 0 <= i < notes.len() ==> (#[trigger] notes[i]).slot < n,
    ensures
        notes.len() <= n,
    decreases n,
{
    if notes.len() > 0 {
        if n == 0 {
            assert(notes[0].slot < 0);
        }
        if has_slot(notes, n - 1) {
            let i = choose|i: int| 0 <= i < notes.len() && (#[trigger] notes[i]).slot == n - 1;
            let rest = notes.remove(i);
            assert forall|a: int, b: int| 0 <= a < b < rest.len() implies (#[trigger] rest[a]).slot
                != (#[trigger] rest[b]).slot by {
                let a2 = if a < i { a } else { a + 1 };
                let b2 = if b < i { b } else { b + 1 };
                assert(notes[a2].slot != notes[b2].slot);
            }
            assert forall|a: int| 0 <= a < rest.len() implies (#[trigger] rest[a]).slot < n - 1 by {
                let a2 = if a < i { a } else { a + 1 };
                assert(notes[a2].slot < n);
                if a2 < i {
                    assert(notes[a2].slot != notes[i].slot);
                } else {
                    assert(notes[i].slot != notes[a2].slot);
                }
            }
            lemma_distinct_bound(rest, n - 1);
        } else {
            lemma_distinct_bound(notes, n - 1);
        }
    }
}

/// What `n` operators keep: the frame, at least three notes if there were as many, and at
/// most eight a bar if there were no more. Each adds a note or takes one away at most.
spec fn operators_keep(t: ThemeView, u: ThemeView, reach: int, n: int) -> bool {
    &&& theme_loose(u, reach)
    &&& u.bars == t.bars
    &&& u.center == t.center
    &&& u.lo == t.lo
    &&& u.hi == t.hi
    &&& t.notes.len() >= 3 ==> u.notes.len() >= 3
    &&& t.notes.len() <= 8 * t.bars ==> u.notes.len() <= 8 * t.bars
    &&& t.notes.len() - n <= u.notes.len() <= t.notes.len() + n
}

/// As many operators at once leave every scale step in 32 bits.
pub const MAX_OPS: u32 = 2_147_482_000;

/// The reach that keeps every scale step of a mutation in 32 bits.
pub const MAX_REACH: i64 = 2_147_483_000;

proof fn lemma_nudged(t: ThemeView, state: u64, reach: int)
    requires
        theme_loose(t, reach),
        0 <= reach < MAX_REACH,
    ensures
        operators_keep(t, nudged(t, state).0, reach + 1, 1),
{
    if t.notes.len() > 0 {
        lemma_draw_below(state, t.notes.len() as int);
        let i = draw_below(state, t.notes.len() as int);
        let u = nudged(t, state).0;
        assert(t.notes[i].slot < t.bars * 16);
        assert forall|a: int, b: int| 0 <= a < b < u.notes.len() implies (
        #[trigger] u.notes[a]).slot != (#[trigger] u.notes[b]).slot by {
            assert(t.notes[a].slot != t.notes[b].slot);
        }
        assert forall|a: int| 0 <= a < u.notes.len() implies (#[trigger] u.notes[a]).slot < u.bars
            * 16 && u.center - (reach + 1) <= u.notes[a].degree <= u.center + (reach + 1) by {
            assert(t.notes[a].slot < t.bars * 16);
        }
    }
}

proof fn lemma_displaced(t: ThemeView, state: u64, reach: int)
    requires
        theme_loose(t, reach),
    ensures
        operators_keep(t, displaced(t, state).0, reach, 1),
{
    if t.notes.len() > 0 {
        lemma_draw_below(state, t.notes.len() as int);
        let i = draw_below(state, t.notes.len() as int);
        let u = displaced(t, state).0;
        let slot = t.notes[i].slot + coin_step(advance(state));
        assert(t.notes[i].slot < t.bars * 16);
        if u != t {
            assert(u.notes[i].slot == slot);
            assert forall|a: int, b: int| 0 <= a < b < u.notes.len() implies (
            #[trigger] u.notes[a]).slot != (#[trigger] u.notes[b]).slot by {
                assert(t.notes[a].slot != t.notes[b].slot);
                assert(t.notes[a].slot != slot && t.notes[b].slot != slot);
            }
            assert forall|a: int| 0 <= a < u.notes.len() implies (#[trigger] u.notes[a]).slot
                < u.bars * 16 && u.center - reach <= u.notes[a].degree <= u.center + reach by {
                assert(t.notes[a].slot < t.bars * 16);
            }
        }
    }
}

proof fn lemma_ornamented(t: ThemeView, state: u64, reach: int)
    requires
        theme_loose(t, reach),
        0 <= reach < MAX_REACH,
    ensures
        operators_keep(t, ornamented(t, state).0, reach + 1, 1),
{
    let u = ornamented(t, state).0;
    let len = t.notes.len() as int;
    if len > 0 {
        lemma_lightest(t.notes, len);
        let l = lightest(t.notes, len);
        if u.notes.len() < len {
            assert(u.notes == t.notes.remove(l));
            assert forall|a: int, b: int| 0 <= a < b < u.notes.len() implies (
            #[trigger] u.notes[a]).slot != (#[trigger] u.notes[b]).slot by {
                let a2 = if a < l { a } else { a + 1 };
                let b2 = if b < l { b } else { b + 1 };
                assert(t.notes[a2].slot != t.notes[b2].slot);
            }
            assert forall|a: int| 0 <= a < u.notes.len() implies (#[trigger] u.notes[a]).slot
                < u.bars * 16 && u.center - (reach + 1) <= u.notes[a].degree <= u.center + (reach
                + 1) by {
                let a2 = if a < l { a } else { a + 1 };
                assert(t.notes[a2].slot < t.bars * 16);
            }
        } else if u.notes.len() > len {
            let per_bar = len / t.bars as int;
            let bars = t.bars as int;
            assert(len < 8 * bars) by (nonlinear_arith)
                requires
                    bars >= 1,
                    len / bars <= 7,
            ;
            let s1 = if 3 < per_bar <= 7 {
                advance(state)
            } else {
                state
            };
            lemma_draw_below(s1, len);
            let anchor = t.notes[draw_below(s1, len)];
            assert(anchor.slot < t.bars * 16);
            let slot = anchor.slot - 1;
            assert(u.notes[len].slot == slot);
            assert(!has_slot(t.notes, slot));
            assert forall|a: int, b: int| 0 <= a < b < u.notes.len() implies (
            #[trigger] u.notes[a]).slot != (#[trigger] u.notes[b]).slot by {
                assert(t.notes[a].slot != slot);
                if b < len {
                    assert(t.notes[a].slot != t.notes[b].slot);
                }
            }
            assert forall|a: int| 0 <= a < u.notes.len() implies (#[trigger] u.notes[a]).slot
                < u.bars * 16 && u.center - (reach + 1) <= u.notes[a].degree <= u.center + (reach
                + 1) by {
                if a < len {
                    assert(t.notes[a].slot < t.bars * 16);
                }
            }
        } else {
            assert(u.notes == t.notes);
            assert(notes_within(u, reach + 1)) by {
                assert forall|a: int| 0 <= a < u.notes.len() implies (#[trigger] u.notes[a]).slot
                    < u.bars * 16 && u.center - (reach + 1) <= u.notes[a].degree <= u.center + (
                reach + 1) by {
                    assert(t.notes[a].slot < t.bars * 16);
                }
            }
        }
    }
}

proof fn lemma_swapped(t: ThemeView, state: u64, reach: int)
    requires
        theme_loose(t, reach),
    ensures
        operators_keep(t, swapped(t, state).0, reach, 1),
{
    let len = t.notes.len() as int;
    if len >= 2 {
        lemma_draw_below(state, len);
        lemma_draw_below(advance(state), len);
        let i = draw_below(state, len);
        let j = draw_below(advance(state), len);
        let u = swapped(t, state).0;
        assert(t.notes[i].slot < t.bars * 16 && t.notes[j].slot < t.bars * 16);
        assert forall|a: int| 0 <= a < len implies (#[trigger] u.notes[a]).slot == t.notes[a].slot
            && t.center - reach <= u.notes[a].degree <= t.center + reach by {
            assert(t.notes[a].slot < t.bars * 16);
        }
        assert forall|a: int, b: int| 0 <= a < b < u.notes.len() implies (
        #[trigger] u.notes[a]).slot != (#[trigger] u.notes[b]).slot by {
            assert(t.notes[a].slot != t.notes[b].slot);
        }
        assert forall|a: int| 0 <= a < u.notes.len() implies (#[trigger] u.notes[a]).slot < u.bars
            * 16 && u.center - reach <= u.notes[a].degree <= u.center + reach by {
            assert(t.notes[a].slot < t.bars * 16);
        }
    }
}

proof fn lemma_inverted(t: ThemeView, reach: int)
    requires
        theme_loose(t, reach),
        0 <= reach < MAX_REACH,
    ensures
        operators_keep(t, inverted(t), reach, 1),
{
    let u = inverted(t);
    assert forall|a: int, b: int| 0 <= a < b < u.notes.len() implies (#[trigger] u.notes[a]).slot
        != (#[trigger] u.notes[b]).slot by {
        assert(t.notes[a].slot != t.notes[b].slot);
    }
    assert forall|a: int| 0 <= a < u.notes.len() implies (#[trigger] u.notes[a]).slot < u.bars * 16
        && u.center - reach <= u.notes[a].degree <= u.center + reach by {
        assert(t.notes[a].slot < t.bars * 16);
    }
}

proof fn lemma_reach_grows(t: ThemeView, a: int, b: int)
    requires
        notes_within(t, a),
        a <= b,
    ensures
        notes_within(t, b),
{
    assert forall|i: int| 0 <= i < t.notes.len() implies (#[trigger] t.notes[i]).slot < t.bars * 16
        && t.center - b <= t.notes[i].degree <= t.center + b by {
        assert(t.notes[i].slot < t.bars * 16 && t.center - a <= t.notes[i].degree <= t.center + a);
    }
}

proof fn lemma_mutation(t: ThemeView, state: u64, reach: int)
    requires
        theme_loose(t, reach),
        0 <= reach < MAX_REACH,
    ensures
        operators_keep(t, mutation(t, state).0, reach + 1, 1),
{
    let s = advance(state);
    lemma_nudged(t, s, reach);
    lemma_displaced(t, s, reach);
    lemma_ornamented(t, s, reach);
    lemma_swapped(t, s, reach);
    lemma_inverted(t, reach);
    lemma_reach_grows(displaced(t, s).0, reach, reach + 1);
    lemma_reach_grows(swapped(t, s).0, reach, reach + 1);
    lemma_reach_grows(inverted(t), reach, reach + 1);
}

proof fn lemma_mutations(t: ThemeView, state: u64, n: nat)
    requires
        theme_wf(t),
        n <= MAX_OPS,
    ensures
        operators_keep(t, mutations(t, state, n).0, REACH + n, n as int),
    decreases n,
{
    if n > 0 {
        lemma_mutations(t, state, (n - 1) as nat);
        let before = mutations(t, state, (n - 1) as nat);
        lemma_mutation(before.0, before.1, REACH + n - 1);
    } else {
        assert forall|a: int, b: int| 0 <= a < b < t.notes.len() implies (
        #[trigger] t.notes[a]).slot != (#[trigger] t.notes[b]).slot by {
            assert(t.notes[a].slot < t.notes[b].slot);
        }
    }
}

/// A mutated theme keeps its bars and its register. Its notes lie inside the bars and the
/// register, each behind the one before it. A theme of three notes or more never falls below
/// three, one of eight notes a bar or fewer stays so, and every operator adds a note or takes
/// one away at most.
pub proof fn lemma_mutated(t: ThemeView, state: u64, ops: nat)
    requires
        theme_wf(t),
        ops <= MAX_OPS,
    ensures
        ({
            let u = mutated(t, state, ops);
            &&& theme_wf(u)
            &&& u.bars == t.bars
            &&& u.center == t.center
            &&& u.lo == t.lo
            &&& u.hi == t.hi
            &&& t.notes.len() >= 3 ==> u.notes.len() >= 3
            &&& t.notes.len() <= 8 * t.bars ==> u.notes.len() <= 8 * t.bars
            &&& t.notes.len() - ops <= u.notes.len() <= t.notes.len() + ops
            &&& forall|i: int|
                0 <= i < u.notes.len() ==> u.lo <= (#[trigger] u.notes[i]).degree <= u.hi
        }),
{
    lemma_mutations(t, state, ops);
    let m = mutations(t, state, ops).0;
    let c = confined(m.notes, m.lo, m.hi);
    let u = mutated(t, state, ops);
    lemma_sorted_len(c);
    lemma_sorted_in_order(c);
    assert forall|i: int| 0 <= i < u.notes.len() implies (#[trigger] u.notes[i]).slot < u.bars * 16
        && u.lo <= u.notes[i].degree <= u.hi by {
        lemma_sorted_holds(c, u.notes[i]);
        assert(u.notes.contains(u.notes[i]));
        let k = choose|k: int| 0 <= k < c.len() && c[k] == u.notes[i];
        assert(m.notes[k].slot < m.bars * 16);
    }
    assert(distinct_slots(c)) by {
        assert forall|a: int, b: int| 0 <= a < b < c.len() implies (#[trigger] c[a]).slot != (
        #[trigger] c[b]).slot by {
            assert(m.notes[a].slot != m.notes[b].slot);
        }
    }
    lemma_sorted_distinct(c);
    assert forall|a: int, b: int| 0 <= a < b < u.notes.len() implies (#[trigger] u.notes[a]).slot
        < (#[trigger] u.notes[b]).slot by {
        assert(u.notes[a].le(u.notes[b]));
    }
}

/// Sorting keeps the slots distinct.
proof fn lemma_sorted_distinct(notes: Seq<ThemeNote>)
    requires
        distinct_slots(notes),
    ensures
        distinct_slots(sorted(notes)),
    decreases notes.len(),
{
    if notes.len() > 0 {
        let rest = notes.drop_last();
        assert forall|a: int, b: int| 0 <= a < b < rest.len() implies (#[trigger] rest[a]).slot != (
        #[trigger] rest[b]).slot by {
            assert(notes[a].slot != notes[b].slot);
        }
        lemma_sorted_distinct(rest);
        let x = notes.last();
        assert(!has_slot(sorted(rest), x.slot as int)) by {
            if has_slot(sorted(rest), x.slot as int) {
                let i = choose|i: int|
                    0 <= i < sorted(rest).len() && (#[trigger] sorted(rest)[i]).slot == x.slot;
                let y = sorted(rest)[i];
                assert(sorted(rest).contains(y));
                lemma_sorted_holds(rest, y);
                let k = choose|k: int| 0 <= k < rest.len() && rest[k] == y;
                assert(notes[k].slot != notes[notes.len() - 1].slot);
            }
        }
        lemma_placed_distinct(sorted(rest), x);
    }
}

proof fn lemma_placed_distinct(s: Seq<ThemeNote>, x: ThemeNote)
    requires
        distinct_slots(s),
        !has_slot(s, x.slot as int),
    ensures
        distinct_slots(placed(s, x)),
        forall|y: int| #[trigger] has_slot(placed(s, x), y) <==> has_slot(s, y) || y == x.slot,
    decreases s.len(),
{
    let t = placed(s, x);
    if s.len() == 0 || s.last().le(x) {
        assert(t == s.push(x));
        assert forall|a: int, b: int| 0 <= a < b < t.len() implies (#[trigger] t[a]).slot != (
        #[trigger] t[b]).slot by {
            if b < s.len() {
                assert(s[a].slot != s[b].slot);
            } else {
                assert(s[a].slot != x.slot);
            }
        }
        lemma_has_slot_push(s, x);
    } else {
        let r = s.drop_last();
        assert forall|a: int, b: int| 0 <= a < b < r.len() implies (#[trigger] r[a]).slot != (
        #[trigger] r[b]).slot by {
            assert(s[a].slot != s[b].slot);
        }
        assert(r.push(s.last()) =~= s);
        lemma_has_slot_push(r, s.last());
        lemma_placed_distinct(r, x);
        let u = placed(r, x);
        lemma_has_slot_push(u, s.last());
        assert(!has_slot(r, s.last().slot as int)) by {
            if has_slot(r, s.last().slot as int) {
                let i = choose|i: int| 0 <= i < r.len() && (#[trigger] r[i]).slot == s.last().slot;
                assert(s[i].slot != s[s.len() - 1].slot);
            }
        }
        assert(s[s.len() - 1].slot != x.slot);
        assert(!has_slot(u, s.last().slot as int));
        assert forall|a: int, b: int| 0 <= a < b < t.len() implies (#[trigger] t[a]).slot != (
        #[trigger] t[b]).slot by {
            if b < u.len() {
                assert(u[a].slot != u[b].slot);
            } else {
                assert(u[a].slot != s.last().slot);
            }
        }
    }
}

proof fn lemma_has_slot_push(s: Seq<ThemeNote>, x: ThemeNote)
    ensures
        forall|y: int| #[trigger] has_slot(s.push(x), y) <==> has_slot(s, y) || y == x.slot,
{
    assert forall|y: int| #[trigger] has_slot(s.push(x), y) <==> has_slot(s, y) || y == x.slot by {
        let t = s.push(x);
        if has_slot(t, y) {
            let i = choose|i: int| 0 <= i < t.len() && (#[trigger] t[i]).slot == y;
            if i < s.len() {
                assert(s[i].slot == y);
            }
        }
        if has_slot(s, y) {
            let i = choose|i: int| 0 <= i < s.len() && (#[trigger] s[i]).slot == y;
            assert(t[i].slot == y);
        }
        if y == x.slot {
            assert(t[s.len() as int].slot == y);
        }
    }
}

/// What holds of a theme under construction with all its notes before `end`.
spec fn draft_wf(d: Draft, end: int) -> bool {
    &&& walk_wf(d.walk)
    &&& rising_slots(d.notes)
    &&& forall|i: int|
        0 <= i < d.notes.len() ==> (#[trigger] d.notes[i]).slot < end && -160 <= d.notes[i].degree
            <= 160
}

proof fn lemma_bar_drafted(
    d: Draft,
    contour: Contour,
    bar: int,
    bars: int,
    slots: Seq<u32>,
    k: int,
)
    requires
        0 <= k <= slots.len(),
        0 <= bar < bars <= 4,
        draft_wf(d, bar * 16),
        forall|i: int| 0 <= i < slots.len() ==> #[trigger] slots[i] < 16,
        forall|i: int, j: int|
            0 <= i < j < slots.len() ==> #[trigger] slots[i] < #[trigger] slots[j],
    ensures
        ({
            let r = bar_drafted(d, contour, bar, bars, slots, k);
            &&& draft_wf(
                r,
                if k < slots.len() {
                    bar * 16 + slots[k]
                } else {
                    bar * 16 + 16
                },
            )
            &&& r.notes.len() == d.notes.len() + k
            &&& r.walk.key == d.walk.key
            &&& r.walk.scale == d.walk.scale
        }),
    decreases k,
{
    if k > 0 {
        lemma_bar_drafted(d, contour, bar, bars, slots, k - 1);
        let before = bar_drafted(d, contour, bar, bars, slots, k - 1);
        let at = bar * 16 + slots[k - 1];
        let pull = contour_target(contour, quotient(at as nat, (bars * 16) as nat));
        lemma_walk_step(before.walk, before.state, pull);
        let walk = walk_step(before.walk, before.state, pull);
        lemma_steps_bounds(walk.key, walk.scale, walk_pitch(walk));
        let r = bar_drafted(d, contour, bar, bars, slots, k);
        assert(r.notes.last().slot == at);
        assert forall|i: int, j: int| 0 <= i < j < r.notes.len() implies (
        #[trigger] r.notes[i]).slot < (#[trigger] r.notes[j]).slot by {
            assert(before.notes[i].slot < at);
        }
        if k < slots.len() {
            assert(slots[k - 1] < slots[k]);
        }
    } else if slots.len() > 0 {
        assert(slots[0] >= 0);
    }
}

proof fn lemma_bars_drafted(d: Draft, contour: Contour, bars: int, b: int)
    requires
        draft_wf(d, 0),
        0 <= b <= bars <= 4,
    ensures
        ({
            let r = bars_drafted(d, contour, bars, b);
            &&& draft_wf(r, b * 16)
            &&& d.notes.len() + 5 * b <= r.notes.len() <= d.notes.len() + 7 * b
            &&& r.walk.key == d.walk.key
            &&& r.walk.scale == d.walk.scale
        }),
    decreases b,
{
    if b > 0 {
        lemma_bars_drafted(d, contour, bars, b - 1);
        let before = bars_drafted(d, contour, bars, b - 1);
        lemma_draw_below(before.state, 3);
        let density = (5 + draw_below(before.state, 3)) as nat;
        let s = advance(before.state);
        let slots = positions(s, density, b == bars);
        lemma_positions(s, density, b == bars);
        let mid = Draft { state: positions_state(s, density, b == bars), ..before };
        lemma_bar_drafted(mid, contour, b - 1, bars, slots, slots.len() as int);
    }
}

/// A subject has two to four bars, five to seven notes for each, and its notes lie inside
/// the bars, each behind the one before it.
pub proof fn lemma_subject(state: u64, key: Key, scale: Scale, center_midi: int)
    requires
        0 <= center_midi <= 255,
    ensures
        ({
            let t = subject(state, key, scale, center_midi);
            &&& theme_wf(t)
            &&& 2 <= t.bars <= 4
            &&& 5 * t.bars <= t.notes.len() <= 7 * t.bars
        }),
{
    lemma_draw_below(state, 3);
    lemma_walk_start(key, scale, center_midi);
    lemma_steps_bounds(key, scale, center_midi);
    let d = Draft {
        notes: seq![],
        walk: walk_start(key, scale, center_midi),
        state: advance(advance(state)),
    };
    let bars = subject_bars(state);
    lemma_bars_drafted(d, contour_at(draw_below(advance(state), 5)), bars, bars);
    let r = subject_draft(state, key, scale, center_midi);
    let t = subject(state, key, scale, center_midi);
    assert forall|i: int| 0 <= i < t.notes.len() implies (#[trigger] t.notes[i]).slot < t.bars * 16
        && t.center - REACH <= t.notes[i].degree <= t.center + REACH by {
        assert(r.notes[i].slot < bars * 16);
    }
}

/// Whether the notes lie in the register from `lo` to `hi`.
pub open spec fn notes_between(notes: Seq<ThemeNote>, lo: int, hi: int) -> bool {
    forall|i: int| 0 <= i < notes.len() ==> lo <= (#[trigger] notes[i]).degree <= hi
}

proof fn lemma_bar_span(
    d: Draft,
    contour: Contour,
    bar: int,
    bars: int,
    slots: Seq<u32>,
    k: int,
)
    requires
        0 <= k <= slots.len(),
        walk_wf(d.walk),
        notes_between(d.notes, d.walk.lo, d.walk.hi),
        forall|s: int|
            d.walk.lo <= s <= d.walk.hi ==> 0 <= #[trigger] pitch_of(d.walk.key, d.walk.scale, s)
                <= 127,
    ensures
        ({
            let r = bar_drafted(d, contour, bar, bars, slots, k);
            &&& walk_wf(r.walk)
            &&& r.walk.lo == d.walk.lo
            &&& r.walk.hi == d.walk.hi
            &&& r.walk.key == d.walk.key
            &&& r.walk.scale == d.walk.scale
            &&& notes_between(r.notes, d.walk.lo, d.walk.hi)
        }),
    decreases k,
{
    if k > 0 {
        lemma_bar_span(d, contour, bar, bars, slots, k - 1);
        let before = bar_drafted(d, contour, bar, bars, slots, k - 1);
        let at = bar * 16 + slots[k - 1];
        let pull = contour_target(contour, quotient(at as nat, (bars * 16) as nat));
        lemma_walk_step(before.walk, before.state, pull);
        let walk = walk_step(before.walk, before.state, pull);
        assert(0 <= pitch_of(walk.key, walk.scale, walk.pos) <= 127);
        lemma_steps_roundtrip(walk.key, walk.scale, walk.pos);
    }
}

proof fn lemma_bars_span(d: Draft, contour: Contour, bars: int, b: int)
    requires
        walk_wf(d.walk),
        notes_between(d.notes, d.walk.lo, d.walk.hi),
        forall|s: int|
            d.walk.lo <= s <= d.walk.hi ==> 0 <= #[trigger] pitch_of(d.walk.key, d.walk.scale, s)
                <= 127,
    ensures
        ({
            let r = bars_drafted(d, contour, bars, b);
            &&& walk_wf(r.walk)
            &&& r.walk.lo == d.walk.lo
            &&& r.walk.hi == d.walk.hi
            &&& r.walk.key == d.walk.key
            &&& r.walk.scale == d.walk.scale
            &&& notes_between(r.notes, d.walk.lo, d.walk.hi)
        }),
    decreases b,
{
    if b > 0 {
        lemma_bars_span(d, contour, bars, b - 1);
        let before = bars_drafted(d, contour, bars, b - 1);
        let density = (5 + draw_below(before.state, 3)) as nat;
        let s = advance(before.state);
        let slots = positions(s, density, b == bars);
        let mid = Draft { state: positions_state(s, density, b == bars), ..before };
        lemma_bar_span(mid, contour, b - 1, bars, slots, slots.len() as int);
    }
}

/// The notes of a subject around a center in the four middle octaves lie in its register.
pub proof fn lemma_subject_span(state: u64, key: Key, scale: Scale, center_midi: int)
    requires
        key.root < 12,
        36 <= center_midi <= 84,
    ensures
        ({
            let t = subject(state, key, scale, center_midi);
            notes_between(t.notes, t.lo, t.hi)
        }),
{
    lemma_walk_start(key, scale, center_midi);
    let d = Draft {
        notes: seq![],
        walk: walk_start(key, scale, center_midi),
        state: advance(advance(state)),
    };
    assert forall|s: int| d.walk.lo <= s <= d.walk.hi implies 0 <= #[trigger] pitch_of(
        key,
        scale,
        s,
    ) <= 127 by {
        lemma_register(key, scale, center_midi, s);
    }
    let bars = subject_bars(state);
    lemma_bars_span(d, contour_at(draw_below(advance(state), 5)), bars, bars);
}

/// Without an operator, a theme in its register stays as it is, and nothing is drawn.
pub proof fn lemma_not_mutated(t: ThemeView, state: u64)
    requires
        theme_wf(t),
        notes_between(t.notes, t.lo, t.hi),
    ensures
        mutated(t, state, 0) == t,
        mutations(t, state, 0).1 == state,
{
    let c = confined(t.notes, t.lo, t.hi);
    assert forall|i: int| 0 <= i < c.len() implies #[trigger] c[i] == t.notes[i] by {
        assert(t.lo <= t.notes[i].degree <= t.hi);
    }
    assert(c =~= t.notes);
    assert forall|i: int, j: int| 0 <= i <= j < c.len() implies (#[trigger] c[i]).le(
        #[trigger] c[j],
    ) by {
        if i < j {
            assert(c[i].slot < c[j].slot);
        }
    }
    lemma_sorted_of_ordered(c);
}

/// What a theme becomes by the first `k` of a list of commits, each given by the state of
/// its generator and the number of its operators.
pub open spec fn theme_reached(t: ThemeView, calls: Seq<(u64, nat)>, k: int) -> ThemeView
    decreases k,
{
    if k <= 0 {
        t
    } else {
        mutated(theme_reached(t, calls, k - 1), calls[k - 1].0, calls[k - 1].1)
    }
}

/// Heavy mutation keeps a theme playable: whatever happens to a subject, it keeps its bars
/// and its register of an octave and a half around the center, its notes lie inside both,
/// each behind the one before it, and there are three at least and eight a bar at most.
pub proof fn lemma_theme_playable(
    state: u64,
    key: Key,
    scale: Scale,
    center_midi: int,
    calls: Seq<(u64, nat)>,
    k: int,
)
    requires
        key.root < 12,
        36 <= center_midi <= 84,
        0 <= k <= calls.len(),
        forall|i: int| 0 <= i < calls.len() ==> (#[trigger] calls[i]).1 <= MAX_OPS,
    ensures
        ({
            let t = theme_reached(subject(state, key, scale, center_midi), calls, k);
            let center = steps_of(key, scale, center_midi);
            let span = (scale_len(scale) * 3) / 2;
            &&& theme_wf(t)
            &&& t.bars == subject_bars(state)
            &&& t.lo == center - span
            &&& t.hi == center + span
            &&& notes_between(t.notes, center - span, center + span)
            &&& 3 <= t.notes.len() <= 8 * t.bars
        }),
    decreases k,
{
    let first = subject(state, key, scale, center_midi);
    if k > 0 {
        lemma_theme_playable(state, key, scale, center_midi, calls, k - 1);
        let before = theme_reached(first, calls, k - 1);
        lemma_mutated(before, calls[k - 1].0, calls[k - 1].1);
    } else {
        lemma_draw_below(state, 3);
        lemma_subject(state, key, scale, center_midi);
        lemma_subject_span(state, key, scale, center_midi);
    }
}

proof fn lemma_log2_grows(a: nat, b: nat)
    requires
        a <= b,
    ensures
        log2(a) <= log2(b),
    decreases b,
{
    if a > 1 {
        lemma_log2_grows(a / 2, b / 2);
    }
}

/// A commit applies one to five operators, and a larger diff never fewer of them.
pub proof fn lemma_operator_count(a: nat, b: nat)
    requires
        a <= b,
    ensures
        1 <= operator_count(a) <= operator_count(b) <= 5,
{
    lemma_log2_grows(a + 1, b + 1);
}

/// The binary logarithm of a diff's size plus one, rounded down.
pub fn diff_class(diff_magnitude: u32) -> (r: u32)
    ensures
        r == log2((diff_magnitude + 1) as nat),
        r <= 32,
{
    let mut n: u64 = diff_magnitude as u64 + 1;
    let mut r: u32 = 0;
    proof {
        lemma_log2_grows(n as nat, 0x1_0000_0000);
        reveal_with_fuel(log2, 33);
    }
    while n > 1
        invariant
            log2((diff_magnitude + 1) as nat) == r + log2(n as nat),
            log2((diff_magnitude + 1) as nat) <= 32,
        decreases n,
    {
        n = n / 2;
        r = r + 1;
    }
    r
}

/// How many mutation operators a commit applies: at least one, growing with the logarithm
/// of the diff's size, and five at most, so that no single commit can erase the theme.
pub fn ops_for_diff(diff_magnitude: u32) -> (r: u32)
    ensures
        r == operator_count(diff_magnitude as nat),
        1 <= r <= 5,
{
    let n: u32 = 1 + diff_class(diff_magnitude) / 3;
    if n < 5 {
        n
    } else {
        5
    }
}

/// The weight of a sixteenth of a bar.
pub fn slot_weight(slot_in_bar: u32) -> (r: u8)
    ensures
        r == metric_weight(slot_in_bar as int),
{
    if slot_in_bar == 0 {
        3
    } else if slot_in_bar % 4 == 0 {
        2
    } else {
        1
    }
}

/// A theme.
#[derive(Debug, Clone)]
pub struct Theme {
    pub bars: u32,
    /// In the order of the slots.
    pub notes: Vec<ThemeNote>,
    /// The scale step that inversion mirrors at.
    pub center: i32,
    /// The ends of the register.
    pub lo: i32,
    pub hi: i32,
}

impl View for Theme {
    type V = ThemeView;

    open spec fn view(&self) -> ThemeView {
        ThemeView {
            bars: self.bars,
            notes: self.notes@,
            center: self.center as int,
            lo: self.lo as int,
            hi: self.hi as int,
        }
    }
}

/// The notes stand for themselves.
proof fn lemma_views(notes: Seq<ThemeNote>)
    ensures
        views(notes) == notes,
{
    assert(views(notes) =~= notes);
}

impl Theme {
    /// Generates the subject.
    pub fn generate(rng: &mut Rng, key: Key, scale: Scale, center_midi: u8) -> (r: Theme)
        ensures
            r@ == subject(old(rng)@, key, scale, center_midi as int),
            final(rng)@ == subject_draft(old(rng)@, key, scale, center_midi as int).state,
            theme_wf(r@),
            2 <= r@.bars <= 4,
            5 * r@.bars <= r@.notes.len() <= 7 * r@.bars,
    {
        let ghost start = rng@;
        proof {
            lemma_subject(start, key, scale, center_midi as int);
        }
        let bars: u32 = 2 + rng.below(3) as u32;
        let contour: Contour = Contour::nth(rng.below(5));
        let mut walk = MelodyWalk::new(key, scale, center_midi);
        let center: i32 = midi_to_steps(key, scale, center_midi);
        let mut notes: Vec<ThemeNote> = Vec::new();
        let total: u32 = bars * 16;
        let ghost first = Draft { notes: seq![], walk: walk@, state: rng@ };
        for bar in 0..bars
            invariant
                2 <= bars <= 4,
                total == bars * 16,
                first.walk.key == key,
                first.walk.scale == scale,
                walk_wf(walk@),
                walk@.key == key,
                walk@.scale == scale,
                (Draft { notes: notes@, walk: walk@, state: rng@ }) == bars_drafted(
                    first,
                    contour,
                    bars as int,
                    bar as int,
                ),
        {
            let ghost before = Draft { notes: notes@, walk: walk@, state: rng@ };
            let density: u32 = 5 + rng.below(3) as u32;
            let slots: Vec<u32> = pick_positions(rng, density, bar == bars - 1);
            let ghost mid = Draft { state: rng@, ..before };
            for k in 0..slots.len()
                invariant
                    2 <= bars <= 4,
                    bar < bars,
                    total == bars * 16,
                    walk_wf(walk@),
                    walk@.key == key,
                    walk@.scale == scale,
                    forall|i: int| 0 <= i < slots@.len() ==> #[trigger] slots@[i] < 16,
                    (Draft { notes: notes@, walk: walk@, state: rng@ }) == bar_drafted(
                        mid,
                        contour,
                        bar as int,
                        bars as int,
                        slots@,
                        k as int,
                    ),
            {
                let slot: u32 = slots[k];
                assert(slots@[k as int] < 16);
                let at: u32 = bar * 16 + slot;
                let pull: Real = contour.target(divide(at, total));
                proof {
                    lemma_walk_step(walk@, rng@, pull.units as int);
                }
                let pitch: u8 = walk.step(rng, pull);
                notes.push(
                    ThemeNote {
                        slot: at,
                        degree: midi_to_steps(key, scale, pitch),
                        weight: slot_weight(slot),
                    },
                );
            }
        }
        let n: i32 = scale.degrees().len() as i32;
        let span: i32 = (n * 3) / 2;
        Theme { bars, notes, center, lo: center - span, hi: center + span }
    }

    /// The notes of one bar as sixteenth in the bar, scale step and weight, in order.
    pub fn bar(&self, bar: u32) -> (r: Vec<(u32, i32, u8)>)
        requires
            bar < 0xfff_ffff,
        ensures
            r@ == bar_view(self@.notes, bar as int),
    {
        let lo: u32 = bar * 16;
        let mut out: Vec<(u32, i32, u8)> = Vec::new();
        let ghost keep = |n: ThemeNote| bar * 16 <= n.slot < bar * 16 + 16;
        let ghost notes = self.notes@;
        proof {
            reveal(Seq::filter);
            assert(notes.take(0).filter(keep) =~= Seq::<ThemeNote>::empty());
        }
        for i in 0..self.notes.len()
            invariant
                lo == bar * 16,
                bar < 0xfff_ffff,
                notes == self.notes@,
                keep == (|n: ThemeNote| bar * 16 <= n.slot < bar * 16 + 16),
                out@ == bar_view(notes.take(i as int), bar as int),
        {
            let n: ThemeNote = self.notes[i];
            proof {
                reveal(Seq::filter);
                assert(notes.take(i + 1).drop_last() =~= notes.take(i as int));
                assert(notes.take(i + 1).last() == n);
            }
            if n.slot >= lo && n.slot < lo + 16 {
                out.push((n.slot - lo, n.degree, n.weight));
                assert(out@ =~= bar_view(notes.take(i + 1), bar as int));
            }
        }
        assert(notes.take(notes.len() as int) =~= notes);
        out
    }

    /// Applies `ops` mutation operators. The generator, which the caller seeds from the
    /// commit hash, chooses them and the notes they work on.
    pub fn mutate(&mut self, rng: &mut Rng, ops: u32)
        requires
            theme_wf(old(self)@),
            ops <= MAX_OPS,
        ensures
            final(self)@ == mutated(old(self)@, old(rng)@, ops as nat),
            final(rng)@ == mutations(old(self)@, old(rng)@, ops as nat).1,
            theme_wf(final(self)@),
            final(self)@.bars == old(self)@.bars,
            final(self)@.notes.len() >= old(self)@.notes.len() - ops,
            final(self)@.notes.len() <= old(self)@.notes.len() + ops,
            old(self)@.notes.len() <= 8 * old(self)@.bars ==> final(self)@.notes.len() <= 8 * old(
                self,
            )@.bars,
    {
        let ghost t = self@;
        let ghost start = rng@;
        proof {
            lemma_mutations(t, start, 0);
        }
        for done in 0..ops
            invariant
                theme_wf(t),
                ops <= MAX_OPS,
                (self@, rng@) == mutations(t, start, done as nat),
                theme_loose(self@, REACH + done),
                self@.bars == t.bars,
        {
            proof {
                lemma_mutations(t, start, (done + 1) as nat);
            }
            self.mutate_once(rng, Ghost(REACH + done));
        }
        proof {
            lemma_mutations(t, start, ops as nat);
            lemma_mutated(t, start, ops as nat);
        }
        let ghost loose = self.notes@;
        let n: usize = self.notes.len();
        for i in 0..n
            invariant
                n == self.notes@.len(),
                n == loose.len(),
                self@.bars == t.bars,
                self@.center == t.center,
                self@.lo == t.lo,
                self@.hi == t.hi,
                theme_frame(t),
                forall|j: int|
                    0 <= j < i ==> (#[trigger] self.notes@[j]) == confined(loose, t.lo, t.hi)[j],
                forall|j: int| i <= j < n ==> (#[trigger] self.notes@[j]) == loose[j],
        {
            let note: ThemeNote = self.notes[i];
            let degree: i32 = if note.degree < self.lo {
                self.lo
            } else if note.degree > self.hi {
                self.hi
            } else {
                note.degree
            };
            self.notes.set(i, ThemeNote { slot: note.slot, degree, weight: note.weight });
        }
        assert(self.notes@ =~= confined(loose, t.lo, t.hi));
        proof {
            lemma_views(self.notes@);
        }
        sort(&mut self.notes);
        proof {
            lemma_views(self.notes@);
        }
    }

    /// Applies one mutation operator.
    fn mutate_once(&mut self, rng: &mut Rng, Ghost(reach): Ghost<int>)
        requires
            theme_loose(old(self)@, reach),
            0 <= reach < MAX_REACH,
        ensures
            (final(self)@, final(rng)@) == mutation(old(self)@, old(rng)@),
    {
        proof {
            lemma_coin();
            assert([25u32, 25, 20, 25, 5]@ =~= operator_weights());
        }
        let op: usize = rng.weighted(&[25, 25, 20, 25, 5]);
        match op {
            0 => self.interval_nudge(rng, Ghost(reach)),
            1 => self.displace(rng, Ghost(reach)),
            2 => self.ornament(rng, Ghost(reach)),
            3 => self.swap(rng, Ghost(reach)),
            _ => self.invert(Ghost(reach)),
        }
    }

    /// Draws a note.
    fn pick(&self, rng: &mut Rng) -> (r: usize)
        requires
            self@.notes.len() > 0,
        ensures
            final(rng)@ == advance(old(rng)@),
            r == draw_below(old(rng)@, self@.notes.len() as int),
            r < self@.notes.len(),
    {
        rng.below(self.notes.len() as u64) as usize
    }

    /// Moves the pitch of one note by a step.
    fn interval_nudge(&mut self, rng: &mut Rng, Ghost(reach): Ghost<int>)
        requires
            theme_loose(old(self)@, reach),
            0 <= reach < MAX_REACH,
        ensures
            (final(self)@, final(rng)@) == nudged(old(self)@, old(rng)@),
    {
        if self.notes.len() == 0 {
            return ;
        }
        let i: usize = self.pick(rng);
        let step: i32 = coin(rng);
        let n: ThemeNote = self.notes[i];
        assert(self@.notes[i as int].slot < self@.bars * 16);
        self.notes.set(
            i,
            ThemeNote { slot: n.slot, degree: n.degree + step, weight: n.weight },
        );
    }

    /// Moves one note by a sixteenth, if that one is free and lies in the same bar.
    fn displace(&mut self, rng: &mut Rng, Ghost(reach): Ghost<int>)
        requires
            theme_loose(old(self)@, reach),
        ensures
            (final(self)@, final(rng)@) == displaced(old(self)@, old(rng)@),
    {
        if self.notes.len() == 0 {
            return ;
        }
        let i: usize = self.pick(rng);
        let step: i32 = coin(rng);
        let n: ThemeNote = self.notes[i];
        let slot: i64 = n.slot as i64 + step as i64;
        if slot < 0 || slot / 16 != n.slot as i64 / 16 || slot > u32::MAX as i64 {
            assert(self@.notes[i as int].slot < self@.bars * 16);
            return ;
        }
        if self.occupied(slot as u32) {
            return ;
        }
        self.notes.set(
            i,
            ThemeNote {
                slot: slot as u32,
                degree: n.degree,
                weight: slot_weight(slot as u32 % 16),
            },
        );
    }

    /// Whether a note stands on the slot.
    fn occupied(&self, slot: u32) -> (r: bool)
        ensures
            r == has_slot(self@.notes, slot as int),
    {
        for i in 0..self.notes.len()
            invariant
                forall|j: int| 0 <= j < i ==> (#[trigger] self.notes@[j]).slot != slot,
        {
            if self.notes[i].slot == slot {
                return true;
            }
        }
        false
    }

    /// The last of the lightest notes.
    fn lightest_note(&self) -> (r: usize)
        requires
            self@.notes.len() > 0,
        ensures
            r == lightest(self@.notes, self@.notes.len() as int),
            r < self@.notes.len(),
    {
        let mut best: usize = 0;
        for i in 1..self.notes.len()
            invariant
                self.notes@.len() > 0,
                best < i,
                best == lightest(self.notes@, i as int),
        {
            if self.notes[i].weight <= self.notes[best].weight {
                best = i;
            }
        }
        best
    }

    /// Adds a light note in front of another, or takes the lightest note away.
    fn ornament(&mut self, rng: &mut Rng, Ghost(reach): Ghost<int>)
        requires
            theme_loose(old(self)@, reach),
            0 <= reach < MAX_REACH,
        ensures
            (final(self)@, final(rng)@) == ornamented(old(self)@, old(rng)@),
    {
        if self.notes.len() == 0 {
            return ;
        }
        proof {
            lemma_loose_count(self@, reach);
            lemma_coin();
        }
        let per_bar: u32 = self.notes.len() as u32 / self.bars;
        let mut remove: bool = per_bar > 7;
        if 3 < per_bar && per_bar <= 7 {
            remove = rng.weighted(&[50, 50]) == 1;
            assert([50u32, 50]@ =~= seq![50u32, 50]);
        }
        if remove {
            if self.notes.len() > 3 {
                let i: usize = self.lightest_note();
                self.notes.remove(i);
            }
            return ;
        }
        let i: usize = self.pick(rng);
        let anchor: ThemeNote = self.notes[i];
        assert(self@.notes[i as int].slot < self@.bars * 16);
        if anchor.slot == 0 {
            return ;
        }
        let slot: u32 = anchor.slot - 1;
        if slot / 16 != anchor.slot / 16 || self.occupied(slot) {
            return ;
        }
        let step: i32 = coin(rng);
        self.notes.push(ThemeNote { slot, degree: anchor.degree + step, weight: 0 });
    }

    /// Exchanges the pitches of two notes.
    fn swap(&mut self, rng: &mut Rng, Ghost(reach): Ghost<int>)
        requires
            theme_loose(old(self)@, reach),
        ensures
            (final(self)@, final(rng)@) == swapped(old(self)@, old(rng)@),
    {
        if self.notes.len() < 2 {
            return ;
        }
        let i: usize = self.pick(rng);
        let j: usize = self.pick(rng);
        let a: ThemeNote = self.notes[i];
        let b: ThemeNote = self.notes[j];
        self.notes.set(i, ThemeNote { slot: a.slot, degree: b.degree, weight: a.weight });
        self.notes.set(j, ThemeNote { slot: b.slot, degree: a.degree, weight: b.weight });
    }

    /// Mirrors every pitch at the center.
    fn invert(&mut self, Ghost(reach): Ghost<int>)
        requires
            theme_loose(old(self)@, reach),
            0 <= reach < MAX_REACH,
        ensures
            final(self)@ == inverted(old(self)@),
    {
        let ghost t = self@;
        let n: usize = self.notes.len();
        for i in 0..n
            invariant
                theme_loose(t, reach),
                0 <= reach < MAX_REACH,
                n == t.notes.len(),
                n == self.notes@.len(),
                self@.bars == t.bars,
                self@.center == t.center,
                self@.lo == t.lo,
                self@.hi == t.hi,
                forall|j: int| 0 <= j < i ==> (#[trigger] self.notes@[j]) == inverted(t).notes[j],
                forall|j: int| i <= j < n ==> (#[trigger] self.notes@[j]) == t.notes[j],
        {
            let note: ThemeNote = self.notes[i];
            assert(t.notes[i as int].slot < t.bars * 16);
            self.notes.set(
                i,
                ThemeNote {
                    slot: note.slot,
                    degree: 2 * self.center - note.degree,
                    weight: note.weight,
                },
            );
        }
        assert(self.notes@ =~= inverted(t).notes);
    }
}

/// One up or one down, as a fair coin falls.
pub fn coin(rng: &mut Rng) -> (r: i32)
    ensures
        final(rng)@ == advance(old(rng)@),
        r == coin_step(old(rng)@),
        r == 1 || r == -1,
{
    proof {
        lemma_coin();
        assert([50u32, 50]@ =~= seq![50u32, 50]);
    }
    if rng.weighted(&[50, 50]) == 0 {
        1
    } else {
        -1
    }
}

} // verus!
