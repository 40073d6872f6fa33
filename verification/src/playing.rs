//! Bars of the history mode: a bar of the theme in an author's voice, and a bar of
//! hi-hats for a bot.

use vstd::prelude::*;

use crate::binary::{double, round_double};
use crate::compose::{lemma_placed_on_grid, on_grid, BAR, SLOT};
use crate::model::{Key, NoteEvent, Scale};
use crate::rng::{advance, advance_by, draw_below, draw_fraction, lemma_draw_below, Rng};
use crate::sorting::{
    in_order, lemma_sorted_holds, lemma_sorted_of_ordered, placed, sort, sorted, views, Ranked,
    Sortable,
};
use crate::theme::{coin, coin_step, diff_class, log2};
use crate::theory::{clamp, in_scale, lemma_pitch_in_scale, midi_of, pitch_of, steps_to_midi};

verus! {

/// Entries of a bar (sixteenth, scale step, weight) rank by their sixteenth.
impl Ranked for (u32, i32, u8) {
    open spec fn le(self, other: Self) -> bool {
        self.0 <= other.0
    }

    proof fn le_total(a: Self, b: Self) {
    }

    proof fn le_transitive(a: Self, b: Self, c: Self) {
    }
}

impl Sortable for (u32, i32, u8) {
    fn no_higher(&self, other: &Self) -> (r: bool) {
        self.0 <= other.0
    }
}

/// Whether the entries of a bar lie inside it, each behind the one before it, with scale
/// steps within `reach` of zero.
pub open spec fn bar_wf(bar: Seq<(u32, i32, u8)>, reach: int) -> bool {
    &&& forall|i: int, j: int|
        0 <= i < j < bar.len() ==> (#[trigger] bar[i]).0 < (#[trigger] bar[j]).0
    &&& forall|i: int|
        0 <= i < bar.len() ==> (#[trigger] bar[i]).0 < 16 && -reach <= bar[i].1 <= reach
}

/// The last of the lightest among the first `k` entries.
pub open spec fn lightest_entry(bar: Seq<(u32, i32, u8)>, k: int) -> int
    decreases k,
{
    if k <= 1 {
        0
    } else if bar[k - 1].2 <= bar[lightest_entry(bar, k - 1)].2 {
        k - 1
    } else {
        lightest_entry(bar, k - 1)
    }
}

/// How many entries a bar loses to a quiet commit of the size class `m`.
pub open spec fn thinning(m: nat, len: nat) -> nat {
    if m == 0 {
        if len >= 4 {
            2
        } else if len == 3 {
            1
        } else {
            0
        }
    } else if m <= 2 {
        1
    } else {
        0
    }
}

/// The bar without its `n` lightest entries; two are always kept.
pub open spec fn bar_thinned(bar: Seq<(u32, i32, u8)>, n: nat) -> Seq<(u32, i32, u8)>
    decreases n,
{
    if n == 0 || bar.len() <= 2 {
        bar
    } else {
        bar_thinned(bar.remove(lightest_entry(bar, bar.len() as int)), (n - 1) as nat)
    }
}

/// The heaviest among the first `k` entries, the last of them if there are several.
pub open spec fn strongest_entry(bar: Seq<(u32, i32, u8)>, k: int) -> int
    decreases k,
{
    if k <= 1 {
        0
    } else {
        let best = strongest_entry(bar, k - 1);
        if bar[k - 1].2 > bar[best].2 || (bar[k - 1].2 == bar[best].2 && bar[k - 1].0
            >= bar[best].0) {
            k - 1
        } else {
            best
        }
    }
}

/// Whether one of the entries stands on the sixteenth.
pub open spec fn bar_has(bar: Seq<(u32, i32, u8)>, slot: int) -> bool {
    exists|i: int| 0 <= i < bar.len() && (#[trigger] bar[i]).0 == slot
}

/// How many echoes a large commit of the size class `m` adds to a bar.
pub open spec fn echoes(m: nat) -> nat {
    if m > 8 {
        2
    } else if m >= 6 {
        1
    } else {
        0
    }
}

/// The bar with an echo behind its heaviest entry, a step away, if the sixteenth there is
/// free; and the generator's state.
pub open spec fn echoed(bar: Seq<(u32, i32, u8)>, state: u64) -> (Seq<(u32, i32, u8)>, u64) {
    let top = bar[strongest_entry(bar, bar.len() as int)];
    let slot = top.0 + 1;
    if slot < 16 && !bar_has(bar, slot) {
        (
            sorted(bar.push((slot as u32, (top.1 + coin_step(state)) as i32, 0u8))),
            advance(state),
        )
    } else {
        (bar, state)
    }
}

/// The bar with `n` echoes, as far as there is room for them, and the generator's state.
pub open spec fn bar_echoed(bar: Seq<(u32, i32, u8)>, state: u64, n: nat) -> (
    Seq<(u32, i32, u8)>,
    u64,
)
    decreases n,
{
    if n == 0 {
        (bar, state)
    } else {
        let next = echoed(bar, state);
        bar_echoed(next.0, next.1, (n - 1) as nat)
    }
}

/// The velocity of a theme note of the given weight in a bar of the size class `m`, when
/// the drawn fraction is `k`: 68, six for each unit of weight, one and a half for each
/// class up to eight, and a variation of six either way. The sum is made in doubles, here
/// in units of 2^-51.
pub open spec fn theme_velocity(weight: int, m: int, k: int) -> int {
    let one: int = 0x8_0000_0000_0000;
    let class = if m < 8 {
        m
    } else {
        8
    };
    let variation = double(double(3 * k) - 6 * one);
    let sum = double((136 + 12 * weight + 3 * class) * (one / 2) + variation);
    clamp(sum, 30 * one, 115 * one) / one
}

/// The notes of a bar that starts at the tick `start`, one for each entry. A note lasts
/// until the next one, but not longer than a quarter.
pub open spec fn bar_events(
    bar: Seq<(u32, i32, u8)>,
    start: int,
    voice: usize,
    key: Key,
    scale: Scale,
    m: int,
    state: u64,
) -> Seq<NoteEvent> {
    Seq::new(
        bar.len(),
        |i: int|
            {
                let end = if i + 1 < bar.len() {
                    bar[i + 1].0 as int
                } else {
                    16
                };
                NoteEvent {
                    voice,
                    pitch: midi_of(key, scale, bar[i].1 as int) as u8,
                    start: (start + bar[i].0 * SLOT) as u32,
                    dur: (clamp(end - bar[i].0, 1, 4) * SLOT) as u32,
                    velocity: theme_velocity(
                        bar[i].2 as int,
                        m,
                        draw_fraction(advance_by(state, i as nat)) as int,
                    ) as u8,
                }
            },
    )
}

/// The notes that a bar of the theme gives for a commit of the given size.
pub open spec fn bar_played(
    bar: Seq<(u32, i32, u8)>,
    start: int,
    voice: usize,
    key: Key,
    scale: Scale,
    diff_magnitude: nat,
    state: u64,
) -> Seq<NoteEvent> {
    if bar.len() == 0 {
        seq![]
    } else {
        let m = log2(diff_magnitude + 1);
        let thin = bar_thinned(bar, thinning(m, bar.len()));
        let full = bar_echoed(thin, state, echoes(m));
        bar_events(full.0, start, voice, key, scale, m as int, full.1)
    }
}

/// The generator's state when a bar of the theme has been played: one draw for each echo
/// and one for each note. A bar without entries draws nothing.
pub open spec fn bar_state(bar: Seq<(u32, i32, u8)>, diff_magnitude: nat, state: u64) -> u64 {
    if bar.len() == 0 {
        state
    } else {
        let m = log2(diff_magnitude + 1);
        let thin = bar_thinned(bar, thinning(m, bar.len()));
        let full = bar_echoed(thin, state, echoes(m));
        advance_by(full.1, full.0.len())
    }
}

/// The hi-hat strokes from a sixteenth of the bar on, one every `step` sixteenths. The
/// stroke before the turn of the bar is open in three of ten cases.
pub open spec fn hat_strokes(
    start: int,
    voice: usize,
    step: int,
    state: u64,
    slot: int,
) -> Seq<NoteEvent>
    decreases
        (if slot < 16 {
            16 - slot
        } else {
            0
        }),
{
    if slot >= 16 || step <= 0 {
        seq![]
    } else {
        let open = slot == 14 && 2 * draw_fraction(state) < 5404319552844595;
        let s1 = if slot == 14 {
            advance(state)
        } else {
            state
        };
        let stroke = NoteEvent {
            voice,
            pitch: if open {
                HAT_OPEN
            } else {
                HAT_CLOSED
            },
            start: (start + slot * SLOT) as u32,
            dur: SLOT,
            velocity: ((if slot % 4 == 0 {
                72int
            } else {
                56
            }) + draw_below(s1, 9)) as u8,
        };
        seq![stroke] + hat_strokes(start, voice, step, advance(s1), slot + step)
    }
}

/// The generator's state behind the hi-hat strokes from a sixteenth of the bar on: one draw
/// for each stroke, and one more for the stroke before the turn of the bar.
pub open spec fn strokes_state(step: int, state: u64, slot: int) -> u64
    decreases
        (if slot < 16 {
            16 - slot
        } else {
            0
        }),
{
    if slot >= 16 || step <= 0 {
        state
    } else {
        let s1 = if slot == 14 {
            advance(state)
        } else {
            state
        };
        strokes_state(step, advance(s1), slot + step)
    }
}

/// The sixteenths from one hi-hat stroke to the next: two, or one for a large diff.
pub open spec fn hat_step(diff_magnitude: nat) -> int {
    if log2(diff_magnitude + 1) >= 6 {
        1
    } else {
        2
    }
}

/// The notes of a bot's bar: eighths, or sixteenths for a large diff.
pub open spec fn hats_played(
    start: int,
    voice: usize,
    diff_magnitude: nat,
    state: u64,
) -> Seq<NoteEvent> {
    hat_strokes(start, voice, hat_step(diff_magnitude), state, 0)
}

/// The generator's state when a bot's bar has been played.
pub open spec fn hats_state(diff_magnitude: nat, state: u64) -> u64 {
    strokes_state(hat_step(diff_magnitude), state, 0)
}

/// The closed hi-hat of General MIDI percussion.
pub const HAT_CLOSED: u8 = 42;

/// The open hi-hat of General MIDI percussion.
pub const HAT_OPEN: u8 = 46;

proof fn lemma_lightest_entry(bar: Seq<(u32, i32, u8)>, k: int)
    requires
        1 <= k <= bar.len(),
    ensures
        0 <= lightest_entry(bar, k) < k,
    decreases k,
{
    if k > 1 {
        lemma_lightest_entry(bar, k - 1);
    }
}

proof fn lemma_strongest_entry(bar: Seq<(u32, i32, u8)>, k: int)
    requires
        1 <= k <= bar.len(),
    ensures
        0 <= strongest_entry(bar, k) < k,
    decreases k,
{
    if k > 1 {
        lemma_strongest_entry(bar, k - 1);
    }
}

proof fn lemma_bar_removed(bar: Seq<(u32, i32, u8)>, i: int, reach: int)
    requires
        bar_wf(bar, reach),
        0 <= i < bar.len(),
    ensures
        bar_wf(bar.remove(i), reach),
{
    let r = bar.remove(i);
    assert forall|a: int, b: int| 0 <= a < b < r.len() implies (#[trigger] r[a]).0 < (
    #[trigger] r[b]).0 by {
        let a2 = if a < i { a } else { a + 1 };
        let b2 = if b < i { b } else { b + 1 };
        assert(bar[a2].0 < bar[b2].0);
    }
    assert forall|a: int| 0 <= a < r.len() implies (#[trigger] r[a]).0 < 16 && -reach <= r[a].1
        <= reach by {
        let a2 = if a < i { a } else { a + 1 };
        assert(bar[a2].0 < 16);
    }
}

proof fn lemma_bar_thinned(bar: Seq<(u32, i32, u8)>, n: nat, reach: int)
    requires
        bar_wf(bar, reach),
    ensures
        bar_wf(bar_thinned(bar, n), reach),
        bar.len() > 0 ==> bar_thinned(bar, n).len() > 0,
    decreases n,
{
    if n > 0 && bar.len() > 2 {
        let i = lightest_entry(bar, bar.len() as int);
        lemma_lightest_entry(bar, bar.len() as int);
        lemma_bar_removed(bar, i, reach);
        lemma_bar_thinned(bar.remove(i), (n - 1) as nat, reach);
    }
}

/// Whether all entries stand before the sixteenth `y`.
spec fn bar_before(bar: Seq<(u32, i32, u8)>, y: int) -> bool {
    forall|i: int| 0 <= i < bar.len() ==> (#[trigger] bar[i]).0 < y
}

/// An entry on a free sixteenth finds its place among entries in rising order.
proof fn lemma_bar_placed(bar: Seq<(u32, i32, u8)>, x: (u32, i32, u8), reach: int)
    requires
        bar_wf(bar, reach),
        !bar_has(bar, x.0 as int),
        x.0 < 16,
        -reach <= x.1 <= reach,
    ensures
        bar_wf(placed(bar, x), reach),
        placed(bar, x).len() == bar.len() + 1,
        forall|y: int|
            x.0 < y && bar_before(bar, y) ==> #[trigger] bar_before(placed(bar, x), y),
    decreases bar.len(),
{
    let t = placed(bar, x);
    if bar.len() == 0 || bar.last().le(x) {
        assert forall|a: int, b: int| 0 <= a < b < t.len() implies (#[trigger] t[a]).0 < (
        #[trigger] t[b]).0 by {
            if b < bar.len() {
                assert(bar[a].0 < bar[b].0);
            } else {
                assert(bar[bar.len() - 1].0 != x.0);
                if a < bar.len() - 1 {
                    assert(bar[a].0 < bar[bar.len() - 1].0);
                }
            }
        }
        assert forall|a: int| 0 <= a < t.len() implies (#[trigger] t[a]).0 < 16 && -reach <= t[a].1
            <= reach by {
            if a < bar.len() {
                assert(bar[a].0 < 16);
            }
        }
    } else {
        let r = bar.drop_last();
        let last = bar.last();
        assert(bar_wf(r, reach)) by {
            assert forall|a: int, b: int| 0 <= a < b < r.len() implies (#[trigger] r[a]).0 < (
            #[trigger] r[b]).0 by {
                assert(bar[a].0 < bar[b].0);
            }
            assert forall|a: int| 0 <= a < r.len() implies (#[trigger] r[a]).0 < 16 && -reach
                <= r[a].1 <= reach by {
                assert(bar[a].0 < 16);
            }
        }
        assert(!bar_has(r, x.0 as int)) by {
            if bar_has(r, x.0 as int) {
                let i = choose|i: int| 0 <= i < r.len() && (#[trigger] r[i]).0 == x.0;
                assert(bar[i].0 == x.0);
            }
        }
        lemma_bar_placed(r, x, reach);
        let u = placed(r, x);
        assert(bar_before(r, last.0 as int)) by {
            assert forall|i: int| 0 <= i < r.len() implies (#[trigger] r[i]).0 < last.0 by {
                assert(bar[i].0 < bar[bar.len() - 1].0);
            }
        }
        assert(bar_before(u, last.0 as int));
        assert forall|a: int, b: int| 0 <= a < b < t.len() implies (#[trigger] t[a]).0 < (
        #[trigger] t[b]).0 by {
            if b < u.len() {
                assert(u[a].0 < u[b].0);
            } else {
                assert(u[a].0 < last.0);
            }
        }
        assert forall|a: int| 0 <= a < t.len() implies (#[trigger] t[a]).0 < 16 && -reach <= t[a].1
            <= reach by {
            if a < u.len() {
                assert(u[a].0 < 16);
            } else {
                assert(bar[bar.len() - 1].0 < 16);
            }
        }
        assert forall|y: int| x.0 < y && bar_before(bar, y) implies #[trigger] bar_before(t, y) by {
            assert(bar_before(r, y)) by {
                assert forall|i: int| 0 <= i < r.len() implies (#[trigger] r[i]).0 < y by {
                    assert(bar[i].0 < y);
                }
            }
            assert(bar_before(u, y));
            assert(bar[bar.len() - 1].0 < y);
            assert forall|j: int| 0 <= j < t.len() implies #[trigger] t[j].0 < y by {
                if j < u.len() {
                    assert(u[j].0 < y);
                }
            }
        }
    }
}

proof fn lemma_echoed(bar: Seq<(u32, i32, u8)>, state: u64, reach: int)
    requires
        bar_wf(bar, reach),
        bar.len() > 0,
        0 <= reach < 1000,
    ensures
        bar_wf(echoed(bar, state).0, reach + 1),
        echoed(bar, state).0.len() > 0,
{
    let k = strongest_entry(bar, bar.len() as int);
    lemma_strongest_entry(bar, bar.len() as int);
    let top = bar[k];
    let slot = top.0 + 1;
    assert(bar_wf(bar, reach + 1));
    if slot < 16 && !bar_has(bar, slot) {
        let x = (slot as u32, (top.1 + coin_step(state)) as i32, 0u8);
        lemma_bar_placed(bar, x, reach + 1);
        assert(in_order(bar)) by {
            assert forall|i: int, j: int| 0 <= i <= j < bar.len() implies (#[trigger] bar[i]).le(
                #[trigger] bar[j],
            ) by {
                if i < j {
                    assert(bar[i].0 < bar[j].0);
                }
            }
        }
        lemma_sorted_of_ordered(bar);
        assert(bar.push(x).drop_last() =~= bar);
    }
}

/// Whether the notes follow one another inside the bar that starts at the tick `start`, in
/// one voice: each begins on a sixteenth and lasts one to four of them, none reaches into
/// the next, and their velocities are 30 to 115.
pub open spec fn notes_in_bar(notes: Seq<NoteEvent>, start: int, voice: usize) -> bool {
    &&& forall|i: int|
        0 <= i < notes.len() ==> {
            let e = #[trigger] notes[i];
            &&& e.voice == voice
            &&& start <= e.start
            &&& e.start + e.dur <= start + BAR
            &&& on_grid(e, start)
            &&& SLOT <= e.dur <= 4 * SLOT
            &&& e.pitch <= 127
            &&& 30 <= e.velocity <= 115
        }
    &&& forall|i: int, j: int|
        0 <= i < j < notes.len() ==> (#[trigger] notes[i]).start + notes[i].dur <= (
        #[trigger] notes[j]).start
}

/// The notes of a bar follow one another inside it.
pub proof fn lemma_bar_events(
    bar: Seq<(u32, i32, u8)>,
    start: int,
    voice: usize,
    key: Key,
    scale: Scale,
    m: int,
    state: u64,
)
    requires
        bar_wf(bar, 2000),
        0 <= start <= u32::MAX - BAR,
    ensures
        notes_in_bar(bar_events(bar, start, voice, key, scale, m, state), start, voice),
{
    let s = bar_events(bar, start, voice, key, scale, m, state);
    assert forall|i: int| 0 <= i < bar.len() implies {
        let e = #[trigger] s[i];
        &&& e.voice == voice
        &&& start <= e.start
        &&& e.start + e.dur <= start + BAR
        &&& on_grid(e, start)
        &&& SLOT <= e.dur <= 4 * SLOT
        &&& e.pitch <= 127
        &&& 30 <= e.velocity <= 115
    } by {
        assert(bar[i].0 < 16);
        if i + 1 < bar.len() {
            assert(bar[i].0 < bar[i + 1].0);
            assert(bar[i + 1].0 < 16);
        }
        let end = if i + 1 < bar.len() {
            bar[i + 1].0 as int
        } else {
            16
        };
        lemma_placed_on_grid(s[i], start, bar[i].0 as int, clamp(end - bar[i].0, 1, 4));
    }
    assert forall|i: int, j: int| 0 <= i < j < s.len() implies (#[trigger] s[i]).start + s[i].dur
        <= (#[trigger] s[j]).start by {
        assert(bar[i].0 < bar[i + 1].0);
        assert(bar[i + 1].0 <= bar[j].0);
        assert(bar[j].0 < 16);
    }
}

/// Whether the scale steps of the entries lie between `lo` and `hi`.
pub open spec fn bar_within(bar: Seq<(u32, i32, u8)>, lo: int, hi: int) -> bool {
    forall|i: int| 0 <= i < bar.len() ==> lo <= (#[trigger] bar[i]).1 <= hi
}

proof fn lemma_thinned_within(bar: Seq<(u32, i32, u8)>, n: nat, lo: int, hi: int)
    requires
        bar_within(bar, lo, hi),
    ensures
        bar_within(bar_thinned(bar, n), lo, hi),
    decreases n,
{
    if n > 0 && bar.len() > 2 {
        let i = lightest_entry(bar, bar.len() as int);
        lemma_lightest_entry(bar, bar.len() as int);
        let r = bar.remove(i);
        assert forall|a: int| 0 <= a < r.len() implies lo <= (#[trigger] r[a]).1 <= hi by {
            let b = if a < i { a } else { a + 1 };
            assert(r[a] == bar[b]);
        }
        lemma_thinned_within(r, (n - 1) as nat, lo, hi);
    }
}

proof fn lemma_echoed_within(bar: Seq<(u32, i32, u8)>, state: u64, lo: int, hi: int)
    requires
        bar.len() > 0,
        bar_within(bar, lo, hi),
        -2000 <= lo <= hi <= 2000,
    ensures
        bar_within(echoed(bar, state).0, lo - 1, hi + 1),
{
    let k = strongest_entry(bar, bar.len() as int);
    lemma_strongest_entry(bar, bar.len() as int);
    let top = bar[k];
    let slot = top.0 + 1;
    if slot < 16 && !bar_has(bar, slot) {
        let x = (slot as u32, (top.1 + coin_step(state)) as i32, 0u8);
        let more = bar.push(x);
        let r = sorted(more);
        assert forall|a: int| 0 <= a < r.len() implies lo - 1 <= (#[trigger] r[a]).1 <= hi
            + 1 by {
            lemma_sorted_holds(more, r[a]);
            let b = more.index_of(r[a]);
            assert(more[b] == r[a]);
        }
    }
}

proof fn lemma_bar_len(bar: Seq<(u32, i32, u8)>, reach: int, k: int)
    requires
        bar_wf(bar, reach),
        0 <= k < bar.len(),
    ensures
        bar[k].0 >= k,
    decreases k,
{
    if k > 0 {
        lemma_bar_len(bar, reach, k - 1);
        assert(bar[k - 1].0 < bar[k].0);
    }
}

/// A bar has sixteen entries at most.
pub proof fn lemma_bar_size(bar: Seq<(u32, i32, u8)>)
    requires
        bar_wf(bar, 2000),
    ensures
        bar.len() <= 16,
{
    if bar.len() > 0 {
        lemma_bar_len(bar, 2000, bar.len() - 1);
        assert(bar[bar.len() - 1].0 < 16);
    }
}

/// What a bar becomes when it is thinned out and echoed is a bar again, with sixteen
/// entries at most.
proof fn lemma_bar_made(bar: Seq<(u32, i32, u8)>, m: nat, state: u64)
    requires
        bar_wf(bar, 900),
        bar.len() > 0,
    ensures
        ({
            let thin = bar_thinned(bar, thinning(m, bar.len()));
            let full = bar_echoed(thin, state, echoes(m));
            bar_wf(full.0, 2000) && full.0.len() <= 16
        }),
{
    let n = thinning(m, bar.len());
    let thin = bar_thinned(bar, n);
    lemma_bar_thinned(bar, n, 900);
    let full = bar_echoed(thin, state, echoes(m));
    reveal_with_fuel(bar_echoed, 3);
    if echoes(m) >= 1 {
        let one = echoed(thin, state);
        lemma_echoed(thin, state, 900);
        if echoes(m) == 2 {
            lemma_echoed(one.0, one.1, 901);
        }
    }
    lemma_bar_size(full.0);
}

/// A bar of the theme sounds in its voice: its notes follow one another inside the bar, and
/// there are sixteen at most.
pub proof fn lemma_bar_played(
    bar: Seq<(u32, i32, u8)>,
    start: int,
    voice: usize,
    key: Key,
    scale: Scale,
    diff_magnitude: nat,
    state: u64,
)
    requires
        bar_wf(bar, 900),
        0 <= start <= u32::MAX - BAR,
    ensures
        notes_in_bar(
            bar_played(bar, start, voice, key, scale, diff_magnitude, state),
            start,
            voice,
        ),
        bar_played(bar, start, voice, key, scale, diff_magnitude, state).len() <= 16,
{
    if bar.len() > 0 {
        let m = log2(diff_magnitude + 1);
        let thin = bar_thinned(bar, thinning(m, bar.len()));
        let full = bar_echoed(thin, state, echoes(m));
        lemma_bar_made(bar, m, state);
        lemma_bar_events(full.0, start, voice, key, scale, m as int, full.1);
    }
}

/// A bar of the theme sounds in the scale, where its register and two steps more on either
/// side lie inside the MIDI range.
pub proof fn lemma_bar_in_tune(
    bar: Seq<(u32, i32, u8)>,
    start: int,
    voice: usize,
    key: Key,
    scale: Scale,
    diff_magnitude: nat,
    state: u64,
    lo: int,
    hi: int,
)
    requires
        bar_wf(bar, 900),
        bar_within(bar, lo, hi),
        -900 <= lo <= hi <= 900,
        forall|s: int| lo - 2 <= s <= hi + 2 ==> 0 <= #[trigger] pitch_of(key, scale, s) <= 127,
    ensures
        forall|i: int|
            #![trigger bar_played(bar, start, voice, key, scale, diff_magnitude, state)[i]]
            0 <= i < bar_played(bar, start, voice, key, scale, diff_magnitude, state).len()
                ==> in_scale(
                key,
                scale,
                bar_played(bar, start, voice, key, scale, diff_magnitude, state)[i].pitch as int,
            ),
{
    if bar.len() > 0 {
        let m = log2(diff_magnitude + 1);
        let n = thinning(m, bar.len());
        let thin = bar_thinned(bar, n);
        lemma_bar_thinned(bar, n, 900);
        lemma_thinned_within(bar, n, lo, hi);
        let full = bar_echoed(thin, state, echoes(m));
        reveal_with_fuel(bar_echoed, 3);
        if echoes(m) >= 1 {
            let one = echoed(thin, state);
            lemma_echoed(thin, state, 900);
            lemma_echoed_within(thin, state, lo, hi);
            if echoes(m) == 2 {
                lemma_echoed_within(one.0, one.1, lo - 1, hi + 1);
            }
        }
        assert(bar_within(full.0, lo - 2, hi + 2));
        let all = bar_played(bar, start, voice, key, scale, diff_magnitude, state);
        assert forall|i: int| 0 <= i < all.len() implies in_scale(
            key,
            scale,
            (#[trigger] all[i]).pitch as int,
        ) by {
            let s = full.0[i].1 as int;
            assert(0 <= pitch_of(key, scale, s) <= 127);
            lemma_pitch_in_scale(key, scale, s);
        }
    }
}

proof fn lemma_hat_strokes(start: int, voice: usize, step: int, state: u64, slot: int)
    requires
        0 <= slot,
        1 <= step,
        0 <= start <= u32::MAX - BAR,
    ensures
        forall|i: int|
            #![trigger hat_strokes(start, voice, step, state, slot)[i]]
            0 <= i < hat_strokes(start, voice, step, state, slot).len() ==> {
                let e = hat_strokes(start, voice, step, state, slot)[i];
                &&& e.voice == voice
                &&& start <= e.start
                &&& e.start + e.dur <= start + BAR
                &&& on_grid(e, start)
                &&& e.dur == SLOT
                &&& e.pitch == HAT_CLOSED || e.pitch == HAT_OPEN
                &&& 56 <= e.velocity <= 80
            },
        slot == 0 ==> hat_strokes(start, voice, step, state, slot).len() > 0,
        slot <= 16 ==> hat_strokes(start, voice, step, state, slot).len() <= 16 - slot,
        slot > 16 ==> hat_strokes(start, voice, step, state, slot).len() == 0,
    decreases
            (if slot < 16 {
                16 - slot
            } else {
                0
            }),
{
    if slot < 16 {
        let s1 = if slot == 14 {
            advance(state)
        } else {
            state
        };
        lemma_draw_below(s1, 9);
        lemma_hat_strokes(start, voice, step, advance(s1), slot + step);
        let rest = hat_strokes(start, voice, step, advance(s1), slot + step);
        let all = hat_strokes(start, voice, step, state, slot);
        assert forall|i: int| 0 <= i < all.len() implies {
            let e = #[trigger] all[i];
            &&& e.voice == voice
            &&& start <= e.start
            &&& e.start + e.dur <= start + BAR
            &&& on_grid(e, start)
            &&& e.dur == SLOT
            &&& e.pitch == HAT_CLOSED || e.pitch == HAT_OPEN
            &&& 56 <= e.velocity <= 80
        } by {
            if i > 0 {
                assert(all[i] == rest[i - 1]);
            } else {
                lemma_placed_on_grid(all[0], start, slot, 1);
            }
        }
    }
}

/// A bot's bar is a bar of hi-hats: one stroke at least and sixteen at most, all in its
/// voice, inside the bar, and on its sixteenths.
pub proof fn lemma_hats_played(start: int, voice: usize, diff_magnitude: nat, state: u64)
    requires
        0 <= start <= u32::MAX - BAR,
    ensures
        0 < hats_played(start, voice, diff_magnitude, state).len() <= 16,
        forall|i: int|
            #![trigger hats_played(start, voice, diff_magnitude, state)[i]]
            0 <= i < hats_played(start, voice, diff_magnitude, state).len() ==> {
                let e = hats_played(start, voice, diff_magnitude, state)[i];
                &&& e.voice == voice
                &&& start <= e.start
                &&& e.start + e.dur <= start + BAR
                &&& on_grid(e, start)
                &&& e.dur == SLOT
                &&& e.pitch == HAT_CLOSED || e.pitch == HAT_OPEN
                &&& 56 <= e.velocity <= 80
            },
{
    lemma_hat_strokes(start, voice, hat_step(diff_magnitude), state, 0);
}

/// The position of the last of the lightest entries.
fn lightest_in(bar: &Vec<(u32, i32, u8)>) -> (r: usize)
    requires
        bar@.len() > 0,
    ensures
        r == lightest_entry(bar@, bar@.len() as int),
        r < bar@.len(),
{
    let mut best: usize = 0;
    for i in 1..bar.len()
        invariant
            bar@.len() > 0,
            best < i,
            best == lightest_entry(bar@, i as int),
    {
        if bar[i].2 <= bar[best].2 {
            best = i;
        }
    }
    best
}

/// The position of the heaviest entry.
fn strongest_in(bar: &Vec<(u32, i32, u8)>) -> (r: usize)
    requires
        bar@.len() > 0,
    ensures
        r == strongest_entry(bar@, bar@.len() as int),
        r < bar@.len(),
{
    let mut best: usize = 0;
    for i in 1..bar.len()
        invariant
            bar@.len() > 0,
            best < i,
            best == strongest_entry(bar@, i as int),
    {
        if bar[i].2 > bar[best].2 || (bar[i].2 == bar[best].2 && bar[i].0 >= bar[best].0) {
            best = i;
        }
    }
    best
}

/// Takes the `n` lightest entries out of a bar, but leaves two.
fn thin(bar: &mut Vec<(u32, i32, u8)>, n: u32)
    ensures
        final(bar)@ == bar_thinned(old(bar)@, n as nat),
{
    let mut left: u32 = n;
    while left > 0 && bar.len() > 2
        invariant
            bar_thinned(old(bar)@, n as nat) == bar_thinned(bar@, left as nat),
        decreases left,
    {
        let i: usize = lightest_in(&*bar);
        bar.remove(i);
        left = left - 1;
    }
}

/// Adds an echo behind the heaviest entry, if there is room for it.
fn add_echo(bar: &mut Vec<(u32, i32, u8)>, rng: &mut Rng, Ghost(reach): Ghost<int>)
    requires
        bar_wf(old(bar)@, reach),
        old(bar)@.len() > 0,
        0 <= reach < 1000,
    ensures
        (final(bar)@, final(rng)@) == echoed(old(bar)@, old(rng)@),
{
    let k: usize = strongest_in(&*bar);
    let top: (u32, i32, u8) = bar[k];
    assert(bar@[k as int].0 < 16);
    let slot: u32 = top.0 + 1;
    if slot >= 16 {
        return ;
    }
    for i in 0..bar.len()
        invariant
            slot == bar@[k as int].0 + 1,
            k == strongest_entry(bar@, bar@.len() as int),
            bar@ == old(bar)@,
            rng@ == old(rng)@,
            forall|j: int| 0 <= j < i ==> (#[trigger] bar@[j]).0 != slot,
    {
        if bar[i].0 == slot {
            assert(bar_has(bar@, slot as int));
            return ;
        }
    }
    let step: i32 = coin(rng);
    bar.push((slot, top.1 + step, 0));
    assert(views(bar@) =~= bar@);
    sort(bar);
    assert(views(bar@) =~= bar@);
}

/// The velocity of a theme note.
fn velocity_of(weight: u8, m: u32, k: u64) -> (r: u8)
    requires
        k < 0x20_0000_0000_0000,
    ensures
        r == theme_velocity(weight as int, m as int, k as int),
        30 <= r <= 115,
{
    let one: i128 = 0x8_0000_0000_0000;
    let class: i128 = if m < 8 {
        m as i128
    } else {
        8
    };
    let spread: i128 = round_double(3 * k as i128);
    let variation: i128 = round_double(spread - 6 * one);
    let sum: i128 = round_double((136 + 12 * weight as i128 + 3 * class) * (one / 2) + variation);
    let bounded: i128 = if sum < 30 * one {
        30 * one
    } else if sum > 115 * one {
        115 * one
    } else {
        sum
    };
    (bounded / one) as u8
}

/// Plays every entry of a bar, one note each.
pub fn play_entries(
    notes: &mut Vec<NoteEvent>,
    bar: &Vec<(u32, i32, u8)>,
    start: u32,
    voice: usize,
    key: Key,
    scale: Scale,
    m: u32,
    rng: &mut Rng,
)
    requires
        bar_wf(bar@, 902),
        start <= u32::MAX - BAR,
    ensures
        final(notes)@ == old(notes)@ + bar_events(
            bar@,
            start as int,
            voice,
            key,
            scale,
            m as int,
            old(rng)@,
        ),
        final(rng)@ == advance_by(old(rng)@, bar@.len()),
{
    let ghost state = rng@;
    let ghost events = bar_events(bar@, start as int, voice, key, scale, m as int, state);
    assert(events.take(0) =~= Seq::<NoteEvent>::empty());
    for i in 0..bar.len()
        invariant
            bar_wf(bar@, 902),
            start <= u32::MAX - BAR,
            rng@ == advance_by(state, i as nat),
            events == bar_events(bar@, start as int, voice, key, scale, m as int, state),
            notes@ == old(notes)@ + events.take(i as int),
    {
        let (slot, degree, weight) = bar[i];
        assert(bar@[i as int].0 < 16);
        let end: u32 = if i + 1 < bar.len() {
            assert(bar@[i as int].0 < bar@[i + 1].0);
            assert(bar@[i + 1].0 < 16);
            bar[i + 1].0
        } else {
            16
        };
        let gap: u32 = end - slot;
        let held: u32 = if gap > 4 {
            4
        } else {
            gap
        };
        let k: u64 = rng.fraction();
        assert(events.take(i + 1) =~= events.take(i as int).push(events[i as int]));
        notes.push(
            NoteEvent {
                voice,
                pitch: steps_to_midi(key, scale, degree),
                start: start + slot * SLOT,
                dur: held * SLOT,
                velocity: velocity_of(weight, m, k),
            },
        );
        assert(notes@ =~= old(notes)@ + events.take(i + 1));
    }
    assert(events.take(events.len() as int) =~= events);
}

/// Plays one bar of the theme: a quiet commit thins it out, a large one adds echoes.
pub fn play_theme_bar(
    notes: &mut Vec<NoteEvent>,
    entries: Vec<(u32, i32, u8)>,
    start: u32,
    voice: usize,
    key: Key,
    scale: Scale,
    diff_magnitude: u32,
    rng: &mut Rng,
)
    requires
        bar_wf(entries@, 900),
        start <= u32::MAX - BAR,
    ensures
        final(notes)@ == old(notes)@ + bar_played(
            entries@,
            start as int,
            voice,
            key,
            scale,
            diff_magnitude as nat,
            old(rng)@,
        ),
        final(rng)@ == bar_state(entries@, diff_magnitude as nat, old(rng)@),
{
    let ghost given = entries@;
    let ghost begin = rng@;
    let mut bar: Vec<(u32, i32, u8)> = entries;
    if bar.len() == 0 {
        assert(notes@ =~= old(notes)@ + Seq::<NoteEvent>::empty());
        return ;
    }
    let m: u32 = diff_class(diff_magnitude);
    let drop: u32 = if m == 0 {
        if bar.len() >= 4 {
            2
        } else if bar.len() == 3 {
            1
        } else {
            0
        }
    } else if m <= 2 {
        1
    } else {
        0
    };
    proof {
        lemma_bar_thinned(given, thinning(m as nat, given.len()), 900);
    }
    thin(&mut bar, drop);
    let ghost thinned = bar@;
    let extra: u32 = if m > 8 {
        2
    } else if m >= 6 {
        1
    } else {
        0
    };
    let mut left: u32 = extra;
    while left > 0
        invariant
            left <= extra <= 2,
            bar_echoed(thinned, begin, extra as nat) == bar_echoed(bar@, rng@, left as nat),
            bar_wf(bar@, 900 + extra - left),
            bar@.len() > 0,
        decreases left,
    {
        proof {
            lemma_echoed(bar@, rng@, 900 + extra - left);
        }
        add_echo(&mut bar, rng, Ghost(900 + extra - left));
        left = left - 1;
    }
    play_entries(notes, &bar, start, voice, key, scale, m, rng);
}

/// Plays a bot's bar: hi-hat eighths, or sixteenths for a large diff, and now and then an
/// open stroke at the turn of the bar.
pub fn play_percussion_bar(
    notes: &mut Vec<NoteEvent>,
    start: u32,
    voice: usize,
    diff_magnitude: u32,
    rng: &mut Rng,
)
    requires
        start <= u32::MAX - BAR,
    ensures
        final(notes)@ == old(notes)@ + hats_played(
            start as int,
            voice,
            diff_magnitude as nat,
            old(rng)@,
        ),
        final(rng)@ == hats_state(diff_magnitude as nat, old(rng)@),
{
    let m: u32 = diff_class(diff_magnitude);
    let step: u32 = if m >= 6 {
        1
    } else {
        2
    };
    let ghost all = hats_played(start as int, voice, diff_magnitude as nat, rng@);
    let mut slot: u32 = 0;
    assert(notes@ + all =~= old(notes)@ + all);
    while slot < 16
        invariant
            slot <= 16,
            step == 1 || (step == 2 && slot % 2 == 0),
            start <= u32::MAX - BAR,
            notes@ + hat_strokes(start as int, voice, step as int, rng@, slot as int) == old(
                notes,
            )@ + all,
            strokes_state(step as int, rng@, slot as int) == hats_state(
                diff_magnitude as nat,
                old(rng)@,
            ),
        decreases 16 - slot,
    {
        let ghost before = notes@;
        let ghost rest = hat_strokes(start as int, voice, step as int, rng@, slot as int);
        let mut open: bool = false;
        if slot == 14 {
            open = 2 * rng.fraction() < 5404319552844595;
        }
        proof {
            lemma_draw_below(rng@, 9);
        }
        let base: u8 = if slot % 4 == 0 {
            72
        } else {
            56
        };
        let velocity: u8 = base + rng.below(9) as u8;
        notes.push(
            NoteEvent {
                voice,
                pitch: if open {
                    HAT_OPEN
                } else {
                    HAT_CLOSED
                },
                start: start + slot * SLOT,
                dur: SLOT,
                velocity,
            },
        );
        slot = slot + step;
        proof {
            let tail = hat_strokes(start as int, voice, step as int, rng@, slot as int);
            assert(rest =~= seq![notes@.last()] + tail);
            assert(notes@ + tail =~= before + rest);
        }
    }
    assert(notes@ + Seq::<NoteEvent>::empty() =~= notes@);
}

} // verus!
