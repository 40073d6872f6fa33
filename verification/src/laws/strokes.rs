//! How a commit plays its bar, by the size of its diff.

use vstd::prelude::*;

use crate::model::{Key, NoteEvent, Scale};
use crate::playing::{
    bar_echoed, bar_events, bar_has, bar_played, bar_thinned, echoed, echoes, hat_step, hat_strokes,
    hats_played, lightest_entry, strongest_entry, thinning,
};
use crate::rng::{advance, lemma_draw_below};
use crate::sorting::{lemma_sorted_holds, lemma_sorted_len};
use crate::theme::{log2, operator_count};
use crate::theory::midi_of;

verus! {

/// Two to the power of `k`.
spec fn power(k: nat) -> int
    decreases k,
{
    if k == 0 {
        1
    } else {
        2 * power((k - 1) as nat)
    }
}

proof fn lemma_log2(n: nat, k: nat)
    requires
        n >= 1,
    ensures
        log2(n) >= k <==> n >= power(k),
        power(k) >= 1,
    decreases k,
{
    if k > 0 {
        lemma_log2(
            if n / 2 >= 1 {
                n / 2
            } else {
                1
            },
            (k - 1) as nat,
        );
    }
}

proof fn lemma_sizes(d: nat)
    ensures
        log2(d + 1) == 0 <==> d == 0,
        log2(d + 1) <= 2 <==> d <= 6,
        log2(d + 1) >= 6 <==> d >= 63,
        log2(d + 1) >= 9 <==> d >= 511,
        log2(d + 1) >= 12 <==> d >= 4095,
{
    reveal_with_fuel(power, 13);
    lemma_log2(d + 1, 1);
    lemma_log2(d + 1, 3);
    lemma_log2(d + 1, 6);
    lemma_log2(d + 1, 9);
    lemma_log2(d + 1, 12);
}

/// A commit applies one operator to the theme, and one more for each eightfold of its diff,
/// up to five.
pub proof fn lemma_operators_by_size(d: nat)
    ensures
        d <= 6 ==> operator_count(d) == 1,
        7 <= d <= 62 ==> operator_count(d) == 2,
        63 <= d <= 510 ==> operator_count(d) == 3,
        511 <= d <= 4094 ==> operator_count(d) == 4,
        d >= 4095 ==> operator_count(d) == 5,
{
    lemma_sizes(d);
}

/// Whether `r` is the last of the entries with the least weight.
pub open spec fn lightest_at(bar: Seq<(u32, i32, u8)>, r: int) -> bool {
    &&& 0 <= r < bar.len()
    &&& forall|j: int| 0 <= j < bar.len() ==> bar[r].2 <= (#[trigger] bar[j]).2
    &&& forall|j: int| r < j < bar.len() ==> bar[r].2 < (#[trigger] bar[j]).2
}

proof fn lemma_lightest(bar: Seq<(u32, i32, u8)>, k: int)
    requires
        1 <= k <= bar.len(),
    ensures
        ({
            let r = lightest_entry(bar, k);
            &&& 0 <= r < k
            &&& forall|j: int| 0 <= j < k ==> bar[r].2 <= (#[trigger] bar[j]).2
            &&& forall|j: int| r < j < k ==> bar[r].2 < (#[trigger] bar[j]).2
        }),
    decreases k,
{
    if k > 1 {
        lemma_lightest(bar, k - 1);
    }
}

/// Whether notes play the entries of a bar, one by one: each on its sixteenth, at its pitch,
/// until the next one or the end of the bar, but not longer than a quarter.
pub open spec fn plays(
    notes: Seq<NoteEvent>,
    bar: Seq<(u32, i32, u8)>,
    start: int,
    voice: usize,
    key: Key,
    scale: Scale,
) -> bool {
    &&& notes.len() == bar.len()
    &&& forall|i: int|
        0 <= i < bar.len() ==> {
            let e = #[trigger] notes[i];
            let next = if i + 1 < bar.len() {
                bar[i + 1].0 as int
            } else {
                16
            };
            &&& e.voice == voice
            &&& e.start == (start + bar[i].0 * 120) as u32
            &&& e.pitch == midi_of(key, scale, bar[i].1 as int) as u8
            &&& bar[i].0 < next <= bar[i].0 + 4 ==> e.dur == (next - bar[i].0) * 120
            &&& next > bar[i].0 + 4 ==> e.dur == 480
        }
}

proof fn lemma_events(
    bar: Seq<(u32, i32, u8)>,
    start: int,
    voice: usize,
    key: Key,
    scale: Scale,
    m: int,
    state: u64,
)
    ensures
        plays(bar_events(bar, start, voice, key, scale, m, state), bar, start, voice, key, scale),
{
}

/// A commit of a middling diff, 7 to 62 lines, plays every entry of its bar.
pub proof fn lemma_middling_commit(
    bar: Seq<(u32, i32, u8)>,
    start: int,
    voice: usize,
    key: Key,
    scale: Scale,
    d: nat,
    state: u64,
)
    requires
        7 <= d <= 62,
    ensures
        plays(bar_played(bar, start, voice, key, scale, d, state), bar, start, voice, key, scale),
{
    lemma_sizes(d);
    let m = log2(d + 1);
    assert(bar_thinned(bar, 0) == bar);
    assert(bar_echoed(bar, state, 0) == (bar, state));
    lemma_events(bar, start, voice, key, scale, m as int, state);
}

/// A commit of a small diff, up to 6 lines, leaves out the lightest entry of its bar, the last
/// of several; one without a diff leaves out another where two are still left. A bar of two
/// entries or fewer is played as it is.
pub proof fn lemma_small_commit(
    bar: Seq<(u32, i32, u8)>,
    start: int,
    voice: usize,
    key: Key,
    scale: Scale,
    d: nat,
    state: u64,
) -> (r: (int, int))
    requires
        d <= 6,
    ensures
        ({
            let notes = bar_played(bar, start, voice, key, scale, d, state);
            let once = bar.remove(r.0);
            &&& bar.len() <= 2 ==> plays(notes, bar, start, voice, key, scale)
            &&& bar.len() > 2 ==> lightest_at(bar, r.0)
            &&& bar.len() == 3 || (bar.len() > 3 && d > 0) ==> plays(
                notes,
                once,
                start,
                voice,
                key,
                scale,
            )
            &&& bar.len() > 3 && d == 0 ==> lightest_at(once, r.1) && plays(
                notes,
                once.remove(r.1),
                start,
                voice,
                key,
                scale,
            )
        }),
{
    lemma_sizes(d);
    let m = log2(d + 1);
    let n = thinning(m, bar.len());
    reveal_with_fuel(bar_thinned, 3);
    let a = lightest_entry(bar, bar.len() as int);
    if bar.len() > 0 {
        lemma_lightest(bar, bar.len() as int);
    }
    let once = bar.remove(a);
    let b = lightest_entry(once, once.len() as int);
    if bar.len() > 2 {
        lemma_lightest(once, once.len() as int);
    }
    let thin = bar_thinned(bar, n);
    assert(bar_echoed(thin, state, 0) == (thin, state));
    lemma_events(thin, start, voice, key, scale, m as int, state);
    (a, b)
}

/// Whether `t` is the heaviest of the entries, and the last of several.
pub open spec fn heaviest_at(bar: Seq<(u32, i32, u8)>, t: int) -> bool {
    &&& 0 <= t < bar.len()
    &&& forall|j: int| 0 <= j < bar.len() ==> (#[trigger] bar[j]).2 <= bar[t].2
    &&& forall|j: int|
        0 <= j < bar.len() && (#[trigger] bar[j]).2 == bar[t].2 ==> bar[j].0 <= bar[t].0
}

proof fn lemma_strongest(bar: Seq<(u32, i32, u8)>, k: int)
    requires
        1 <= k <= bar.len(),
    ensures
        ({
            let t = strongest_entry(bar, k);
            &&& 0 <= t < k
            &&& forall|j: int| 0 <= j < k ==> (#[trigger] bar[j]).2 <= bar[t].2
            &&& forall|j: int|
                0 <= j < k && (#[trigger] bar[j]).2 == bar[t].2 ==> bar[j].0 <= bar[t].0
        }),
    decreases k,
{
    if k > 1 {
        lemma_strongest(bar, k - 1);
    }
}

/// Whether a bar has an echo more than another: a light entry on the sixteenth behind the
/// heaviest one, a scale step away from it, if that sixteenth is free and inside the bar; else
/// it is the same.
pub open spec fn echo_added(before: Seq<(u32, i32, u8)>, after: Seq<(u32, i32, u8)>) -> bool {
    exists|t: int| #[trigger]
        heaviest_at(before, t) && if before[t].0 < 15 && forall|j: int|
            0 <= j < before.len() ==> (#[trigger] before[j]).0 != before[t].0 + 1 {
            &&& after.len() == before.len() + 1
            &&& exists|x: (u32, i32, u8)|
                x.0 == before[t].0 + 1 && x.2 == 0 && #[trigger] after.contains(x) && (
                -0x8000_0000 < before[t].1 < 0x7fff_ffff ==> x.1 == before[t].1 + 1 || x.1
                    == before[t].1 - 1)
            &&& forall|y: (u32, i32, u8)| before.contains(y) ==> #[trigger] after.contains(y)
        } else {
            after == before
        }
}

proof fn lemma_echo(bar: Seq<(u32, i32, u8)>, state: u64)
    requires
        bar.len() > 0,
    ensures
        echo_added(bar, echoed(bar, state).0),
        echoed(bar, state).0.len() > 0,
{
    let t = strongest_entry(bar, bar.len() as int);
    lemma_strongest(bar, bar.len() as int);
    assert(heaviest_at(bar, t));
    let slot = bar[t].0 + 1;
    let after = echoed(bar, state).0;
    if slot < 16 && !bar_has(bar, slot) {
        let x = (slot as u32, (bar[t].1 + crate::theme::coin_step(state)) as i32, 0u8);
        let more = bar.push(x);
        lemma_sorted_len(more);
        assert(more[bar.len() as int] == x);
        lemma_sorted_holds(more, x);
        assert(after.contains(x));
        assert forall|y: (u32, i32, u8)| bar.contains(y) implies #[trigger] after.contains(y) by {
            let i = choose|i: int| 0 <= i < bar.len() && bar[i] == y;
            assert(more[i] == y);
            lemma_sorted_holds(more, y);
        }
    } else if slot < 16 {
        let j = choose|j: int| 0 <= j < bar.len() && (#[trigger] bar[j]).0 == slot;
        assert(bar[j].0 == bar[t].0 + 1);
    }
}

/// A commit of a large diff, 63 lines or more, plays every entry of its bar and an echo behind
/// the heaviest one; from 511 lines on two.
pub proof fn lemma_large_commit(
    bar: Seq<(u32, i32, u8)>,
    start: int,
    voice: usize,
    key: Key,
    scale: Scale,
    d: nat,
    state: u64,
) -> (r: (Seq<(u32, i32, u8)>, Seq<(u32, i32, u8)>))
    requires
        d >= 63,
        bar.len() > 0,
    ensures
        ({
            let notes = bar_played(bar, start, voice, key, scale, d, state);
            &&& echo_added(bar, r.0)
            &&& d < 511 ==> plays(notes, r.0, start, voice, key, scale)
            &&& d >= 511 ==> echo_added(r.0, r.1) && plays(notes, r.1, start, voice, key, scale)
        }),
{
    lemma_sizes(d);
    let m = log2(d + 1);
    assert(bar_thinned(bar, 0) == bar);
    reveal_with_fuel(bar_echoed, 3);
    let one = echoed(bar, state);
    lemma_echo(bar, state);
    let two = echoed(one.0, one.1);
    lemma_echo(one.0, one.1);
    let full = bar_echoed(bar, state, echoes(m));
    lemma_events(full.0, start, voice, key, scale, m as int, full.1);
    (one.0, two.0)
}

proof fn lemma_strokes(start: int, voice: usize, step: int, state: u64, slot: int, n: int)
    requires
        step == 1 || step == 2,
        0 <= n <= 16,
        slot == 16 - n * step,
        0 <= slot,
    ensures
        ({
            let s = hat_strokes(start, voice, step, state, slot);
            &&& s.len() == n
            &&& forall|i: int|
                0 <= i < n ==> {
                    let e = #[trigger] s[i];
                    let at = slot + i * step;
                    &&& e.voice == voice
                    &&& e.start == (start + at * 120) as u32
                    &&& e.dur == 120
                    &&& e.pitch == 42 || (e.pitch == 46 && at == 14)
                    &&& at % 4 == 0 ==> 72 <= e.velocity <= 80
                    &&& at % 4 != 0 ==> 56 <= e.velocity <= 64
                }
        }),
    decreases n,
{
    let s = hat_strokes(start, voice, step, state, slot);
    if n > 0 {
        let s1 = if slot == 14 {
            advance(state)
        } else {
            state
        };
        lemma_draw_below(s1, 9);
        lemma_strokes(start, voice, step, advance(s1), slot + step, n - 1);
        let rest = hat_strokes(start, voice, step, advance(s1), slot + step);
        assert(s == seq![s[0]] + rest);
        assert forall|i: int| 0 <= i < n implies {
            let e = #[trigger] s[i];
            let at = slot + i * step;
            &&& e.voice == voice
            &&& e.start == (start + at * 120) as u32
            &&& e.dur == 120
            &&& e.pitch == 42 || (e.pitch == 46 && at == 14)
            &&& at % 4 == 0 ==> 72 <= e.velocity <= 80
            &&& at % 4 != 0 ==> 56 <= e.velocity <= 64
        } by {
            if i > 0 {
                assert(s[i] == rest[i - 1]);
                assert(slot + step + (i - 1) * step == slot + i * step) by (nonlinear_arith);
            }
        }
    }
}

/// A bot plays hi-hat strokes in eighths, or in sixteenths from 63 lines on, each a sixteenth
/// long. Those on the beat are the louder ones, and all are closed, but for the one on the
/// fourteenth sixteenth, which may be open.
pub proof fn lemma_strokes_of_bot(start: int, voice: usize, d: nat, state: u64)
    ensures
        ({
            let s = hats_played(start, voice, d, state);
            let step: int = if d >= 63 {
                1
            } else {
                2
            };
            &&& s.len() == 16int / step
            &&& forall|i: int|
                0 <= i < s.len() ==> {
                    let e = #[trigger] s[i];
                    let at = i * step;
                    &&& e.voice == voice
                    &&& e.start == (start + at * 120) as u32
                    &&& e.dur == 120
                    &&& e.pitch == 42 || (e.pitch == 46 && at == 14)
                    &&& at % 4 == 0 ==> 72 <= e.velocity <= 80
                    &&& at % 4 != 0 ==> 56 <= e.velocity <= 64
                }
        }),
{
    lemma_sizes(d);
    let step = hat_step(d);
    lemma_strokes(
        start,
        voice,
        step,
        state,
        0,
        if d >= 63 {
            16
        } else {
            8
        },
    );
}

} // verus!
