//! The drone of the static mode: root and fifth under everything, and a cadence where one
//! section passes over to the next.

use vstd::prelude::*;

use crate::compose::{on_bar, on_grid, BAR};
use crate::model::{Key, NoteEvent};

verus! {

/// How long the drone that is struck at a tick is held: two bars, or up to the first of the
/// transitions among the first `k` that comes earlier.
pub open spec fn hold(transitions: Seq<u32>, at: int, k: int) -> int
    decreases k,
{
    if k <= 0 {
        2 * BAR
    } else {
        let before = hold(transitions, at, k - 1);
        if at < transitions[k - 1] < at + before {
            transitions[k - 1] - at
        } else {
            before
        }
    }
}

/// How long the drone that is struck at a tick is held, within the piece.
pub open spec fn hold_within(transitions: Seq<u32>, at: int, end: int) -> int {
    let dur = hold(transitions, at, transitions.len() as int);
    if at + dur > end {
        end - at
    } else {
        dur
    }
}

/// A note of the drone.
pub open spec fn drone_note(
    voice: usize,
    pitch: int,
    start: int,
    dur: int,
    velocity: u8,
) -> NoteEvent {
    NoteEvent { voice, pitch: pitch as u8, start: start as u32, dur: dur as u32, velocity }
}

/// The notes of the drone from a tick on: in a transition bar a cadence from the fifth to
/// the root, else root and fifth together.
pub open spec fn drone_from(
    key: Key,
    end: int,
    transitions: Seq<u32>,
    voice: usize,
    at: int,
) -> Seq<NoteEvent>
    decreases
        (if at < end {
            end - at
        } else {
            0
        }),
{
    let root = 36 + key.root;
    let fifth = root + 7;
    if at >= end {
        seq![]
    } else if transitions.contains(at as u32) {
        seq![
            drone_note(voice, fifth, at, BAR as int / 2, 52),
            drone_note(voice, root, at + BAR as int / 2, BAR as int / 2, 56),
        ] + drone_from(key, end, transitions, voice, at + BAR)
    } else {
        let dur = hold_within(transitions, at, end);
        if dur <= 0 {
            seq![]
        } else {
            seq![
                drone_note(voice, root, at, dur, 44),
                drone_note(voice, fifth, at, dur, 38),
            ] + drone_from(key, end, transitions, voice, at + dur)
        }
    }
}

proof fn lemma_hold(transitions: Seq<u32>, at: int, k: int)
    requires
        0 <= k <= transitions.len(),
    ensures
        0 < hold(transitions, at, k) <= 2 * BAR,
    decreases k,
{
    if k > 0 {
        lemma_hold(transitions, at, k - 1);
    }
}

/// Whether a note sounds at a tick.
pub open spec fn sounds_at(n: NoteEvent, tick: int) -> bool {
    n.start <= tick < n.start + n.dur
}

/// The drone covers the piece: at every tick one of its notes sounds.
pub proof fn lemma_drone_covers(
    key: Key,
    end: int,
    transitions: Seq<u32>,
    voice: usize,
    at: int,
    tick: int,
)
    requires
        key.root < 12,
        0 <= at <= tick < end,
        end + BAR <= u32::MAX,
    ensures
        exists|i: int|
            0 <= i < drone_from(key, end, transitions, voice, at).len() && sounds_at(
                #[trigger] drone_from(key, end, transitions, voice, at)[i],
                tick,
            ),
    decreases end - at,
{
    let all = drone_from(key, end, transitions, voice, at);
    lemma_hold(transitions, at, transitions.len() as int);
    let step = if transitions.contains(at as u32) {
        BAR as int
    } else {
        hold_within(transitions, at, end)
    };
    if tick < at + step {
        if transitions.contains(at as u32) && tick >= at + BAR as int / 2 {
            assert(sounds_at(all[1], tick));
        } else {
            assert(sounds_at(all[0], tick));
        }
    } else {
        lemma_drone_covers(key, end, transitions, voice, at + step, tick);
        let rest = drone_from(key, end, transitions, voice, at + step);
        let i = choose|i: int| 0 <= i < rest.len() && sounds_at(#[trigger] rest[i], tick);
        assert(all[i + 2] == rest[i]);
    }
}

/// Whether a note belongs to the drone: the root or the fifth, inside the piece and on the
/// grid.
pub open spec fn drone_note_ok(key: Key, voice: usize, end: int, e: NoteEvent) -> bool {
    &&& e.voice == voice
    &&& e.pitch == 36 + key.root || e.pitch == 43 + key.root
    &&& e.dur > 0
    &&& e.start + e.dur <= end
    &&& on_grid(e, 0)
    &&& 38 <= e.velocity <= 56
}

proof fn lemma_hold_aligned(transitions: Seq<u32>, at: int, k: int)
    requires
        0 <= k <= transitions.len(),
        on_bar(at),
        forall|i: int| 0 <= i < transitions.len() ==> on_bar(#[trigger] transitions[i] as int),
    ensures
        on_bar(hold(transitions, at, k)),
    decreases k,
{
    reveal(on_bar);
    if k > 0 {
        lemma_hold_aligned(transitions, at, k - 1);
        assert(on_bar(transitions[k - 1] as int));
    }
}

/// What is struck at a bar, or in its middle, is on the grid.
proof fn lemma_struck_on_grid(e: NoteEvent, at: int, step: int, cadence: bool)
    requires
        on_bar(at),
        on_bar(step),
        if cadence {
            (e.start == at || e.start == at + BAR as int / 2) && e.dur == BAR / 2
        } else {
            e.start == at && e.dur == step
        },
    ensures
        on_grid(e, 0),
{
    reveal(on_bar);
    reveal(on_grid);
}

/// The drone of a piece in bars, with transitions of one bar each, plays the root and the
/// fifth of the key, inside the piece, and no more than two notes in a bar.
pub proof fn lemma_drone_notes(
    key: Key,
    end: int,
    transitions: Seq<u32>,
    voice: usize,
    at: int,
)
    requires
        key.root < 12,
        0 <= at,
        0 <= end <= u32::MAX,
        on_bar(at),
        on_bar(end),
        forall|i: int| 0 <= i < transitions.len() ==> on_bar(#[trigger] transitions[i] as int),
    ensures
        forall|i: int|
            0 <= i < drone_from(key, end, transitions, voice, at).len() ==> drone_note_ok(
                key,
                voice,
                end,
                #[trigger] drone_from(key, end, transitions, voice, at)[i],
            ),
        at <= end ==> drone_from(key, end, transitions, voice, at).len() * BAR <= 2 * (end - at),
    decreases
            (if at < end {
                end - at
            } else {
                0
            }),
{
    if at < end {
        let all = drone_from(key, end, transitions, voice, at);
        lemma_hold(transitions, at, transitions.len() as int);
        lemma_hold_aligned(transitions, at, transitions.len() as int);
        let step = if transitions.contains(at as u32) {
            BAR as int
        } else {
            hold_within(transitions, at, end)
        };
        assert(on_bar(step) && on_bar(at + step) && BAR <= step <= end - at) by {
            reveal(on_bar);
        }
        lemma_drone_notes(key, end, transitions, voice, at + step);
        let rest = drone_from(key, end, transitions, voice, at + step);
        assert(all.len() == rest.len() + 2);
        lemma_struck_on_grid(all[0], at, step, transitions.contains(at as u32));
        lemma_struck_on_grid(all[1], at, step, transitions.contains(at as u32));
        assert forall|i: int| 0 <= i < all.len() implies drone_note_ok(
            key,
            voice,
            end,
            #[trigger] all[i],
        ) by {
            if i >= 2 {
                assert(all[i] == rest[i - 2]);
            }
        }
    }
}

/// Whether a tick is one of the transitions.
fn is_transition(transitions: &Vec<u32>, at: u32) -> (r: bool)
    ensures
        r == transitions@.contains(at),
{
    for i in 0..transitions.len()
        invariant
            forall|j: int| 0 <= j < i ==> transitions@[j] != at,
    {
        if transitions[i] == at {
            return true;
        }
    }
    false
}

/// How long the drone that is struck at a tick is held, within the piece.
fn hold_for(transitions: &Vec<u32>, at: u32, end: u32) -> (r: u32)
    requires
        at < end,
    ensures
        r == hold_within(transitions@, at as int, end as int),
        0 < r <= end - at,
{
    let mut dur: u64 = 2 * BAR as u64;
    for k in 0..transitions.len()
        invariant
            dur == hold(transitions@, at as int, k as int),
            0 < dur <= 2 * BAR,
    {
        let t: u64 = transitions[k] as u64;
        if t > at as u64 && t < at as u64 + dur {
            dur = t - at as u64;
        }
    }
    if at as u64 + dur > end as u64 {
        end - at
    } else {
        dur as u32
    }
}

/// Adds the drone under a piece that ends at the tick `end`.
pub fn gen_drone(
    notes: &mut Vec<NoteEvent>,
    key: Key,
    end: u32,
    transitions: &Vec<u32>,
    voice: usize,
)
    requires
        key.root < 12,
        forall|i: int|
            0 <= i < transitions@.len() ==> #[trigger] transitions@[i] + BAR <= u32::MAX,
    ensures
        final(notes)@ == old(notes)@ + drone_from(key, end as int, transitions@, voice, 0),
{
    let root: u8 = 36 + key.root;
    let fifth: u8 = root + 7;
    let ghost all = drone_from(key, end as int, transitions@, voice, 0);
    let mut at: u32 = 0;
    assert(notes@ + all =~= old(notes)@ + all);
    while at < end
        invariant
            key.root < 12,
            root == 36 + key.root,
            fifth == root + 7,
            forall|i: int|
                0 <= i < transitions@.len() ==> #[trigger] transitions@[i] + BAR <= u32::MAX,
            notes@ + drone_from(key, end as int, transitions@, voice, at as int) == old(notes)@
                + all,
        decreases
            (if at < end {
                end - at
            } else {
                0
            }),
    {
        let ghost before = notes@;
        let ghost rest = drone_from(key, end as int, transitions@, voice, at as int);
        if is_transition(transitions, at) {
            assert(at + BAR <= u32::MAX) by {
                let i = choose|i: int| 0 <= i < transitions@.len() && transitions@[i] == at;
                assert(transitions@[i] + BAR <= u32::MAX);
            }
            notes.push(
                NoteEvent { voice, pitch: fifth, start: at, dur: BAR / 2, velocity: 52 },
            );
            notes.push(
                NoteEvent {
                    voice,
                    pitch: root,
                    start: at + BAR / 2,
                    dur: BAR / 2,
                    velocity: 56,
                },
            );
            at = at + BAR;
        } else {
            let dur: u32 = hold_for(transitions, at, end);
            notes.push(NoteEvent { voice, pitch: root, start: at, dur, velocity: 44 });
            notes.push(NoteEvent { voice, pitch: fifth, start: at, dur, velocity: 38 });
            at = at + dur;
        }
        proof {
            let tail = drone_from(key, end as int, transitions@, voice, at as int);
            assert(rest =~= seq![
                notes@[before.len() as int],
                notes@[before.len() as int + 1],
            ] + tail);
            assert(notes@ + tail =~= before + rest);
        }
    }
    assert(notes@ + Seq::<NoteEvent>::empty() =~= notes@);
}

} // verus!
