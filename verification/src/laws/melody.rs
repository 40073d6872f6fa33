//! Steps and pitches, and what becomes of a theme.

use vstd::prelude::*;

use crate::model::{scale_degrees, Key, Scale};
use crate::rng::{advance, draw_below, lemma_draw_below};
use crate::theme::{
    confined, displaced, has_slot, inverted, lightest, mutation, mutations, nudged, ornamented,
    swapped, ThemeNote, ThemeView,
};
use crate::theory::{degree_below, midi_of, pitch_of, scale_len, steps_of};
use crate::wav::{
    data_len, four_bytes, frame_count, frames, lemma_wav_len, two_bytes, wav_bytes, wav_header,
};

verus! {

/// The steps of a scale: step 0 is the tonic, each step is higher than the one before it, a
/// round of them is an octave, and all of them are in the scale.
pub proof fn lemma_steps_of_scale(key: Key, scale: Scale, s: int)
    ensures
        pitch_of(key, scale, 0) == key.root,
        pitch_of(key, scale, s) < pitch_of(key, scale, s + 1),
        scale == Scale::MajorPentatonic || scale == Scale::MinorPentatonic ==> pitch_of(
            key,
            scale,
            s + 5,
        ) == pitch_of(key, scale, s) + 12,
        scale == Scale::Dorian || scale == Scale::Aeolian ==> pitch_of(key, scale, s + 7)
            == pitch_of(key, scale, s) + 12,
        exists|i: int|
            0 <= i < scale_degrees(scale).len() && #[trigger] scale_degrees(scale)[i] == (pitch_of(
                key,
                scale,
                s,
            ) - key.root) % 12,
        midi_of(key, scale, s) == if pitch_of(key, scale, s) < 0 {
            0
        } else if pitch_of(key, scale, s) > 127 {
            127
        } else {
            pitch_of(key, scale, s)
        },
{
    let n = scale_len(scale);
    let d = scale_degrees(scale);
    if n == 5 {
        lemma_next(s, 5);
    } else {
        lemma_next(s, 7);
    }
    let i = s % n;
    assert(0 <= d[i] < 12);
    assert(d[i] == (pitch_of(key, scale, s) - key.root) % 12);
}

proof fn lemma_next(s: int, n: int)
    requires
        n == 5 || n == 7,
    ensures
        s % n == n - 1 ==> (s + 1) % n == 0 && (s + 1) / n == s / n + 1,
        s % n < n - 1 ==> (s + 1) % n == s % n + 1 && (s + 1) / n == s / n,
        (s + n) % n == s % n && (s + n) / n == s / n + 1,
{
}

proof fn lemma_degree(d: Seq<u8>, pc: int, k: int)
    requires
        1 <= k <= d.len(),
        d[0] <= pc,
        forall|i: int, j: int| 0 <= i < j < d.len() ==> d[i] < d[j],
    ensures
        0 <= degree_below(d, pc, k) < k,
        d[degree_below(d, pc, k)] <= pc,
        degree_below(d, pc, k) + 1 < k ==> d[degree_below(d, pc, k) + 1] > pc,
    decreases k,
{
    if d[k - 1] > pc {
        lemma_degree(d, pc, k - 1);
    }
}

/// The step of a pitch is the highest one that is not above it.
pub proof fn lemma_step_of_pitch(key: Key, scale: Scale, midi: int)
    ensures
        pitch_of(key, scale, steps_of(key, scale, midi)) <= midi < pitch_of(
            key,
            scale,
            steps_of(key, scale, midi) + 1,
        ),
{
    let n = scale_len(scale);
    let d = scale_degrees(scale);
    let rel = midi - key.root;
    let pc = rel % 12;
    let octave = rel / 12;
    assert(rel == 12 * octave + pc);
    assert forall|i: int, j: int| 0 <= i < j < d.len() implies d[i] < d[j] by {}
    lemma_degree(d, pc, n);
    let i = degree_below(d, pc, n);
    let s = steps_of(key, scale, midi);
    if n == 5 {
        assert(s == octave * 5 + i);
        assert(s % 5 == i && s / 5 == octave);
        lemma_next(s, 5);
    } else {
        assert(s == octave * 7 + i);
        assert(s % 7 == i && s / 7 == octave);
        lemma_next(s, 7);
    }
}

/// Whether two lists of notes differ in one place at most.
pub open spec fn differ_at(a: Seq<ThemeNote>, b: Seq<ThemeNote>, i: int) -> bool {
    &&& a.len() == b.len()
    &&& 0 <= i < a.len()
    &&& forall|j: int| 0 <= j < a.len() && j != i ==> #[trigger] a[j] == b[j]
}

/// Whether the rest of a theme is as it was.
pub open spec fn same_frame(t: ThemeView, u: ThemeView) -> bool {
    t.bars == u.bars && t.center == u.center && t.lo == u.lo && t.hi == u.hi
}

/// Whether one note was moved by a scale step, up or down, and nothing else.
pub open spec fn was_nudged(t: ThemeView, u: ThemeView) -> bool {
    same_frame(t, u) && exists|i: int| #[trigger]
        differ_at(t.notes, u.notes, i) && u.notes[i].slot == t.notes[i].slot && u.notes[i].weight
            == t.notes[i].weight && (u.notes[i].degree == t.notes[i].degree + 1
            || u.notes[i].degree == t.notes[i].degree - 1)
}

/// Whether one note was moved by a sixteenth, early or late, to a place in its own bar where
/// none stood, with the weight of that place, and nothing else.
pub open spec fn was_displaced(t: ThemeView, u: ThemeView) -> bool {
    same_frame(t, u) && exists|i: int| #[trigger]
        differ_at(t.notes, u.notes, i) && u.notes[i].degree == t.notes[i].degree && (
        u.notes[i].slot == t.notes[i].slot + 1 || u.notes[i].slot == t.notes[i].slot - 1)
            && u.notes[i].slot / 16 == t.notes[i].slot / 16 && (forall|j: int|
            0 <= j < t.notes.len() ==> (#[trigger] t.notes[j]).slot != u.notes[i].slot)
            && u.notes[i].weight == (if u.notes[i].slot % 16 == 0 {
            3u8
        } else if u.notes[i].slot % 4 == 0 {
            2
        } else {
            1
        })
}

/// Whether two notes have each other's pitch, and nothing else changed.
pub open spec fn was_swapped(t: ThemeView, u: ThemeView) -> bool {
    same_frame(t, u) && t.notes.len() == u.notes.len() && exists|i: int, j: int|
        0 <= i < t.notes.len() && 0 <= j < t.notes.len() && (#[trigger] u.notes[i]).degree
            == t.notes[j].degree && (#[trigger] u.notes[j]).degree == t.notes[i].degree
            && forall|k: int|
            0 <= k < t.notes.len() ==> (#[trigger] u.notes[k]).slot == t.notes[k].slot
                && u.notes[k].weight == t.notes[k].weight && (k != i && k != j
                ==> u.notes[k].degree == t.notes[k].degree)
}

/// Whether a theme was mirrored at its center: what stood above stands as far below.
pub open spec fn was_mirrored(t: ThemeView, u: ThemeView) -> bool {
    same_frame(t, u) && t.notes.len() == u.notes.len() && forall|i: int|
        0 <= i < t.notes.len() ==> (#[trigger] u.notes[i]).slot == t.notes[i].slot
            && u.notes[i].weight == t.notes[i].weight && u.notes[i].degree - t.center == t.center
            - t.notes[i].degree
}

/// Whether a note was taken away: the last of the lightest, where there are more than three.
pub open spec fn was_thinned(t: ThemeView, u: ThemeView) -> bool {
    same_frame(t, u) && t.notes.len() > 3 && exists|r: int|
        0 <= r < t.notes.len() && u.notes == #[trigger] t.notes.remove(r) && (forall|j: int|
            0 <= j < t.notes.len() ==> t.notes[r].weight <= (#[trigger] t.notes[j]).weight)
            && forall|j: int|
            r < j < t.notes.len() ==> t.notes[r].weight < (#[trigger] t.notes[j]).weight
}

/// Whether a note was added: one without weight, a sixteenth before one that is there, in the
/// same bar and a step away from it, where none stood.
pub open spec fn was_ornamented(t: ThemeView, u: ThemeView) -> bool {
    same_frame(t, u) && u.notes.len() == t.notes.len() + 1 && u.notes.take(t.notes.len() as int)
        == t.notes && exists|i: int|
        0 <= i < t.notes.len() && (#[trigger] t.notes[i]).slot == u.notes.last().slot + 1
            && u.notes.last().slot / 16 == t.notes[i].slot / 16 && u.notes.last().weight == 0 && (
        u.notes.last().degree == t.notes[i].degree + 1 || u.notes.last().degree
            == t.notes[i].degree - 1) && forall|j: int|
            0 <= j < t.notes.len() ==> (#[trigger] t.notes[j]).slot != u.notes.last().slot
}

/// Whether the pitches of a theme are small enough for a step more.
pub open spec fn roomy(t: ThemeView) -> bool {
    &&& 1 <= t.bars
    &&& -1_000_000 <= t.center <= 1_000_000
    &&& forall|i: int|
        0 <= i < t.notes.len() ==> -1_000_000 <= (#[trigger] t.notes[i]).degree <= 1_000_000
            && t.notes[i].slot < 0x7fff_ffff
}

proof fn lemma_nudge(t: ThemeView, state: u64)
    requires
        roomy(t),
        t.notes.len() > 0,
    ensures
        was_nudged(t, nudged(t, state).0),
{
    let u = nudged(t, state).0;
    lemma_draw_below(state, t.notes.len() as int);
    let i = draw_below(state, t.notes.len() as int);
    assert(differ_at(t.notes, u.notes, i));
    assert(-1_000_000 <= t.notes[i].degree <= 1_000_000);
}

proof fn lemma_displace(t: ThemeView, state: u64)
    requires
        roomy(t),
        t.notes.len() > 0,
    ensures
        displaced(t, state).0 == t || was_displaced(t, displaced(t, state).0),
{
    let u = displaced(t, state).0;
    lemma_draw_below(state, t.notes.len() as int);
    let i = draw_below(state, t.notes.len() as int);
    let n = t.notes[i];
    let slot = n.slot + crate::theme::coin_step(advance(state));
    assert(n.slot < 0x7fff_ffff);
    if !(slot < 0 || slot / 16 != n.slot as int / 16 || has_slot(t.notes, slot)) {
        assert(differ_at(t.notes, u.notes, i));
        assert(u.notes[i].slot == slot);
        assert forall|j: int| 0 <= j < t.notes.len() implies (#[trigger] t.notes[j]).slot
            != u.notes[i].slot by {
            if t.notes[j].slot == slot {
                assert(has_slot(t.notes, slot));
            }
        }
    }
}

proof fn lemma_swap(t: ThemeView, state: u64)
    requires
        roomy(t),
        t.notes.len() > 1,
    ensures
        was_swapped(t, swapped(t, state).0),
{
    let u = swapped(t, state).0;
    let n = t.notes.len() as int;
    lemma_draw_below(state, n);
    lemma_draw_below(advance(state), n);
    let i = draw_below(state, n);
    let j = draw_below(advance(state), n);
    assert(u.notes[i].degree == t.notes[j].degree);
    assert(u.notes[j].degree == t.notes[i].degree);
}

proof fn lemma_mirror(t: ThemeView)
    requires
        roomy(t),
    ensures
        was_mirrored(t, inverted(t)),
{
    let u = inverted(t);
    assert forall|i: int| 0 <= i < t.notes.len() implies (#[trigger] u.notes[i]).slot
        == t.notes[i].slot && u.notes[i].weight == t.notes[i].weight && u.notes[i].degree
        - t.center == t.center - t.notes[i].degree by {
        assert(-1_000_000 <= t.notes[i].degree <= 1_000_000);
    }
}

proof fn lemma_lightest_note(notes: Seq<ThemeNote>, k: int)
    requires
        1 <= k <= notes.len(),
    ensures
        ({
            let r = lightest(notes, k);
            &&& 0 <= r < k
            &&& forall|j: int| 0 <= j < k ==> notes[r].weight <= (#[trigger] notes[j]).weight
            &&& forall|j: int| r < j < k ==> notes[r].weight < (#[trigger] notes[j]).weight
        }),
    decreases k,
{
    if k > 1 {
        lemma_lightest_note(notes, k - 1);
    }
}

proof fn lemma_ornament(t: ThemeView, state: u64)
    requires
        roomy(t),
        t.notes.len() > 0,
    ensures
        ({
            let u = ornamented(t, state).0;
            &&& u == t || was_thinned(t, u) || was_ornamented(t, u)
            &&& t.notes.len() < 4 * t.bars ==> u == t || was_ornamented(t, u)
            &&& t.notes.len() >= 8 * t.bars ==> if t.notes.len() > 3 {
                was_thinned(t, u)
            } else {
                u == t
            }
        }),
{
    let u = ornamented(t, state).0;
    let n = t.notes.len() as int;
    let b = t.bars as int;
    let per_bar = n / b;
    assert(n < 4 * b ==> per_bar <= 3) by (nonlinear_arith)
        requires
            b >= 1,
            n >= 0,
            per_bar == n / b,
    ;
    assert(n >= 8 * b ==> per_bar > 7) by (nonlinear_arith)
        requires
            b >= 1,
            n >= 0,
            per_bar == n / b,
    ;
    let open = 3 < per_bar <= 7;
    let s1 = if open {
        advance(state)
    } else {
        state
    };
    lemma_lightest_note(t.notes, n);
    lemma_draw_below(s1, n);
    let r = lightest(t.notes, n);
    let i = draw_below(s1, n);
    assert(-1_000_000 <= t.notes[i].degree <= 1_000_000);
    if per_bar > 7 || (open && crate::rng::draw_weighted(state, seq![50u32, 50]) == 1) {
        if n > 3 {
            assert(u.notes == t.notes.remove(r));
            assert(was_thinned(t, u));
        }
    } else if u.notes != t.notes {
        let x = u.notes.last();
        assert(u.notes == t.notes.push(x));
        assert(u.notes.take(n) =~= t.notes);
        assert(t.notes[i].slot == x.slot + 1);
        assert forall|j: int| 0 <= j < n implies (#[trigger] t.notes[j]).slot != x.slot by {
            if t.notes[j].slot == x.slot {
                assert(has_slot(t.notes, x.slot as int));
            }
        }
        assert(was_ornamented(t, u));
    }
}

/// A mutation does one of five things to a theme: it moves a note by a step, or by a sixteenth
/// if there is room, adds or takes a note, swaps the pitches of two, or mirrors them all.
pub proof fn lemma_one_mutation(t: ThemeView, state: u64)
    requires
        roomy(t),
    ensures
        ({
            let u = mutation(t, state).0;
            ||| u == t
            ||| was_nudged(t, u)
            ||| was_displaced(t, u)
            ||| was_thinned(t, u)
            ||| was_ornamented(t, u)
            ||| was_swapped(t, u)
            ||| was_mirrored(t, u)
        }),
{
    let s = advance(state);
    if t.notes.len() > 0 {
        lemma_nudge(t, s);
        lemma_displace(t, s);
        lemma_ornament(t, s);
    }
    if t.notes.len() > 1 {
        lemma_swap(t, s);
    }
    lemma_mirror(t);
}

/// A theme that was mirrored twice is as it was.
pub proof fn lemma_mirrored_twice(t: ThemeView)
    requires
        roomy(t),
    ensures
        inverted(inverted(t)) == t,
{
    let u = inverted(t);
    lemma_mirror(t);
    assert forall|i: int| 0 <= i < t.notes.len() implies inverted(u).notes[i] == t.notes[i] by {
        assert(u.notes[i].degree == 2 * t.center - t.notes[i].degree);
    }
    assert(inverted(u).notes =~= t.notes);
}

/// A theme between mutations has its pitches in its register: a pitch outside is brought to
/// the nearer end, one inside stays.
pub proof fn lemma_confined(notes: Seq<ThemeNote>, lo: int, hi: int, i: int)
    requires
        0 <= i < notes.len(),
        i32::MIN <= lo <= hi <= i32::MAX,
    ensures
        ({
            let n = notes[i];
            let m = confined(notes, lo, hi)[i];
            &&& m.slot == n.slot && m.weight == n.weight
            &&& lo <= m.degree <= hi
            &&& lo <= n.degree <= hi ==> m.degree == n.degree
            &&& n.degree > hi ==> m.degree == hi
            &&& n.degree < lo ==> m.degree == lo
        }),
{
}

/// The bytes of a number, the low ones first.
pub open spec fn says(bytes: Seq<u8>, at: int, width: int, n: int) -> bool
    decreases width,
{
    if width <= 0 {
        n == 0
    } else {
        bytes[at] == n % 256 && says(bytes, at + 1, width - 1, n / 256)
    }
}

/// Whether bytes begin as a sound file of two channels of 16 bits at 44100 samples a second,
/// with so many bytes of data.
pub open spec fn sound_header(bytes: Seq<u8>, data: int) -> bool {
    &&& bytes[0] == 'R' as u8 && bytes[1] == 'I' as u8 && bytes[2] == 'F' as u8 && bytes[3]
        == 'F' as u8
    &&& says(bytes, 4, 4, 36 + data)
    &&& bytes[8] == 'W' as u8 && bytes[9] == 'A' as u8 && bytes[10] == 'V' as u8 && bytes[11]
        == 'E' as u8
    &&& bytes[12] == 'f' as u8 && bytes[13] == 'm' as u8 && bytes[14] == 't' as u8 && bytes[15]
        == ' ' as u8
    &&& says(bytes, 16, 4, 16)
    &&& says(bytes, 20, 2, 1)
    &&& says(bytes, 22, 2, 2)
    &&& says(bytes, 24, 4, 44_100)
    &&& says(bytes, 28, 4, 176_400)
    &&& says(bytes, 32, 2, 4)
    &&& says(bytes, 34, 2, 16)
    &&& bytes[36] == 'd' as u8 && bytes[37] == 'a' as u8 && bytes[38] == 't' as u8 && bytes[39]
        == 'a' as u8
    &&& says(bytes, 40, 4, data)
}

/// A sound file is told to be one of two channels of 16 bits at 44100 samples a second, with
/// four bytes for each frame that both channels have, behind a header of 44 bytes.
pub proof fn lemma_sound_file(left: Seq<u32>, right: Seq<u32>)
    requires
        4 * left.len() + 36 <= u32::MAX || 4 * right.len() + 36 <= u32::MAX,
    ensures
        ({
            let frames: int = if left.len() < right.len() {
                left.len() as int
            } else {
                right.len() as int
            };
            &&& wav_bytes(left, right).len() == 44 + 4 * frames
            &&& sound_header(wav_bytes(left, right), 4 * frames)
        }),
{
    let data = 4 * frame_count(left, right) as int;
    lemma_wav_len(left, right);
    assert(data_len(left, right) == data);
    lemma_front(
        wav_header(data),
        frames(left, right, frame_count(left, right) as int),
        wav_bytes(left, right),
    );
    lemma_front_of_header(data);
    lemma_middle_of_header(data);
    lemma_end_of_header(data);
    lemma_header_said(wav_header(data), wav_bytes(left, right), data);
}

proof fn lemma_front(header: Seq<u8>, rest: Seq<u8>, bytes: Seq<u8>)
    requires
        bytes == header + rest,
        header.len() == 44,
    ensures
        bytes.take(44) == header,
        bytes.len() >= 44,
{
    assert(bytes.take(44) =~= header);
}

proof fn lemma_header_said(header: Seq<u8>, bytes: Seq<u8>, data: int)
    requires
        0 <= data <= u32::MAX - 36,
        bytes.len() >= 44,
        bytes.take(44) == header,
        front_told(header, data),
        middle_told(header),
        end_told(header, data),
    ensures
        sound_header(bytes, data),
{
    assert forall|i: int| 0 <= i < 44 implies #[trigger] bytes[i] == header[i] by {
        assert(bytes.take(44)[i] == bytes[i]);
    }
    lemma_four_said(bytes, 4, 36 + data);
    lemma_four_said(bytes, 16, 16);
    lemma_two_said(bytes, 20, 1);
    lemma_two_said(bytes, 22, 2);
    lemma_four_said(bytes, 24, 44_100);
    lemma_four_said(bytes, 28, 176_400);
    lemma_two_said(bytes, 32, 4);
    lemma_two_said(bytes, 34, 16);
    lemma_four_said(bytes, 40, data);
}

spec fn front_told(header: Seq<u8>, data: int) -> bool {
    &&& header[0] == 'R' as u8 && header[1] == 'I' as u8 && header[2] == 'F' as u8
    &&& header[3] == 'F' as u8
    &&& four_at(header, 4, 36 + data)
    &&& header[8] == 'W' as u8 && header[9] == 'A' as u8 && header[10] == 'V' as u8
    &&& header[11] == 'E' as u8
    &&& header[12] == 'f' as u8 && header[13] == 'm' as u8 && header[14] == 't' as u8
    &&& header[15] == ' ' as u8
}

spec fn middle_told(header: Seq<u8>) -> bool {
    &&& four_at(header, 16, 16)
    &&& two_at(header, 20, 1)
    &&& two_at(header, 22, 2)
    &&& four_at(header, 24, 44_100)
    &&& four_at(header, 28, 176_400)
}

spec fn end_told(header: Seq<u8>, data: int) -> bool {
    &&& two_at(header, 32, 4)
    &&& two_at(header, 34, 16)
    &&& header[36] == 'd' as u8 && header[37] == 'a' as u8 && header[38] == 't' as u8
    &&& header[39] == 'a' as u8
    &&& four_at(header, 40, data)
}

/// Whether four bytes are those of a number.
spec fn four_at(bytes: Seq<u8>, at: int, n: int) -> bool {
    bytes[at] == four_bytes(n)[0] && bytes[at + 1] == four_bytes(n)[1] && bytes[at + 2]
        == four_bytes(n)[2] && bytes[at + 3] == four_bytes(n)[3]
}

/// Whether two bytes are those of a number.
spec fn two_at(bytes: Seq<u8>, at: int, n: int) -> bool {
    bytes[at] == two_bytes(n)[0] && bytes[at + 1] == two_bytes(n)[1]
}

proof fn lemma_four_said(bytes: Seq<u8>, at: int, n: int)
    requires
        four_at(bytes, at, n),
        0 <= n <= u32::MAX,
    ensures
        says(bytes, at, 4, n),
{
    reveal_with_fuel(says, 5);
    lemma_four(n);
}

proof fn lemma_two_said(bytes: Seq<u8>, at: int, n: int)
    requires
        two_at(bytes, at, n),
        0 <= n <= u16::MAX,
    ensures
        says(bytes, at, 2, n),
{
    reveal_with_fuel(says, 3);
}

/// The header without the first bytes, in three parts.
spec fn header_parts(data: int) -> (Seq<u8>, Seq<u8>, Seq<u8>) {
    (
        seq![0x52u8, 0x49, 0x46, 0x46] + four_bytes(36 + data) + seq![
            0x57u8,
            0x41,
            0x56,
            0x45,
            0x66,
            0x6d,
            0x74,
            0x20,
        ],
        four_bytes(16) + two_bytes(1) + two_bytes(2) + four_bytes(44_100) + four_bytes(176_400),
        two_bytes(4) + two_bytes(16) + seq![0x64u8, 0x61, 0x74, 0x61] + four_bytes(data),
    )
}

proof fn lemma_parts(data: int)
    ensures
        header_parts(data).0.len() == 16,
        header_parts(data).1.len() == 16,
        header_parts(data).2.len() == 12,
        wav_header(data) == header_parts(data).0 + header_parts(data).1 + header_parts(data).2,
{
    let (a, b, c) = header_parts(data);
    let d = four_bytes(16);
    let e = two_bytes(1);
    let f = two_bytes(2);
    let g = four_bytes(44_100);
    let h = four_bytes(176_400);
    let i = two_bytes(4);
    let j = two_bytes(16);
    let k = seq![0x64u8, 0x61, 0x74, 0x61];
    let l = four_bytes(data);
    assert(d.len() == 4 && e.len() == 2 && f.len() == 2 && g.len() == 4 && h.len() == 4);
    assert(a + d + e + f + g + h =~= a + b);
    assert(a + b + i + j + k + l =~= a + b + c);
}

proof fn lemma_front_of_header(data: int)
    ensures
        front_told(wav_header(data), data),
{
    lemma_parts(data);
    let a = header_parts(data).0;
    let header = wav_header(data);
    assert forall|i: int| 0 <= i < 16 implies #[trigger] header[i] == a[i] by {}
}

proof fn lemma_middle_of_header(data: int)
    ensures
        middle_told(wav_header(data)),
{
    lemma_parts(data);
    let b = header_parts(data).1;
    let header = wav_header(data);
    assert forall|i: int| 16 <= i < 32 implies #[trigger] header[i] == b[i - 16] by {}
}

proof fn lemma_end_of_header(data: int)
    ensures
        end_told(wav_header(data), data),
{
    lemma_parts(data);
    let c = header_parts(data).2;
    let header = wav_header(data);
    assert forall|i: int| 32 <= i < 44 implies #[trigger] header[i] == c[i - 32] by {}
}

proof fn lemma_four(n: int)
    requires
        0 <= n <= u32::MAX,
    ensures
        (n % 0x1_0000) % 256 == n % 256,
        ((n % 0x1_0000) / 256) % 256 == (n / 256) % 256,
        (n / 0x1_0000) % 256 == (n / 256 / 256) % 256,
        ((n / 0x1_0000) / 256) % 256 == (n / 256 / 256 / 256) % 256,
        n / 256 / 256 / 256 / 256 == 0,
{
}

} // verus!
