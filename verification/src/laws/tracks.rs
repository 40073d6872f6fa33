//! What the tracks of a file say of a score.

use vstd::prelude::*;
use vstd::utf8::encode_utf8;

use crate::laws::plain::{how_many, lemma_how_many_push};
use crate::midi::{ChannelMessage, EventView, MessageView, MetaView};
use crate::model::{key_name, scale_name, NoteEvent, ScoreView, Tick};
use crate::render::{
    elapsed, lemma_every_note, lemma_moment_time, lemma_moments_in_order, lemma_tempo_time,
    moment_event, note_end, note_moments, note_off, note_on, piece_track, program_moments,
    renderable, score_tracks, tempo_before, tempo_event, tempos_ordered, voice_moments, voice_track,
    Moment,
};
use crate::sorting::{lemma_sorted_holds, lemma_sorted_len, Ranked};
use crate::text::{decimal, hex};

verus! {

/// What comes first among messages of one tick: ends of notes, then changes of program, then
/// starts of notes.
pub open spec fn turn(m: ChannelMessage) -> int {
    match m {
        ChannelMessage::NoteOff { key, velocity } => 0,
        ChannelMessage::ProgramChange { program } => 1,
        ChannelMessage::NoteOn { key, velocity } => 2,
    }
}

/// A number that is at most 127.
pub open spec fn up_to_127(n: u8) -> u8 {
    if n > 127 {
        127
    } else {
        n
    }
}

/// The tick at which a note is over: a note lasts one tick at least.
pub open spec fn over_at(e: NoteEvent) -> int {
    if e.dur == 0 {
        e.start + 1
    } else {
        e.start + e.dur
    }
}

/// Whether a track sends a message to a channel at a tick.
pub open spec fn sends(
    track: Seq<EventView>,
    i: int,
    tick: int,
    channel: u8,
    message: ChannelMessage,
) -> bool {
    &&& 0 <= i < track.len()
    &&& elapsed(track, i + 1) == tick
    &&& track[i].message == (MessageView::Channel { channel, message })
}

/// The track of a voice opens at tick 0 with the name of the voice and a change to the
/// voice's own program on the voice's channel, before any note. All that follows goes to the
/// same channel, up to the end of the track.
pub proof fn lemma_track_opens(score: ScoreView, v: int)
    requires
        0 <= v < score.voices.len(),
    ensures
        ({
            let track = score_tracks(score)[v + 1];
            let voice = score.voices[v];
            &&& track.len() >= 3
            &&& track[0].delta == 0
            &&& track[0].message == MessageView::Meta(
                MetaView::TrackName(encode_utf8(voice.name)),
            )
            &&& track[1].delta == 0
            &&& elapsed(track, 2) == 0
            &&& track[1].message == (MessageView::Channel {
                channel: voice.channel,
                message: ChannelMessage::ProgramChange {
                    program: if voice.program > 127 {
                        127
                    } else {
                        voice.program
                    },
                },
            })
            &&& forall|i: int|
                2 <= i < track.len() - 1 ==> match (#[trigger] track[i]).message {
                    MessageView::Channel { channel, message } => channel == voice.channel,
                    MessageView::Meta(_) => false,
                }
            &&& track.last().delta == 0
            &&& track.last().message == MessageView::Meta(MetaView::EndOfTrack)
        }),
{
    let track = score_tracks(score)[v + 1];
    assert(track == voice_track(score, v));
    reveal_with_fuel(elapsed, 3);
    let moments = voice_moments(score, v);
    assert forall|i: int| 2 <= i < track.len() - 1 implies match (#[trigger] track[i]).message {
        MessageView::Channel { channel, message } => channel == score.voices[v].channel,
        MessageView::Meta(_) => false,
    } by {
        assert(track[i] == moment_event(moments, score.voices[v].channel, i - 2));
    }
}

/// Voices with different programs, or on different channels, have different tracks.
pub proof fn lemma_programs_tell_apart(score: ScoreView, v: int, other: ScoreView, w: int)
    requires
        0 <= v < score.voices.len(),
        0 <= w < other.voices.len(),
        score.voices[v].channel != other.voices[w].channel || (score.voices[v].program
            != other.voices[w].program && score.voices[v].program <= 127
            && other.voices[w].program <= 127),
    ensures
        score_tracks(score)[v + 1] != score_tracks(other)[w + 1],
{
    lemma_track_opens(score, v);
    lemma_track_opens(other, w);
}

proof fn lemma_kind_of_moment(score: ScoreView, v: int, m: Moment)
    requires
        0 <= v < score.voices.len(),
        voice_moments(score, v).contains(m),
    ensures
        m.order == turn(m.message),
        m.message is ProgramChange ==> exists|k: int|
            0 <= k < score.program_changes.len() && (#[trigger] score.program_changes[k]).1 == v
                && score.program_changes[k].0 == m.tick && m.message
                == (ChannelMessage::ProgramChange {
                program: up_to_127(score.program_changes[k].2),
            }),
{
    let programs = program_moments(score.program_changes, v, score.program_changes.len() as int);
    let notes = note_moments(score.events, v, score.events.len() as int);
    let both = programs + notes;
    lemma_sorted_holds(both, m);
    let j = choose|j: int| 0 <= j < both.len() && both[j] == m;
    if j < programs.len() {
        lemma_programs(score.program_changes, v, score.program_changes.len() as int, j);
    } else {
        lemma_note_kinds(score.events, v, score.events.len() as int, j - programs.len());
        assert(notes[j - programs.len()] == m);
    }
}

proof fn lemma_programs(changes: Seq<(Tick, usize, u8)>, v: int, n: int, j: int)
    requires
        0 <= n <= changes.len(),
        0 <= j < program_moments(changes, v, n).len(),
    ensures
        ({
            let m = program_moments(changes, v, n)[j];
            &&& m.order == 1
            &&& exists|k: int|
                0 <= k < n && (#[trigger] changes[k]).1 == v && changes[k].0 == m.tick && m.message
                    == (ChannelMessage::ProgramChange { program: up_to_127(changes[k].2) })
        }),
    decreases n,
{
    let before = program_moments(changes, v, n - 1);
    if j < before.len() {
        lemma_programs(changes, v, n - 1, j);
    } else {
        assert(changes[n - 1].1 == v);
    }
}

proof fn lemma_program_there(changes: Seq<(Tick, usize, u8)>, v: int, n: int, k: int)
    requires
        0 <= k < n <= changes.len(),
        changes[k].1 == v,
    ensures
        program_moments(changes, v, n).contains(
            Moment {
                tick: changes[k].0,
                order: 1,
                message: ChannelMessage::ProgramChange { program: up_to_127(changes[k].2) },
            },
        ),
    decreases n,
{
    let before = program_moments(changes, v, n - 1);
    let now = program_moments(changes, v, n);
    let m = Moment {
        tick: changes[k].0,
        order: 1,
        message: ChannelMessage::ProgramChange { program: up_to_127(changes[k].2) },
    };
    if k < n - 1 {
        lemma_program_there(changes, v, n - 1, k);
        let j = choose|j: int| 0 <= j < before.len() && before[j] == m;
        assert(now[j] == m);
    } else {
        assert(now[before.len() as int] == m);
    }
}

proof fn lemma_note_kinds(events: Seq<NoteEvent>, v: int, n: int, j: int)
    requires
        0 <= n <= events.len(),
        0 <= j < note_moments(events, v, n).len(),
    ensures
        note_moments(events, v, n)[j].order == turn(note_moments(events, v, n)[j].message),
        !(note_moments(events, v, n)[j].message is ProgramChange),
    decreases n,
{
    let before = note_moments(events, v, n - 1);
    if j < before.len() {
        lemma_note_kinds(events, v, n - 1, j);
    }
}

/// The number of moments: two for each note of the voice and one for each change of program.
proof fn lemma_moment_count(score: ScoreView, v: int)
    ensures
        voice_moments(score, v).len() == how_many(
            score.program_changes,
            |c: (Tick, usize, u8)| c.1 == v,
        ) + 2 * how_many(score.events, |e: NoteEvent| e.voice == v),
{
    let programs = program_moments(score.program_changes, v, score.program_changes.len() as int);
    let notes = note_moments(score.events, v, score.events.len() as int);
    lemma_sorted_len(programs + notes);
    lemma_program_count(score.program_changes, v, score.program_changes.len() as int);
    lemma_note_count(score.events, v, score.events.len() as int);
    assert(score.program_changes.take(score.program_changes.len() as int)
        =~= score.program_changes);
    assert(score.events.take(score.events.len() as int) =~= score.events);
}

proof fn lemma_program_count(changes: Seq<(Tick, usize, u8)>, v: int, n: int)
    requires
        0 <= n <= changes.len(),
    ensures
        program_moments(changes, v, n).len() == how_many(
            changes.take(n),
            |c: (Tick, usize, u8)| c.1 == v,
        ),
    decreases n,
{
    let of_voice = |c: (Tick, usize, u8)| c.1 == v;
    if n > 0 {
        lemma_program_count(changes, v, n - 1);
        lemma_how_many_push(changes.take(n - 1), changes[n - 1], of_voice);
        assert(changes.take(n) =~= changes.take(n - 1).push(changes[n - 1]));
    } else {
        assert(changes.take(n).len() == 0);
    }
}

proof fn lemma_note_count(events: Seq<NoteEvent>, v: int, n: int)
    requires
        0 <= n <= events.len(),
    ensures
        note_moments(events, v, n).len() == 2 * how_many(
            events.take(n),
            |e: NoteEvent| e.voice == v,
        ),
    decreases n,
{
    let of_voice = |e: NoteEvent| e.voice == v;
    if n > 0 {
        lemma_note_count(events, v, n - 1);
        lemma_how_many_push(events.take(n - 1), events[n - 1], of_voice);
        assert(events.take(n) =~= events.take(n - 1).push(events[n - 1]));
    } else {
        assert(events.take(n).len() == 0);
    }
}

/// A voice's track holds its name, its program and its end, two messages for each note of
/// the voice, one for each change of its program, and no more.
pub proof fn lemma_track_length(score: ScoreView, v: int)
    requires
        0 <= v < score.voices.len(),
    ensures
        score_tracks(score)[v + 1].len() == 3 + how_many(
            score.program_changes,
            |c: (Tick, usize, u8)| c.1 == v,
        ) + 2 * how_many(score.events, |e: NoteEvent| e.voice == v),
{
    lemma_moment_count(score, v);
    assert(score_tracks(score)[v + 1] == voice_track(score, v));
}

proof fn lemma_moment_sent(score: ScoreView, v: int, m: Moment) -> (i: int)
    requires
        0 <= v < score.voices.len(),
        voice_moments(score, v).contains(m),
    ensures
        sends(
            score_tracks(score)[v + 1],
            i,
            m.tick as int,
            score.voices[v].channel,
            m.message,
        ),
{
    let moments = voice_moments(score, v);
    let j = choose|j: int| 0 <= j < moments.len() && moments[j] == m;
    lemma_moment_time(score, v, j);
    assert(score_tracks(score)[v + 1] == voice_track(score, v));
    j + 2
}

/// A note is sent in the track of its voice and on its channel: its start at its tick, with
/// its pitch and velocity, and its end when its time is over.
pub proof fn lemma_note_sent(score: ScoreView, k: int) -> (at: (int, int))
    requires
        renderable(score),
        0 <= k < score.events.len(),
        score.events[k].voice < score.voices.len(),
    ensures
        ({
            let e = score.events[k];
            let track = score_tracks(score)[e.voice + 1];
            let channel = score.voices[e.voice as int].channel;
            &&& sends(
                track,
                at.0,
                e.start as int,
                channel,
                ChannelMessage::NoteOn {
                    key: up_to_127(e.pitch),
                    velocity: up_to_127(e.velocity),
                },
            )
            &&& sends(
                track,
                at.1,
                over_at(e),
                channel,
                ChannelMessage::NoteOff { key: up_to_127(e.pitch), velocity: 0 },
            )
        }),
{
    let e = score.events[k];
    let v = e.voice as int;
    assert(note_end(score.events[k]) <= u32::MAX);
    lemma_every_note(score, v, note_on(e));
    lemma_every_note(score, v, note_off(e));
    let a = lemma_moment_sent(score, v, note_on(e));
    let b = lemma_moment_sent(score, v, note_off(e));
    (a, b)
}

/// A change of program is sent in the track of its voice at its tick.
pub proof fn lemma_change_sent(score: ScoreView, k: int) -> (at: int)
    requires
        0 <= k < score.program_changes.len(),
        score.program_changes[k].1 < score.voices.len(),
    ensures
        ({
            let (tick, v, program) = score.program_changes[k];
            sends(
                score_tracks(score)[v + 1],
                at,
                tick as int,
                score.voices[v as int].channel,
                ChannelMessage::ProgramChange { program: up_to_127(program) },
            )
        }),
{
    let (tick, v, program) = score.program_changes[k];
    let programs = program_moments(
        score.program_changes,
        v as int,
        score.program_changes.len() as int,
    );
    let notes = note_moments(score.events, v as int, score.events.len() as int);
    let m = Moment {
        tick,
        order: 1,
        message: ChannelMessage::ProgramChange { program: up_to_127(program) },
    };
    lemma_program_there(score.program_changes, v as int, score.program_changes.len() as int, k);
    let j = choose|j: int| 0 <= j < programs.len() && programs[j] == m;
    assert((programs + notes)[j] == m);
    lemma_sorted_holds(programs + notes, m);
    lemma_moment_sent(score, v as int, m)
}

/// Whether a message of the voice at a tick comes from a note or a change of program of the
/// score.
pub open spec fn comes_from(
    score: ScoreView,
    v: int,
    tick: int,
    message: ChannelMessage,
) -> bool {
    match message {
        ChannelMessage::NoteOn { key, velocity } => exists|k: int|
            0 <= k < score.events.len() && (#[trigger] score.events[k]).voice == v
                && score.events[k].start == tick && key == up_to_127(score.events[k].pitch)
                && velocity == up_to_127(score.events[k].velocity),
        ChannelMessage::NoteOff { key, velocity } => exists|k: int|
            0 <= k < score.events.len() && (#[trigger] score.events[k]).voice == v && over_at(
                score.events[k],
            ) == tick && key == up_to_127(score.events[k].pitch) && velocity == 0,
        ChannelMessage::ProgramChange { program } => exists|k: int|
            0 <= k < score.program_changes.len() && (#[trigger] score.program_changes[k]).1 == v
                && score.program_changes[k].0 == tick && program == up_to_127(
                score.program_changes[k].2,
            ),
    }
}

/// Nothing is sent that does not come from the score.
pub proof fn lemma_nothing_else_sent(score: ScoreView, v: int, i: int)
    requires
        renderable(score),
        0 <= v < score.voices.len(),
        2 <= i < score_tracks(score)[v + 1].len() - 1,
    ensures
        match score_tracks(score)[v + 1][i].message {
            MessageView::Channel { channel, message } => comes_from(
                score,
                v,
                elapsed(score_tracks(score)[v + 1], i + 1),
                message,
            ),
            MessageView::Meta(_) => false,
        },
{
    let moments = voice_moments(score, v);
    let m = moments[i - 2];
    assert(score_tracks(score)[v + 1] == voice_track(score, v));
    lemma_moment_time(score, v, i - 2);
    assert(moments.contains(m));
    lemma_kind_of_moment(score, v, m);
    if m.order != 1 {
        lemma_every_note(score, v, m);
        let k = choose|k: int|
            0 <= k < score.events.len() && (#[trigger] score.events[k]).voice == v && (m
                == note_on(score.events[k]) || m == note_off(score.events[k]));
        assert(note_end(score.events[k]) <= u32::MAX);
    }
}

/// Time does not run backwards in a track, and at one tick notes end before the program
/// changes, and the program changes before notes start.
pub proof fn lemma_order_in_track(score: ScoreView, v: int, i: int, j: int)
    requires
        0 <= v < score.voices.len(),
        2 <= i < j < score_tracks(score)[v + 1].len() - 1,
    ensures
        ({
            let track = score_tracks(score)[v + 1];
            &&& elapsed(track, i + 1) <= elapsed(track, j + 1)
            &&& elapsed(track, i + 1) == elapsed(track, j + 1) ==> turn(
                track[i].message->message,
            ) <= turn(track[j].message->message)
        }),
{
    let moments = voice_moments(score, v);
    assert(score_tracks(score)[v + 1] == voice_track(score, v));
    lemma_moment_time(score, v, i - 2);
    lemma_moment_time(score, v, j - 2);
    lemma_moments_in_order(score, v);
    assert(moments[i - 2].le(moments[j - 2]));
    assert(moments.contains(moments[i - 2]) && moments.contains(moments[j - 2]));
    lemma_kind_of_moment(score, v, moments[i - 2]);
    lemma_kind_of_moment(score, v, moments[j - 2]);
}

/// The first track tells what made the file and the meter, four quarters with 24 clocks to
/// the beat, then sets each tempo at its tick, as the microseconds of a beat, and ends.
pub proof fn lemma_first_track(score: ScoreView)
    requires
        renderable(score),
    ensures
        ({
            let track = score_tracks(score)[0];
            let n = score.tempo_map.len();
            &&& score_tracks(score).len() == score.voices.len() + 1
            &&& track.len() == n + 3
            &&& track[0].delta == 0
            &&& track[0].message == MessageView::Meta(
                MetaView::Text(
                    encode_utf8(
                        "gitfugue v"@ + "0.1.0"@ + " seed="@ + hex(score.seed as nat, 16) + " key="@
                            + key_name(score.key.root) + " "@ + scale_name(score.scale) + " bpm="@
                            + decimal(score.bpm_base as nat),
                    ),
                ),
            )
            &&& track[1].delta == 0
            &&& track[1].message == MessageView::Meta(MetaView::TimeSignature(4, 2, 24, 8))
            &&& forall|i: int|
                2 <= i < n + 2 ==> (#[trigger] track[i]).message == MessageView::Meta(
                    MetaView::Tempo((60_000_000int / (score.tempo_map[i - 2].1 as int)) as u32),
                ) && elapsed(track, i + 1) == score.tempo_map[i - 2].0
            &&& track.last().delta == 0
            &&& track.last().message == MessageView::Meta(MetaView::EndOfTrack)
        }),
{
    let track = score_tracks(score)[0];
    let n = score.tempo_map.len();
    assert(track == piece_track(score));
    assert forall|i: int| 2 <= i < n + 2 implies (#[trigger] track[i]).message
        == MessageView::Meta(
        MetaView::Tempo((60_000_000int / (score.tempo_map[i - 2].1 as int)) as u32),
    ) && elapsed(track, i + 1) == score.tempo_map[i - 2].0 by {
        assert(track[i] == tempo_event(score.tempo_map, i - 2));
        lemma_tempo_time(score, i - 2);
    }
}

/// A score can be written down if and only if its tempos are above zero and in the order of
/// their ticks, and the notes of its voices are over within 32 bits.
pub proof fn lemma_renderable(score: ScoreView)
    ensures
        renderable(score) <==> {
            &&& forall|i: int| 0 <= i < score.tempo_map.len()
                ==> (#[trigger] score.tempo_map[i]).1 > 0
            &&& forall|i: int, j: int|
                0 <= i < j < score.tempo_map.len() ==> (#[trigger] score.tempo_map[i]).0 <= (
                #[trigger] score.tempo_map[j]).0
            &&& forall|k: int|
                0 <= k < score.events.len() && (#[trigger] score.events[k]).voice
                    < score.voices.len() ==> over_at(score.events[k]) <= 0xffff_ffff
        },
{
    let t = score.tempo_map;
    if tempos_ordered(t) {
        assert forall|i: int, j: int| 0 <= i < j < t.len() implies (#[trigger] t[i]).0 <= (
        #[trigger] t[j]).0 by {
            lemma_ticks_rise(t, i, j);
        }
    }
    if forall|i: int, j: int|
        0 <= i < j < t.len() ==> (#[trigger] t[i]).0 <= (#[trigger] t[j]).0 {
        assert forall|i: int| 0 <= i < t.len() implies #[trigger] tempo_before(t, i) <= t[i].0 by {
            if i > 0 {
                assert(t[i - 1].0 <= t[i].0);
            }
        }
    }
    assert forall|k: int| 0 <= k < score.events.len() implies over_at(
        #[trigger] score.events[k],
    ) == note_end(score.events[k]) by {}
}

proof fn lemma_ticks_rise(t: Seq<(Tick, u16)>, i: int, j: int)
    requires
        tempos_ordered(t),
        0 <= i <= j < t.len(),
    ensures
        t[i].0 <= t[j].0,
    decreases j - i,
{
    if i < j {
        lemma_ticks_rise(t, i, j - 1);
        assert(tempo_before(t, j) <= t[j].0);
    }
}

} // verus!
