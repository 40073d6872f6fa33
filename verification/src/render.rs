//! From a score to the bytes of a Standard MIDI File: one track for the tempo and the
//! piece's particulars, and one for each voice.

use vstd::prelude::*;
use vstd::string::StringExecFns;

use crate::compose::TPQ;
use crate::midi::{
    encode_tracks, smf_bytes, smf_header, stored, stored_tracks, text_len, track_size, track_views,
    within_limits, written, ChannelMessage, EventView, Message, MessageView, Meta, MetaView,
    MidiEvent,
};
use crate::model::{key_name, scale_name, NoteEvent, Score, ScoreView, Tick, Voice, VoiceView};
use crate::rng::utf8;
use crate::sorting::{
    in_order, lemma_sorted_holds, lemma_sorted_in_order, lemma_sorted_len, sort, sorted, views,
    Ranked, Sortable,
};
use crate::text::{decimal, hex, push_decimal, push_hex};

verus! {

/// The version of the engine, which the files that it writes tell.
pub const ENGINE_VERSION: &'static str = "0.1.0";

/// Something that happens in a voice.
#[derive(Debug, Clone, Copy, PartialEq, Eq, Structural)]
pub struct Moment {
    pub tick: Tick,
    /// What comes first at one tick: the ends of notes (0), then changes of the program
    /// (1), then notes (2). So a repeated pitch never sticks, and a new timbre is there
    /// before the notes that it colors.
    pub order: u8,
    pub message: ChannelMessage,
}

/// The key of a message, by which messages of one kind at one tick are ordered.
pub open spec fn key_of(m: ChannelMessage) -> u8 {
    match m {
        ChannelMessage::NoteOn { key, velocity } => key,
        ChannelMessage::NoteOff { key, velocity } => key,
        ChannelMessage::ProgramChange { program } => 0,
    }
}

fn message_key(m: ChannelMessage) -> (r: u8)
    ensures
        r == key_of(m),
{
    match m {
        ChannelMessage::NoteOn { key, velocity: _ } => key,
        ChannelMessage::NoteOff { key, velocity: _ } => key,
        ChannelMessage::ProgramChange { program: _ } => 0,
    }
}

impl View for Moment {
    type V = Moment;

    open spec fn view(&self) -> Moment {
        *self
    }
}

/// Moments rank by tick, then by order, then by key.
impl Ranked for Moment {
    open spec fn le(self, other: Self) -> bool {
        self.tick < other.tick || (self.tick == other.tick && (self.order < other.order || (
        self.order == other.order && key_of(self.message) <= key_of(other.message))))
    }

    proof fn le_total(a: Self, b: Self) {
    }

    proof fn le_transitive(a: Self, b: Self, c: Self) {
    }
}

impl Sortable for Moment {
    fn no_higher(&self, other: &Self) -> (r: bool) {
        self.tick < other.tick || (self.tick == other.tick && (self.order < other.order || (
        self.order == other.order && message_key(self.message) <= message_key(other.message))))
    }
}

/// A number that MIDI has seven bits for: what is above is as much as there is room for.
pub open spec fn seven(n: u8) -> u8 {
    if n < 127 {
        n
    } else {
        127
    }
}

fn at_most_seven_bits(n: u8) -> (r: u8)
    ensures
        r == seven(n),
{
    if n < 127 {
        n
    } else {
        127
    }
}

/// The tick at which a note ends. Every note lasts a tick at least.
pub open spec fn note_end(e: NoteEvent) -> int {
    e.start + if e.dur > 1 {
        e.dur as int
    } else {
        1
    }
}

/// The changes of program that `voice` makes among the first `k`.
pub open spec fn program_moments(
    changes: Seq<(Tick, usize, u8)>,
    voice: int,
    k: int,
) -> Seq<Moment>
    decreases k,
{
    if k <= 0 {
        seq![]
    } else {
        let before = program_moments(changes, voice, k - 1);
        let (tick, v, program) = changes[k - 1];
        if v == voice {
            before.push(
                Moment {
                    tick,
                    order: 1,
                    message: ChannelMessage::ProgramChange { program: seven(program) },
                },
            )
        } else {
            before
        }
    }
}

/// The start of a note.
pub open spec fn note_on(e: NoteEvent) -> Moment {
    Moment {
        tick: e.start,
        order: 2,
        message: ChannelMessage::NoteOn { key: seven(e.pitch), velocity: seven(e.velocity) },
    }
}

/// The end of a note.
pub open spec fn note_off(e: NoteEvent) -> Moment {
    Moment {
        tick: note_end(e) as u32,
        order: 0,
        message: ChannelMessage::NoteOff { key: seven(e.pitch), velocity: 0 },
    }
}

/// The starts and ends of the notes that `voice` plays among the first `k`.
pub open spec fn note_moments(events: Seq<NoteEvent>, voice: int, k: int) -> Seq<Moment>
    decreases k,
{
    if k <= 0 {
        seq![]
    } else {
        let before = note_moments(events, voice, k - 1);
        let e = events[k - 1];
        if e.voice == voice {
            before.push(note_on(e)).push(note_off(e))
        } else {
            before
        }
    }
}

/// Everything that happens in a voice, in order.
pub open spec fn voice_moments(score: ScoreView, voice: int) -> Seq<Moment> {
    sorted(
        program_moments(score.program_changes, voice, score.program_changes.len() as int)
            + note_moments(score.events, voice, score.events.len() as int),
    )
}

/// The tick of the moment before the one at `i`, or the start of the piece.
pub open spec fn tick_before(moments: Seq<Moment>, i: int) -> int {
    if i <= 0 {
        0
    } else {
        moments[i - 1].tick as int
    }
}

/// The event of the moment at `i`.
pub open spec fn moment_event(moments: Seq<Moment>, channel: u8, i: int) -> EventView {
    EventView {
        delta: (moments[i].tick - tick_before(moments, i)) as u32,
        message: MessageView::Channel { channel, message: moments[i].message },
    }
}

/// The end of every track.
pub open spec fn end_event() -> EventView {
    EventView { delta: 0, message: MessageView::Meta(MetaView::EndOfTrack) }
}

/// What a voice's track starts with: its name and its program.
pub open spec fn track_opening(voice: VoiceView) -> Seq<EventView> {
    seq![
        EventView {
            delta: 0,
            message: MessageView::Meta(MetaView::TrackName(utf8(voice.name))),
        },
        EventView {
            delta: 0,
            message: MessageView::Channel {
                channel: voice.channel,
                message: ChannelMessage::ProgramChange { program: seven(voice.program) },
            },
        },
    ]
}

/// The track of a voice.
pub open spec fn voice_track(score: ScoreView, voice: int) -> Seq<EventView> {
    let moments = voice_moments(score, voice);
    (track_opening(score.voices[voice]) + Seq::new(
        moments.len(),
        |i: int| moment_event(moments, score.voices[voice].channel, i),
    )).push(end_event())
}

/// The line that says what made a file.
pub open spec fn stamp(score: ScoreView) -> Seq<char> {
    "gitfugue v"@ + ENGINE_VERSION@ + " seed="@ + hex(score.seed as nat, 16) + " key="@ + key_name(
        score.key.root,
    ) + " "@ + scale_name(score.scale) + " bpm="@ + decimal(score.bpm_base as nat)
}

/// The tick of the tempo before the one at `i`, or the start of the piece.
pub open spec fn tempo_before(tempos: Seq<(Tick, u16)>, i: int) -> int {
    if i <= 0 {
        0
    } else {
        tempos[i - 1].0 as int
    }
}

/// The event of the tempo at `i`: the microseconds of a quarter note.
pub open spec fn tempo_event(tempos: Seq<(Tick, u16)>, i: int) -> EventView {
    EventView {
        delta: (tempos[i].0 - tempo_before(tempos, i)) as u32,
        message: MessageView::Meta(MetaView::Tempo((60_000_000int / (tempos[i].1 as int)) as u32)),
    }
}

/// What the first track starts with: the stamp and the meter.
pub open spec fn piece_opening(score: ScoreView) -> Seq<EventView> {
    seq![
        EventView { delta: 0, message: MessageView::Meta(MetaView::Text(utf8(stamp(score)))) },
        EventView { delta: 0, message: MessageView::Meta(MetaView::TimeSignature(4, 2, 24, 8)) },
    ]
}

/// The first track.
pub open spec fn piece_track(score: ScoreView) -> Seq<EventView> {
    (piece_opening(score) + Seq::new(
        score.tempo_map.len(),
        |i: int| tempo_event(score.tempo_map, i),
    )).push(end_event())
}

/// The tracks of a score.
pub open spec fn score_tracks(score: ScoreView) -> Seq<Seq<EventView>> {
    seq![piece_track(score)] + Seq::new(score.voices.len(), |v: int| voice_track(score, v))
}

/// Whether a score can be written down: its tempos come in order and are not zero, and its
/// notes end within the range of ticks.
pub open spec fn renderable(score: ScoreView) -> bool {
    &&& tempos_ordered(score.tempo_map)
    &&& forall|i: int|
        0 <= i < score.events.len() && (#[trigger] score.events[i]).voice < score.voices.len()
            ==> note_end(score.events[i]) <= u32::MAX
}

/// Whether the tempos are none of them zero, and each stands at the tick of the one before it
/// or later.
pub open spec fn tempos_ordered(tempos: Seq<(Tick, u16)>) -> bool {
    &&& forall|i: int| 0 <= i < tempos.len() ==> (#[trigger] tempos[i]).1 > 0
    &&& forall|i: int|
        0 <= i < tempos.len() ==> #[trigger] tempo_before(tempos, i) <= tempos[i].0
}

/// Whether the tempos can be written down.
fn tempos_writable(tempos: &Vec<(Tick, u16)>) -> (r: bool)
    ensures
        r == tempos_ordered(tempos@),
{
    let mut last: u32 = 0;
    for i in 0..tempos.len()
        invariant
            last == tempo_before(tempos@, i as int),
            forall|j: int| 0 <= j < i ==> (#[trigger] tempos@[j]).1 > 0,
            forall|j: int| 0 <= j < i ==> #[trigger] tempo_before(tempos@, j) <= tempos@[j].0,
    {
        let (tick, bpm) = tempos[i];
        if bpm == 0 || tick < last {
            assert(!(tempos@[i as int].1 > 0 && tempo_before(tempos@, i as int)
                <= tempos@[i as int].0));
            return false;
        }
        last = tick;
    }
    true
}

/// Whether a score can be written down.
pub fn can_render(score: &Score) -> (r: bool)
    ensures
        r == renderable(score@),
{
    if !tempos_writable(&score.tempo_map) {
        return false;
    }
    for i in 0..score.events.len()
        invariant
            forall|j: int|
                0 <= j < i && (#[trigger] score.events@[j]).voice < score.voices@.len()
                    ==> note_end(score.events@[j]) <= u32::MAX,
    {
        let e: NoteEvent = score.events[i];
        let long: u64 = if e.dur > 1 {
            e.dur as u64
        } else {
            1
        };
        if e.voice < score.voices.len() && e.start as u64 + long > 0xffff_ffff {
            assert(!renderable(score@)) by {
                let t = score@.events[i as int];
            }
            return false;
        }
    }
    true
}

/// Everything that happens in a voice, in order.
fn moments_of(score: &Score, voice: usize) -> (r: Vec<Moment>)
    requires
        renderable(score@),
        voice < score.voices@.len(),
    ensures
        r@ == voice_moments(score@, voice as int),
{
    let ghost view = score@;
    let mut moments: Vec<Moment> = Vec::new();
    for i in 0..score.program_changes.len()
        invariant
            view == score@,
            moments@ == program_moments(view.program_changes, voice as int, i as int),
    {
        let (tick, v, program) = score.program_changes[i];
        if v == voice {
            moments.push(
                Moment {
                    tick,
                    order: 1,
                    message: ChannelMessage::ProgramChange {
                        program: at_most_seven_bits(program),
                    },
                },
            );
        }
    }
    let ghost programs = moments@;
    for i in 0..score.events.len()
        invariant
            view == score@,
            renderable(view),
            voice < view.voices.len(),
            moments@ =~= programs + note_moments(view.events, voice as int, i as int),
    {
        let e: NoteEvent = score.events[i];
        assert(e == view.events[i as int]);
        if e.voice == voice {
            let long: u32 = if e.dur > 1 {
                e.dur
            } else {
                1
            };
            moments.push(
                Moment {
                    tick: e.start,
                    order: 2,
                    message: ChannelMessage::NoteOn {
                        key: at_most_seven_bits(e.pitch),
                        velocity: at_most_seven_bits(e.velocity),
                    },
                },
            );
            moments.push(
                Moment {
                    tick: e.start + long,
                    order: 0,
                    message: ChannelMessage::NoteOff {
                        key: at_most_seven_bits(e.pitch),
                        velocity: 0,
                    },
                },
            );
        }
    }
    assert(views(moments@) =~= moments@);
    sort(&mut moments);
    assert(views(moments@) =~= moments@);
    moments
}

/// The track of a voice.
fn track_of(score: &Score, voice: usize) -> (r: Vec<MidiEvent>)
    requires
        renderable(score@),
        voice < score.voices@.len(),
    ensures
        views(r@) == voice_track(score@, voice as int),
{
    let who: &Voice = &score.voices[voice];
    let ghost shown = score@.voices[voice as int];
    assert(shown == who@);
    let moments: Vec<Moment> = moments_of(score, voice);
    let ghost all = voice_moments(score@, voice as int);
    proof {
        lemma_sorted_in_order(
            program_moments(
                score@.program_changes,
                voice as int,
                score@.program_changes.len() as int,
            ) + note_moments(score@.events, voice as int, score@.events.len() as int),
        );
    }
    let mut track: Vec<MidiEvent> = Vec::new();
    track.push(
        MidiEvent {
            delta: 0,
            message: Message::Meta(Meta::TrackName(String::from_str(who.name.as_str()))),
        },
    );
    track.push(
        MidiEvent {
            delta: 0,
            message: Message::Channel {
                channel: who.channel,
                message: ChannelMessage::ProgramChange {
                    program: at_most_seven_bits(who.program),
                },
            },
        },
    );
    assert(views(track@) =~= track_opening(shown));
    let mut last: u32 = 0;
    for i in 0..moments.len()
        invariant
            moments@ == all,
            in_order(all),
            shown == who@,
            last == tick_before(all, i as int),
            views(track@) =~= track_opening(shown) + Seq::new(
                i as nat,
                |j: int| moment_event(all, shown.channel, j),
            ),
    {
        let m: Moment = moments[i];
        assert(last <= m.tick) by {
            if i > 0 {
                assert(all[i - 1].le(all[i as int]));
            }
        }
        let ghost before = views(track@);
        track.push(
            MidiEvent {
                delta: m.tick - last,
                message: Message::Channel { channel: who.channel, message: m.message },
            },
        );
        assert(views(track@) =~= before.push(moment_event(all, shown.channel, i as int)));
        last = m.tick;
    }
    let ghost before = views(track@);
    track.push(MidiEvent { delta: 0, message: Message::Meta(Meta::EndOfTrack) });
    assert(views(track@) =~= before.push(end_event()));
    track
}

/// The line that says what made a file.
fn stamp_of(score: &Score) -> (r: String)
    ensures
        r@ == stamp(score@),
{
    let mut line = String::from_str("gitfugue v");
    line.append(ENGINE_VERSION);
    line.append(" seed=");
    push_hex(&mut line, score.seed, 16);
    line.append(" key=");
    line.append(score.key.name());
    line.append(" ");
    line.append(score.scale.name());
    line.append(" bpm=");
    push_decimal(&mut line, score.bpm_base as u64);
    line
}

/// The first track.
fn first_track(score: &Score) -> (r: Vec<MidiEvent>)
    requires
        renderable(score@),
    ensures
        views(r@) == piece_track(score@),
{
    let ghost view = score@;
    let mut track: Vec<MidiEvent> = Vec::new();
    track.push(MidiEvent { delta: 0, message: Message::Meta(Meta::Text(stamp_of(score))) });
    track.push(MidiEvent { delta: 0, message: Message::Meta(Meta::TimeSignature(4, 2, 24, 8)) });
    assert(views(track@) =~= piece_opening(view));
    let mut last: u32 = 0;
    for i in 0..score.tempo_map.len()
        invariant
            view == score@,
            renderable(view),
            last == tempo_before(view.tempo_map, i as int),
            views(track@) =~= piece_opening(view) + Seq::new(
                i as nat,
                |j: int| tempo_event(view.tempo_map, j),
            ),
    {
        let (tick, bpm) = score.tempo_map[i];
        assert(view.tempo_map[i as int] == (tick, bpm));
        let ghost before = views(track@);
        track.push(
            MidiEvent {
                delta: tick - last,
                message: Message::Meta(Meta::Tempo(60_000_000 / bpm as u32)),
            },
        );
        assert(views(track@) =~= before.push(tempo_event(view.tempo_map, i as int)));
        last = tick;
    }
    let ghost before = views(track@);
    track.push(MidiEvent { delta: 0, message: Message::Meta(Meta::EndOfTrack) });
    assert(views(track@) =~= before.push(end_event()));
    track
}

/// The tracks of a score: one for the tempo and the piece's particulars, and one for each
/// voice.
pub fn midi_tracks(score: &Score) -> (r: Vec<Vec<MidiEvent>>)
    requires
        renderable(score@),
    ensures
        track_views(r@) == score_tracks(score@),
{
    let ghost view = score@;
    let mut tracks: Vec<Vec<MidiEvent>> = Vec::new();
    tracks.push(first_track(score));
    assert(track_views(tracks@) =~= seq![piece_track(view)]);
    for v in 0..score.voices.len()
        invariant
            view == score@,
            renderable(view),
            track_views(tracks@) =~= seq![piece_track(view)] + Seq::new(
                v as nat,
                |w: int| voice_track(view, w),
            ),
    {
        let ghost before = track_views(tracks@);
        tracks.push(track_of(score, v));
        assert(track_views(tracks@) =~= before.push(voice_track(view, v as int)));
    }
    tracks
}

/// Writes a score as a Standard MIDI File of parallel tracks.
pub fn render_midi(score: &Score) -> (r: Result<Vec<u8>, String>)
    requires
        renderable(score@),
    ensures
        match r {
            Ok(v) => written(smf_bytes(TPQ as u16, stored_tracks(score_tracks(score@)))) == Ok::<
                _,
                Seq<char>,
            >(v@) && v@.len() >= 14 && v@.take(14) == smf_header(
                TPQ as u16,
                score@.voices.len() as int + 1,
            ),
            Err(e) => written(smf_bytes(TPQ as u16, stored_tracks(score_tracks(score@)))) == Err::<
                Seq<u8>,
                _,
            >(e@),
        },
        r is Ok <==> within_limits(stored_tracks(score_tracks(score@))),
        fits_file(score@) ==> r is Ok,
{
    proof {
        if fits_file(score@) {
            lemma_written(score@);
        }
    }
    let tracks: Vec<Vec<MidiEvent>> = midi_tracks(score);
    assert(tracks@.len() == track_views(tracks@).len());
    encode_tracks(TPQ as u16, &tracks)
}

/// The ticks that pass up to the event before `k`.
pub open spec fn elapsed(track: Seq<EventView>, k: int) -> int
    decreases k,
{
    if k <= 0 {
        0
    } else {
        elapsed(track, k - 1) + track[k - 1].delta
    }
}

/// A score has a track for each voice, and one more.
pub proof fn lemma_track_count(score: ScoreView)
    ensures
        score_tracks(score).len() == score.voices.len() + 1,
{
}

/// What happens in a voice happens at its tick: the deltas of a track up to a moment add up
/// to the moment's tick.
pub proof fn lemma_moment_time(score: ScoreView, voice: int, i: int)
    requires
        0 <= voice < score.voices.len(),
        0 <= i < voice_moments(score, voice).len(),
    ensures
        voice_track(score, voice)[i + 2].message == (MessageView::Channel {
            channel: score.voices[voice].channel,
            message: voice_moments(score, voice)[i].message,
        }),
        elapsed(voice_track(score, voice), i + 3) == voice_moments(score, voice)[i].tick,
    decreases i,
{
    let moments = voice_moments(score, voice);
    let track = voice_track(score, voice);
    lemma_moments_in_order(score, voice);
    assert(track[i + 2] == moment_event(moments, score.voices[voice].channel, i));
    assert(track[0].delta == 0 && track[1].delta == 0);
    if i > 0 {
        lemma_moment_time(score, voice, i - 1);
        assert(moments[i - 1].le(moments[i]));
    } else {
        reveal_with_fuel(elapsed, 4);
    }
}

/// A tempo changes at its tick: the deltas of the first track up to a change add up to the
/// change's tick.
pub proof fn lemma_tempo_time(score: ScoreView, i: int)
    requires
        renderable(score),
        0 <= i < score.tempo_map.len(),
    ensures
        elapsed(piece_track(score), i + 3) == score.tempo_map[i].0,
    decreases i,
{
    let track = piece_track(score);
    let before = tempo_before(score.tempo_map, i);
    assert(before <= score.tempo_map[i].0);
    assert(track[i + 2] == tempo_event(score.tempo_map, i));
    assert(track[i + 2].delta == score.tempo_map[i].0 - before);
    assert(elapsed(track, i + 3) == elapsed(track, i + 2) + track[i + 2].delta);
    if i > 0 {
        lemma_tempo_time(score, i - 1);
    } else {
        assert(track[0].delta == 0 && track[1].delta == 0);
        assert(elapsed(track, 2) == 0) by {
            reveal_with_fuel(elapsed, 3);
        }
    }
}

/// At one tick the ends of notes come first, then changes of the program, then notes.
pub proof fn lemma_moments_in_order(score: ScoreView, voice: int)
    ensures
        forall|i: int, j: int|
            0 <= i <= j < voice_moments(score, voice).len() ==> (#[trigger] voice_moments(
                score,
                voice,
            )[i]).le(#[trigger] voice_moments(score, voice)[j]),
{
    lemma_sorted_in_order(
        program_moments(score.program_changes, voice, score.program_changes.len() as int)
            + note_moments(score.events, voice, score.events.len() as int),
    );
}

/// The moments of notes: those of the notes in the voice, and no others.
proof fn lemma_note_moments(events: Seq<NoteEvent>, voice: int, k: int, m: Moment)
    requires
        0 <= k <= events.len(),
    ensures
        note_moments(events, voice, k).contains(m) <==> exists|i: int|
            0 <= i < k && (#[trigger] events[i]).voice == voice && (m == note_on(events[i]) || m
                == note_off(events[i])),
        note_moments(events, voice, k).len() <= 2 * k,
    decreases k,
{
    if k > 0 {
        lemma_note_moments(events, voice, k - 1, m);
        let before = note_moments(events, voice, k - 1);
        let after = note_moments(events, voice, k);
        let e = events[k - 1];
        if e.voice == voice {
            assert(after[before.len() as int] == note_on(e));
            assert(after[before.len() as int + 1] == note_off(e));
            assert(before.contains(m) ==> after.contains(m)) by {
                if before.contains(m) {
                    let j = before.index_of(m);
                    assert(after[j] == m);
                }
            }
            if after.contains(m) {
                let j = after.index_of(m);
                if j < before.len() {
                    assert(before[j] == m);
                }
            }
        }
    }
}

/// The moments of changes of program: none is the start or the end of a note.
proof fn lemma_program_moments(changes: Seq<(Tick, usize, u8)>, voice: int, k: int)
    requires
        0 <= k <= changes.len(),
    ensures
        forall|i: int|
            0 <= i < program_moments(changes, voice, k).len() ==> (#[trigger] program_moments(
                changes,
                voice,
                k,
            )[i]).order == 1,
        program_moments(changes, voice, k).len() <= k,
    decreases k,
{
    if k > 0 {
        lemma_program_moments(changes, voice, k - 1);
    }
}

/// Every note is played in its voice, and nothing is that is not in the score: a voice
/// starts or ends a note at a moment if and only if a note of the voice does.
pub proof fn lemma_every_note(score: ScoreView, voice: int, m: Moment)
    requires
        m.order != 1,
    ensures
        voice_moments(score, voice).contains(m) <==> exists|i: int|
            0 <= i < score.events.len() && (#[trigger] score.events[i]).voice == voice && (m
                == note_on(score.events[i]) || m == note_off(score.events[i])),
{
    let programs = program_moments(
        score.program_changes,
        voice,
        score.program_changes.len() as int,
    );
    let notes = note_moments(score.events, voice, score.events.len() as int);
    lemma_program_moments(score.program_changes, voice, score.program_changes.len() as int);
    lemma_note_moments(score.events, voice, score.events.len() as int, m);
    lemma_sorted_holds(programs + notes, m);
    let both = programs + notes;
    if both.contains(m) {
        let j = both.index_of(m);
        if j < programs.len() {
            assert(both[j] == programs[j]);
        } else {
            assert(both[j] == notes[j - programs.len()]);
        }
    }
    if notes.contains(m) {
        let j = notes.index_of(m);
        assert(both[j + programs.len()] == m);
    }
}

/// Whether a score stays within what a file can hold: channels, tempos of four beats a
/// minute and more, and ticks of 28 bits.
pub open spec fn in_range(score: ScoreView) -> bool {
    &&& forall|i: int| 0 <= i < score.voices.len() ==> (#[trigger] score.voices[i]).channel < 16
    &&& forall|i: int|
        0 <= i < score.tempo_map.len() ==> (#[trigger] score.tempo_map[i]).1 >= 4
            && score.tempo_map[i].0 < 0x1000_0000
    &&& forall|i: int|
        0 <= i < score.program_changes.len() ==> (#[trigger] score.program_changes[i]).0
            < 0x1000_0000
    &&& forall|i: int|
        0 <= i < score.events.len() ==> note_end(#[trigger] score.events[i]) < 0x1000_0000
}

/// A file holds a score that stays within range as it is: no bit of it is dropped.
pub proof fn lemma_nothing_lost(score: ScoreView)
    requires
        renderable(score),
        in_range(score),
    ensures
        stored_tracks(score_tracks(score)) == score_tracks(score),
{
    let tracks = score_tracks(score);
    assert(stored_tracks(tracks).len() == tracks.len());
    assert forall|t: int, k: int| 0 <= t < tracks.len() && 0 <= k < tracks[t].len() implies stored(
        #[trigger] tracks[t][k],
    ) == tracks[t][k] by {
        if t == 0 {
            lemma_piece_kept(score, k);
        } else {
            assert(tracks[t] == voice_track(score, t - 1));
            lemma_voice_kept(score, t - 1, k);
        }
    }
    assert forall|t: int| 0 <= t < tracks.len() implies stored_tracks(tracks)[t]
        == tracks[t] by {
        assert(stored_tracks(tracks)[t] =~= tracks[t]) by {
            assert forall|k: int| 0 <= k < tracks[t].len() implies stored_tracks(tracks)[t][k]
                == tracks[t][k] by {
                assert(stored(tracks[t][k]) == tracks[t][k]);
            }
        }
    }
    assert(stored_tracks(tracks) =~= tracks);
}

proof fn lemma_piece_kept(score: ScoreView, k: int)
    requires
        renderable(score),
        in_range(score),
        0 <= k < piece_track(score).len(),
    ensures
        stored(piece_track(score)[k]) == piece_track(score)[k],
{
    if 2 <= k < piece_track(score).len() - 1 {
        let i = k - 2;
        let t = score.tempo_map[i];
        assert(piece_track(score)[k] == tempo_event(score.tempo_map, i));
        assert(60_000_000int / (t.1 as int) <= 15_000_000) by (nonlinear_arith)
            requires
                t.1 >= 4,
        ;
        assert(60_000_000int / (t.1 as int) >= 0) by (nonlinear_arith)
            requires
                t.1 >= 4,
        ;
    }
}

proof fn lemma_voice_kept(score: ScoreView, voice: int, k: int)
    requires
        renderable(score),
        in_range(score),
        0 <= voice < score.voices.len(),
        0 <= k < voice_track(score, voice).len(),
    ensures
        stored(voice_track(score, voice)[k]) == voice_track(score, voice)[k],
{
    let moments = voice_moments(score, voice);
    let who = score.voices[voice];
    if 2 <= k < voice_track(score, voice).len() - 1 {
        let i = k - 2;
        assert(voice_track(score, voice)[k] == moment_event(moments, who.channel, i));
        lemma_moments_in_order(score, voice);
        if i > 0 {
            assert(moments[i - 1].le(moments[i]));
        }
        lemma_moment_small(score, voice, moments[i]);
    }
}

proof fn lemma_moment_small(score: ScoreView, voice: int, m: Moment)
    requires
        in_range(score),
        voice_moments(score, voice).contains(m),
    ensures
        m.tick < 0x1000_0000,
        crate::midi::stored_channel(m.message) == m.message,
{
    let n = score.program_changes.len() as int;
    let programs = program_moments(score.program_changes, voice, n);
    let notes = note_moments(score.events, voice, score.events.len() as int);
    let both = programs + notes;
    lemma_sorted_holds(both, m);
    lemma_note_moments(score.events, voice, score.events.len() as int, m);
    let j = both.index_of(m);
    if j < programs.len() {
        lemma_programs_small(score.program_changes, voice, n);
        assert(programs[j] == m);
    } else {
        assert(notes[j - programs.len()] == m);
    }
}

proof fn lemma_programs_small(changes: Seq<(Tick, usize, u8)>, voice: int, k: int)
    requires
        0 <= k <= changes.len(),
        forall|i: int| 0 <= i < changes.len() ==> (#[trigger] changes[i]).0 < 0x1000_0000,
    ensures
        forall|i: int|
            0 <= i < program_moments(changes, voice, k).len() ==> {
                let m = #[trigger] program_moments(changes, voice, k)[i];
                m.tick < 0x1000_0000 && crate::midi::stored_channel(m.message) == m.message
            },
    decreases k,
{
    if k > 0 {
        lemma_programs_small(changes, voice, k - 1);
        let c = changes[k - 1];
    }
}

/// Whether a score is no larger than what a file has room for, with ease.
pub open spec fn fits_file(score: ScoreView) -> bool {
    &&& score.voices.len() < 65535
    &&& score.events.len() <= 0x400_0000
    &&& score.program_changes.len() <= 0x400_0000
    &&& score.tempo_map.len() <= 0x400_0000
    &&& forall|i: int|
        0 <= i < score.voices.len() ==> (#[trigger] score.voices[i]).name.len() <= 0x100_0000
}

/// A score that is no larger than what a file has room for is written without an error.
pub proof fn lemma_written(score: ScoreView)
    requires
        fits_file(score),
    ensures
        within_limits(stored_tracks(score_tracks(score))),
{
    let tracks = score_tracks(score);
    let kept = stored_tracks(tracks);
    assert forall|t: int| 0 <= t < kept.len() implies track_size(
        #[trigger] kept[t],
        kept[t].len() as int,
    ) <= u32::MAX && (forall|j: int|
        0 <= j < kept[t].len() ==> text_len(#[trigger] kept[t][j]) < 0x1000_0000) by {
        let track = tracks[t];
        assert(kept[t] =~= track.map_values(|e: EventView| stored(e)));
        assert(kept[t][0] == stored(track[0]));
        assert forall|j: int| 0 < j < kept[t].len() implies text_len(#[trigger] kept[t][j])
            == 0 by {
            assert(kept[t][j] == stored(track[j]));
        }
        if t == 0 {
            assert(track == piece_track(score));
            lemma_stamp_len(score);
            lemma_utf8_len(stamp(score));
        } else {
            assert(track == voice_track(score, t - 1));
            let name = score.voices[t - 1].name;
            lemma_utf8_len(name);
            let programs = program_moments(
                score.program_changes,
                t - 1,
                score.program_changes.len() as int,
            );
            let notes = note_moments(score.events, t - 1, score.events.len() as int);
            lemma_program_moments(score.program_changes, t - 1, score.program_changes.len() as int);
            lemma_note_moments(score.events, t - 1, score.events.len() as int, arbitrary());
            lemma_sorted_len(programs + notes);
        }
        lemma_track_size(kept[t], kept[t].len() as int);
    }
}

/// An event takes eleven bytes at most, and those of its text.
proof fn lemma_track_size(track: Seq<EventView>, k: int)
    requires
        0 < k <= track.len(),
        forall|j: int| 0 < j < track.len() ==> text_len(#[trigger] track[j]) == 0,
    ensures
        0 <= track_size(track, k) <= 11 * k + text_len(track[0]),
    decreases k,
{
    if k > 1 {
        lemma_track_size(track, k - 1);
        assert(text_len(track[k - 1]) == 0);
    } else {
        reveal_with_fuel(track_size, 2);
    }
}

proof fn lemma_utf8_len(s: Seq<char>)
    ensures
        utf8(s).len() <= 4 * s.len(),
    decreases s.len(),
{
    if s.len() > 0 {
        lemma_utf8_len(s.drop_first());
    }
}

proof fn lemma_stamp_len(score: ScoreView)
    ensures
        stamp(score).len() <= 100,
{
    reveal_strlit("gitfugue v");
    reveal_strlit("0.1.0");
    reveal_strlit(" seed=");
    reveal_strlit(" key=");
    reveal_strlit(" ");
    reveal_strlit(" bpm=");
    reveal_strlit("major pentatonic");
    reveal_strlit("minor pentatonic");
    reveal_strlit("dorian");
    reveal_strlit("aeolian");
    reveal_strlit("C");
    reveal_strlit("Db");
    reveal_strlit("D");
    reveal_strlit("Eb");
    reveal_strlit("E");
    reveal_strlit("F");
    reveal_strlit("Gb");
    reveal_strlit("G");
    reveal_strlit("Ab");
    reveal_strlit("A");
    reveal_strlit("Bb");
    reveal_strlit("B");
    assert(key_name(score.key.root).len() <= 2);
    assert(scale_name(score.scale).len() <= 16);
    assert(decimal(score.bpm_base as nat).len() <= 5) by {
        reveal_with_fuel(decimal, 5);
    }
    assert(hex(score.seed as nat, 16).len() == 16) by {
        reveal_with_fuel(hex, 17);
    }
}

} // verus!
