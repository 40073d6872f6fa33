//! Standard MIDI files, as midly writes them.

use vstd::prelude::*;
use vstd::string::StringExecFns;

use crate::rng::utf8;
use crate::sorting::views;

verus! {

/// Messages about a track.
#[derive(Debug, Clone, PartialEq, Eq)]
pub enum Meta {
    Text(String),
    TrackName(String),
    TimeSignature(u8, u8, u8, u8),
    /// Microseconds per quarter note.
    Tempo(u32),
    EndOfTrack,
}

/// Messages to a channel.
#[derive(Debug, Clone, Copy, PartialEq, Eq, Structural)]
pub enum ChannelMessage {
    ProgramChange { program: u8 },
    NoteOn { key: u8, velocity: u8 },
    NoteOff { key: u8, velocity: u8 },
}

/// A message of a track.
#[derive(Debug, Clone, PartialEq, Eq)]
pub enum Message {
    Meta(Meta),
    Channel { channel: u8, message: ChannelMessage },
}

/// A message and how many ticks it comes after the one before it.
#[derive(Debug, Clone, PartialEq, Eq)]
pub struct MidiEvent {
    pub delta: u32,
    pub message: Message,
}

/// What a `Meta` says.
#[verifier::ext_equal]
pub enum MetaView {
    Text(Seq<u8>),
    TrackName(Seq<u8>),
    TimeSignature(u8, u8, u8, u8),
    Tempo(u32),
    EndOfTrack,
}

/// What a `Message` says.
#[verifier::ext_equal]
pub enum MessageView {
    Meta(MetaView),
    Channel { channel: u8, message: ChannelMessage },
}

/// What a `MidiEvent` says.
#[verifier::ext_equal]
pub struct EventView {
    pub delta: u32,
    pub message: MessageView,
}

impl View for Meta {
    type V = MetaView;

    open spec fn view(&self) -> MetaView {
        match self {
            Meta::Text(t) => MetaView::Text(utf8(t@)),
            Meta::TrackName(t) => MetaView::TrackName(utf8(t@)),
            Meta::TimeSignature(a, b, c, d) => MetaView::TimeSignature(*a, *b, *c, *d),
            Meta::Tempo(t) => MetaView::Tempo(*t),
            Meta::EndOfTrack => MetaView::EndOfTrack,
        }
    }
}

impl View for Message {
    type V = MessageView;

    open spec fn view(&self) -> MessageView {
        match self {
            Message::Meta(m) => MessageView::Meta(m@),
            Message::Channel { channel, message } => MessageView::Channel {
                channel: *channel,
                message: *message,
            },
        }
    }
}

impl View for MidiEvent {
    type V = EventView;

    open spec fn view(&self) -> EventView {
        EventView { delta: self.delta, message: self.message@ }
    }
}

/// The ticks that a file can hold in front of a message: 28 bits of them.
pub open spec fn stored_delta(delta: u32) -> u32 {
    (delta % 0x1000_0000) as u32
}

/// A message about a track as a file can hold it: 24 bits of a tempo.
pub open spec fn stored_meta(m: MetaView) -> MetaView {
    match m {
        MetaView::Tempo(t) => MetaView::Tempo((t % 0x100_0000) as u32),
        _ => m,
    }
}

/// A channel message as a file can hold it: seven bits of each number.
pub open spec fn stored_channel(m: ChannelMessage) -> ChannelMessage {
    match m {
        ChannelMessage::ProgramChange { program } => ChannelMessage::ProgramChange {
            program: (program % 128) as u8,
        },
        ChannelMessage::NoteOn { key, velocity } => ChannelMessage::NoteOn {
            key: (key % 128) as u8,
            velocity: (velocity % 128) as u8,
        },
        ChannelMessage::NoteOff { key, velocity } => ChannelMessage::NoteOff {
            key: (key % 128) as u8,
            velocity: (velocity % 128) as u8,
        },
    }
}

/// An event as a file can hold it.
pub open spec fn stored(e: EventView) -> EventView {
    EventView {
        delta: stored_delta(e.delta),
        message: match e.message {
            MessageView::Meta(m) => MessageView::Meta(stored_meta(m)),
            MessageView::Channel { channel, message } => MessageView::Channel {
                channel: (channel % 16) as u8,
                message: stored_channel(message),
            },
        },
    }
}

/// The events of tracks as a file can hold them.
pub open spec fn stored_tracks(tracks: Seq<Seq<EventView>>) -> Seq<Seq<EventView>> {
    tracks.map_values(|t: Seq<EventView>| t.map_values(|e: EventView| stored(e)))
}

/// The events in a list of tracks.
pub open spec fn track_views(tracks: Seq<Vec<MidiEvent>>) -> Seq<Seq<EventView>> {
    tracks.map_values(|t: Vec<MidiEvent>| views(t@))
}

/// A MIDI file of midly.
#[verifier::external_type_specification]
#[verifier::external_body]
pub struct ExSmf<'a>(midly::Smf<'a>);

/// The events of the tracks of a MIDI file.
pub uninterp spec fn smf_tracks(smf: midly::Smf) -> Seq<Seq<EventView>>;

/// The ticks per quarter note of a MIDI file.
pub uninterp spec fn smf_ticks(smf: midly::Smf) -> u16;

/// Whether a MIDI file is one of parallel tracks, timed in ticks per quarter note, whose
/// events are such as [`EventView`] can say.
pub uninterp spec fn smf_parallel(smf: midly::Smf) -> bool;

/// The bytes that midly writes for a MIDI file of parallel tracks with the given ticks per
/// quarter note, or its error.
pub uninterp spec fn smf_bytes(ticks: u16, tracks: Seq<Seq<EventView>>) -> Result<
    Seq<u8>,
    Seq<char>,
>;

/// The first bytes of a MIDI file: its mark, the length of the header, the format of
/// parallel tracks, the number of tracks, and the ticks per quarter note.
pub open spec fn smf_header(ticks: u16, count: int) -> Seq<u8> {
    seq![
        0x4du8,
        0x54,
        0x68,
        0x64,
        0,
        0,
        0,
        6,
        0,
        1,
        (count / 256) as u8,
        (count % 256) as u8,
        (ticks / 256) as u8,
        (ticks % 256) as u8,
    ]
}

/// How long the text in an event is.
pub open spec fn text_len(e: EventView) -> nat {
    match e.message {
        MessageView::Meta(MetaView::Text(t)) => t.len(),
        MessageView::Meta(MetaView::TrackName(t)) => t.len(),
        _ => 0,
    }
}

/// How many bytes a number below 2^28 takes, in groups of seven bits.
pub open spec fn number_size(n: int) -> int {
    if n < 0x80 {
        1
    } else if n < 0x4000 {
        2
    } else if n < 0x20_0000 {
        3
    } else {
        4
    }
}

/// How many bytes the data of a message about a track take.
pub open spec fn meta_size(m: MetaView) -> int {
    match m {
        MetaView::Text(t) => t.len() as int,
        MetaView::TrackName(t) => t.len() as int,
        MetaView::TimeSignature(_, _, _, _) => 4,
        MetaView::Tempo(_) => 3,
        MetaView::EndOfTrack => 0,
    }
}

/// Whether two messages are of one kind and to one channel, so that the second does not
/// have to tell them again.
pub open spec fn same_status(a: MessageView, b: MessageView) -> bool {
    match (a, b) {
        (
            MessageView::Channel { channel: c, message: m },
            MessageView::Channel { channel: d, message: n },
        ) => c == d && match (m, n) {
            (ChannelMessage::ProgramChange { .. }, ChannelMessage::ProgramChange { .. }) => true,
            (ChannelMessage::NoteOn { .. }, ChannelMessage::NoteOn { .. }) => true,
            (ChannelMessage::NoteOff { .. }, ChannelMessage::NoteOff { .. }) => true,
            _ => false,
        },
        _ => false,
    }
}

/// How many bytes the event `k` of a track takes: its ticks, what it is, and its data.
pub open spec fn event_size(track: Seq<EventView>, k: int) -> int {
    number_size(track[k].delta as int) + match track[k].message {
        MessageView::Meta(m) => 2 + number_size(meta_size(m)) + meta_size(m),
        MessageView::Channel { channel, message } => {
            (if k > 0 && same_status(track[k - 1].message, track[k].message) {
                0int
            } else {
                1
            }) + if message is ProgramChange {
                1int
            } else {
                2
            }
        },
    }
}

/// How many bytes the first `k` events of a track take.
pub open spec fn track_size(track: Seq<EventView>, k: int) -> int
    decreases k,
{
    if k <= 0 {
        0
    } else {
        track_size(track, k - 1) + event_size(track, k - 1)
    }
}

/// Whether tracks keep to the limits of the format: 65535 tracks, 28 bits for the length of
/// a text, and 32 bits for that of a track.
pub open spec fn within_limits(tracks: Seq<Seq<EventView>>) -> bool {
    &&& tracks.len() <= 65535
    &&& forall|i: int|
        0 <= i < tracks.len() ==> track_size(#[trigger] tracks[i], tracks[i].len() as int)
            <= u32::MAX
    &&& forall|i: int, j: int|
        0 <= i < tracks.len() && 0 <= j < tracks[i].len() ==> text_len(#[trigger] tracks[i][j])
            < 0x1000_0000
}

/// `midly::Smf::new` with `Header::new`: a MIDI file of parallel tracks, with none so far.
/// The ticks per quarter note lose their highest bit.
#[verifier::external_body]
pub(crate) fn new_smf<'a>(ticks: u16) -> (r: midly::Smf<'a>)
    ensures
        smf_tracks(r) == Seq::<Seq<EventView>>::empty(),
        smf_ticks(r) == ticks % 0x8000,
        smf_parallel(r),
{
    let timing = midly::Timing::Metrical(midly::num::u15::from(ticks));
    midly::Smf::new(midly::Header::new(midly::Format::Parallel, timing))
}

/// The field `tracks` of `midly::Smf`: an empty track is added behind the others.
#[verifier::external_body]
pub(crate) fn add_track<'a>(smf: &mut midly::Smf<'a>)
    ensures
        smf_tracks(*final(smf)) == smf_tracks(*old(smf)).push(Seq::<EventView>::empty()),
        smf_ticks(*final(smf)) == smf_ticks(*old(smf)),
        smf_parallel(*final(smf)) == smf_parallel(*old(smf)),
{
    smf.tracks.push(Vec::new());
}

/// The field `tracks` of `midly::Smf`: a message about the track is added to the last one.
/// `midly::num::u28::from` and `u24::from` drop the bits that they have no room for.
#[verifier::external_body]
pub(crate) fn add_meta<'a>(smf: &mut midly::Smf<'a>, delta: u32, meta: &'a Meta)
    requires
        smf_tracks(*old(smf)).len() > 0,
    ensures
        smf_tracks(*final(smf)) == smf_tracks(*old(smf)).drop_last().push(
            smf_tracks(*old(smf)).last().push(
                EventView {
                    delta: stored_delta(delta),
                    message: MessageView::Meta(stored_meta(meta@)),
                },
            ),
        ),
        smf_ticks(*final(smf)) == smf_ticks(*old(smf)),
        smf_parallel(*final(smf)) == smf_parallel(*old(smf)),
{
    let message = match meta {
        Meta::Text(t) => midly::MetaMessage::Text(t.as_bytes()),
        Meta::TrackName(t) => midly::MetaMessage::TrackName(t.as_bytes()),
        Meta::TimeSignature(a, b, c, d) => midly::MetaMessage::TimeSignature(*a, *b, *c, *d),
        Meta::Tempo(t) => midly::MetaMessage::Tempo(midly::num::u24::from(*t)),
        Meta::EndOfTrack => midly::MetaMessage::EndOfTrack,
    };
    let kind = midly::TrackEventKind::Meta(message);
    let event = midly::TrackEvent { delta: midly::num::u28::from(delta), kind };
    smf.tracks.last_mut().unwrap().push(event);
}

/// The field `tracks` of `midly::Smf`: a channel message is added to the last track.
/// `midly::num::u28::from`, `u4::from` and `u7::from` drop the bits that they have no room
/// for.
#[verifier::external_body]
pub(crate) fn add_channel<'a>(
    smf: &mut midly::Smf<'a>,
    delta: u32,
    channel: u8,
    message: ChannelMessage,
)
    requires
        smf_tracks(*old(smf)).len() > 0,
    ensures
        smf_tracks(*final(smf)) == smf_tracks(*old(smf)).drop_last().push(
            smf_tracks(*old(smf)).last().push(
                EventView {
                    delta: stored_delta(delta),
                    message: MessageView::Channel {
                        channel: (channel % 16) as u8,
                        message: stored_channel(message),
                    },
                },
            ),
        ),
        smf_ticks(*final(smf)) == smf_ticks(*old(smf)),
        smf_parallel(*final(smf)) == smf_parallel(*old(smf)),
{
    let message = match message {
        ChannelMessage::ProgramChange { program } => {
            midly::MidiMessage::ProgramChange { program: program.into() }
        },
        ChannelMessage::NoteOn { key, velocity } => {
            midly::MidiMessage::NoteOn { key: key.into(), vel: velocity.into() }
        },
        ChannelMessage::NoteOff { key, velocity } => {
            midly::MidiMessage::NoteOff { key: key.into(), vel: velocity.into() }
        },
    };
    let kind = midly::TrackEventKind::Midi { channel: channel.into(), message };
    smf.tracks.last_mut().unwrap().push(midly::TrackEvent { delta: delta.into(), kind });
}

/// `midly::Smf::write` into a vector: the bytes of the file, which depend on its ticks and
/// tracks alone and start with the file's header. It succeeds where the tracks keep to the
/// limits of the format, and nowhere else.
#[verifier::external_body]
pub(crate) fn write_smf<'a>(smf: &midly::Smf<'a>) -> (r: Result<Vec<u8>, &'static str>)
    requires
        smf_parallel(*smf),
    ensures
        match r {
            Ok(v) => smf_bytes(smf_ticks(*smf), smf_tracks(*smf)) == Ok::<_, Seq<char>>(v@)
                && v@.len() >= 14 && v@.take(14) == smf_header(
                smf_ticks(*smf),
                smf_tracks(*smf).len() as int,
            ),
            Err(e) => smf_bytes(smf_ticks(*smf), smf_tracks(*smf)) == Err::<Seq<u8>, _>(e@),
        },
        r is Ok <==> within_limits(smf_tracks(*smf)),
{
    let mut bytes: Vec<u8> = Vec::new();
    match smf.write(&mut bytes) {
        Ok(_) => Ok(bytes),
        Err(e) => Err(e),
    }
}

/// What the writing of a file gives: its bytes, or an error that says why there are none.
pub open spec fn written(result: Result<Seq<u8>, Seq<char>>) -> Result<Seq<u8>, Seq<char>> {
    match result {
        Ok(bytes) => Ok(bytes),
        Err(e) => Err("MIDI write failed: "@ + e),
    }
}

/// What the writing of a file gives.
pub fn finish_write(result: Result<Vec<u8>, &'static str>) -> (r: Result<Vec<u8>, String>)
    ensures
        ({
            let given = match result {
                Ok(v) => Ok(v@),
                Err(e) => Err(e@),
            };
            match r {
                Ok(v) => written(given) == Ok::<_, Seq<char>>(v@),
                Err(e) => written(given) == Err::<Seq<u8>, _>(e@),
            }
        }),
{
    match result {
        Ok(bytes) => Ok(bytes),
        Err(e) => {
            let mut message = String::from_str("MIDI write failed: ");
            message.append(e);
            Err(message)
        },
    }
}

/// Writes tracks as a Standard MIDI File with the given ticks per quarter note.
pub fn encode_tracks(ticks: u16, tracks: &Vec<Vec<MidiEvent>>) -> (r: Result<Vec<u8>, String>)
    requires
        ticks < 0x8000,
    ensures
        match r {
            Ok(v) => written(smf_bytes(ticks, stored_tracks(track_views(tracks@)))) == Ok::<
                _,
                Seq<char>,
            >(v@) && v@.len() >= 14 && v@.take(14) == smf_header(ticks, tracks@.len() as int),
            Err(e) => written(smf_bytes(ticks, stored_tracks(track_views(tracks@)))) == Err::<
                Seq<u8>,
                _,
            >(e@),
        },
        r is Ok <==> within_limits(stored_tracks(track_views(tracks@))),
{
    let ghost shown = track_views(tracks@);
    let ghost all = stored_tracks(shown);
    let mut smf = new_smf(ticks);
    assert(all.take(0) =~= Seq::<Seq<EventView>>::empty());
    for i in 0..tracks.len()
        invariant
            shown == track_views(tracks@),
            all == stored_tracks(shown),
            smf_tracks(smf) == all.take(i as int),
            smf_ticks(smf) == ticks,
            smf_parallel(smf),
    {
        let track: &Vec<MidiEvent> = &tracks[i];
        let ghost line = all[i as int];
        assert(shown[i as int] == views(track@));
        add_track(&mut smf);
        let ghost held = all.take(i as int);
        assert(line.take(0) =~= Seq::<EventView>::empty());
        for j in 0..track.len()
            invariant
                line == views(track@).map_values(|e: EventView| stored(e)),
                smf_tracks(smf) == held.push(line.take(j as int)),
                smf_ticks(smf) == ticks,
                smf_parallel(smf),
        {
            let event: &MidiEvent = &track[j];
            assert(views(track@)[j as int] == track@[j as int]@);
            let ghost before = smf_tracks(smf);
            assert(before.drop_last() =~= held);
            match &event.message {
                Message::Meta(m) => {
                    add_meta(&mut smf, event.delta, m);
                },
                Message::Channel { channel, message } => {
                    add_channel(&mut smf, event.delta, *channel, *message);
                },
            }
            assert(line.take(j + 1) =~= line.take(j as int).push(line[j as int]));
        }
        assert(line.take(line.len() as int) =~= line);
        assert(all.take(i + 1) =~= held.push(line));
    }
    assert(all.take(all.len() as int) =~= all);
    finish_write(write_smf(&smf))
}

} // verus!
