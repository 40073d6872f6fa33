//! The history mode: the commit history is the score.
//!
//! The piece opens with an exposition of the subject, then one commit is one bar. Each
//! commit mutates the theme, seeded by its own hash and as strongly as its diff is large,
//! and plays the current theme in its author's voice. Bots play percussion. The time
//! between commits modulates the tempo by up to fifteen per cent, and a long gap becomes a
//! breath of one bar.

use vstd::prelude::*;
use vstd::string::StringExecFns;

use crate::compose::{choose_globals, globals, ComposeParams, BAR};
use crate::model::{
    Author, AuthorView, CommitNode, CommitView, Key, NoteEvent, Scale, Score, ScoreView, Tick,
};
use crate::playing::{
    bar_events, bar_played, bar_wf, hats_played, play_entries, play_percussion_bar, play_theme_bar,
};
use crate::rng::{child_seed, draw_range, lemma_draw_below, Rng};
use crate::sorting::{lemma_sorted_len, sort, sorted, views, Ranked, Sortable};
use crate::text::{decimal, push_decimal, texts};
use crate::theme::{
    bar_view, lemma_mutated, lemma_operator_count, mutated, notes_of_bar, operator_count,
    ops_for_diff, rising_slots, subject, theme_wf, Theme, ThemeNote, ThemeView,
};
use crate::theory::{midi_of, midi_to_steps, steps_of, steps_to_midi};
use crate::voices::{
    assign_voices, author_voice, history_voices, tail_commits, tail_countable, voice_lines,
};

verus! {

/// Numbers rank by their size.
impl Ranked for u64 {
    open spec fn le(self, other: Self) -> bool {
        self <= other
    }

    proof fn le_total(a: Self, b: Self) {
    }

    proof fn le_transitive(a: Self, b: Self, c: Self) {
    }
}

impl Sortable for u64 {
    fn no_higher(&self, other: &Self) -> (r: bool) {
        *self <= *other
    }
}

/// The seconds between a commit and the next one; none if the clock ran backwards.
pub open spec fn gap_after(commits: Seq<CommitView>, i: int) -> int {
    let d = commits[i + 1].timestamp - commits[i].timestamp;
    if d > 0 {
        d
    } else {
        0
    }
}

/// The gaps behind the first `k` commits that are not zero.
pub open spec fn positive_gaps(commits: Seq<CommitView>, k: int) -> Seq<u64>
    decreases k,
{
    if k <= 0 {
        seq![]
    } else if gap_after(commits, k - 1) > 0 {
        positive_gaps(commits, k - 1).push(gap_after(commits, k - 1) as u64)
    } else {
        positive_gaps(commits, k - 1)
    }
}

/// The upper median of the gaps that are not zero; 0 if there are none.
pub open spec fn median_gap(commits: Seq<CommitView>) -> int {
    let gaps = sorted(positive_gaps(commits, commits.len() - 1));
    if gaps.len() == 0 {
        0
    } else {
        gaps[gaps.len() as int / 2] as int
    }
}

/// The least gap that can become a breath: three days.
pub const BREATH_FLOOR: u64 = 259_200;

/// Whether a breath stands before a commit: the gap before it is well beyond the
/// repository's own rhythm and takes days.
pub open spec fn breathes(commits: Seq<CommitView>, i: int) -> bool {
    let median = median_gap(commits);
    i > 0 && median > 0 && gap_after(commits, i - 1) > 8 * median && gap_after(commits, i - 1)
        > BREATH_FLOOR
}

/// How many breaths stand before and among the first `k` commits.
pub open spec fn breath_count(commits: Seq<CommitView>, k: int) -> int
    decreases k,
{
    if k <= 0 {
        0
    } else {
        breath_count(commits, k - 1) + if breathes(commits, k - 1) {
            1int
        } else {
            0
        }
    }
}

/// The per cent of the base tempo for a gap that is `ratio` per cent of the median.
pub open spec fn tempo_percent(ratio: int) -> int {
    if ratio < 50 {
        115
    } else if ratio < 80 {
        108
    } else if ratio <= 125 {
        100
    } else if ratio <= 400 {
        92
    } else {
        85
    }
}

/// The tempo behind a gap, in steps around the base tempo; the base tempo itself where
/// there is no gap or no median to compare it with. The ratio is kept in 64 bits and the
/// tempo in 16.
pub open spec fn local_tempo(base: u16, gap: Option<int>, median: int) -> int {
    match gap {
        Some(d) if median > 0 => {
            let ratio = (d * 100 / median) % 0x1_0000_0000_0000_0000;
            let bpm = base * tempo_percent(ratio) / 100;
            (if bpm < 30 {
                30
            } else {
                bpm
            }) % 0x1_0000
        },
        _ => base as int,
    }
}

/// What a history piece is made of: its global choices, the commits and the authors.
#[verifier::ext_equal]
pub struct Frame {
    pub key: Key,
    pub scale: Scale,
    pub bpm: u16,
    pub center_midi: int,
    pub commits: Seq<CommitView>,
    pub authors: Seq<AuthorView>,
}

/// A history piece as far as it has been composed.
#[verifier::ext_equal]
pub struct Piece {
    pub notes: Seq<NoteEvent>,
    pub liner: Seq<Seq<char>>,
    pub tempo_map: Seq<(Tick, u16)>,
    pub tick: int,
    pub theme: ThemeView,
}

/// The number of the bar at a tick.
pub open spec fn bar_number(tick: int) -> nat {
    (tick / BAR as int + 1) as nat
}

/// The scale step of a MIDI pitch, moved by `by` steps, as a pitch.
pub open spec fn moved_pitch(key: Key, scale: Scale, midi: int, by: int) -> u8 {
    midi_of(key, scale, steps_of(key, scale, midi) + by) as u8
}

/// The piece with the breath before the commit `i`, if there is one: a quiet low note of
/// the anchor.
pub open spec fn breath_taken(f: Frame, p: Piece, i: int) -> Piece {
    if breathes(f.commits, i) {
        Piece {
            notes: p.notes.push(
                NoteEvent {
                    voice: 0,
                    pitch: moved_pitch(f.key, f.scale, f.center_midi, -7),
                    start: p.tick as u32,
                    dur: BAR,
                    velocity: 30,
                },
            ),
            liner: p.liner.push(
                "bar "@ + decimal(bar_number(p.tick)) + ": "@ + decimal(
                    (gap_after(f.commits, i - 1) / 86_400) as nat,
                ) + "-day gap, breath"@,
            ),
            tick: p.tick + BAR,
            ..p
        }
    } else {
        p
    }
}

/// The piece with the tempo of the commit `i`, if it differs from the one before.
pub open spec fn tempo_set(f: Frame, p: Piece, i: int) -> Piece {
    let gap = if i > 0 {
        Some(gap_after(f.commits, i - 1))
    } else {
        None
    };
    let local = local_tempo(f.bpm, gap, median_gap(f.commits)) as u16;
    if local != p.tempo_map.last().1 {
        Piece { tempo_map: p.tempo_map.push((p.tick as u32, local)), ..p }
    } else {
        p
    }
}

/// The theme after the mutations of a commit.
pub open spec fn theme_after(t: ThemeView, c: CommitView) -> ThemeView {
    mutated(
        t,
        child_seed(c.hash, "mutation"@),
        operator_count(c.diff_magnitude as nat) as nat,
    )
}

/// The notes of the bar of the commit `i`, when the theme has been mutated.
pub open spec fn commit_notes(f: Frame, p: Piece, i: int) -> Seq<NoteEvent> {
    let c = f.commits[i];
    let voice = author_voice(f.authors, c.author_id as int) as usize;
    let state = child_seed(c.hash, "bar"@);
    if f.authors[c.author_id as int].is_bot {
        hats_played(p.tick, voice, c.diff_magnitude as nat, state)
    } else {
        bar_played(
            bar_view(p.theme.notes, i % p.theme.bars as int),
            p.tick,
            voice,
            f.key,
            f.scale,
            c.diff_magnitude as nat,
            state,
        )
    }
}

/// The piece with the mark of a merge, if the commit is one: a low tonic of the anchor.
pub open spec fn merge_marked(f: Frame, p: Piece, c: CommitView) -> Piece {
    if c.is_merge {
        Piece {
            notes: p.notes.push(
                NoteEvent {
                    voice: 0,
                    pitch: (36 + f.key.root) as u8,
                    start: p.tick as u32,
                    dur: BAR / 2,
                    velocity: 58,
                },
            ),
            liner: p.liner.push(
                "bar "@ + decimal(bar_number(p.tick)) + ": merge "@ + c.short,
            ),
            ..p
        }
    } else {
        p
    }
}

/// The piece with the bar of the commit `i`.
pub open spec fn commit_played(f: Frame, p: Piece, i: int) -> Piece {
    let p1 = tempo_set(f, breath_taken(f, p, i), i);
    let p2 = Piece { theme: theme_after(p1.theme, f.commits[i]), ..p1 };
    let p3 = Piece { notes: p2.notes + commit_notes(f, p2, i), ..p2 };
    let p4 = merge_marked(f, p3, f.commits[i]);
    Piece { tick: p4.tick + BAR, ..p4 }
}

/// The piece with the bars of the first `k` commits.
pub open spec fn commits_played(f: Frame, p: Piece, k: int) -> Piece
    decreases k,
{
    if k <= 0 {
        p
    } else {
        commit_played(f, commits_played(f, p, k - 1), k - 1)
    }
}

/// The notes of the first `b` bars of the exposition: the anchor states the subject, note
/// by note.
pub open spec fn exposition(
    seed: u64,
    t: ThemeView,
    key: Key,
    scale: Scale,
    b: int,
) -> Seq<NoteEvent>
    decreases b,
{
    if b <= 0 {
        seq![]
    } else {
        exposition(seed, t, key, scale, b - 1) + bar_events(
            bar_view(t.notes, b - 1),
            (b - 1) * BAR,
            0,
            key,
            scale,
            0,
            child_seed(seed, "expo"@),
        )
    }
}

/// How many commits the first `k` stand for.
pub open spec fn folded_sum(commits: Seq<CommitView>, k: int) -> int
    decreases k,
{
    if k <= 0 {
        0
    } else {
        folded_sum(commits, k - 1) + commits[k - 1].folded
    }
}

/// Whether one of the first `k` commits stands for several.
pub open spec fn any_folded(commits: Seq<CommitView>, k: int) -> bool {
    exists|i: int| 0 <= i < k && (#[trigger] commits[i]).folded > 1
}

/// The line about the global choices.
pub open spec fn identity_line(key: Key, scale: Scale, bpm: u16) -> Seq<char> {
    "key: "@ + key_name_of(key) + " "@ + crate::model::scale_name(scale) + "  bpm: "@ + decimal(
        bpm as nat,
    ) + "  (identity from root commit)"@
}

/// The name of a key.
pub open spec fn key_name_of(key: Key) -> Seq<char> {
    crate::model::key_name(key.root)
}

/// The line about the commits that were taken.
pub open spec fn range_line(
    branch: Seq<char>,
    commits: Seq<CommitView>,
    total_commits: u32,
) -> Seq<char> {
    let n = commits.len() as int;
    if any_folded(commits, n) {
        "range: "@ + decimal(folded_sum(commits, n) as nat) + " first-parent commits on "@ + branch
            + " compressed into "@ + decimal(commits.len()) + " bars (of "@ + decimal(
            total_commits as nat,
        ) + " total)"@
    } else {
        "range: "@ + decimal(commits.len()) + " first-parent commits on "@ + branch + " (of "@
            + decimal(total_commits as nat) + " total)"@
    }
}

/// The line about the subject.
pub open spec fn subject_line(bars: u32) -> Seq<char> {
    "subject: "@ + decimal(bars as nat) + " bars, stated by anchor"@
}

/// The global choices of a history piece with its commits and authors.
pub open spec fn frame_of(
    seed: u64,
    commits: Seq<CommitView>,
    authors: Seq<AuthorView>,
    params: ComposeParams,
) -> Frame {
    let g = globals(seed, params);
    Frame {
        key: g.key,
        scale: g.scale,
        bpm: g.bpm,
        center_midi: 60 + draw_range(g.state, -3, 4),
        commits,
        authors,
    }
}

/// The subject of a history piece.
pub open spec fn subject_of(seed: u64, f: Frame) -> ThemeView {
    subject(child_seed(seed, "subject"@), f.key, f.scale, f.center_midi)
}

/// The piece before its first commit: the exposition and the lines about it.
pub open spec fn opening(
    seed: u64,
    branch: Seq<char>,
    f: Frame,
    total_commits: u32,
) -> Piece {
    let t = subject_of(seed, f);
    Piece {
        notes: exposition(seed, t, f.key, f.scale, t.bars as int),
        liner: (seq![
            identity_line(f.key, f.scale, f.bpm),
            range_line(branch, f.commits, total_commits),
        ] + voice_lines(f.authors)).push(subject_line(t.bars)),
        tempo_map: seq![(0u32, f.bpm)],
        tick: t.bars * BAR,
        theme: t,
    }
}

/// The closing bar: the anchor settles on the tonic.
pub open spec fn closing(f: Frame, tick: int) -> Seq<NoteEvent> {
    seq![
        NoteEvent {
            voice: 0,
            pitch: moved_pitch(f.key, f.scale, f.center_midi, 0),
            start: tick as u32,
            dur: BAR,
            velocity: 54,
        },
        NoteEvent {
            voice: 0,
            pitch: (36 + f.key.root) as u8,
            start: tick as u32,
            dur: BAR,
            velocity: 46,
        },
    ]
}

/// The score of a history.
pub open spec fn history_score(
    seed: u64,
    branch: Seq<char>,
    commits: Seq<CommitView>,
    authors: Seq<AuthorView>,
    total_commits: u32,
    params: ComposeParams,
) -> ScoreView {
    let f = frame_of(seed, commits, authors, params);
    let p = commits_played(f, opening(seed, branch, f, total_commits), commits.len() as int);
    ScoreView {
        bpm_base: f.bpm,
        key: f.key,
        scale: f.scale,
        voices: history_voices(authors),
        events: sorted(p.notes + closing(f, p.tick)),
        tempo_map: p.tempo_map,
        program_changes: seq![],
        liner_notes: p.liner,
        seed,
    }
}

/// How many bars a history takes: the subject's, one for each commit and each breath, and
/// the closing one.
pub open spec fn history_length(seed: u64, commits: Seq<CommitView>) -> int {
    crate::theme::subject_bars(child_seed(seed, "subject"@)) + commits.len() + breath_count(
        commits,
        commits.len() as int,
    ) + 1
}

/// What a history must meet to be composed: its commits name authors, and the counts and
/// ticks that are written down fit into 32 bits.
pub open spec fn history_fits(
    seed: u64,
    commits: Seq<CommitView>,
    authors: Seq<AuthorView>,
) -> bool {
    &&& forall|i: int| 0 <= i < commits.len() ==> (#[trigger] commits[i]).author_id < authors.len()
    &&& folded_sum(commits, commits.len() as int) <= u32::MAX
    &&& tail_commits(authors) <= u32::MAX
    &&& history_length(seed, commits) * BAR <= u32::MAX
}

/// There is at most one breath for each commit.
pub proof fn lemma_breath_count(commits: Seq<CommitView>, a: int, b: int)
    requires
        0 <= a <= b,
    ensures
        0 <= breath_count(commits, a) <= breath_count(commits, b),
        breath_count(commits, b) - breath_count(commits, a) <= b - a,
    decreases b,
{
    if a < b {
        lemma_breath_count(commits, a, b - 1);
    } else if b > 0 {
        lemma_breath_count(commits, b - 1, b - 1);
    }
}

proof fn lemma_folded_sum(commits: Seq<CommitView>, a: int, b: int)
    requires
        0 <= a <= b <= commits.len(),
    ensures
        0 <= folded_sum(commits, a) <= folded_sum(commits, b),
    decreases b,
{
    if a < b {
        lemma_folded_sum(commits, a, b - 1);
    } else if b > 0 {
        lemma_folded_sum(commits, b - 1, b - 1);
    }
}

/// The entries of a bar of a well-formed theme lie in rising order inside the bar.
pub proof fn lemma_bar_view(t: ThemeView, bar: int)
    requires
        theme_wf(t),
    ensures
        bar_wf(bar_view(t.notes, bar), 900),
{
    let notes = t.notes;
    assert forall|i: int| 0 <= i < notes.len() implies -900 <= (#[trigger] notes[i]).degree
        <= 900 by {
        assert(notes[i].slot < t.bars * 16);
    }
    lemma_bar_notes(notes, bar);
}

proof fn lemma_bar_notes(notes: Seq<ThemeNote>, bar: int)
    requires
        rising_slots(notes),
        forall|i: int| 0 <= i < notes.len() ==> -900 <= (#[trigger] notes[i]).degree <= 900,
    ensures
        bar_wf(bar_view(notes, bar), 900),
        forall|i: int|
            #![trigger notes_of_bar(notes, bar)[i]]
            0 <= i < notes_of_bar(notes, bar).len() ==> notes.contains(notes_of_bar(notes, bar)[i]),
    decreases notes.len(),
{
    reveal(Seq::filter);
    if notes.len() > 0 {
        let rest = notes.drop_last();
        let last = notes.last();
        assert forall|a: int, b: int| 0 <= a < b < rest.len() implies (#[trigger] rest[a]).slot < (
        #[trigger] rest[b]).slot by {
            assert(notes[a].slot < notes[b].slot);
        }
        assert forall|i: int| 0 <= i < rest.len() implies -900 <= (#[trigger] rest[i]).degree
            <= 900 by {
            assert(-900 <= notes[i].degree <= 900);
        }
        lemma_bar_notes(rest, bar);
        let before = notes_of_bar(rest, bar);
        let now = notes_of_bar(notes, bar);
        let v = bar_view(notes, bar);
        assert forall|i: int| 0 <= i < before.len() implies (#[trigger] before[i]).slot < last.slot
            && notes.contains(before[i]) by {
            assert(rest.contains(before[i]));
            let k = choose|k: int| 0 <= k < rest.len() && rest[k] == before[i];
            assert(notes[k].slot < notes[notes.len() - 1].slot);
            assert(notes[k] == before[i]);
        }
        if bar * 16 <= last.slot < bar * 16 + 16 {
            assert(now == before.push(last));
            let u = bar_view(rest, bar);
            assert forall|i: int| 0 <= i < before.len() implies bar * 16 <= (
            #[trigger] before[i]).slot && u[i] == v[i] by {
                assert(rest.contains(before[i]));
                lemma_bar_floor(rest, bar, i);
            }
            assert(v.last().0 == last.slot - bar * 16);
            assert(notes[notes.len() - 1] == last);
            assert forall|a: int, b: int| 0 <= a < b < v.len() implies (#[trigger] v[a]).0 < (
            #[trigger] v[b]).0 by {
                assert(before[a].slot < last.slot);
                assert(u[a] == v[a]);
                if b < before.len() {
                    assert(bar * 16 <= before[b].slot);
                    assert(u[a].0 < u[b].0);
                }
            }
            assert forall|i: int| 0 <= i < v.len() implies (#[trigger] v[i]).0 < 16 && -900
                <= v[i].1 <= 900 by {
                if i < before.len() {
                    assert(bar * 16 <= before[i].slot);
                    assert(u[i].0 < 16);
                }
            }
            assert forall|i: int| 0 <= i < now.len() implies notes.contains(
                #[trigger] now[i],
            ) by {
                if i < before.len() {
                    assert(notes.contains(before[i]));
                }
            }
        } else {
            assert(now == before);
        }
    }
}

proof fn lemma_bar_floor(notes: Seq<ThemeNote>, bar: int, i: int)
    requires
        0 <= i < notes_of_bar(notes, bar).len(),
    ensures
        bar * 16 <= notes_of_bar(notes, bar)[i].slot < bar * 16 + 16,
    decreases notes.len(),
{
    reveal(Seq::filter);
    if notes.len() > 0 && i < notes_of_bar(notes.drop_last(), bar).len() {
        lemma_bar_floor(notes.drop_last(), bar, i);
    }
}

/// A commit takes one bar, and a breath before it another; the theme keeps its bars and
/// stays well-formed.
pub proof fn lemma_commit_played(f: Frame, p: Piece, i: int)
    requires
        theme_wf(p.theme),
        p.tempo_map.len() > 0,
    ensures
        ({
            let q = commit_played(f, p, i);
            &&& theme_wf(q.theme)
            &&& q.theme.bars == p.theme.bars
            &&& q.tempo_map.len() > 0
            &&& q.tick == p.tick + (if breathes(f.commits, i) {
                2 * BAR
            } else {
                BAR as int
            })
        }),
{
    let c = f.commits[i];
    lemma_operator_count(c.diff_magnitude as nat, c.diff_magnitude as nat);
    lemma_mutated(
        p.theme,
        child_seed(c.hash, "mutation"@),
        operator_count(c.diff_magnitude as nat) as nat,
    );
}

/// One commit is one bar: the first `k` commits take as many bars, and one more for each
/// breath among them.
pub proof fn lemma_commits_played(f: Frame, p: Piece, k: int)
    requires
        theme_wf(p.theme),
        p.tempo_map.len() > 0,
        0 <= k,
    ensures
        ({
            let q = commits_played(f, p, k);
            &&& theme_wf(q.theme)
            &&& q.theme.bars == p.theme.bars
            &&& q.tempo_map.len() > 0
            &&& q.tick == p.tick + (k + breath_count(f.commits, k)) * BAR
        }),
    decreases k,
{
    if k > 0 {
        lemma_commits_played(f, p, k - 1);
        lemma_commit_played(f, commits_played(f, p, k - 1), k - 1);
    }
}

/// A history piece while it is being composed.
struct Sketch {
    notes: Vec<NoteEvent>,
    liner: Vec<String>,
    tempo_map: Vec<(Tick, u16)>,
    tick: Tick,
    theme: Theme,
}

impl View for Sketch {
    type V = Piece;

    closed spec fn view(&self) -> Piece {
        Piece {
            notes: self.notes@,
            liner: texts(self.liner@),
            tempo_map: self.tempo_map@,
            tick: self.tick as int,
            theme: self.theme@,
        }
    }
}

/// The gaps behind all commits but the last.
fn gaps_of(commits: &[CommitNode]) -> (r: Vec<u64>)
    ensures
        commits@.len() > 0 ==> r@.len() == commits@.len() - 1,
        commits@.len() == 0 ==> r@.len() == 0,
        forall|i: int|
            0 <= i < commits@.len() - 1 ==> #[trigger] r@[i] == gap_after(views(commits@), i),
{
    let ghost all = views(commits@);
    let mut out: Vec<u64> = Vec::new();
    let n: usize = if commits.len() == 0 {
        0
    } else {
        commits.len() - 1
    };
    for i in 0..n
        invariant
            commits@.len() > 0 ==> n == commits@.len() - 1,
            commits@.len() == 0 ==> n == 0,
            all == views(commits@),
            out@.len() == i,
            forall|j: int| 0 <= j < i ==> #[trigger] out@[j] == gap_after(all, j),
    {
        assert(all[i as int] == commits@[i as int]@);
        assert(all[i + 1] == commits@[i + 1]@);
        let d: i128 = commits[i + 1].timestamp as i128 - commits[i].timestamp as i128;
        out.push(
            if d > 0 {
                d as u64
            } else {
                0
            },
        );
    }
    out
}

/// The upper median of the gaps that are not zero.
fn median_positive(commits: &[CommitNode], gaps: &Vec<u64>) -> (r: u64)
    requires
        commits@.len() > 0 ==> gaps@.len() == commits@.len() - 1,
        commits@.len() == 0 ==> gaps@.len() == 0,
        forall|i: int|
            0 <= i < commits@.len() - 1 ==> #[trigger] gaps@[i] == gap_after(views(commits@), i),
    ensures
        r == median_gap(views(commits@)),
{
    let ghost all = views(commits@);
    let mut positive: Vec<u64> = Vec::new();
    for i in 0..gaps.len()
        invariant
            commits@.len() > 0 ==> gaps@.len() == commits@.len() - 1,
            commits@.len() == 0 ==> gaps@.len() == 0,
            all == views(commits@),
            forall|i: int| 0 <= i < commits@.len() - 1 ==> #[trigger] gaps@[i] == gap_after(all, i),
            positive@ == positive_gaps(all, i as int),
    {
        if gaps[i] > 0 {
            positive.push(gaps[i]);
        }
    }
    proof {
        assert(positive@ == positive_gaps(all, all.len() - 1));
        assert(views(positive@) =~= positive@);
        lemma_sorted_len(positive@);
    }
    sort(&mut positive);
    assert(views(positive@) =~= positive@);
    if positive.len() == 0 {
        0
    } else {
        positive[positive.len() / 2]
    }
}

/// The tempo behind a gap.
fn local_bpm(base: u16, gap: Option<u64>, median: u64) -> (r: u16)
    ensures
        r == local_tempo(
            base,
            match gap {
                Some(d) => Some(d as int),
                None => None,
            },
            median as int,
        ),
{
    match gap {
        Some(d) => {
            if median == 0 {
                return base;
            }
            let full: u128 = d as u128 * 100 / median as u128;
            let ratio: u128 = full % 0x1_0000_0000_0000_0000;
            let percent: u32 = if ratio < 50 {
                115
            } else if ratio < 80 {
                108
            } else if ratio <= 125 {
                100
            } else if ratio <= 400 {
                92
            } else {
                85
            };
            let bpm: u32 = base as u32 * percent / 100;
            let slow: u32 = if bpm < 30 {
                30
            } else {
                bpm
            };
            (slow % 0x1_0000) as u16
        },
        None => base,
    }
}

impl Sketch {
    /// Takes the breath before a commit.
    fn breathe(
        &mut self,
        key: Key,
        scale: Scale,
        center_midi: u8,
        gap: u64,
        Ghost(f): Ghost<Frame>,
        Ghost(i): Ghost<int>,
    )
        requires
            key == f.key,
            scale == f.scale,
            center_midi == f.center_midi,
            breathes(f.commits, i),
            gap == gap_after(f.commits, i - 1),
            old(self)@.tick + BAR <= u32::MAX,
        ensures
            final(self)@ == breath_taken(f, old(self)@, i),
    {
        let ghost p = self@;
        let mut line = String::from_str("bar ");
        push_decimal(&mut line, bar_no(self.tick) as u64);
        line.append(": ");
        push_decimal(&mut line, gap / 86_400);
        line.append("-day gap, breath");
        self.liner.push(line);
        let low: i32 = midi_to_steps(key, scale, center_midi) - 7;
        self.notes.push(
            NoteEvent {
                voice: 0,
                pitch: steps_to_midi(key, scale, low),
                start: self.tick,
                dur: BAR,
                velocity: 30,
            },
        );
        self.tick = self.tick + BAR;
        assert(self@.liner =~= breath_taken(f, p, i).liner);
        assert(self@ =~= breath_taken(f, p, i));
    }

    /// Sets the tempo, if it differs from the one before.
    fn set_tempo(&mut self, local: u16)
        requires
            old(self)@.tempo_map.len() > 0,
        ensures
            final(self)@ == (if local != old(self)@.tempo_map.last().1 {
                Piece {
                    tempo_map: old(self)@.tempo_map.push((old(self)@.tick as u32, local)),
                    ..old(self)@
                }
            } else {
                old(self)@
            }),
    {
        if local != self.tempo_map[self.tempo_map.len() - 1].1 {
            self.tempo_map.push((self.tick, local));
        }
    }

    /// Marks a merge.
    fn mark_merge(&mut self, key: Key, commit: &CommitNode, Ghost(f): Ghost<Frame>)
        requires
            key == f.key,
            key.root < 12,
        ensures
            final(self)@ == merge_marked(f, old(self)@, commit@),
    {
        let ghost p = self@;
        if commit.is_merge {
            let mut line = String::from_str("bar ");
            push_decimal(&mut line, bar_no(self.tick) as u64);
            line.append(": merge ");
            line.append(commit.short.as_str());
            self.liner.push(line);
            self.notes.push(
                NoteEvent {
                    voice: 0,
                    pitch: 36 + key.root,
                    start: self.tick,
                    dur: BAR / 2,
                    velocity: 58,
                },
            );
            assert(self@.liner =~= merge_marked(f, p, commit@).liner);
            assert(self@ =~= merge_marked(f, p, commit@));
        }
    }
    /// Plays the bar of a commit: the breath before it, its tempo, its mutations of the
    /// theme, its notes, and the mark of a merge.
    fn play_commit(
        &mut self,
        commit: &CommitNode,
        i: u32,
        is_bot: bool,
        voice: usize,
        gap: Option<u64>,
        median: u64,
        key: Key,
        scale: Scale,
        bpm: u16,
        center_midi: u8,
        Ghost(f): Ghost<Frame>,
    )
        requires
            0 <= i < f.commits.len(),
            commit@ == f.commits[i as int],
            key == f.key,
            key.root < 12,
            scale == f.scale,
            bpm == f.bpm,
            center_midi == f.center_midi,
            is_bot == f.authors[commit.author_id as int].is_bot,
            voice == author_voice(f.authors, commit.author_id as int),
            median == median_gap(f.commits),
            i > 0 ==> gap == Some(gap_after(f.commits, i - 1) as u64),
            i > 0 ==> gap_after(f.commits, i - 1) <= u64::MAX,
            i == 0 ==> gap is None,
            theme_wf(old(self)@.theme),
            old(self)@.tempo_map.len() > 0,
            old(self)@.tick + (if breathes(f.commits, i as int) {
                2 * BAR
            } else {
                BAR as int
            }) <= u32::MAX,
        ensures
            final(self)@ == commit_played(f, old(self)@, i as int),
    {
        let ghost p = self@;
        proof {
            lemma_commit_played(f, p, i as int);
        }
        match gap {
            Some(g) => {
                if median > 0 && g as u128 > 8 * median as u128 && g > BREATH_FLOOR {
                    self.breathe(key, scale, center_midi, g, Ghost(f), Ghost(i as int));
                }
            },
            None => {},
        }
        let ghost p0 = breath_taken(f, p, i as int);
        assert(self@ == p0);
        self.set_tempo(local_bpm(bpm, gap, median));
        let ghost p1 = tempo_set(f, p0, i as int);
        assert(self@ == p1);
        let mut mutation_rng = Rng::new(commit.hash).child("mutation");
        self.theme.mutate(&mut mutation_rng, ops_for_diff(commit.diff_magnitude));
        let ghost p2 = Piece { theme: theme_after(p1.theme, f.commits[i as int]), ..p1 };
        assert(self@ == p2);
        self.play_bar(commit, i, is_bot, voice, key, scale, Ghost(f));
        let ghost p3 = Piece { notes: p2.notes + commit_notes(f, p2, i as int), ..p2 };
        assert(self@ == p3);
        self.mark_merge(key, commit, Ghost(f));
        self.tick = self.tick + BAR;
        assert(self@ == commit_played(f, p, i as int));
    }

    /// Plays the notes of a commit's bar.
    fn play_bar(
        &mut self,
        commit: &CommitNode,
        i: u32,
        is_bot: bool,
        voice: usize,
        key: Key,
        scale: Scale,
        Ghost(f): Ghost<Frame>,
    )
        requires
            0 <= i < f.commits.len(),
            commit@ == f.commits[i as int],
            key == f.key,
            scale == f.scale,
            is_bot == f.authors[commit.author_id as int].is_bot,
            voice == author_voice(f.authors, commit.author_id as int),
            theme_wf(old(self)@.theme),
            old(self)@.tick + BAR <= u32::MAX,
        ensures
            final(self)@ == (Piece {
                notes: old(self)@.notes + commit_notes(f, old(self)@, i as int),
                ..old(self)@
            }),
    {
        let mut rng = Rng::new(commit.hash).child("bar");
        if is_bot {
            play_percussion_bar(
                &mut self.notes,
                self.tick,
                voice,
                commit.diff_magnitude,
                &mut rng,
            );
        } else {
            let bar: u32 = i % self.theme.bars;
            proof {
                lemma_bar_view(self@.theme, bar as int);
            }
            let entries: Vec<(u32, i32, u8)> = self.theme.bar(bar);
            play_theme_bar(
                &mut self.notes,
                entries,
                self.tick,
                voice,
                key,
                scale,
                commit.diff_magnitude,
                &mut rng,
            );
        }
    }
}

/// The number of the bar at a tick.
fn bar_no(tick: Tick) -> (r: u32)
    ensures
        r == bar_number(tick as int),
{
    tick / BAR + 1
}

/// The lines about the global choices and the commits that were taken.
fn opening_lines(
    key: Key,
    scale: Scale,
    bpm: u16,
    branch: &str,
    commits: &[CommitNode],
    total_commits: u32,
) -> (r: Vec<String>)
    requires
        folded_sum(views(commits@), commits@.len() as int) <= u32::MAX,
    ensures
        texts(r@) == seq![
            identity_line(key, scale, bpm),
            range_line(branch@, views(commits@), total_commits),
        ],
{
    let ghost all = views(commits@);
    let mut liner: Vec<String> = Vec::new();
    let mut line = String::from_str("key: ");
    line.append(key.name());
    line.append(" ");
    line.append(scale.name());
    line.append("  bpm: ");
    push_decimal(&mut line, bpm as u64);
    line.append("  (identity from root commit)");
    assert(line@ == identity_line(key, scale, bpm));
    liner.push(line);
    let mut folded: u32 = 0;
    let mut compressed: bool = false;
    for i in 0..commits.len()
        invariant
            all == views(commits@),
            folded == folded_sum(all, i as int),
            folded_sum(all, all.len() as int) <= u32::MAX,
            compressed == any_folded(all, i as int),
    {
        assert(all[i as int] == commits@[i as int]@);
        proof {
            lemma_folded_sum(all, i + 1, all.len() as int);
        }
        folded = folded + commits[i].folded;
        if commits[i].folded > 1 {
            assert(all[i as int].folded > 1);
            compressed = true;
        }
    }
    let mut line = String::from_str("range: ");
    if compressed {
        push_decimal(&mut line, folded as u64);
        line.append(" first-parent commits on ");
        line.append(branch);
        line.append(" compressed into ");
        push_decimal(&mut line, commits.len() as u64);
        line.append(" bars (of ");
    } else {
        push_decimal(&mut line, commits.len() as u64);
        line.append(" first-parent commits on ");
        line.append(branch);
        line.append(" (of ");
    }
    push_decimal(&mut line, total_commits as u64);
    line.append(" total)");
    assert(line@ == range_line(branch@, all, total_commits));
    liner.push(line);
    assert(texts(liner@) =~= seq![
        identity_line(key, scale, bpm),
        range_line(branch@, all, total_commits),
    ]);
    liner
}

/// The exposition.
fn expose(seed: u64, theme: &Theme, key: Key, scale: Scale) -> (r: Vec<NoteEvent>)
    requires
        theme_wf(theme@),
        theme@.bars <= 4,
    ensures
        r@ == exposition(seed, theme@, key, scale, theme@.bars as int),
{
    let root = Rng::new(seed);
    let mut notes: Vec<NoteEvent> = Vec::new();
    for bar in 0..theme.bars
        invariant
            root@ == seed,
            theme_wf(theme@),
            theme@.bars <= 4,
            notes@ == exposition(seed, theme@, key, scale, bar as int),
    {
        proof {
            lemma_bar_view(theme@, bar as int);
        }
        let mut rng = root.child("expo");
        let entries: Vec<(u32, i32, u8)> = theme.bar(bar);
        play_entries(
            &mut notes,
            &entries,
            bar * BAR,
            0,
            key,
            scale,
            0,
            &mut rng,
        );
    }
    notes
}

/// Begins a history piece: the lines about it, its voices, and the exposition. The result
/// holds the piece, the voices, and each author's voice.
fn begin_piece(
    identity_seed: u64,
    branch: &str,
    commits: &[CommitNode],
    authors: &[Author],
    total_commits: u32,
    key: Key,
    scale: Scale,
    bpm: u16,
    center_midi: u8,
    Ghost(f): Ghost<Frame>,
) -> (r: (Sketch, Vec<crate::model::Voice>, Vec<usize>))
    requires
        folded_sum(views(commits@), commits@.len() as int) <= u32::MAX,
        tail_commits(views(authors@)) <= u32::MAX,
        f.commits == views(commits@),
        f.authors == views(authors@),
        key == f.key,
        scale == f.scale,
        bpm == f.bpm,
        center_midi == f.center_midi,
    ensures
        r.0@ == opening(identity_seed, branch@, f, total_commits),
        views(r.1@) == history_voices(f.authors),
        r.2@.len() == authors@.len(),
        forall|i: int| 0 <= i < authors@.len() ==> #[trigger] r.2@[i] == author_voice(f.authors, i),
        theme_wf(r.0@.theme),
        r.0@.theme.bars == crate::theme::subject_bars(child_seed(identity_seed, "subject"@)),
{
    let mut liner: Vec<String> = opening_lines(key, scale, bpm, branch, commits, total_commits);
    let (voices, voice_of) = assign_voices(authors, &mut liner);
    let mut rng = Rng::new(identity_seed).child("subject");
    let theme: Theme = Theme::generate(&mut rng, key, scale, center_midi);
    let mut line = String::from_str("subject: ");
    push_decimal(&mut line, theme.bars as u64);
    line.append(" bars, stated by anchor");
    let ghost said = texts(liner@);
    liner.push(line);
    assert(texts(liner@) =~= said.push(subject_line(theme@.bars)));
    let mut tempo_map: Vec<(Tick, u16)> = Vec::new();
    tempo_map.push((0, bpm));
    let notes: Vec<NoteEvent> = expose(identity_seed, &theme, key, scale);
    let tick: Tick = theme.bars * BAR;
    let sketch = Sketch { notes, liner, tempo_map, tick, theme };
    proof {
        let first = opening(identity_seed, branch@, f, total_commits);
        assert(sketch@.liner =~= first.liner);
        assert(sketch@.tempo_map =~= first.tempo_map);
        assert(sketch@ == first);
    }
    (sketch, voices, voice_of)
}

/// Adds the closing bar and sorts the notes.
fn end_piece(
    notes: Vec<NoteEvent>,
    tick: Tick,
    key: Key,
    scale: Scale,
    center_midi: u8,
    Ghost(f): Ghost<Frame>,
) -> (r: Vec<NoteEvent>)
    requires
        key == f.key,
        key.root < 12,
        scale == f.scale,
        center_midi == f.center_midi,
    ensures
        r@ == sorted(notes@ + closing(f, tick as int)),
{
    let ghost before = notes@;
    let mut events: Vec<NoteEvent> = notes;
    let home: i32 = midi_to_steps(key, scale, center_midi);
    events.push(
        NoteEvent {
            voice: 0,
            pitch: steps_to_midi(key, scale, home),
            start: tick,
            dur: BAR,
            velocity: 54,
        },
    );
    events.push(
        NoteEvent { voice: 0, pitch: 36 + key.root, start: tick, dur: BAR, velocity: 46 },
    );
    assert(events@ =~= before + closing(f, tick as int));
    assert(views(events@) =~= events@);
    sort(&mut events);
    assert(views(events@) =~= events@);
    events
}

/// Whether every commit names an author, and the commits that they stand for can be counted
/// in 32 bits.
fn commits_countable(commits: &[CommitNode], authors: usize) -> (r: bool)
    ensures
        r == ((forall|i: int|
            0 <= i < commits@.len() ==> (#[trigger] views(commits@)[i]).author_id < authors)
            && folded_sum(views(commits@), commits@.len() as int) <= u32::MAX),
{
    let ghost all = views(commits@);
    let mut folded: u64 = 0;
    for i in 0..commits.len()
        invariant
            all == views(commits@),
            folded == folded_sum(all, i as int),
            folded <= u32::MAX,
            forall|j: int| 0 <= j < i ==> (#[trigger] all[j]).author_id < authors,
    {
        assert(all[i as int] == commits@[i as int]@);
        if commits[i].author_id >= authors {
            return false;
        }
        proof {
            lemma_folded_sum(all, i + 1, all.len() as int);
        }
        folded = folded + commits[i].folded as u64;
        if folded > 0xffff_ffff {
            return false;
        }
    }
    true
}

/// Whether the bars of a history can be counted in ticks of 32 bits.
fn bars_countable(seed: u64, commits: &[CommitNode]) -> (r: bool)
    ensures
        r == (history_length(seed, views(commits@)) * BAR <= u32::MAX),
{
    let ghost all = views(commits@);
    let ghost n = all.len() as int;
    let gaps: Vec<u64> = gaps_of(commits);
    let median: u64 = median_positive(commits, &gaps);
    let mut rng = Rng::new(seed).child("subject");
    proof {
        lemma_draw_below(rng@, 3);
    }
    let mut bars: u128 = 2 + rng.below(3) as u128 + commits.len() as u128 + 1;
    let ghost plain = bars as int;
    for i in 0..commits.len()
        invariant
            all == views(commits@),
            n == all.len(),
            n <= usize::MAX,
            commits@.len() > 0 ==> gaps@.len() == commits@.len() - 1,
            forall|i: int| 0 <= i < commits@.len() - 1 ==> #[trigger] gaps@[i] == gap_after(all, i),
            median == median_gap(all),
            bars == plain + breath_count(all, i as int),
            plain <= usize::MAX + 10,
            breath_count(all, i as int) <= i,
    {
        if i > 0 && median > 0 && gaps[i - 1] as u128 > 8 * median as u128 && gaps[i - 1]
            > BREATH_FLOOR {
            bars = bars + 1;
        }
    }
    bars <= 0xffff_ffff / BAR as u128
}

/// Whether a history can be composed.
pub fn history_composable(seed: u64, commits: &[CommitNode], authors: &[Author]) -> (r: bool)
    ensures
        r == history_fits(seed, views(commits@), views(authors@)),
{
    commits_countable(commits, authors.len()) && tail_countable(authors) && bars_countable(
        seed,
        commits,
    )
}

/// Composes the history of a repository.
#[verifier::rlimit(30)]
pub fn compose_history(
    identity_seed: u64,
    branch: &str,
    commits: &[CommitNode],
    authors: &[Author],
    total_commits: u32,
    params: &ComposeParams,
) -> (r: Score)
    requires
        history_fits(identity_seed, views(commits@), views(authors@)),
    ensures
        r@ == history_score(
            identity_seed,
            branch@,
            views(commits@),
            views(authors@),
            total_commits,
            *params,
        ),
{
    let ghost all = views(commits@);
    let ghost people = views(authors@);
    let ghost f = frame_of(identity_seed, all, people, *params);
    let (key, scale, bpm, mut rng) = choose_globals(identity_seed, params);
    let center_midi: u8 = (60 + rng.range(-3, 4)) as u8;
    let (mut sketch, voices, voice_of) = begin_piece(
        identity_seed,
        branch,
        commits,
        authors,
        total_commits,
        key,
        scale,
        bpm,
        center_midi,
        Ghost(f),
    );
    let ghost first = sketch@;
    let gaps: Vec<u64> = gaps_of(commits);
    let median: u64 = median_positive(commits, &gaps);
    for i in 0..commits.len()
        invariant
            all == views(commits@),
            people == views(authors@),
            f.commits == all,
            f.authors == people,
            history_fits(identity_seed, all, people),
            key == f.key,
            key.root < 12,
            scale == f.scale,
            bpm == f.bpm,
            center_midi == f.center_midi,
            commits@.len() > 0 ==> gaps@.len() == commits@.len() - 1,
            forall|i: int| 0 <= i < commits@.len() - 1 ==> #[trigger] gaps@[i] == gap_after(all, i),
            median == median_gap(all),
            voice_of@.len() == authors@.len(),
            forall|i: int|
                0 <= i < authors@.len() ==> #[trigger] voice_of@[i] == author_voice(people, i),
            theme_wf(first.theme),
            first.theme.bars == crate::theme::subject_bars(child_seed(identity_seed, "subject"@)),
            first.tick == first.theme.bars * BAR,
            first.tempo_map.len() > 0,
            sketch@ == commits_played(f, first, i as int),
    {
        proof {
            lemma_commits_played(f, first, i as int);
            lemma_breath_count(all, i + 1, all.len() as int);
            assert(all[i as int] == commits@[i as int]@);
            assert(people[all[i as int].author_id as int]
                == authors@[all[i as int].author_id as int]@);
        }
        let commit: &CommitNode = &commits[i];
        let gap: Option<u64> = if i > 0 {
            Some(gaps[i - 1])
        } else {
            None
        };
        sketch.play_commit(
            commit,
            i as u32,
            authors[commit.author_id].is_bot,
            voice_of[commit.author_id],
            gap,
            median,
            key,
            scale,
            bpm,
            center_midi,
            Ghost(f),
        );
    }
    proof {
        lemma_commits_played(f, first, all.len() as int);
    }
    let events: Vec<NoteEvent> = end_piece(
        sketch.notes,
        sketch.tick,
        key,
        scale,
        center_midi,
        Ghost(f),
    );
    let score = Score {
        bpm_base: bpm,
        key,
        scale,
        voices,
        events,
        tempo_map: sketch.tempo_map,
        program_changes: Vec::new(),
        liner_notes: sketch.liner,
        seed: identity_seed,
    };
    assert(score@.program_changes =~= Seq::<(Tick, usize, u8)>::empty());
    score
}

} // verus!
