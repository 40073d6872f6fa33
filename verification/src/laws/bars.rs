//! What stands in the bar of a commit.

use vstd::prelude::*;

use crate::compose::{ComposeParams, BAR};
use crate::compose_history::{
    breath_taken, closing, commit_notes, commit_played, commits_played, frame_of, gap_after,
    history_fits, history_score, lemma_bar_view, lemma_commit_played, local_tempo, median_gap,
    opening, subject_of, tempo_percent, tempo_set, theme_after, Frame, Piece,
};
use crate::foundation::{lemma_commit_adds, lemma_exposition_in_order, lemma_opening};
use crate::harmony::lemma_history_end;
use crate::laws::rhythm::{
    after_long_pause, bar_start, lemma_bar_ticks, lemma_long, lemma_one_usual_pause,
    lemma_usual_pause, usual_pause,
};
use crate::model::{AuthorView, CommitView, NoteEvent, Tick};
use crate::playing::{bar_played, hats_played, lemma_bar_played, lemma_hats_played};
use crate::rng::child_seed;
use crate::sorting::lemma_sorted_holds;
use crate::theme::{
    bar_view, lemma_mutated, lemma_operator_count, mutated, operator_count, theme_wf, ThemeView,
};
use crate::voices::author_voice;

verus! {

/// What a history is composed from.
pub struct Source {
    pub seed: u64,
    pub branch: Seq<char>,
    pub commits: Seq<CommitView>,
    pub authors: Seq<AuthorView>,
    pub total_commits: u32,
    pub params: ComposeParams,
}

/// Whether it can be composed.
pub open spec fn composes(s: Source) -> bool {
    history_fits(s.seed, s.commits, s.authors)
}

/// The score of it.
pub open spec fn score_of(s: Source) -> crate::model::ScoreView {
    history_score(s.seed, s.branch, s.commits, s.authors, s.total_commits, s.params)
}

/// The piece as far as the first `k` commits go.
spec fn piece_at(s: Source, k: int) -> Piece {
    let f = frame_of(s.seed, s.commits, s.authors, s.params);
    commits_played(f, opening(s.seed, s.branch, f, s.total_commits), k)
}

spec fn frame(s: Source) -> Frame {
    frame_of(s.seed, s.commits, s.authors, s.params)
}

/// The stroke that marks a merge: a low tonic of the anchor, half a bar long.
pub open spec fn merge_stroke(root: u8, tick: int) -> NoteEvent {
    NoteEvent {
        voice: 0,
        pitch: (36 + root) as u8,
        start: tick as u32,
        dur: 960,
        velocity: 58,
    }
}

/// The notes of a commit's bar stand behind the breath before it and before the mark of its
/// merge, and they all start inside the bar, in the author's voice.
proof fn lemma_segment(f: Frame, p: Piece, i: int)
    requires
        theme_wf(p.theme),
        p.tempo_map.len() > 0,
        0 <= p.tick,
        commit_played(f, p, i).tick <= u32::MAX,
    ensures
        ({
            let b = breath_taken(f, p, i);
            let p1 = tempo_set(f, b, i);
            let p2 = Piece { theme: theme_after(p1.theme, f.commits[i]), ..p1 };
            let more = commit_notes(f, p2, i);
            let mark = if f.commits[i].is_merge {
                seq![merge_stroke(f.key.root, b.tick)]
            } else {
                seq![]
            };
            &&& commit_played(f, p, i).notes == b.notes + more + mark
            &&& forall|j: int|
                0 <= j < more.len() ==> b.tick <= (#[trigger] more[j]).start < b.tick + BAR
                    && more[j].voice == author_voice(
                    f.authors,
                    f.commits[i].author_id as int,
                ) as usize
        }),
{
    let c = f.commits[i];
    lemma_commit_played(f, p, i);
    lemma_operator_count(c.diff_magnitude as nat, c.diff_magnitude as nat);
    lemma_mutated(
        p.theme,
        child_seed(c.hash, "mutation"@),
        operator_count(c.diff_magnitude as nat) as nat,
    );
    let b = breath_taken(f, p, i);
    let p1 = tempo_set(f, b, i);
    let p2 = Piece { theme: theme_after(p1.theme, c), ..p1 };
    let more = commit_notes(f, p2, i);
    let voice = author_voice(f.authors, c.author_id as int) as usize;
    let state = child_seed(c.hash, "bar"@);
    if f.authors[c.author_id as int].is_bot {
        lemma_hats_played(p2.tick, voice, c.diff_magnitude as nat, state);
    } else {
        let bar = i % p2.theme.bars as int;
        lemma_bar_view(p2.theme, bar);
        lemma_bar_played(
            bar_view(p2.theme.notes, bar),
            p2.tick,
            voice,
            f.key,
            f.scale,
            c.diff_magnitude as nat,
            state,
        );
    }
    if c.is_merge {
        assert((b.notes + more).push(merge_stroke(f.key.root, b.tick)) =~= b.notes + more
            + seq![merge_stroke(f.key.root, b.tick)]);
    } else {
        assert(b.notes + more =~= b.notes + more + seq![]);
    }
}

/// What is there stays, and what comes later starts later.
proof fn lemma_later(s: Source, i: int, k: int)
    requires
        composes(s),
        0 <= i <= k <= s.commits.len(),
    ensures
        ({
            let p = piece_at(s, i);
            let q = piece_at(s, k);
            &&& q.notes.len() >= p.notes.len()
            &&& q.notes.take(p.notes.len() as int) == p.notes
            &&& p.tick <= q.tick
            &&& forall|j: int|
                p.notes.len() <= j < q.notes.len() ==> (#[trigger] q.notes[j]).start >= p.tick
        }),
    decreases k - i,
{
    let p = piece_at(s, i);
    let q = piece_at(s, k);
    if i < k {
        lemma_later(s, i, k - 1);
        lemma_bar_ticks(
            s.seed,
            s.branch,
            s.commits,
            s.authors,
            s.total_commits,
            s.params,
            k - 1,
        );
        let m = piece_at(s, k - 1);
        assert(q == commit_played(frame(s), m, k - 1));
        lemma_commit_adds(frame(s), m, k - 1);
        assert forall|j: int| 0 <= j < p.notes.len() implies q.notes[j] == p.notes[j] by {
            assert(q.notes.take(m.notes.len() as int)[j] == q.notes[j]);
            assert(m.notes.take(p.notes.len() as int)[j] == m.notes[j]);
        }
        assert(q.notes.take(p.notes.len() as int) =~= p.notes);
        assert forall|j: int| p.notes.len() <= j < q.notes.len() implies (
        #[trigger] q.notes[j]).start >= p.tick by {
            if j < m.notes.len() {
                assert(q.notes.take(m.notes.len() as int)[j] == q.notes[j]);
                assert(m.notes[j].start >= p.tick);
            }
        }
    } else {
        assert(p.notes.take(p.notes.len() as int) =~= p.notes);
    }
}

/// What is there starts before what is next.
proof fn lemma_earlier(s: Source, k: int)
    requires
        composes(s),
        0 <= k <= s.commits.len(),
    ensures
        forall|j: int|
            0 <= j < piece_at(s, k).notes.len() ==> (#[trigger] piece_at(s, k).notes[j]).start
                < piece_at(s, k).tick,
    decreases k,
{
    let f = frame(s);
    let q = piece_at(s, k);
    if k > 0 {
        let i = k - 1;
        let p = piece_at(s, i);
        lemma_earlier(s, i);
        lemma_bar_ticks(s.seed, s.branch, s.commits, s.authors, s.total_commits, s.params, i);
        assert(q == commit_played(f, p, i));
        lemma_segment(f, p, i);
        let b = breath_taken(f, p, i);
        assert forall|j: int| 0 <= j < q.notes.len() implies (#[trigger] q.notes[j]).start
            < q.tick by {
            if j < p.notes.len() {
                assert(q.notes[j] == b.notes[j]);
                assert(b.notes[j] == p.notes[j]);
            } else if j < b.notes.len() {
                assert(q.notes[j] == b.notes[j]);
            }
        }
    } else {
        lemma_opening(s.seed, s.branch, s.commits, s.authors, s.total_commits, s.params);
        lemma_exposition_in_order(s.seed, subject_of(s.seed, f), f.key, f.scale);
    }
}

/// The notes that the score holds in the bar of a commit are those that the commit adds.
proof fn lemma_in_bar(s: Source, i: int, e: NoteEvent)
    requires
        composes(s),
        0 <= i < s.commits.len(),
        score_of(s).events.contains(e),
        piece_at(s, i).tick <= e.start < bar_start(s.seed, s.commits, i) + 1920,
    ensures
        exists|j: int|
            piece_at(s, i).notes.len() <= j < piece_at(s, i + 1).notes.len()
                && #[trigger] piece_at(s, i + 1).notes[j] == e,
{
    let n = s.commits.len() as int;
    let p = piece_at(s, i);
    let q = piece_at(s, i + 1);
    let last = piece_at(s, n);
    let f = frame(s);
    let all = last.notes + closing(f, last.tick);
    lemma_bar_ticks(s.seed, s.branch, s.commits, s.authors, s.total_commits, s.params, i);
    lemma_later(s, i + 1, n);
    lemma_later(s, i, i + 1);
    lemma_earlier(s, i);
    lemma_sorted_holds(all, e);
    lemma_history_end(s.seed, s.branch, s.commits, s.authors, s.total_commits, s.params);
    let j = choose|j: int| 0 <= j < all.len() && all[j] == e;
    if j < last.notes.len() {
        assert(last.notes[j] == e);
        if j >= q.notes.len() {
            assert(last.notes[j].start >= q.tick);
        } else {
            assert(last.notes.take(q.notes.len() as int)[j] == q.notes[j]);
            assert(q.notes[j] == e);
            if j < p.notes.len() {
                assert(q.notes.take(p.notes.len() as int)[j] == p.notes[j]);
                assert(p.notes[j].start < p.tick);
            }
        }
    } else {
        assert(e.start == last.tick);
    }
}

proof fn lemma_of_piece(s: Source, i: int, e: NoteEvent)
    requires
        composes(s),
        0 <= i <= s.commits.len(),
        piece_at(s, i).notes.contains(e),
    ensures
        score_of(s).events.contains(e),
{
    let n = s.commits.len() as int;
    let p = piece_at(s, i);
    let last = piece_at(s, n);
    let all = last.notes + closing(frame(s), last.tick);
    lemma_later(s, i, n);
    let j = choose|j: int| 0 <= j < p.notes.len() && p.notes[j] == e;
    assert(last.notes.take(p.notes.len() as int)[j] == last.notes[j]);
    assert(all[j] == e);
    lemma_sorted_holds(all, e);
}

/// In the bar of a commit the voice of its author plays, and no other voice but for the
/// anchor's stroke where the commit is a merge. The stroke is there if and only if it is.
pub proof fn lemma_bar_of_commit(s: Source, i: int)
    requires
        composes(s),
        0 <= i < s.commits.len(),
    ensures
        ({
            let start = bar_start(s.seed, s.commits, i);
            let c = s.commits[i];
            let voice = author_voice(s.authors, c.author_id as int) as usize;
            let stroke = merge_stroke(score_of(s).key.root, start);
            &&& forall|e: NoteEvent|
                #[trigger] score_of(s).events.contains(e) && start <= e.start < start + 1920
                    ==> e.voice == voice || (c.is_merge && e == stroke)
            &&& c.is_merge ==> score_of(s).events.contains(stroke)
        }),
{
    let f = frame(s);
    let start = bar_start(s.seed, s.commits, i);
    let c = s.commits[i];
    let voice = author_voice(s.authors, c.author_id as int) as usize;
    let stroke = merge_stroke(score_of(s).key.root, start);
    let p = piece_at(s, i);
    let q = piece_at(s, i + 1);
    let b = breath_taken(f, p, i);
    lemma_bar_ticks(s.seed, s.branch, s.commits, s.authors, s.total_commits, s.params, i);
    lemma_long(s.commits, i);
    lemma_segment(f, p, i);
    assert(q == commit_played(f, p, i));
    assert forall|e: NoteEvent| #[trigger]
        score_of(s).events.contains(e) && start <= e.start < start + 1920 implies e.voice == voice
        || (c.is_merge && e == stroke) by {
        lemma_in_bar(s, i, e);
        let j = choose|j: int|
            p.notes.len() <= j < q.notes.len() && #[trigger] piece_at(s, i + 1).notes[j] == e;
        if j < b.notes.len() {
            assert(q.notes[j] == b.notes[j]);
        }
    }
    if c.is_merge {
        assert(q.notes[q.notes.len() - 1] == stroke);
        assert(q.notes.contains(stroke));
        lemma_of_piece(s, i + 1, stroke);
    }
}

/// A commit after a long pause is preceded by a bar of its own, in which the anchor alone
/// plays, one quiet note from its start to its end; a commit after no long pause follows the
/// bar before it.
pub proof fn lemma_breath_before_commit(s: Source, i: int)
    requires
        composes(s),
        0 <= i < s.commits.len(),
    ensures
        ({
            let start = bar_start(s.seed, s.commits, i);
            &&& i > 0 ==> start - bar_start(s.seed, s.commits, i - 1) == if after_long_pause(
                s.commits,
                i,
            ) {
                3840int
            } else {
                1920
            }
            &&& after_long_pause(s.commits, i) ==> forall|e: NoteEvent|
                #[trigger] score_of(s).events.contains(e) && start - 1920 <= e.start < start
                    ==> e.voice == 0 && e.start == start - 1920 && e.dur == 1920 && e.velocity
                    == 30
            &&& after_long_pause(s.commits, i) ==> exists|e: NoteEvent| #[trigger]
                score_of(s).events.contains(e) && e.voice == 0 && e.start == start - 1920 && e.dur
                    == 1920 && e.velocity == 30
        }),
{
    let f = frame(s);
    let start = bar_start(s.seed, s.commits, i);
    let p = piece_at(s, i);
    let q = piece_at(s, i + 1);
    let b = breath_taken(f, p, i);
    lemma_bar_ticks(s.seed, s.branch, s.commits, s.authors, s.total_commits, s.params, i);
    lemma_long(s.commits, i);
    lemma_segment(f, p, i);
    assert(q == commit_played(f, p, i));
    if after_long_pause(s.commits, i) {
        let held = b.notes[p.notes.len() as int];
        assert(b.notes == p.notes.push(held));
        assert forall|e: NoteEvent| #[trigger]
            score_of(s).events.contains(e) && start - 1920 <= e.start < start implies e.voice == 0
            && e.start == start - 1920 && e.dur == 1920 && e.velocity == 30 by {
            lemma_in_bar(s, i, e);
            let j = choose|j: int|
                p.notes.len() <= j < q.notes.len() && #[trigger] piece_at(s, i + 1).notes[j] == e;
            if j < b.notes.len() {
                assert(q.notes[j] == b.notes[j]);
            }
        }
        assert(q.notes[p.notes.len() as int] == held);
        assert(q.notes.contains(held));
        lemma_of_piece(s, i + 1, held);
    }
}

/// The tempo at a tick: that of the last change up to it.
pub open spec fn tempo_at(tempos: Seq<(Tick, u16)>, tick: int) -> u16
    decreases tempos.len(),
{
    if tempos.len() == 0 {
        0
    } else if tempos.last().0 <= tick {
        tempos.last().1
    } else {
        tempo_at(tempos.drop_last(), tick)
    }
}

/// The tempo behind a pause when another is usual: 115 per cent of the base where it is less
/// than half as long, 108 where it is less than four fifths, 92 where it is longer by more
/// than a fourth, and 85 where it is more than four times as long; the base itself in
/// between, or where nothing is usual. No tempo is below thirty.
pub open spec fn paced(base: u16, pause: int, usual: int) -> int {
    let d = if pause > 0 {
        pause
    } else {
        0
    };
    let percent: int = if usual <= 0 {
        100
    } else if 2 * d < usual {
        115
    } else if 5 * d < 4 * usual {
        108
    } else if 100 * d < 126 * usual {
        100
    } else if 100 * d < 401 * usual {
        92
    } else {
        85
    };
    if usual > 0 && base * percent / 100 < 30 {
        30
    } else {
        base * percent / 100
    }
}

proof fn lemma_paced(base: u16, d: int, m: int)
    requires
        base <= 56987,
        0 <= d <= u64::MAX,
        0 < m,
        100 * d < 0x1_0000_0000_0000_0000,
    ensures
        local_tempo(base, Some(d), m) == paced(base, d, m),
{
    let r = d * 100 / m;
    vstd::arithmetic::div_mod::lemma_fundamental_div_mod(d * 100, m);
    vstd::arithmetic::div_mod::lemma_mod_bound(d * 100, m);
    let q = (d * 100) % m;
    assert(d * 100 == m * r + q);
    assert(r >= 0 && r <= d * 100) by (nonlinear_arith)
        requires
            d * 100 == m * r + q,
            0 <= q < m,
            d >= 0,
            m > 0,
    ;
    assert(r < 50 <==> d * 100 < 50 * m) by (nonlinear_arith)
        requires
            d * 100 == m * r + q,
            0 <= q < m,
            m > 0,
    ;
    assert(r < 80 <==> d * 100 < 80 * m) by (nonlinear_arith)
        requires
            d * 100 == m * r + q,
            0 <= q < m,
            m > 0,
    ;
    assert(r < 126 <==> d * 100 < 126 * m) by (nonlinear_arith)
        requires
            d * 100 == m * r + q,
            0 <= q < m,
            m > 0,
    ;
    assert(r < 401 <==> d * 100 < 401 * m) by (nonlinear_arith)
        requires
            d * 100 == m * r + q,
            0 <= q < m,
            m > 0,
    ;
    assert(r % 0x1_0000_0000_0000_0000 == r);
    let percent = tempo_percent(r);
    assert(base * percent / 100 <= 65535) by (nonlinear_arith)
        requires
            base <= 56987,
            0 <= percent <= 115,
    ;
    assert(base * percent / 100 >= 0) by (nonlinear_arith)
        requires
            0 <= percent,
    ;
}

proof fn lemma_tempo_kept(s: Source, i: int, k: int)
    requires
        composes(s),
        0 <= i < k <= s.commits.len(),
    ensures
        tempo_at(piece_at(s, k).tempo_map, bar_start(s.seed, s.commits, i)) == tempo_at(
            piece_at(s, i + 1).tempo_map,
            bar_start(s.seed, s.commits, i),
        ),
    decreases k,
{
    if k > i + 1 {
        lemma_tempo_kept(s, i, k - 1);
        lemma_bar_ticks(s.seed, s.branch, s.commits, s.authors, s.total_commits, s.params, k - 1);
        lemma_bar_ticks(s.seed, s.branch, s.commits, s.authors, s.total_commits, s.params, i);
        lemma_later(s, i + 1, k - 1);
        let p = piece_at(s, k - 1);
        let q = piece_at(s, k);
        let f = frame(s);
        assert(q == commit_played(f, p, k - 1));
        let b = breath_taken(f, p, k - 1);
        let t = tempo_set(f, b, k - 1);
        assert(q.tempo_map == t.tempo_map);
        assert(b.tempo_map == p.tempo_map);
        if t.tempo_map != p.tempo_map {
            assert(t.tempo_map.drop_last() =~= p.tempo_map);
            assert(t.tempo_map.last().0 == b.tick);
        }
    }
}

/// At the bar of a commit the tempo is that behind the pause before it.
pub proof fn lemma_tempo_of_commit(s: Source, i: int, usual: int)
    requires
        composes(s),
        0 <= i < s.commits.len(),
        usual_pause(s.commits, usual),
        score_of(s).bpm_base <= 56987,
        i > 0 ==> 100 * (s.commits[i].timestamp - s.commits[i - 1].timestamp)
            < 0x1_0000_0000_0000_0000,
    ensures
        tempo_at(score_of(s).tempo_map, bar_start(s.seed, s.commits, i)) == if i == 0 {
            score_of(s).bpm_base as int
        } else {
            paced(
                score_of(s).bpm_base,
                s.commits[i].timestamp - s.commits[i - 1].timestamp,
                usual,
            )
        },
{
    let n = s.commits.len() as int;
    let f = frame(s);
    let m = median_gap(s.commits);
    lemma_usual_pause(s.commits);
    lemma_one_usual_pause(s.commits, m, usual);
    lemma_tempo_kept(s, i, n);
    lemma_bar_ticks(s.seed, s.branch, s.commits, s.authors, s.total_commits, s.params, i);
    lemma_tempos_before(s, i);
    let p = piece_at(s, i);
    let q = piece_at(s, i + 1);
    assert(q == commit_played(f, p, i));
    let b = breath_taken(f, p, i);
    let t = tempo_set(f, b, i);
    assert(b.tempo_map == p.tempo_map);
    assert(q.tempo_map == t.tempo_map);
    if i > 0 && m > 0 {
        lemma_paced(f.bpm, gap_after(s.commits, i - 1), m);
    }
    let d = if i > 0 {
        Some(gap_after(s.commits, i - 1))
    } else {
        None
    };
    let local = local_tempo(f.bpm, d, m);
    assert(0 <= local <= 0xffff);
    assert(t.tempo_map.last().1 == local);
    assert(t.tempo_map.last().0 <= b.tick);
}

proof fn lemma_tempos_before(s: Source, k: int)
    requires
        composes(s),
        0 <= k <= s.commits.len(),
    ensures
        piece_at(s, k).tempo_map.len() > 0,
        piece_at(s, k).tempo_map.last().0 <= piece_at(s, k).tick,
    decreases k,
{
    let f = frame(s);
    if k > 0 {
        let i = k - 1;
        lemma_tempos_before(s, i);
        lemma_bar_ticks(s.seed, s.branch, s.commits, s.authors, s.total_commits, s.params, i);
        let p = piece_at(s, i);
        assert(piece_at(s, k) == commit_played(f, p, i));
        let b = breath_taken(f, p, i);
        let t = tempo_set(f, b, i);
        assert(b.tempo_map == p.tempo_map);
        assert(piece_at(s, k).tempo_map == t.tempo_map);
    } else {
        lemma_opening(s.seed, s.branch, s.commits, s.authors, s.total_commits, s.params);
    }
}

/// The theme that the first `k` commits have left of the subject.
pub open spec fn theme_left(s: Source, k: int) -> ThemeView
    decreases k,
{
    let f = frame_of(s.seed, s.commits, s.authors, s.params);
    if k <= 0 {
        subject_of(s.seed, f)
    } else {
        let c = s.commits[k - 1];
        mutated(
            theme_left(s, k - 1),
            child_seed(c.hash, "mutation"@),
            operator_count(c.diff_magnitude as nat) as nat,
        )
    }
}

/// The notes of a commit: a bot's strokes, or a bar of the theme as it is left by then, the
/// bars of the theme one after the other, over and over.
pub open spec fn own_notes(s: Source, i: int) -> Seq<NoteEvent> {
    let f = frame_of(s.seed, s.commits, s.authors, s.params);
    let c = s.commits[i];
    let start = bar_start(s.seed, s.commits, i);
    let voice = author_voice(s.authors, c.author_id as int) as usize;
    let state = child_seed(c.hash, "bar"@);
    let theme = theme_left(s, i + 1);
    if s.authors[c.author_id as int].is_bot {
        hats_played(start, voice, c.diff_magnitude as nat, state)
    } else {
        bar_played(
            bar_view(theme.notes, i % theme.bars as int),
            start,
            voice,
            f.key,
            f.scale,
            c.diff_magnitude as nat,
            state,
        )
    }
}

proof fn lemma_theme_left(s: Source, k: int)
    requires
        0 <= k <= s.commits.len(),
    ensures
        piece_at(s, k).theme == theme_left(s, k),
    decreases k,
{
    if k > 0 {
        lemma_theme_left(s, k - 1);
        assert(piece_at(s, k) == commit_played(frame(s), piece_at(s, k - 1), k - 1));
    }
}

/// In the bar of a commit stand the notes that the commit makes of the theme, all of them, and
/// the stroke if it is a merge, and nothing else.
pub proof fn lemma_notes_of_commit(s: Source, i: int, e: NoteEvent)
    requires
        composes(s),
        0 <= i < s.commits.len(),
    ensures
        ({
            let start = bar_start(s.seed, s.commits, i);
            let stroke = merge_stroke(score_of(s).key.root, start);
            score_of(s).events.contains(e) && start <= e.start < start + 1920 <==> own_notes(
                s,
                i,
            ).contains(e) || (s.commits[i].is_merge && e == stroke)
        }),
{
    let f = frame(s);
    let start = bar_start(s.seed, s.commits, i);
    let c = s.commits[i];
    let stroke = merge_stroke(score_of(s).key.root, start);
    let p = piece_at(s, i);
    let q = piece_at(s, i + 1);
    let b = breath_taken(f, p, i);
    let own = own_notes(s, i);
    lemma_bar_ticks(s.seed, s.branch, s.commits, s.authors, s.total_commits, s.params, i);
    lemma_long(s.commits, i);
    lemma_segment(f, p, i);
    lemma_theme_left(s, i);
    assert(q == commit_played(f, p, i));
    let p1 = tempo_set(f, b, i);
    let p2 = Piece { theme: theme_after(p1.theme, c), ..p1 };
    assert(p2.theme == theme_left(s, i + 1) && p2.tick == start);
    assert(commit_notes(f, p2, i) == own);
    let mark = if c.is_merge {
        seq![stroke]
    } else {
        seq![]
    };
    assert(q.notes == b.notes + own + mark);
    if score_of(s).events.contains(e) && start <= e.start < start + 1920 {
        lemma_in_bar(s, i, e);
        let j = choose|j: int|
            p.notes.len() <= j < q.notes.len() && #[trigger] piece_at(s, i + 1).notes[j] == e;
        if j < b.notes.len() {
            assert(q.notes[j] == b.notes[j]);
        } else if j < b.notes.len() + own.len() {
            assert(own[j - b.notes.len()] == e);
        }
    }
    if own.contains(e) {
        let j = choose|j: int| 0 <= j < own.len() && own[j] == e;
        assert(q.notes[b.notes.len() + j] == e);
        lemma_of_piece(s, i + 1, e);
    }
    if c.is_merge {
        assert(q.notes[q.notes.len() - 1] == stroke);
        lemma_of_piece(s, i + 1, stroke);
    }
}

/// A tempo is written down where it changes and nowhere else: each differs from the one before
/// it.
pub proof fn lemma_tempos_differ(s: Source, j: int)
    requires
        composes(s),
        0 <= j,
        j + 1 < score_of(s).tempo_map.len(),
    ensures
        score_of(s).tempo_map[j].1 != score_of(s).tempo_map[j + 1].1,
{
    lemma_changes(s, s.commits.len() as int, j);
}

proof fn lemma_changes(s: Source, k: int, j: int)
    requires
        composes(s),
        0 <= k <= s.commits.len(),
        0 <= j,
        j + 1 < piece_at(s, k).tempo_map.len(),
    ensures
        piece_at(s, k).tempo_map[j].1 != piece_at(s, k).tempo_map[j + 1].1,
    decreases k,
{
    let f = frame(s);
    if k > 0 {
        let p = piece_at(s, k - 1);
        let q = piece_at(s, k);
        assert(q == commit_played(f, p, k - 1));
        lemma_tempos_before(s, k - 1);
        let b = breath_taken(f, p, k - 1);
        let t = tempo_set(f, b, k - 1);
        assert(b.tempo_map == p.tempo_map);
        assert(q.tempo_map == t.tempo_map);
        if j + 1 < p.tempo_map.len() {
            lemma_changes(s, k - 1, j);
        }
    } else {
        lemma_opening(s.seed, s.branch, s.commits, s.authors, s.total_commits, s.params);
    }
}

} // verus!
