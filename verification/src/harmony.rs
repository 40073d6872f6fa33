//! What holds of every piece, note by note: the notes are in tune, in their voices and
//! inside the piece, the tempos stay near the base, and the whole can be written down.

use vstd::prelude::*;

use crate::compose::{
    duration_of, globals, lang_at, lang_in, lang_used, lemma_bar_note, lemma_bars_nonneg,
    lemma_bars_on, lemma_globals, lemma_phrases_played, lemma_played_bars,
    lemma_sections_played, lemma_sections_wf, lemma_used_langs, lemma_whole_grid, on_bar,
    on_grid, phrases_played, played_bars, score_of, section_seed, sections_played, static_fits,
    static_frame, static_score, static_voices, target_bars, transition_made, used_langs,
    voice_of_lang, ComposeParams, StaticFrame, StaticPiece, BAR,
};
use crate::compose_history::{
    breath_taken, closing, commit_notes, commit_played, commits_played, exposition, frame_of,
    history_fits, history_length, history_score, lemma_bar_view, lemma_breath_count,
    lemma_commit_played, lemma_commits_played, local_tempo, merge_marked, moved_pitch, opening,
    subject_of, tempo_set, theme_after, Frame, Piece,
};
use crate::drone::{drone_from, lemma_drone_notes};
use crate::fits::{
    lemma_history_fits, lemma_static_bars, lemma_static_fits, model_modest, units_valid,
};
use crate::model::{
    instrument_of, AuthorView, CommitView, Key, Lang, NoteEvent, RepoModel, Scale, UnitView,
    VoiceView,
};
use crate::motif::{
    lemma_phrase_notes, motif_of, near_scale, phrase_note, phrase_notes, phrase_scale, tension,
};
use crate::phrases::{bars_sum, lemma_planned, phrase_wf, phrases_wf, PhraseSpec};
use crate::playing::{
    bar_events, bar_played, bar_within, lemma_bar_events, lemma_bar_in_tune, lemma_bar_played,
    lemma_bar_size, lemma_hats_played, HAT_CLOSED, HAT_OPEN,
};
use crate::render::{fits_file, note_end, renderable, tempo_before};
use crate::rng::{child_key_seed, child_seed, lemma_draw_below};
use crate::sorting::{lemma_sorted_holds, lemma_sorted_len, sorted, views};
use crate::theme::{
    bar_view, lemma_mutated, lemma_operator_count, lemma_subject, lemma_subject_span, notes_between,
    notes_of_bar, operator_count, theme_wf, ThemeNote, ThemeView,
};
use crate::theory::{in_scale, lemma_pitch_in_scale, lemma_register, pitch_of, scale_len, steps_of};
use crate::voices::{author_voice, history_voices, lemma_voices, palette_name};

verus! {

/// Whether a note of the history mode is as it should be: in one of the voices, inside a
/// piece that ends at the tick `end`, on the grid of sixteenths, and in the scale, unless its
/// voice is the percussion, which plays hi-hats.
pub open spec fn history_note(
    voices: Seq<VoiceView>,
    key: Key,
    scale: Scale,
    end: int,
    e: NoteEvent,
) -> bool {
    &&& e.voice < voices.len()
    &&& e.dur > 0
    &&& e.start + e.dur <= end
    &&& on_grid(e, 0)
    &&& 30 <= e.velocity <= 115
    &&& if voices[e.voice as int].channel == 9 {
        e.pitch == HAT_CLOSED || e.pitch == HAT_OPEN
    } else {
        in_scale(key, scale, e.pitch as int) && e.pitch <= 127
    }
}

/// Whether all notes are as they should be.
pub open spec fn history_notes(
    voices: Seq<VoiceView>,
    key: Key,
    scale: Scale,
    end: int,
    notes: Seq<NoteEvent>,
) -> bool {
    forall|i: int|
        0 <= i < notes.len() ==> history_note(voices, key, scale, end, #[trigger] notes[i])
}

/// Whether a theme moves in the register around the center of a piece.
spec fn theme_in_register(f: Frame, t: ThemeView) -> bool {
    let center = steps_of(f.key, f.scale, f.center_midi);
    let span = (scale_len(f.scale) * 3) / 2;
    &&& theme_wf(t)
    &&& t.lo == center - span
    &&& t.hi == center + span
    &&& notes_between(t.notes, t.lo, t.hi)
}

/// Whether the global choices of a piece are those of a history.
spec fn frame_ok(f: Frame) -> bool {
    &&& f.key.root < 12
    &&& 36 <= f.center_midi <= 84
    &&& forall|i: int|
        0 <= i < f.commits.len() ==> (#[trigger] f.commits[i]).author_id < f.authors.len()
}

proof fn lemma_bar_of_register(t: ThemeView, bar: int)
    requires
        theme_wf(t),
        notes_between(t.notes, t.lo, t.hi),
    ensures
        bar_within(bar_view(t.notes, bar), t.lo, t.hi),
{
    let kept = notes_of_bar(t.notes, bar);
    let view = bar_view(t.notes, bar);
    assert forall|i: int| 0 <= i < view.len() implies t.lo <= (#[trigger] view[i]).1 <= t.hi by {
        lemma_kept(t.notes, bar, i);
        let j = t.notes.index_of(kept[i]);
        assert(t.notes[j] == kept[i]);
    }
}

proof fn lemma_kept(notes: Seq<ThemeNote>, bar: int, i: int)
    requires
        0 <= i < notes_of_bar(notes, bar).len(),
    ensures
        notes.contains(notes_of_bar(notes, bar)[i]),
    decreases notes.len(),
{
    reveal(Seq::filter);
    let rest = notes.drop_last();
    let kept = notes_of_bar(notes, bar);
    let before = notes_of_bar(rest, bar);
    if i < before.len() {
        lemma_kept(rest, bar, i);
        let j = rest.index_of(before[i]);
        assert(notes[j] == before[i]);
    } else {
        assert(kept[i] == notes[notes.len() - 1]);
    }
}

/// A bar of a theme in the register of a piece, played in a melodic voice.
proof fn lemma_theme_bar(
    f: Frame,
    t: ThemeView,
    bar: int,
    start: int,
    voice: usize,
    d: nat,
    state: u64,
    end: int,
)
    requires
        frame_ok(f),
        theme_in_register(f, t),
        voice < history_voices(f.authors).len(),
        history_voices(f.authors)[voice as int].channel != 9,
        0 <= start,
        on_bar(start),
        start + BAR <= end <= u32::MAX,
    ensures
        history_notes(
            history_voices(f.authors),
            f.key,
            f.scale,
            end,
            bar_played(bar_view(t.notes, bar), start, voice, f.key, f.scale, d, state),
        ),
        bar_played(bar_view(t.notes, bar), start, voice, f.key, f.scale, d, state).len() <= 16,
{
    lemma_bar_view(t, bar);
    lemma_bar_of_register(t, bar);
    assert forall|s: int| t.lo - 2 <= s <= t.hi + 2 implies 0 <= #[trigger] pitch_of(
        f.key,
        f.scale,
        s,
    ) <= 127 by {
        lemma_register(f.key, f.scale, f.center_midi, s);
    }
    let entries = bar_view(t.notes, bar);
    lemma_bar_played(entries, start, voice, f.key, f.scale, d, state);
    lemma_bar_in_tune(entries, start, voice, f.key, f.scale, d, state, t.lo, t.hi);
    let notes = bar_played(entries, start, voice, f.key, f.scale, d, state);
    assert forall|i: int| 0 <= i < notes.len() implies history_note(
        history_voices(f.authors),
        f.key,
        f.scale,
        end,
        #[trigger] notes[i],
    ) by {
        lemma_whole_grid(notes[i], start);
    }
}

/// The tonic of the low octave, and a pitch near the center, are in the scale.
proof fn lemma_single_notes(f: Frame, by: int)
    requires
        f.key.root < 12,
        36 <= f.center_midi <= 84,
        -7 <= by <= 7,
    ensures
        in_scale(f.key, f.scale, 36 + f.key.root),
        in_scale(f.key, f.scale, moved_pitch(f.key, f.scale, f.center_midi, by) as int),
        moved_pitch(f.key, f.scale, f.center_midi, by) <= 127,
{
    let s = steps_of(f.key, f.scale, f.center_midi) + by;
    lemma_register(f.key, f.scale, f.center_midi, s);
    lemma_pitch_in_scale(f.key, f.scale, s);
    assert(crate::model::scale_degrees(f.scale)[0] == 0);
}

/// A commit adds notes that are as they should be, and its theme stays in the register.
proof fn lemma_commit_notes(f: Frame, p: Piece, i: int, end: int)
    requires
        frame_ok(f),
        0 <= i < f.commits.len(),
        theme_in_register(f, p.theme),
        p.tempo_map.len() > 0,
        0 <= p.tick,
        on_bar(p.tick),
        commit_played(f, p, i).tick <= end <= u32::MAX,
        history_notes(history_voices(f.authors), f.key, f.scale, end, p.notes),
    ensures
        theme_in_register(f, commit_played(f, p, i).theme),
        on_bar(commit_played(f, p, i).tick),
        history_notes(
            history_voices(f.authors),
            f.key,
            f.scale,
            end,
            commit_played(f, p, i).notes,
        ),
        commit_played(f, p, i).notes.len() <= p.notes.len() + 18,
{
    let voices = history_voices(f.authors);
    let c = f.commits[i];
    lemma_voices(f.authors);
    lemma_single_notes(f, -7);
    lemma_commit_played(f, p, i);
    lemma_bars_on(p.tick, 1);
    lemma_bars_on(p.tick, 2);
    lemma_operator_count(c.diff_magnitude as nat, c.diff_magnitude as nat);
    lemma_mutated(
        p.theme,
        child_seed(c.hash, "mutation"@),
        operator_count(c.diff_magnitude as nat) as nat,
    );
    let p0 = breath_taken(f, p, i);
    assert(history_notes(voices, f.key, f.scale, end, p0.notes)) by {
        assert forall|j: int| 0 <= j < p0.notes.len() implies history_note(
            voices,
            f.key,
            f.scale,
            end,
            #[trigger] p0.notes[j],
        ) by {
            if j < p.notes.len() {
                assert(p0.notes[j] == p.notes[j]);
            } else {
                lemma_bar_note(p0.notes[j], 16);
            }
        }
    }
    let p1 = tempo_set(f, p0, i);
    let p2 = Piece { theme: theme_after(p1.theme, c), ..p1 };
    let more = commit_notes(f, p2, i);
    let voice = author_voice(f.authors, c.author_id as int);
    assert(1 <= voice < voices.len());
    assert(voices[voice].channel == 9 <==> f.authors[c.author_id as int].is_bot);
    if f.authors[c.author_id as int].is_bot {
        lemma_hats_played(
            p2.tick,
            voice as usize,
            c.diff_magnitude as nat,
            child_seed(c.hash, "bar"@),
        );
        assert forall|j: int| 0 <= j < more.len() implies history_note(
            voices,
            f.key,
            f.scale,
            end,
            #[trigger] more[j],
        ) by {
            lemma_whole_grid(more[j], p2.tick);
        }
    } else {
        lemma_theme_bar(
            f,
            p2.theme,
            i % p2.theme.bars as int,
            p2.tick,
            voice as usize,
            c.diff_magnitude as nat,
            child_seed(c.hash, "bar"@),
            end,
        );
    }
    let p3 = Piece { notes: p2.notes + more, ..p2 };
    assert(history_notes(voices, f.key, f.scale, end, p3.notes)) by {
        assert forall|j: int| 0 <= j < p3.notes.len() implies history_note(
            voices,
            f.key,
            f.scale,
            end,
            #[trigger] p3.notes[j],
        ) by {
            if j < p2.notes.len() {
                assert(p3.notes[j] == p0.notes[j]);
            } else {
                assert(p3.notes[j] == more[j - p2.notes.len()]);
                assert(history_note(voices, f.key, f.scale, end, more[j - p2.notes.len()]));
            }
        }
    }
    let p4 = merge_marked(f, p3, c);
    assert forall|j: int| 0 <= j < p4.notes.len() implies history_note(
        voices,
        f.key,
        f.scale,
        end,
        #[trigger] p4.notes[j],
    ) by {
        if j < p3.notes.len() {
            assert(p4.notes[j] == p3.notes[j]);
        } else {
            lemma_bar_note(p4.notes[j], 8);
        }
    }
}

proof fn lemma_commits_notes(f: Frame, p: Piece, k: int, end: int)
    requires
        frame_ok(f),
        0 <= k <= f.commits.len(),
        theme_in_register(f, p.theme),
        p.tempo_map.len() > 0,
        0 <= p.tick,
        on_bar(p.tick),
        commits_played(f, p, k).tick <= end <= u32::MAX,
        history_notes(history_voices(f.authors), f.key, f.scale, end, p.notes),
    ensures
        theme_in_register(f, commits_played(f, p, k).theme),
        on_bar(commits_played(f, p, k).tick),
        history_notes(
            history_voices(f.authors),
            f.key,
            f.scale,
            end,
            commits_played(f, p, k).notes,
        ),
        commits_played(f, p, k).notes.len() <= p.notes.len() + 18 * k,
    decreases k,
{
    if k > 0 {
        lemma_commits_played(f, p, k - 1);
        lemma_commit_played(f, commits_played(f, p, k - 1), k - 1);
        lemma_breath_count(f.commits, 0, k - 1);
        lemma_commits_notes(f, p, k - 1, end);
        lemma_commit_notes(f, commits_played(f, p, k - 1), k - 1, end);
    }
}

proof fn lemma_exposition_notes(f: Frame, seed: u64, t: ThemeView, b: int, end: int)
    requires
        frame_ok(f),
        theme_in_register(f, t),
        0 <= b,
        b * BAR <= end <= u32::MAX,
    ensures
        history_notes(
            history_voices(f.authors),
            f.key,
            f.scale,
            end,
            exposition(seed, t, f.key, f.scale, b),
        ),
        exposition(seed, t, f.key, f.scale, b).len() <= 16 * b,
    decreases b,
{
    if b > 0 {
        let start = (b - 1) * BAR;
        let state = child_seed(seed, "expo"@);
        let entries = bar_view(t.notes, b - 1);
        lemma_exposition_notes(f, seed, t, b - 1, end);
        assert(on_bar(0)) by {
            reveal(on_bar);
        }
        lemma_bars_on(0, b - 1);
        lemma_voices(f.authors);
        lemma_bar_view(t, b - 1);
        lemma_bar_of_register(t, b - 1);
        lemma_bar_events(entries, start, 0, f.key, f.scale, 0, state);
        lemma_bar_size(entries);
        let before = exposition(seed, t, f.key, f.scale, b - 1);
        let all = exposition(seed, t, f.key, f.scale, b);
        let more = bar_events(entries, start, 0, f.key, f.scale, 0, state);
        assert forall|j: int| 0 <= j < all.len() implies history_note(
            history_voices(f.authors),
            f.key,
            f.scale,
            end,
            #[trigger] all[j],
        ) by {
            if j < before.len() {
                assert(all[j] == before[j]);
            } else {
                let i = j - before.len();
                assert(all[j] == more[i]);
                lemma_whole_grid(more[i], start);
                assert(t.lo <= entries[i].1 <= t.hi);
                lemma_register(f.key, f.scale, f.center_midi, entries[i].1 as int);
                lemma_pitch_in_scale(f.key, f.scale, entries[i].1 as int);
            }
        }
    }
}

proof fn lemma_frame(
    seed: u64,
    commits: Seq<CommitView>,
    authors: Seq<AuthorView>,
    params: ComposeParams,
)
    requires
        history_fits(seed, commits, authors),
    ensures
        frame_ok(frame_of(seed, commits, authors, params)),
        theme_in_register(
            frame_of(seed, commits, authors, params),
            subject_of(seed, frame_of(seed, commits, authors, params)),
        ),
        2 <= subject_of(seed, frame_of(seed, commits, authors, params)).bars <= 4,
{
    let f = frame_of(seed, commits, authors, params);
    lemma_globals(seed, params);
    lemma_draw_below(globals(seed, params).state, 8);
    lemma_subject(child_seed(seed, "subject"@), f.key, f.scale, f.center_midi);
    lemma_subject_span(child_seed(seed, "subject"@), f.key, f.scale, f.center_midi);
}

/// Notes that are as they should be stay so with the closing bar, and when they are sorted.
proof fn lemma_closed(f: Frame, notes: Seq<NoteEvent>, tick: int, end: int)
    requires
        frame_ok(f),
        on_bar(tick),
        0 <= tick,
        tick + BAR <= end <= u32::MAX,
        history_notes(history_voices(f.authors), f.key, f.scale, end, notes),
    ensures
        history_notes(
            history_voices(f.authors),
            f.key,
            f.scale,
            end,
            sorted(notes + closing(f, tick)),
        ),
{
    let voices = history_voices(f.authors);
    let last = closing(f, tick);
    let all = notes + last;
    lemma_voices(f.authors);
    lemma_single_notes(f, 0);
    lemma_bar_note(last[0], 16);
    lemma_bar_note(last[1], 16);
    assert(history_note(voices, f.key, f.scale, end, last[0]));
    assert(history_note(voices, f.key, f.scale, end, last[1]));
    assert forall|j: int| 0 <= j < sorted(all).len() implies history_note(
        voices,
        f.key,
        f.scale,
        end,
        #[trigger] sorted(all)[j],
    ) by {
        lemma_sorted_holds(all, sorted(all)[j]);
        let i = all.index_of(sorted(all)[j]);
        if i < notes.len() {
            assert(all[i] == notes[i]);
        } else {
            assert(all[i] == last[i - notes.len()]);
        }
    }
}

/// A history piece ends with the bar behind its last commit.
pub proof fn lemma_history_end(
    seed: u64,
    branch: Seq<char>,
    commits: Seq<CommitView>,
    authors: Seq<AuthorView>,
    total_commits: u32,
    params: ComposeParams,
)
    requires
        history_fits(seed, commits, authors),
    ensures
        ({
            let f = frame_of(seed, commits, authors, params);
            let o = opening(seed, branch, f, total_commits);
            let p = commits_played(f, o, commits.len() as int);
            let end = history_length(seed, commits) * BAR;
            &&& p.tick + BAR == end <= u32::MAX
            &&& 0 <= o.tick <= p.tick
        }),
{
    let f = frame_of(seed, commits, authors, params);
    let o = opening(seed, branch, f, total_commits);
    let n = commits.len() as int;
    lemma_frame(seed, commits, authors, params);
    lemma_commits_played(f, o, n);
    lemma_breath_count(commits, 0, n);
    lemma_draw_below(child_seed(seed, "subject"@), 3);
}

/// The exposition and the bars of the commits are as they should be.
proof fn lemma_history_body(
    seed: u64,
    branch: Seq<char>,
    f: Frame,
    total_commits: u32,
    end: int,
)
    requires
        frame_ok(f),
        theme_in_register(f, subject_of(seed, f)),
        subject_of(seed, f).bars <= 4,
        opening(seed, branch, f, total_commits).tick <= end,
        commits_played(
            f,
            opening(seed, branch, f, total_commits),
            f.commits.len() as int,
        ).tick <= end <= u32::MAX,
    ensures
        ({
            let o = opening(seed, branch, f, total_commits);
            let p = commits_played(f, o, f.commits.len() as int);
            &&& on_bar(p.tick)
            &&& history_notes(history_voices(f.authors), f.key, f.scale, end, p.notes)
            &&& p.notes.len() <= 64 + 18 * f.commits.len()
        }),
{
    let t = subject_of(seed, f);
    let o = opening(seed, branch, f, total_commits);
    assert(on_bar(0)) by {
        reveal(on_bar);
    }
    lemma_bars_on(0, t.bars as int);
    assert(o.tick == 0 + t.bars * BAR);
    lemma_exposition_notes(f, seed, t, t.bars as int, end);
    lemma_commits_notes(f, o, f.commits.len() as int, end);
}

/// Every note of a history piece sounds in one of its voices, inside its bars and on the
/// grid of sixteenths. The melody stays in the scale, and what sounds on the percussion
/// channel are hi-hats. A bar has eighteen notes at most.
#[verifier::rlimit(30)]
pub proof fn lemma_history_in_tune(
    seed: u64,
    branch: Seq<char>,
    commits: Seq<CommitView>,
    authors: Seq<AuthorView>,
    total_commits: u32,
    params: ComposeParams,
)
    requires
        history_fits(seed, commits, authors),
    ensures
        ({
            let s = history_score(seed, branch, commits, authors, total_commits, params);
            history_notes(
                s.voices,
                s.key,
                s.scale,
                history_length(seed, commits) * BAR,
                s.events,
            ) && s.events.len() <= 18 * commits.len() + 66
        }),
{
    let f = frame_of(seed, commits, authors, params);
    let p = commits_played(f, opening(seed, branch, f, total_commits), commits.len() as int);
    let end = history_length(seed, commits) * BAR;
    lemma_history_end(seed, branch, commits, authors, total_commits, params);
    lemma_frame(seed, commits, authors, params);
    lemma_history_body(seed, branch, f, total_commits, end);
    lemma_closed(f, p.notes, p.tick, end);
    lemma_sorted_len(p.notes + closing(f, p.tick));
}

/// The foundation of a history piece is laid by the seed and the pinned choices alone: the
/// key, the scale, the base tempo, the subject and its exposition. New commits, by whomever,
/// do not touch it.
pub proof fn lemma_identity(
    seed: u64,
    params: ComposeParams,
    branch: Seq<char>,
    commits: Seq<CommitView>,
    authors: Seq<AuthorView>,
    total_commits: u32,
    other_branch: Seq<char>,
    other_commits: Seq<CommitView>,
    other_authors: Seq<AuthorView>,
    other_total: u32,
)
    ensures
        ({
            let a = history_score(seed, branch, commits, authors, total_commits, params);
            let b = history_score(
                seed,
                other_branch,
                other_commits,
                other_authors,
                other_total,
                params,
            );
            let f = frame_of(seed, commits, authors, params);
            let g = frame_of(seed, other_commits, other_authors, params);
            &&& a.key == b.key
            &&& a.scale == b.scale
            &&& a.bpm_base == b.bpm_base
            &&& a.seed == b.seed
            &&& subject_of(seed, f) == subject_of(seed, g)
            &&& opening(seed, branch, f, total_commits).notes == opening(
                seed,
                other_branch,
                g,
                other_total,
            ).notes
        }),
{
}

/// New commits extend a history piece: what the theme has become after the first `k`
/// commits depends on them and on the subject, and on nothing that comes later.
pub proof fn lemma_theme_extends(f: Frame, p: Piece, g: Frame, q: Piece, k: int)
    requires
        p.theme == q.theme,
        forall|i: int| 0 <= i < k ==> f.commits[i] == g.commits[i],
    ensures
        commits_played(f, p, k).theme == commits_played(g, q, k).theme,
    decreases k,
{
    if k > 0 {
        lemma_theme_extends(f, p, g, q, k - 1);
    }
}

/// The tempo of a commit lies within fifteen per cent of the base tempo, rounded down, and
/// never below thirty beats a minute.
pub proof fn lemma_local_tempo(base: u16, gap: Option<int>, median: int)
    requires
        30 <= base <= 56987,
    ensures
        base * 85 / 100 <= local_tempo(base, gap, median) <= base * 115 / 100,
        30 <= local_tempo(base, gap, median) <= u16::MAX,
{
}

/// Whether the tempos of a piece follow one another and stay near the base.
pub open spec fn tempos_near(tempos: Seq<(u32, u16)>, base: u16, end: int) -> bool {
    &&& tempos.len() > 0
    &&& tempos[0] == (0u32, base)
    &&& forall|i: int|
        0 <= i < tempos.len() ==> base * 85 / 100 <= (#[trigger] tempos[i]).1 <= base * 115 / 100
            && tempos[i].0 < end && tempos[i].1 >= 30
    &&& forall|i: int, j: int|
        0 <= i < j < tempos.len() ==> (#[trigger] tempos[i]).0 < (#[trigger] tempos[j]).0
}

proof fn lemma_commits_tempo(f: Frame, p: Piece, k: int)
    requires
        30 <= f.bpm <= 56987,
        0 <= k,
        theme_wf(p.theme),
        0 < p.tick,
        tempos_near(p.tempo_map, f.bpm, p.tick),
        commits_played(f, p, k).tick <= u32::MAX,
    ensures
        tempos_near(commits_played(f, p, k).tempo_map, f.bpm, commits_played(f, p, k).tick),
    decreases k,
{
    if k > 0 {
        let b = commits_played(f, p, k - 1);
        lemma_commits_played(f, p, k - 1);
        lemma_commit_played(f, b, k - 1);
        lemma_breath_count(f.commits, 0, k - 1);
        lemma_commits_tempo(f, p, k - 1);
        let gap = if k - 1 > 0 {
            Some(crate::compose_history::gap_after(f.commits, k - 2))
        } else {
            None
        };
        lemma_local_tempo(f.bpm, gap, crate::compose_history::median_gap(f.commits));
        let now = commits_played(f, p, k);
        assert forall|i: int| 0 <= i < now.tempo_map.len() implies f.bpm * 85 / 100 <= (
        #[trigger] now.tempo_map[i]).1 <= f.bpm * 115 / 100 && now.tempo_map[i].0 < now.tick
            && now.tempo_map[i].1 >= 30 by {
            if i < b.tempo_map.len() {
                assert(now.tempo_map[i] == b.tempo_map[i]);
            }
        }
        assert forall|i: int, j: int| 0 <= i < j < now.tempo_map.len() implies (
        #[trigger] now.tempo_map[i]).0 < (#[trigger] now.tempo_map[j]).0 by {
            assert(now.tempo_map[i] == b.tempo_map[i]);
            if j < b.tempo_map.len() {
                assert(now.tempo_map[j] == b.tempo_map[j]);
            }
        }
    }
}

/// The tempo of a history piece starts at the base, changes at rising ticks, and stays within
/// fifteen per cent of the base.
pub proof fn lemma_history_tempo(
    seed: u64,
    branch: Seq<char>,
    commits: Seq<CommitView>,
    authors: Seq<AuthorView>,
    total_commits: u32,
    params: ComposeParams,
)
    requires
        history_fits(seed, commits, authors),
        30 <= globals(seed, params).bpm <= 56987,
    ensures
        ({
            let s = history_score(seed, branch, commits, authors, total_commits, params);
            tempos_near(s.tempo_map, s.bpm_base, history_length(seed, commits) * BAR)
        }),
{
    let f = frame_of(seed, commits, authors, params);
    let o = opening(seed, branch, f, total_commits);
    let n = commits.len() as int;
    lemma_frame(seed, commits, authors, params);
    lemma_commits_played(f, o, n);
    lemma_breath_count(commits, 0, n);
    lemma_draw_below(child_seed(seed, "subject"@), 3);
    lemma_commits_tempo(f, o, n);
}

/// A history piece can be written down.
pub proof fn lemma_history_renderable(
    seed: u64,
    branch: Seq<char>,
    commits: Seq<CommitView>,
    authors: Seq<AuthorView>,
    total_commits: u32,
    params: ComposeParams,
)
    requires
        history_fits(seed, commits, authors),
        30 <= globals(seed, params).bpm <= 56987,
    ensures
        renderable(history_score(seed, branch, commits, authors, total_commits, params)),
{
    let s = history_score(seed, branch, commits, authors, total_commits, params);
    lemma_history_tempo(seed, branch, commits, authors, total_commits, params);
    lemma_history_in_tune(seed, branch, commits, authors, total_commits, params);
    assert forall|i: int| 0 <= i < s.tempo_map.len() implies (#[trigger] s.tempo_map[i]).1 > 0
        && tempo_before(s.tempo_map, i) <= s.tempo_map[i].0 by {
        if i > 0 {
            assert(s.tempo_map[i - 1].0 < s.tempo_map[i].0);
        }
    }
    assert forall|i: int|
        0 <= i < s.events.len() && (#[trigger] s.events[i]).voice < s.voices.len() implies note_end(
        s.events[i],
    ) <= u32::MAX by {
        assert(history_note(
            s.voices,
            s.key,
            s.scale,
            history_length(seed, commits) * BAR,
            s.events[i],
        ));
    }
}

/// Whether a note of the static mode is as it should be: in one of the voices, inside a
/// piece that ends at the tick `end`, and on the grid of sixteenths. The drone, which is the
/// last voice, is in the scale; the melody is in the scale or in the minor pentatonic that
/// tension borrows, or beside it.
pub open spec fn static_note(
    voices: Seq<VoiceView>,
    key: Key,
    scale: Scale,
    end: int,
    e: NoteEvent,
) -> bool {
    &&& e.voice < voices.len()
    &&& e.dur > 0
    &&& e.start + e.dur <= end
    &&& on_grid(e, 0)
    &&& 20 <= e.velocity <= 115
    &&& e.pitch <= 127
    &&& if e.voice == voices.len() - 1 {
        in_scale(key, scale, e.pitch as int)
    } else {
        near_scale(key, scale, e.pitch as int) || near_scale(
            key,
            Scale::MinorPentatonic,
            e.pitch as int,
        )
    }
}

/// Whether all notes are as they should be.
pub open spec fn static_notes(
    voices: Seq<VoiceView>,
    key: Key,
    scale: Scale,
    end: int,
    notes: Seq<NoteEvent>,
) -> bool {
    forall|i: int|
        0 <= i < notes.len() ==> static_note(voices, key, scale, end, #[trigger] notes[i])
}

proof fn lemma_lang_number(lang: Lang) -> (r: int)
    ensures
        0 <= r < 10,
        lang_at(r) == lang,
{
    match lang {
        Lang::Systems => 0,
        Lang::Python => 1,
        Lang::JsTs => 2,
        Lang::Go => 3,
        Lang::Jvm => 4,
        Lang::Markup => 5,
        Lang::Docs => 6,
        Lang::Config => 7,
        Lang::Shell => 8,
        Lang::Other => 9,
    }
}

proof fn lemma_voice_of_lang(langs: Seq<Lang>, lang: Lang, from: int, at: int)
    requires
        0 <= from <= at < langs.len(),
        langs[at] == lang,
    ensures
        from <= voice_of_lang(langs, lang, from) <= at,
    decreases at - from,
{
    if langs[from] != lang {
        lemma_voice_of_lang(langs, lang, from + 1, at);
    }
}

/// Whether the plans of a static piece are of the piece's units.
spec fn plans_ok(f: StaticFrame) -> bool {
    &&& f.key.root < 12
    &&& f.langs == used_langs(f.plans, f.units, 10)
    &&& forall|s: int| 0 <= s < f.plans.len() ==> phrases_wf(#[trigger] f.plans[s], f.units)
}

/// The family of a phrase has a voice.
proof fn lemma_phrase_voice(f: StaticFrame, s: int, k: int)
    requires
        plans_ok(f),
        0 <= s < f.plans.len(),
        0 <= k < f.plans[s].len(),
    ensures
        0 <= voice_of_lang(
            f.langs,
            f.units[f.plans[s][k].unit as int].language,
            0,
        ) < f.langs.len() <= 10,
{
    let lang = f.units[f.plans[s][k].unit as int].language;
    let r = lemma_lang_number(lang);
    assert(lang_in(f.plans[s], f.units, lang));
    assert(lang_used(f.plans, f.units, lang_at(r)));
    lemma_used_langs(f.plans, f.units, 10);
    let at = f.langs.index_of(lang);
    assert(f.langs.contains(lang));
    lemma_voice_of_lang(f.langs, lang, 0, at);
}

proof fn lemma_phrases_notes(f: StaticFrame, p: StaticPiece, s: int, k: int, end: int)
    requires
        plans_ok(f),
        0 <= s < f.plans.len(),
        0 <= k <= f.plans[s].len(),
        0 <= p.tick,
        on_bar(p.tick),
        p.tick + bars_sum(f.plans[s].take(k)) * BAR <= end <= u32::MAX,
        static_notes(static_voices(f.langs), f.key, f.scale, end, p.notes),
    ensures
        static_notes(
            static_voices(f.langs),
            f.key,
            f.scale,
            end,
            phrases_played(f, p, s, k).notes,
        ),
        phrases_played(f, p, s, k).notes.len() <= p.notes.len() + 30 * bars_sum(
            f.plans[s].take(k),
        ),
    decreases k,
{
    assert(f.plans[s].take(0) =~= Seq::<PhraseSpec>::empty());
    if k > 0 {
        let list = f.plans[s];
        assert(list.take(k).drop_last() =~= list.take(k - 1));
        lemma_phrases_played(f, p, s, k - 1);
        lemma_bars_nonneg(list, k - 1);
        let phrase = list[k - 1];
        assert(list.take(k).last() == phrase);
        assert(phrases_wf(list, f.units) && phrase_wf(phrase, f.units));
        lemma_bars_on(p.tick, bars_sum(list.take(k - 1)));
        lemma_phrases_notes(f, p, s, k - 1, end);
        lemma_phrase_voice(f, s, k - 1);
        let before = phrases_played(f, p, s, k - 1);
        let unit = f.units[phrase.unit as int];
        let func = unit.functions[phrase.func as int];
        let state = child_key_seed(
            section_seed(f.seed, f.sections[s].name),
            unit.ident_hash ^ func.name_hash,
        );
        let voice = voice_of_lang(f.langs, unit.language, 0) as usize;
        assert(1 <= phrase.bars <= 4);
        lemma_phrase_notes(
            state,
            f.key,
            f.scale,
            unit,
            func,
            phrase.bars as int,
            before.tick,
            voice,
        );
        let more = phrase_notes(
            state,
            f.key,
            f.scale,
            unit,
            func,
            phrase.bars as int,
            before.tick,
            voice,
        );
        let now = phrases_played(f, p, s, k);
        assert(now.notes == before.notes + more);
        let m = motif_of(func, phrase.bars as int, before.tick, voice);
        assert forall|j: int| 0 <= j < now.notes.len() implies static_note(
            static_voices(f.langs),
            f.key,
            f.scale,
            end,
            #[trigger] now.notes[j],
        ) by {
            if j < before.notes.len() {
                assert(now.notes[j] == before.notes[j]);
            } else {
                let e = more[j - before.notes.len()];
                assert(now.notes[j] == e);
                assert(phrase_note(m, f.key, phrase_scale(f.scale, tension(func.nesting)), e));
                lemma_whole_grid(e, before.tick);
            }
        }
    }
}

#[verifier::rlimit(30)]
proof fn lemma_sections_notes(f: StaticFrame, s: int, end: int)
    requires
        plans_ok(f),
        0 <= s <= f.plans.len(),
        played_bars(f.plans, s) * BAR <= end <= u32::MAX,
    ensures
        static_notes(
            static_voices(f.langs),
            f.key,
            f.scale,
            end,
            sections_played(f, s).notes,
        ),
        sections_played(f, s).notes.len() <= 30 * played_bars(f.plans, s),
    decreases s,
{
    if s > 0 {
        lemma_played_bars(f.plans, s - 1, s);
        lemma_sections_notes(f, s - 1, end);
        lemma_sections_played(f, s - 1);
        lemma_sections_played(f, s);
        let before = sections_played(f, s - 1);
        let p = transition_made(before, s - 1);
        let n = f.plans[s - 1].len() as int;
        assert(on_bar(0)) by {
            reveal(on_bar);
        }
        lemma_bars_on(0, played_bars(f.plans, s - 1));
        assert(before.tick == 0 + played_bars(f.plans, s - 1) * BAR);
        lemma_bars_on(before.tick, 1);
        assert(on_bar(p.tick));
        assert(f.plans[s - 1].take(n) =~= f.plans[s - 1]);
        lemma_bars_nonneg(f.plans[s - 1], n);
        assert(p.notes == before.notes);
        assert(p.tick + bars_sum(f.plans[s - 1]) * BAR == played_bars(f.plans, s) * BAR);
        lemma_phrases_notes(f, p, s - 1, n, end);
        assert(sections_played(f, s).notes == phrases_played(f, p, s - 1, n).notes);
    }
}

/// The transitions stand where bars begin.
proof fn lemma_transitions_on_bars(f: StaticFrame, s: int)
    requires
        0 <= s <= f.plans.len(),
        played_bars(f.plans, s) * BAR <= u32::MAX,
    ensures
        forall|i: int|
            0 <= i < sections_played(f, s).transitions.len() ==> on_bar(
                #[trigger] sections_played(f, s).transitions[i] as int,
            ),
    decreases s,
{
    if s > 0 {
        lemma_played_bars(f.plans, s - 1, s);
        lemma_transitions_on_bars(f, s - 1);
        lemma_sections_played(f, s - 1);
        let before = sections_played(f, s - 1);
        let p = transition_made(before, s - 1);
        lemma_phrases_played(f, p, s - 1, f.plans[s - 1].len() as int);
        assert(on_bar(0)) by {
            reveal(on_bar);
        }
        lemma_bars_on(0, played_bars(f.plans, s - 1));
        let now = sections_played(f, s);
        assert forall|i: int| 0 <= i < now.transitions.len() implies on_bar(
            #[trigger] now.transitions[i] as int,
        ) by {
            if i < before.transitions.len() {
                assert(now.transitions[i] == before.transitions[i]);
            } else {
                assert(now.transitions[i] == before.tick as u32);
            }
        }
    }
}

proof fn lemma_plans(seed: u64, units: Seq<UnitView>, params: ComposeParams)
    requires
        static_fits(seed, units, params),
        units_valid(units),
    ensures
        plans_ok(static_frame(seed, units, params)),
{
    let f = static_frame(seed, units, params);
    lemma_globals(seed, params);
    let t = target_bars(seed, params);
    assert(0 <= t <= u32::MAX) by {
        let d = duration_of(seed, params);
        if params.duration_secs is None {
            lemma_draw_below(globals(seed, params).state, 91);
        }
        assert(d * globals(seed, params).bpm >= 0) by (nonlinear_arith)
            requires
                d >= 0,
                globals(seed, params).bpm >= 0,
        ;
    }
    assert forall|s: int| 0 <= s < f.plans.len() implies phrases_wf(
        #[trigger] f.plans[s],
        f.units,
    ) by {
        lemma_sections_wf(units, t, s);
        lemma_planned(f.sections[s], units);
    }
}

/// Every note of a static piece sounds in one of its voices, inside its bars and on the grid
/// of sixteenths, and in or beside the scale; and no bar has more than thirty-two of them.
pub proof fn lemma_static_in_tune(seed: u64, units: Seq<UnitView>, params: ComposeParams)
    requires
        static_fits(seed, units, params),
        units_valid(units),
    ensures
        ({
            let s = static_score(seed, units, params);
            let f = static_frame(seed, units, params);
            let bars = played_bars(f.plans, f.sections.len() as int);
            &&& static_notes(s.voices, s.key, s.scale, bars * BAR, s.events)
            &&& s.events.len() <= 32 * bars
        }),
{
    let f = static_frame(seed, units, params);
    let n = f.sections.len() as int;
    let bars = played_bars(f.plans, n);
    let end = bars * BAR;
    let voices = static_voices(f.langs);
    lemma_plans(seed, units, params);
    lemma_played_bars(f.plans, 0, n);
    lemma_sections_notes(f, n, end);
    lemma_sections_played(f, n);
    lemma_used_langs(f.plans, f.units, 10);
    let p = sections_played(f, n);
    assert(p.tick == end);
    lemma_transitions_on_bars(f, n);
    assert(on_bar(0)) by {
        reveal(on_bar);
    }
    lemma_bars_on(0, bars);
    let voice = f.langs.len() as usize;
    lemma_drone_notes(f.key, p.tick, p.transitions, voice, 0);
    let drone = drone_from(f.key, p.tick, p.transitions, voice, 0);
    assert(drone.len() <= 2 * bars);
    let all = p.notes + drone;
    let s = static_score(seed, units, params);
    lemma_sorted_len(all);
    assert forall|j: int| 0 <= j < sorted(all).len() implies static_note(
        voices,
        f.key,
        f.scale,
        end,
        #[trigger] sorted(all)[j],
    ) by {
        lemma_sorted_holds(all, sorted(all)[j]);
        let i = all.index_of(sorted(all)[j]);
        if i < p.notes.len() {
            assert(all[i] == p.notes[i]);
        } else {
            assert(all[i] == drone[i - p.notes.len()]);
            lemma_drone_in_scale(f.key, f.scale);
        }
    }
}

/// The root and the fifth are in every scale.
proof fn lemma_drone_in_scale(key: Key, scale: Scale)
    requires
        key.root < 12,
    ensures
        in_scale(key, scale, 36 + key.root),
        in_scale(key, scale, 43 + key.root),
{
    let degrees = crate::model::scale_degrees(scale);
    assert(degrees[0] == 0);
    match scale {
        Scale::MajorPentatonic => {
            assert(degrees[3] == 7);
        },
        Scale::MinorPentatonic => {
            assert(degrees[3] == 7);
        },
        Scale::Dorian => {
            assert(degrees[4] == 7);
        },
        Scale::Aeolian => {
            assert(degrees[4] == 7);
        },
    }
}

/// A static piece can be written down, unless its tempo is pinned to zero.
pub proof fn lemma_static_renderable(seed: u64, units: Seq<UnitView>, params: ComposeParams)
    requires
        static_fits(seed, units, params),
        units_valid(units),
        globals(seed, params).bpm > 0,
    ensures
        renderable(static_score(seed, units, params)),
{
    let s = static_score(seed, units, params);
    let f = static_frame(seed, units, params);
    let bars = played_bars(f.plans, f.sections.len() as int);
    lemma_static_in_tune(seed, units, params);
    assert forall|i: int|
        0 <= i < s.events.len() && (#[trigger] s.events[i]).voice < s.voices.len() implies note_end(
        s.events[i],
    ) <= u32::MAX by {
        assert(static_note(s.voices, s.key, s.scale, bars * BAR, s.events[i]));
    }
}

proof fn lemma_history_names(authors: Seq<AuthorView>)
    ensures
        forall|v: int|
            0 <= v < history_voices(authors).len() ==> (#[trigger] history_voices(
                authors,
            )[v]).name.len() <= 20,
{
    reveal_strlit("anchor (cello)");
    reveal_strlit("string ensemble");
    reveal_strlit("hi-hat");
    assert forall|slot: int| (#[trigger] palette_name(slot)).len() <= 20 by {
        reveal_strlit("piano");
        reveal_strlit("marimba");
        reveal_strlit("electric piano");
        reveal_strlit("violin");
        reveal_strlit("flute");
        reveal_strlit("french horn");
        reveal_strlit("vibraphone");
        reveal_strlit("oboe");
        reveal_strlit("nylon guitar");
        reveal_strlit("harp");
    }
}

proof fn lemma_static_names(langs: Seq<Lang>)
    ensures
        forall|v: int|
            0 <= v < static_voices(langs).len() ==> (#[trigger] static_voices(langs)[v]).name.len()
                <= 20,
{
    reveal_strlit("drone");
    assert forall|lang: Lang| (#[trigger] instrument_of(lang)).len() <= 20 by {
        reveal_strlit("cello");
        reveal_strlit("piano");
        reveal_strlit("electric piano");
        reveal_strlit("marimba");
        reveal_strlit("french horn");
        reveal_strlit("warm pad");
        reveal_strlit("ambient pad");
        reveal_strlit("pizzicato strings");
        reveal_strlit("woodblock");
        reveal_strlit("nylon guitar");
    }
}

/// What is composed can be written: the score of a repository of ordinary size, in a tempo
/// that leaves room for fifteen per cent, goes into a file without an error.
#[verifier::rlimit(30)]
pub proof fn lemma_composed_is_written(model: RepoModel, params: ComposeParams)
    requires
        model_modest(model, params),
        params.bpm matches Some(b) ==> 30 <= b <= 56987,
        model matches RepoModel::Static { units, .. } ==> units_valid(views(units@)),
    ensures
        renderable(score_of(model, params)),
        fits_file(score_of(model, params)),
{
    match model {
        RepoModel::Static { seed, units } => {
            let all = views(units@);
            lemma_globals(seed, params);
            lemma_static_fits(seed, all, params);
            lemma_static_renderable(seed, all, params);
            lemma_static_in_tune(seed, all, params);
            lemma_static_bars(seed, all, params);
            let f = static_frame(seed, all, params);
            lemma_static_names(f.langs);
            lemma_used_langs(f.plans, f.units, 10);
        },
        RepoModel::History { identity_seed, branch, commits, authors, total_commits } => {
            let all = views(commits@);
            let people = views(authors@);
            lemma_globals(identity_seed, params);
            lemma_history_fits(identity_seed, all, people);
            lemma_history_renderable(identity_seed, branch@, all, people, total_commits, params);
            lemma_history_in_tune(identity_seed, branch@, all, people, total_commits, params);
            lemma_history_tempo(identity_seed, branch@, all, people, total_commits, params);
            lemma_tempo_count(identity_seed, branch@, all, people, total_commits, params);
            lemma_history_names(people);
            lemma_voices(people);
        },
    }
}

proof fn lemma_tempo_count(
    seed: u64,
    branch: Seq<char>,
    commits: Seq<CommitView>,
    authors: Seq<AuthorView>,
    total_commits: u32,
    params: ComposeParams,
)
    ensures
        history_score(seed, branch, commits, authors, total_commits, params).tempo_map.len()
            <= commits.len() + 1,
{
    let f = frame_of(seed, commits, authors, params);
    lemma_tempos_counted(f, opening(seed, branch, f, total_commits), commits.len() as int);
}

proof fn lemma_tempos_counted(f: Frame, p: Piece, k: int)
    requires
        0 <= k,
    ensures
        commits_played(f, p, k).tempo_map.len() <= p.tempo_map.len() + k,
    decreases k,
{
    if k > 0 {
        lemma_tempos_counted(f, p, k - 1);
    }
}

} // verus!
