//! The foundation of a history piece: it opens with its subject, note by note, and nothing
//! that comes later touches these bars.

use vstd::prelude::*;

use crate::compose::{globals, ComposeParams, BAR, SLOT};
use crate::compose_history::{
    breath_taken, closing, commit_notes, commit_played, commits_played, exposition, frame_of,
    history_fits, history_score, lemma_bar_view, lemma_breath_count, lemma_commit_played,
    lemma_commits_played, merge_marked, opening, subject_of, tempo_set, theme_after, Frame, Piece,
};
use crate::model::{AuthorView, CommitView, Key, NoteEvent, Scale, ScoreView};
use crate::playing::{bar_events, lemma_bar_played, lemma_hats_played};
use crate::rng::{child_seed, lemma_draw_below};
use crate::sorting::{
    in_order, lemma_sorted_behind, lemma_sorted_holds, lemma_sorted_len, sorted, Ranked,
};
use crate::theme::{
    bar_view, lemma_mutated, lemma_operator_count, lemma_subject, notes_of_bar, operator_count,
    rising_slots, theme_wf, ThemeNote, ThemeView,
};
use crate::theory::midi_of;

verus! {

/// How many notes stand before the sixteenth `limit`, when they stand in rising order.
spec fn notes_before(notes: Seq<ThemeNote>, limit: int) -> int
    decreases notes.len(),
{
    if notes.len() == 0 || notes.last().slot < limit {
        notes.len() as int
    } else {
        notes_before(notes.drop_last(), limit)
    }
}

proof fn lemma_notes_before(notes: Seq<ThemeNote>, limit: int)
    requires
        rising_slots(notes),
    ensures
        0 <= notes_before(notes, limit) <= notes.len(),
        forall|i: int|
            0 <= i < notes.len() ==> ((#[trigger] notes[i]).slot < limit <==> i < notes_before(
                notes,
                limit,
            )),
    decreases notes.len(),
{
    if notes.len() > 0 {
        let last = notes.len() - 1;
        if notes[last].slot < limit {
            assert forall|i: int| 0 <= i < notes.len() implies (#[trigger] notes[i]).slot
                < limit by {
                if i < last {
                    assert(notes[i].slot < notes[last].slot);
                }
            }
        } else {
            let rest = notes.drop_last();
            assert(rising_slots(rest)) by {
                assert forall|a: int, b: int| 0 <= a < b < rest.len() implies (
                #[trigger] rest[a]).slot < (#[trigger] rest[b]).slot by {
                    assert(notes[a].slot < notes[b].slot);
                }
            }
            lemma_notes_before(rest, limit);
            assert forall|i: int| 0 <= i < notes.len() implies ((#[trigger] notes[i]).slot < limit
                <==> i < notes_before(notes, limit)) by {
                if i < last {
                    assert(rest[i] == notes[i]);
                }
            }
        }
    }
}

/// The notes of a bar stand side by side.
proof fn lemma_bar_is_range(notes: Seq<ThemeNote>, bar: int, a: int, b: int)
    requires
        0 <= a <= b <= notes.len(),
        forall|i: int|
            0 <= i < notes.len() ==> (bar * 16 <= (#[trigger] notes[i]).slot < bar * 16 + 16
                <==> a <= i < b),
    ensures
        notes_of_bar(notes, bar) == notes.subrange(a, b),
    decreases notes.len(),
{
    reveal(Seq::filter);
    if notes.len() == 0 {
        assert(notes.subrange(a, b) =~= notes);
    } else {
        let rest = notes.drop_last();
        let n = notes.len() as int;
        assert(bar * 16 <= notes[n - 1].slot < bar * 16 + 16 <==> a <= n - 1 < b);
        assert forall|i: int| 0 <= i < rest.len() implies (bar * 16 <= (#[trigger] rest[i]).slot
            < bar * 16 + 16 <==> a <= i < b) by {
            assert(rest[i] == notes[i]);
        }
        if b == n && a < n {
            lemma_bar_is_range(rest, bar, a, n - 1);
            assert(notes.subrange(a, b) =~= rest.subrange(a, n - 1).push(notes.last()));
        } else if a == n {
            lemma_bar_is_range(rest, bar, n - 1, n - 1);
            assert(notes.subrange(a, b) =~= rest.subrange(n - 1, n - 1));
        } else {
            lemma_bar_is_range(rest, bar, a, b);
            assert(notes.subrange(a, b) =~= rest.subrange(a, b));
        }
    }
}

/// Whether an event states a note of a theme: the anchor plays it in its place, at its pitch.
pub open spec fn states(e: NoteEvent, n: ThemeNote, key: Key, scale: Scale) -> bool {
    &&& e.voice == 0
    &&& e.start == n.slot * SLOT
    &&& e.pitch == midi_of(key, scale, n.degree as int)
}

/// The exposition states the notes of the theme one by one.
pub proof fn lemma_exposition(seed: u64, t: ThemeView, key: Key, scale: Scale)
    requires
        theme_wf(t),
        t.bars * BAR <= u32::MAX,
    ensures
        ({
            let all = exposition(seed, t, key, scale, t.bars as int);
            &&& all.len() == t.notes.len()
            &&& forall|i: int|
                0 <= i < all.len() ==> states(#[trigger] all[i], t.notes[i], key, scale)
        }),
{
    let b = t.bars as int;
    lemma_bars_stated(seed, t, key, scale, b);
    lemma_notes_before(t.notes, b * 16);
    if t.notes.len() > 0 {
        assert(t.notes[t.notes.len() - 1].slot < b * 16);
    }
}

proof fn lemma_bars_stated(seed: u64, t: ThemeView, key: Key, scale: Scale, b: int)
    requires
        theme_wf(t),
        0 <= b <= t.bars,
        t.bars * BAR <= u32::MAX,
    ensures
        ({
            let all = exposition(seed, t, key, scale, b);
            &&& all.len() == notes_before(t.notes, b * 16)
            &&& forall|i: int|
                0 <= i < all.len() ==> states(#[trigger] all[i], t.notes[i], key, scale)
        }),
    decreases b,
{
    lemma_notes_before(t.notes, b * 16);
    if b == 0 {
        if notes_before(t.notes, 0) > 0 {
            assert(t.notes[0].slot < 0);
        }
    } else {
        lemma_bars_stated(seed, t, key, scale, b - 1);
        lemma_notes_before(t.notes, (b - 1) * 16);
        let before = exposition(seed, t, key, scale, b - 1);
        let all = exposition(seed, t, key, scale, b);
        let from = notes_before(t.notes, (b - 1) * 16);
        let to = notes_before(t.notes, b * 16);
        if from > to {
            assert(t.notes[to].slot < (b - 1) * 16);
        }
        lemma_bar_is_range(t.notes, b - 1, from, to);
        let entries = bar_view(t.notes, b - 1);
        let more = bar_events(
            entries,
            (b - 1) * BAR,
            0,
            key,
            scale,
            0,
            child_seed(seed, "expo"@),
        );
        assert forall|i: int| 0 <= i < all.len() implies states(
            #[trigger] all[i],
            t.notes[i],
            key,
            scale,
        ) by {
            if i < before.len() {
                assert(all[i] == before[i]);
            } else {
                let j = i - before.len();
                assert(all[i] == more[j]);
                assert(notes_of_bar(t.notes, b - 1)[j] == t.notes[i]);
                assert((b - 1) * 16 <= t.notes[i].slot < b * 16);
                assert(entries[j].0 == t.notes[i].slot - (b - 1) * 16);
            }
        }
    }
}

/// A commit adds notes behind those that are there, none before its bar.
pub proof fn lemma_commit_adds(f: Frame, p: Piece, i: int)
    requires
        theme_wf(p.theme),
        p.tempo_map.len() > 0,
        0 <= p.tick,
        commit_played(f, p, i).tick <= u32::MAX,
    ensures
        ({
            let q = commit_played(f, p, i).notes;
            &&& q.len() >= p.notes.len()
            &&& q.take(p.notes.len() as int) == p.notes
            &&& forall|j: int| p.notes.len() <= j < q.len() ==> (#[trigger] q[j]).start >= p.tick
        }),
{
    let c = f.commits[i];
    lemma_commit_played(f, p, i);
    lemma_operator_count(c.diff_magnitude as nat, c.diff_magnitude as nat);
    lemma_mutated(
        p.theme,
        child_seed(c.hash, "mutation"@),
        operator_count(c.diff_magnitude as nat) as nat,
    );
    let p0 = breath_taken(f, p, i);
    let p1 = tempo_set(f, p0, i);
    let p2 = Piece { theme: theme_after(p1.theme, c), ..p1 };
    let more = commit_notes(f, p2, i);
    let voice = crate::voices::author_voice(f.authors, c.author_id as int) as usize;
    let state = child_seed(c.hash, "bar"@);
    if f.authors[c.author_id as int].is_bot {
        lemma_hats_played(p2.tick, voice, c.diff_magnitude as nat, state);
    } else {
        let bar = i % p2.theme.bars as int;
        lemma_bar_view(p2.theme, bar);
        lemma_bar_played(
            bar_view(p2.theme.notes, bar),
            p2.tick,
            voice,
            f.key,
            f.scale,
            c.diff_magnitude as nat,
            state,
        );
    }
    let p3 = Piece { notes: p2.notes + more, ..p2 };
    let q = merge_marked(f, p3, c).notes;
    assert(q.take(p.notes.len() as int) =~= p.notes);
    assert forall|j: int| p.notes.len() <= j < q.len() implies (#[trigger] q[j]).start
        >= p.tick by {
        if j < p2.notes.len() {
            assert(q[j] == p0.notes[j]);
        } else if j < p3.notes.len() {
            assert(q[j] == more[j - p2.notes.len()]);
        }
    }
}

pub proof fn lemma_commits_add(f: Frame, p: Piece, k: int)
    requires
        theme_wf(p.theme),
        p.tempo_map.len() > 0,
        0 <= p.tick,
        0 <= k,
        commits_played(f, p, k).tick <= u32::MAX,
    ensures
        ({
            let q = commits_played(f, p, k).notes;
            &&& q.len() >= p.notes.len()
            &&& q.take(p.notes.len() as int) == p.notes
            &&& forall|j: int| p.notes.len() <= j < q.len() ==> (#[trigger] q[j]).start >= p.tick
        }),
    decreases k,
{
    if k > 0 {
        let b = commits_played(f, p, k - 1);
        let n = p.notes.len() as int;
        lemma_commits_played(f, p, k - 1);
        lemma_commit_played(f, b, k - 1);
        lemma_breath_count(f.commits, 0, k - 1);
        lemma_commits_add(f, p, k - 1);
        lemma_commit_adds(f, b, k - 1);
        let q = commits_played(f, p, k).notes;
        assert(q.take(n) =~= p.notes) by {
            assert forall|j: int| 0 <= j < n implies q[j] == p.notes[j] by {
                assert(q.take(b.notes.len() as int)[j] == q[j]);
                assert(b.notes.take(n)[j] == b.notes[j]);
            }
        }
        assert forall|j: int| n <= j < q.len() implies (#[trigger] q[j]).start >= p.tick by {
            if j < b.notes.len() {
                assert(q.take(b.notes.len() as int)[j] == q[j]);
            }
        }
    } else {
        assert(p.notes.take(p.notes.len() as int) =~= p.notes);
    }
}

/// Whether a score opens with the given notes: they are its first events, and all others
/// begin at the tick `end` or later.
pub open spec fn opens_with(s: ScoreView, notes: Seq<NoteEvent>, end: int) -> bool {
    &&& notes.len() <= s.events.len()
    &&& s.events.take(notes.len() as int) == notes
    &&& forall|i: int| 0 <= i < notes.len() ==> (#[trigger] notes[i]).start < end
    &&& forall|i: int| notes.len() <= i < s.events.len() ==> (#[trigger] s.events[i]).start >= end
}

/// The exposition stands in order, before the end of its bars.
pub proof fn lemma_exposition_in_order(seed: u64, t: ThemeView, key: Key, scale: Scale)
    requires
        theme_wf(t),
        t.bars * BAR <= u32::MAX,
    ensures
        in_order(exposition(seed, t, key, scale, t.bars as int)),
        forall|i: int|
            #![trigger exposition(seed, t, key, scale, t.bars as int)[i]]
            0 <= i < exposition(seed, t, key, scale, t.bars as int).len() ==> exposition(
                seed,
                t,
                key,
                scale,
                t.bars as int,
            )[i].start < t.bars * BAR,
{
    let first = exposition(seed, t, key, scale, t.bars as int);
    lemma_exposition(seed, t, key, scale);
    assert forall|i: int| 0 <= i < first.len() implies (#[trigger] first[i]).start < t.bars
        * BAR by {
        assert(states(first[i], t.notes[i], key, scale));
        assert(t.notes[i].slot < t.bars * 16);
    }
    assert forall|i: int, j: int| 0 <= i <= j < first.len() implies (#[trigger] first[i]).le(
        #[trigger] first[j],
    ) by {
        assert(states(first[i], t.notes[i], key, scale));
        assert(states(first[j], t.notes[j], key, scale));
        if i < j {
            assert(t.notes[i].slot < t.notes[j].slot);
        }
    }
}

/// The subject of a history piece, and the bars up to its end, are as they should be.
pub proof fn lemma_opening(
    seed: u64,
    branch: Seq<char>,
    commits: Seq<CommitView>,
    authors: Seq<AuthorView>,
    total_commits: u32,
    params: ComposeParams,
)
    requires
        history_fits(seed, commits, authors),
    ensures
        ({
            let f = frame_of(seed, commits, authors, params);
            let t = subject_of(seed, f);
            let o = opening(seed, branch, f, total_commits);
            let p = commits_played(f, o, commits.len() as int);
            &&& theme_wf(t)
            &&& 2 <= t.bars <= 4
            &&& o.tempo_map.len() > 0
            &&& t.bars * BAR == o.tick <= p.tick <= u32::MAX
        }),
{
    let f = frame_of(seed, commits, authors, params);
    let o = opening(seed, branch, f, total_commits);
    let n = commits.len() as int;
    lemma_draw_below(globals(seed, params).state, 8);
    crate::compose::lemma_globals(seed, params);
    lemma_subject(child_seed(seed, "subject"@), f.key, f.scale, f.center_midi);
    lemma_draw_below(child_seed(seed, "subject"@), 3);
    lemma_commits_played(f, o, n);
    lemma_breath_count(commits, 0, n);
}

/// Behind the notes of a piece `o`, all that its commits and the closing bar add begins at
/// its tick or later.
proof fn lemma_rest_later(f: Frame, o: Piece, k: int)
    requires
        theme_wf(o.theme),
        o.tempo_map.len() > 0,
        0 <= k,
        0 <= o.tick <= commits_played(f, o, k).tick <= u32::MAX,
    ensures
        ({
            let p = commits_played(f, o, k);
            let all = p.notes + closing(f, p.tick);
            let rest = all.skip(o.notes.len() as int);
            &&& all == o.notes + rest
            &&& forall|j: int| 0 <= j < rest.len() ==> (#[trigger] rest[j]).start >= o.tick
        }),
{
    let p = commits_played(f, o, k);
    let first = o.notes;
    let all = p.notes + closing(f, p.tick);
    let rest = all.skip(first.len() as int);
    lemma_commits_add(f, o, k);
    assert(all =~= first + rest) by {
        assert forall|j: int| 0 <= j < first.len() implies all[j] == first[j] by {
            assert(p.notes.take(first.len() as int)[j] == p.notes[j]);
        }
    }
    assert forall|j: int| 0 <= j < rest.len() implies (#[trigger] rest[j]).start >= o.tick by {
        let i = j + first.len();
        assert(rest[j] == all[i]);
        if i < p.notes.len() {
            assert(all[i] == p.notes[i]);
        }
    }
}

/// Notes in order before a tick stay in front of those behind it, when all are sorted.
proof fn lemma_sorted_front(first: Seq<NoteEvent>, rest: Seq<NoteEvent>, end: int)
    requires
        in_order(first),
        forall|i: int| 0 <= i < first.len() ==> (#[trigger] first[i]).start < end,
        forall|i: int| 0 <= i < rest.len() ==> (#[trigger] rest[i]).start >= end,
    ensures
        ({
            let events = sorted(first + rest);
            &&& first.len() <= events.len()
            &&& events.take(first.len() as int) == first
            &&& forall|i: int|
                first.len() <= i < events.len() ==> (#[trigger] events[i]).start >= end
        }),
{
    let events = sorted(first + rest);
    lemma_sorted_behind(first, rest);
    lemma_sorted_len(rest);
    assert(events.take(first.len() as int) =~= first);
    assert forall|i: int| first.len() <= i < events.len() implies (#[trigger] events[i]).start
        >= end by {
        let e = sorted(rest)[i - first.len()];
        assert(events[i] == e);
        lemma_sorted_holds(rest, e);
        let j = rest.index_of(e);
        assert(rest[j] == e);
    }
}

/// A history piece opens with the exposition of its subject, which ends where the bar of the
/// first commit begins.
#[verifier::rlimit(30)]
pub proof fn lemma_opens_with_exposition(
    seed: u64,
    branch: Seq<char>,
    commits: Seq<CommitView>,
    authors: Seq<AuthorView>,
    total_commits: u32,
    params: ComposeParams,
)
    requires
        history_fits(seed, commits, authors),
    ensures
        ({
            let f = frame_of(seed, commits, authors, params);
            let t = subject_of(seed, f);
            opens_with(
                history_score(seed, branch, commits, authors, total_commits, params),
                exposition(seed, t, f.key, f.scale, t.bars as int),
                t.bars * BAR,
            )
        }),
{
    let f = frame_of(seed, commits, authors, params);
    let t = subject_of(seed, f);
    let o = opening(seed, branch, f, total_commits);
    let n = commits.len() as int;
    let p = commits_played(f, o, n);
    let first = exposition(seed, t, f.key, f.scale, t.bars as int);
    let rest = (p.notes + closing(f, p.tick)).skip(first.len() as int);
    lemma_opening(seed, branch, commits, authors, total_commits, params);
    lemma_exposition_in_order(seed, t, f.key, f.scale);
    lemma_rest_later(f, o, n);
    lemma_sorted_front(first, rest, t.bars * BAR);
}

/// The exposition states the subject verbatim: the events before the bar of the first commit
/// are one for each note of the subject, in its order, played by the anchor in the note's
/// place and at its pitch.
pub proof fn lemma_subject_stated(
    seed: u64,
    branch: Seq<char>,
    commits: Seq<CommitView>,
    authors: Seq<AuthorView>,
    total_commits: u32,
    params: ComposeParams,
)
    requires
        history_fits(seed, commits, authors),
    ensures
        ({
            let s = history_score(seed, branch, commits, authors, total_commits, params);
            let t = subject_of(seed, frame_of(seed, commits, authors, params));
            &&& t.notes.len() <= s.events.len()
            &&& forall|i: int|
                0 <= i < t.notes.len() ==> states(
                    #[trigger] s.events[i],
                    t.notes[i],
                    s.key,
                    s.scale,
                ) && s.events[i].start < t.bars * BAR
            &&& forall|i: int|
                t.notes.len() <= i < s.events.len() ==> (#[trigger] s.events[i]).start >= t.bars
                    * BAR
        }),
{
    let f = frame_of(seed, commits, authors, params);
    let t = subject_of(seed, f);
    let s = history_score(seed, branch, commits, authors, total_commits, params);
    let first = exposition(seed, t, f.key, f.scale, t.bars as int);
    lemma_opens_with_exposition(seed, branch, commits, authors, total_commits, params);
    lemma_opening(seed, branch, commits, authors, total_commits, params);
    lemma_exposition(seed, t, f.key, f.scale);
    assert forall|i: int| 0 <= i < t.notes.len() implies states(
        #[trigger] s.events[i],
        t.notes[i],
        s.key,
        s.scale,
    ) && s.events[i].start < t.bars * BAR by {
        assert(s.events.take(first.len() as int)[i] == first[i]);
    }
}

/// New commits extend a history piece: whatever is committed, and by whomever, the events
/// before the bar of the first commit stay the same.
pub proof fn lemma_foundation_stays(
    seed: u64,
    params: ComposeParams,
    branch: Seq<char>,
    commits: Seq<CommitView>,
    authors: Seq<AuthorView>,
    total_commits: u32,
    other_branch: Seq<char>,
    other_commits: Seq<CommitView>,
    other_authors: Seq<AuthorView>,
    other_total: u32,
)
    requires
        history_fits(seed, commits, authors),
        history_fits(seed, other_commits, other_authors),
    ensures
        ({
            let a = history_score(seed, branch, commits, authors, total_commits, params);
            let b = history_score(
                seed,
                other_branch,
                other_commits,
                other_authors,
                other_total,
                params,
            );
            let t = subject_of(seed, frame_of(seed, commits, authors, params));
            let before = |e: NoteEvent| e.start < t.bars * BAR;
            a.events.filter(before) == b.events.filter(before)
        }),
{
    let f = frame_of(seed, commits, authors, params);
    let t = subject_of(seed, f);
    let first = exposition(seed, t, f.key, f.scale, t.bars as int);
    let end = t.bars * BAR;
    lemma_opens_with_exposition(seed, branch, commits, authors, total_commits, params);
    lemma_opens_with_exposition(
        seed,
        other_branch,
        other_commits,
        other_authors,
        other_total,
        params,
    );
    lemma_events_before(
        history_score(seed, branch, commits, authors, total_commits, params),
        first,
        end,
    );
    lemma_events_before(
        history_score(seed, other_branch, other_commits, other_authors, other_total, params),
        first,
        end,
    );
}

/// The events before a tick are the notes that a score opens with.
proof fn lemma_events_before(s: ScoreView, notes: Seq<NoteEvent>, end: int)
    requires
        opens_with(s, notes, end),
    ensures
        s.events.filter(|e: NoteEvent| e.start < end) == notes,
{
    let before = |e: NoteEvent| e.start < end;
    let n = notes.len() as int;
    lemma_filter_front(s.events, before, n);
    assert forall|i: int| 0 <= i < n implies #[trigger] s.events[i].start < end by {
        assert(s.events.take(n)[i] == notes[i]);
    }
}

proof fn lemma_filter_front<A>(s: Seq<A>, keep: spec_fn(A) -> bool, n: int)
    requires
        0 <= n <= s.len(),
    ensures
        (forall|i: int| 0 <= i < s.len() ==> (keep(#[trigger] s[i]) <==> i < n)) ==> s.filter(keep)
            == s.take(n),
    decreases s.len(),
{
    reveal(Seq::filter);
    if forall|i: int| 0 <= i < s.len() ==> (keep(#[trigger] s[i]) <==> i < n) {
        if s.len() == 0 {
            assert(s.take(n) =~= s);
        } else {
            let rest = s.drop_last();
            let m = if n < s.len() { n } else { n - 1 };
            assert forall|i: int| 0 <= i < rest.len() implies (keep(#[trigger] rest[i]) <==> i
                < m) by {
                assert(rest[i] == s[i]);
            }
            lemma_filter_front(rest, keep, m);
            assert(keep(s[s.len() - 1]) <==> s.len() - 1 < n);
            if n < s.len() {
                assert(s.take(n) =~= rest.take(m));
            } else {
                assert(s.take(n) =~= rest.take(m).push(s.last()));
            }
        }
    }
}

} // verus!
