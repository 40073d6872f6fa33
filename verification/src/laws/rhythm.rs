//! How the times of the commits shape a history piece: its bars, its breaths and its tempo.

use vstd::prelude::*;

use crate::compose::{ComposeParams, BAR};
use crate::compose_history::{
    breath_count, breath_taken, breathes, closing, commit_played, commits_played, frame_of,
    gap_after, history_fits, history_length, history_score, lemma_breath_count,
    lemma_commits_played, median_gap, opening, positive_gaps, tempo_set, Frame, Piece,
};
use crate::foundation::lemma_opening;
use crate::harmony::{history_note, lemma_history_end, lemma_history_in_tune};
use crate::laws::plain::{how_many, lemma_how_many_bounds, lemma_how_many_push};
use crate::model::{AuthorView, CommitView};
use crate::rng::child_seed;
use crate::sorting::{
    lemma_sorted_holds, lemma_sorted_in_order, lemma_sorted_len, placed, sorted, Ranked,
};
use crate::text::decimal;
use crate::theme::{subject_bars, theme_wf};
use crate::voices::{tail_commits, voice_lines};

verus! {

/// The seconds from each commit to the next; below zero where the clock ran backwards.
pub open spec fn pauses(commits: Seq<CommitView>) -> Seq<int> {
    Seq::new(
        (if commits.len() > 0 {
            commits.len() - 1
        } else {
            0
        }) as nat,
        |i: int| commits[i + 1].timestamp - commits[i].timestamp,
    )
}

/// Whether `m` is the upper median of the pauses that are above zero: it is one of them, not
/// more than half are smaller, and more than half are at most as large. It is 0 where there
/// are none.
pub open spec fn usual_pause(commits: Seq<CommitView>, m: int) -> bool {
    let all = pauses(commits);
    let count = how_many(all, |g: int| g > 0);
    if count == 0 {
        m == 0
    } else {
        &&& m > 0
        &&& exists|i: int| 0 <= i < all.len() && #[trigger] all[i] == m
        &&& how_many(all, |g: int| 0 < g < m) <= count / 2
        &&& count / 2 < how_many(all, |g: int| 0 < g <= m)
    }
}

/// Whether the pause before the commit `i` is a long one: over three days, and over eight
/// times the usual pause.
pub open spec fn after_long_pause(commits: Seq<CommitView>, i: int) -> bool {
    &&& i > 0
    &&& commits[i].timestamp - commits[i - 1].timestamp > 259_200
    &&& exists|m: int| #[trigger]
        usual_pause(commits, m) && m > 0 && commits[i].timestamp - commits[i - 1].timestamp > 8
            * m
}

/// How many of the first `k` commits come after a long pause.
pub open spec fn long_pauses(commits: Seq<CommitView>, k: int) -> int
    decreases k,
{
    if k <= 0 {
        0
    } else if after_long_pause(commits, k - 1) {
        long_pauses(commits, k - 1) + 1
    } else {
        long_pauses(commits, k - 1)
    }
}

/// The tick at which the bar of the commit `i` starts: behind the bars of the subject, one
/// bar for each commit before it, and one for each long pause up to it.
pub open spec fn bar_start(seed: u64, commits: Seq<CommitView>, i: int) -> int {
    1920 * (subject_bars(child_seed(seed, "subject"@)) + i + long_pauses(commits, i + 1))
}

proof fn lemma_placed_count<V: Ranked>(s: Seq<V>, x: V, meets: spec_fn(V) -> bool)
    ensures
        how_many(placed(s, x), meets) == how_many(s, meets) + if meets(x) {
            1int
        } else {
            0
        },
    decreases s.len(),
{
    if s.len() == 0 || s.last().le(x) {
        lemma_how_many_push(s, x, meets);
    } else {
        lemma_placed_count(s.drop_last(), x, meets);
        lemma_how_many_push(placed(s.drop_last(), x), s.last(), meets);
        lemma_how_many_push(s.drop_last(), s.last(), meets);
        assert(s.drop_last().push(s.last()) =~= s);
    }
}

/// Sorting neither adds nor takes anything.
pub proof fn lemma_sorted_count<V: Ranked>(s: Seq<V>, meets: spec_fn(V) -> bool)
    ensures
        how_many(sorted(s), meets) == how_many(s, meets),
    decreases s.len(),
{
    if s.len() > 0 {
        lemma_sorted_count(s.drop_last(), meets);
        lemma_placed_count(sorted(s.drop_last()), s.last(), meets);
        lemma_how_many_push(s.drop_last(), s.last(), meets);
        assert(s.drop_last().push(s.last()) =~= s);
    }
}

proof fn lemma_counted_back(
    commits: Seq<CommitView>,
    k: int,
    over: spec_fn(u64) -> bool,
    of: spec_fn(int) -> bool,
)
    requires
        0 <= k < commits.len(),
        forall|g: int| #[trigger] of(g) <==> 0 < g <= u64::MAX && over(g as u64),
    ensures
        how_many(positive_gaps(commits, k), over) == how_many(pauses(commits).take(k), of),
    decreases k,
{
    let all = pauses(commits);
    if k > 0 {
        lemma_counted_back(commits, k - 1, over, of);
        let g = all[k - 1];
        assert(g == commits[k].timestamp - commits[k - 1].timestamp);
        lemma_how_many_push(all.take(k - 1), g, of);
        assert(all.take(k) =~= all.take(k - 1).push(g));
        assert(of(g) <==> 0 < g <= u64::MAX && over(g as u64));
        if g > 0 {
            lemma_how_many_push(positive_gaps(commits, k - 1), g as u64, over);
        }
    } else {
        assert(all.take(0).len() == 0);
    }
}

proof fn lemma_gap_there(commits: Seq<CommitView>, k: int, j: int) -> (i: int)
    requires
        0 <= k < commits.len(),
        0 <= j < positive_gaps(commits, k).len(),
    ensures
        0 <= i < k,
        pauses(commits)[i] == positive_gaps(commits, k)[j],
        positive_gaps(commits, k)[j] > 0,
    decreases k,
{
    let before = positive_gaps(commits, k - 1);
    if j < before.len() {
        lemma_gap_there(commits, k - 1, j)
    } else {
        k - 1
    }
}

proof fn lemma_all_counted(s: Seq<u64>, meets: spec_fn(u64) -> bool)
    requires
        forall|i: int| 0 <= i < s.len() ==> meets(#[trigger] s[i]),
    ensures
        how_many(s, meets) == s.len(),
    decreases s.len(),
{
    if s.len() > 0 {
        assert(meets(s[0]));
        assert forall|i: int| 0 <= i < s.drop_first().len() implies meets(
            #[trigger] s.drop_first()[i],
        ) by {
            assert(meets(s[i + 1]));
        }
        lemma_all_counted(s.drop_first(), meets);
    }
}

/// In a list in order, at most `k` values are smaller than the one at `k`, and more than `k`
/// are at most as large.
proof fn lemma_in_the_middle(s: Seq<u64>, k: int)
    requires
        0 <= k < s.len(),
        forall|i: int, j: int| 0 <= i <= j < s.len() ==> s[i] <= s[j],
    ensures
        how_many(s, |g: u64| g < s[k]) <= k,
        how_many(s, |g: u64| g <= s[k]) > k,
    decreases k,
{
    let m = s[k];
    let less = |g: u64| g < s[k];
    let most = |g: u64| g <= s[k];
    lemma_how_many_bounds(s.drop_first(), most);
    if k == 0 {
        lemma_none_counted(s, less);
    } else {
        let t = s.drop_first();
        assert forall|i: int, j: int| 0 <= i <= j < t.len() implies t[i] <= t[j] by {
            assert(s[i + 1] <= s[j + 1]);
        }
        lemma_in_the_middle(t, k - 1);
        assert(t[k - 1] == m);
        assert(less =~= (|g: u64| g < t[k - 1]));
        assert(most =~= (|g: u64| g <= t[k - 1]));
    }
}

proof fn lemma_none_counted(s: Seq<u64>, meets: spec_fn(u64) -> bool)
    requires
        forall|i: int| 0 <= i < s.len() ==> !meets(#[trigger] s[i]),
    ensures
        how_many(s, meets) == 0,
    decreases s.len(),
{
    if s.len() > 0 {
        assert(!meets(s[0]));
        assert forall|i: int| 0 <= i < s.drop_first().len() implies !meets(
            #[trigger] s.drop_first()[i],
        ) by {
            assert(!meets(s[i + 1]));
        }
        lemma_none_counted(s.drop_first(), meets);
    }
}

/// The median that gaps are compared with is the upper median of the pauses above zero.
pub proof fn lemma_usual_pause(commits: Seq<CommitView>)
    requires
        commits.len() > 0,
    ensures
        usual_pause(commits, median_gap(commits)),
{
    let k = commits.len() - 1;
    let gaps = positive_gaps(commits, k);
    let s = sorted(gaps);
    let all = pauses(commits);
    let m = median_gap(commits);
    assert(all.take(k) =~= all);
    lemma_sorted_len(gaps);
    let any = |g: u64| true;
    lemma_counted_back(commits, k, any, |g: int| g > 0 && g <= u64::MAX);
    lemma_all_counted(gaps, any);
    lemma_bounded_counts(commits);
    let count = how_many(all, |g: int| g > 0);
    assert(count == gaps.len());
    if count > 0 {
        let mid = s.len() as int / 2;
        lemma_sorted_in_order(gaps);
        assert forall|i: int, j: int| 0 <= i <= j < s.len() implies s[i] <= s[j] by {
            assert(s[i].le(s[j]));
        }
        lemma_in_the_middle(s, mid);
        let less = |g: u64| g < s[mid];
        let most = |g: u64| g <= s[mid];
        lemma_sorted_count(gaps, less);
        lemma_sorted_count(gaps, most);
        lemma_counted_back(commits, k, less, |g: int| 0 < g < m);
        lemma_counted_back(commits, k, most, |g: int| 0 < g <= m);
        lemma_sorted_holds(gaps, s[mid]);
        assert(s.contains(s[mid]));
        let j = choose|j: int| 0 <= j < gaps.len() && gaps[j] == s[mid];
        let i = lemma_gap_there(commits, k, j);
        assert(all[i] == m);
    }
}

proof fn lemma_bounded_counts(commits: Seq<CommitView>)
    requires
        commits.len() > 0,
    ensures
        how_many(pauses(commits), |g: int| g > 0) == how_many(
            pauses(commits),
            |g: int| g > 0 && g <= u64::MAX,
        ),
{
    let all = pauses(commits);
    assert forall|i: int| 0 <= i < all.len() implies #[trigger] all[i] <= u64::MAX by {}
    lemma_same_count(all, |g: int| g > 0, |g: int| g > 0 && g <= u64::MAX);
}

proof fn lemma_same_count(s: Seq<int>, a: spec_fn(int) -> bool, b: spec_fn(int) -> bool)
    requires
        forall|i: int| 0 <= i < s.len() ==> a(#[trigger] s[i]) == b(s[i]),
    ensures
        how_many(s, a) == how_many(s, b),
    decreases s.len(),
{
    if s.len() > 0 {
        assert(a(s[0]) == b(s[0]));
        assert forall|i: int| 0 <= i < s.drop_first().len() implies a(
            #[trigger] s.drop_first()[i],
        ) == b(s.drop_first()[i]) by {
            assert(a(s[i + 1]) == b(s[i + 1]));
        }
        lemma_same_count(s.drop_first(), a, b);
    }
}

proof fn lemma_count_grows(s: Seq<int>, a: spec_fn(int) -> bool, b: spec_fn(int) -> bool)
    requires
        forall|g: int| #[trigger] a(g) ==> b(g),
    ensures
        how_many(s, a) <= how_many(s, b),
    decreases s.len(),
{
    if s.len() > 0 {
        lemma_count_grows(s.drop_first(), a, b);
        assert(a(s[0]) ==> b(s[0]));
    }
}

/// There is one usual pause.
pub proof fn lemma_one_usual_pause(commits: Seq<CommitView>, a: int, b: int)
    requires
        usual_pause(commits, a),
        usual_pause(commits, b),
    ensures
        a == b,
{
    let all = pauses(commits);
    if a < b {
        lemma_count_grows(all, |g: int| 0 < g <= a, |g: int| 0 < g < b);
    } else if b < a {
        lemma_count_grows(all, |g: int| 0 < g <= b, |g: int| 0 < g < a);
    }
}

pub proof fn lemma_long(commits: Seq<CommitView>, i: int)
    requires
        0 <= i < commits.len(),
    ensures
        breathes(commits, i) <==> after_long_pause(commits, i),
{
    let m = median_gap(commits);
    lemma_usual_pause(commits);
    if breathes(commits, i) {
        assert(usual_pause(commits, m));
    }
    if after_long_pause(commits, i) {
        let n = choose|n: int| #[trigger]
            usual_pause(commits, n) && n > 0 && commits[i].timestamp - commits[i - 1].timestamp > 8
                * n;
        lemma_one_usual_pause(commits, m, n);
    }
}

proof fn lemma_long_count(commits: Seq<CommitView>, k: int)
    requires
        0 <= k <= commits.len(),
    ensures
        breath_count(commits, k) == long_pauses(commits, k),
        0 <= long_pauses(commits, k) <= k,
    decreases k,
{
    if k > 0 {
        lemma_long_count(commits, k - 1);
        lemma_long(commits, k - 1);
    }
}

/// A history piece ends with the closing bar, which stands behind the subject, one bar for
/// each commit and one for each long pause: every note is over by its end, and the anchor
/// holds two notes from its start to its end.
#[verifier::rlimit(30)]
pub proof fn lemma_history_ends(
    seed: u64,
    branch: Seq<char>,
    commits: Seq<CommitView>,
    authors: Seq<AuthorView>,
    total_commits: u32,
    params: ComposeParams,
)
    requires
        history_fits(seed, commits, authors),
    ensures
        ({
            let s = history_score(seed, branch, commits, authors, total_commits, params);
            let n = commits.len() as int;
            let close = 1920 * (subject_bars(child_seed(seed, "subject"@)) + n + long_pauses(
                commits,
                n,
            ));
            &&& forall|i: int|
                0 <= i < s.events.len() ==> (#[trigger] s.events[i]).start + s.events[i].dur
                    <= close + 1920
            &&& exists|i: int|
                0 <= i < s.events.len() && (#[trigger] s.events[i]).voice == 0
                    && s.events[i].start == close && s.events[i].dur == 1920
                    && s.events[i].velocity == 54
            &&& exists|i: int|
                0 <= i < s.events.len() && (#[trigger] s.events[i]).voice == 0
                    && s.events[i].start == close && s.events[i].dur == 1920
                    && s.events[i].velocity == 46 && s.events[i].pitch == 36 + s.key.root
        }),
{
    let s = history_score(seed, branch, commits, authors, total_commits, params);
    let n = commits.len() as int;
    let f = frame_of(seed, commits, authors, params);
    let p = commits_played(f, opening(seed, branch, f, total_commits), n);
    lemma_long_count(commits, n);
    lemma_history_end(seed, branch, commits, authors, total_commits, params);
    lemma_history_in_tune(seed, branch, commits, authors, total_commits, params);
    crate::compose::lemma_globals(seed, params);
    let close = 1920 * (subject_bars(child_seed(seed, "subject"@)) + n + long_pauses(commits, n));
    assert(p.tick == close);
    assert forall|i: int| 0 <= i < s.events.len() implies (#[trigger] s.events[i]).start
        + s.events[i].dur <= close + 1920 by {
        assert(history_note(
            s.voices,
            s.key,
            s.scale,
            history_length(seed, commits) * BAR,
            s.events[i],
        ));
    }
    let all = p.notes + closing(f, p.tick);
    let a = closing(f, p.tick)[0];
    let b = closing(f, p.tick)[1];
    assert(all[p.notes.len() as int] == a && all[p.notes.len() as int + 1] == b);
    assert(all.contains(a) && all.contains(b));
    lemma_sorted_holds(all, a);
    lemma_sorted_holds(all, b);
    let i = choose|i: int| 0 <= i < s.events.len() && s.events[i] == a;
    assert(s.events[i].voice == 0);
    let j = choose|j: int| 0 <= j < s.events.len() && s.events[j] == b;
    assert(s.events[j].voice == 0);
}

proof fn lemma_no_long_pause(commits: Seq<CommitView>, k: int)
    requires
        0 <= k <= commits.len(),
        forall|i: int|
            0 < i < commits.len() ==> (#[trigger] commits[i]).timestamp - commits[i - 1].timestamp
                <= 259_200,
    ensures
        long_pauses(commits, k) == 0,
    decreases k,
{
    if k > 0 {
        lemma_no_long_pause(commits, k - 1);
        if k > 1 {
            assert(commits[k - 1].timestamp - commits[k - 2].timestamp <= 259_200);
        }
    }
}

/// What the liner notes say behind their first lines: for each commit the breath before it,
/// if it comes after a long pause, with the days that went by, and its merge, if it is one;
/// each with the number of its bar.
pub open spec fn told(seed: u64, commits: Seq<CommitView>, k: int) -> Seq<Seq<char>>
    decreases k,
{
    if k <= 0 {
        seq![]
    } else {
        let bar = bar_start(seed, commits, k - 1) / 1920;
        let c = commits[k - 1];
        let breath = if after_long_pause(commits, k - 1) {
            seq![
                "bar "@ + decimal(bar as nat) + ": "@ + decimal(
                    ((c.timestamp - commits[k - 2].timestamp) / 86_400) as nat,
                ) + "-day gap, breath"@,
            ]
        } else {
            seq![]
        };
        let merge = if c.is_merge {
            seq!["bar "@ + decimal((bar + 1) as nat) + ": merge "@ + c.short]
        } else {
            seq![]
        };
        told(seed, commits, k - 1) + breath + merge
    }
}

pub proof fn lemma_bar_ticks(
    seed: u64,
    branch: Seq<char>,
    commits: Seq<CommitView>,
    authors: Seq<AuthorView>,
    total_commits: u32,
    params: ComposeParams,
    i: int,
)
    requires
        history_fits(seed, commits, authors),
        0 <= i < commits.len(),
    ensures
        ({
            let f = frame_of(seed, commits, authors, params);
            let o = opening(seed, branch, f, total_commits);
            let p = commits_played(f, o, i);
            let q = commits_played(f, o, i + 1);
            &&& theme_wf(p.theme)
            &&& p.tempo_map.len() > 0
            &&& 0 <= p.tick
            &&& breath_taken(f, p, i).tick == bar_start(seed, commits, i)
            &&& q.tick == bar_start(seed, commits, i) + 1920
            &&& p.tick == bar_start(seed, commits, i) - if after_long_pause(commits, i) {
                1920int
            } else {
                0
            }
            &&& q.tick <= u32::MAX
        }),
{
    let f = frame_of(seed, commits, authors, params);
    let o = opening(seed, branch, f, total_commits);
    let n = commits.len() as int;
    lemma_opening(seed, branch, commits, authors, total_commits, params);
    lemma_history_end(seed, branch, commits, authors, total_commits, params);
    lemma_commits_played(f, o, i);
    lemma_commits_played(f, o, i + 1);
    lemma_commits_played(f, o, n);
    lemma_breath_count(commits, 0, i);
    lemma_breath_count(commits, i + 1, n);
    lemma_long_count(commits, i);
    lemma_long_count(commits, i + 1);
    lemma_long(commits, i);
    crate::rng::lemma_draw_below(child_seed(seed, "subject"@), 3);
}

/// The line about a breath in a bar.
spec fn breath_line(bar: int, days: int) -> Seq<char> {
    "bar "@ + decimal(bar as nat) + ": "@ + decimal(days as nat) + "-day gap, breath"@
}

/// The line about a merge in a bar.
spec fn merge_line(bar: int, short: Seq<char>) -> Seq<char> {
    "bar "@ + decimal(bar as nat) + ": merge "@ + short
}

proof fn lemma_lines_of_commit(f: Frame, p: Piece, i: int)
    requires
        p.tick >= 0,
    ensures
        ({
            let start = breath_taken(f, p, i).tick;
            let breath = if breathes(f.commits, i) {
                seq![
                    breath_line(p.tick / 1920 + 1, gap_after(f.commits, i - 1) / 86_400),
                ]
            } else {
                seq![]
            };
            let merge = if f.commits[i].is_merge {
                seq![merge_line(start / 1920 + 1, f.commits[i].short)]
            } else {
                seq![]
            };
            commit_played(f, p, i).liner == p.liner + breath + merge
        }),
{
    let b = breath_taken(f, p, i);
    assert(tempo_set(f, b, i).liner == b.liner);
    assert(tempo_set(f, b, i).tick == b.tick);
    if breathes(f.commits, i) {
        let line = breath_line(p.tick / 1920 + 1, gap_after(f.commits, i - 1) / 86_400);
        assert(b.liner =~= p.liner + seq![line]);
    } else {
        assert(b.liner =~= p.liner + seq![]);
    }
    if f.commits[i].is_merge {
        let line = merge_line(b.tick / 1920 + 1, f.commits[i].short);
        assert(b.liner.push(line) =~= b.liner + seq![line]);
    } else {
        assert(b.liner =~= b.liner + seq![]);
    }
}

proof fn lemma_told(
    seed: u64,
    branch: Seq<char>,
    commits: Seq<CommitView>,
    authors: Seq<AuthorView>,
    total_commits: u32,
    params: ComposeParams,
    k: int,
)
    requires
        history_fits(seed, commits, authors),
        0 <= k <= commits.len(),
    ensures
        ({
            let f = frame_of(seed, commits, authors, params);
            let o = opening(seed, branch, f, total_commits);
            commits_played(f, o, k).liner == o.liner + told(seed, commits, k)
        }),
    decreases k,
{
    let f = frame_of(seed, commits, authors, params);
    let o = opening(seed, branch, f, total_commits);
    if k > 0 {
        lemma_told(seed, branch, commits, authors, total_commits, params, k - 1);
        lemma_bar_ticks(seed, branch, commits, authors, total_commits, params, k - 1);
        lemma_long(commits, k - 1);
        let p = commits_played(f, o, k - 1);
        lemma_lines_of_commit(f, p, k - 1);
        let start = bar_start(seed, commits, k - 1);
        lemma_told_step(seed, commits, k, p.tick, o.liner);
    } else {
        assert(o.liner + told(seed, commits, 0) =~= o.liner);
    }
}

proof fn lemma_told_step(
    seed: u64,
    commits: Seq<CommitView>,
    k: int,
    tick: int,
    front: Seq<Seq<char>>,
)
    requires
        0 < k <= commits.len(),
        breathes(commits, k - 1) == after_long_pause(commits, k - 1),
        tick == bar_start(seed, commits, k - 1) - if after_long_pause(commits, k - 1) {
            1920int
        } else {
            0
        },
    ensures
        ({
            let start = bar_start(seed, commits, k - 1);
            let breath = if breathes(commits, k - 1) {
                seq![breath_line(tick / 1920 + 1, gap_after(commits, k - 2) / 86_400)]
            } else {
                seq![]
            };
            let merge = if commits[k - 1].is_merge {
                seq![merge_line(start / 1920 + 1, commits[k - 1].short)]
            } else {
                seq![]
            };
            front + told(seed, commits, k) == (front + told(seed, commits, k - 1)) + breath
                + merge
        }),
{
    let start = bar_start(seed, commits, k - 1);
    let bars = subject_bars(child_seed(seed, "subject"@)) + k - 1 + long_pauses(commits, k);
    assert(start / 1920 == bars && (start - 1920) / 1920 == bars - 1);
    let breath = if breathes(commits, k - 1) {
        seq![breath_line(tick / 1920 + 1, gap_after(commits, k - 2) / 86_400)]
    } else {
        seq![]
    };
    let merge = if commits[k - 1].is_merge {
        seq![merge_line(start / 1920 + 1, commits[k - 1].short)]
    } else {
        seq![]
    };
    assert(told(seed, commits, k) == told(seed, commits, k - 1) + breath + merge);
    assert(front + told(seed, commits, k) =~= (front + told(seed, commits, k - 1)) + breath
        + merge);
}

/// How many commits of the log some bars stand for.
pub open spec fn stands_for(commits: Seq<CommitView>) -> int
    decreases commits.len(),
{
    if commits.len() == 0 {
        0
    } else {
        commits[0].folded + stands_for(commits.drop_first())
    }
}

proof fn lemma_stands_for_push(commits: Seq<CommitView>, c: CommitView)
    ensures
        stands_for(commits.push(c)) == stands_for(commits) + c.folded,
    decreases commits.len(),
{
    let t = commits.push(c);
    if commits.len() == 0 {
        assert(t.drop_first() =~= commits);
    } else {
        lemma_stands_for_push(commits.drop_first(), c);
        assert(t.drop_first() =~= commits.drop_first().push(c));
    }
}

proof fn lemma_stands_for(commits: Seq<CommitView>, k: int)
    requires
        0 <= k <= commits.len(),
    ensures
        crate::compose_history::folded_sum(commits, k) == stands_for(commits.take(k)),
    decreases k,
{
    if k > 0 {
        lemma_stands_for(commits, k - 1);
        lemma_stands_for_push(commits.take(k - 1), commits[k - 1]);
        assert(commits.take(k) =~= commits.take(k - 1).push(commits[k - 1]));
    } else {
        assert(commits.take(0).len() == 0);
    }
}

/// The liner notes of a history: the choices, the commits, the players and the subject, then
/// what happened on the way.
pub proof fn lemma_liner_of_history(
    seed: u64,
    branch: Seq<char>,
    commits: Seq<CommitView>,
    authors: Seq<AuthorView>,
    total_commits: u32,
    params: ComposeParams,
)
    requires
        history_fits(seed, commits, authors),
    ensures
        ({
            let s = history_score(seed, branch, commits, authors, total_commits, params);
            let first = 3 + voice_lines(authors).len() as int;
            &&& s.liner_notes.len() >= first
            &&& s.liner_notes.skip(first) == told(seed, commits, commits.len() as int)
            &&& s.liner_notes.subrange(2, first - 1) == voice_lines(authors)
            &&& s.liner_notes[0] == "key: "@ + crate::model::key_name(s.key.root) + " "@
                + crate::model::scale_name(s.scale) + "  bpm: "@ + decimal(s.bpm_base as nat)
                + "  (identity from root commit)"@
            &&& (forall|i: int| 0 <= i < commits.len() ==> (#[trigger] commits[i]).folded <= 1)
                ==> s.liner_notes[1] == "range: "@ + decimal(commits.len())
                + " first-parent commits on "@ + branch + " (of "@ + decimal(total_commits as nat)
                + " total)"@
            &&& (exists|i: int| 0 <= i < commits.len() && (#[trigger] commits[i]).folded > 1)
                ==> s.liner_notes[1] == "range: "@ + decimal(stands_for(commits) as nat)
                + " first-parent commits on "@ + branch + " compressed into "@ + decimal(
                commits.len(),
            ) + " bars (of "@ + decimal(total_commits as nat) + " total)"@
            &&& s.liner_notes[first - 1] == "subject: "@ + decimal(
                subject_bars(child_seed(seed, "subject"@)) as nat,
            ) + " bars, stated by anchor"@
        }),
{
    let s = history_score(seed, branch, commits, authors, total_commits, params);
    let f = frame_of(seed, commits, authors, params);
    let o = opening(seed, branch, f, total_commits);
    let first = 3 + voice_lines(authors).len() as int;
    lemma_told(seed, branch, commits, authors, total_commits, params, commits.len() as int);
    crate::rng::lemma_draw_below(child_seed(seed, "subject"@), 3);
    lemma_stands_for(commits, commits.len() as int);
    assert(commits.take(commits.len() as int) =~= commits);
    assert(s.liner_notes[1] == crate::compose_history::range_line(
        branch,
        commits,
        total_commits,
    ));
    assert(s.liner_notes.skip(first) =~= told(seed, commits, commits.len() as int));
    assert(s.liner_notes.subrange(2, first - 1) =~= voice_lines(authors));
}

proof fn lemma_only_merges(seed: u64, commits: Seq<CommitView>, k: int)
    requires
        0 <= k <= commits.len(),
        forall|i: int|
            0 < i < commits.len() ==> (#[trigger] commits[i]).timestamp - commits[i - 1].timestamp
                <= 259_200,
    ensures
        told(seed, commits, k).len() == how_many(commits.take(k), |c: CommitView| c.is_merge),
    decreases k,
{
    let merges = |c: CommitView| c.is_merge;
    if k > 0 {
        lemma_only_merges(seed, commits, k - 1);
        lemma_how_many_push(commits.take(k - 1), commits[k - 1], merges);
        assert(commits.take(k) =~= commits.take(k - 1).push(commits[k - 1]));
        if k > 1 {
            assert(commits[k - 1].timestamp - commits[k - 2].timestamp <= 259_200);
        }
    } else {
        assert(commits.take(0).len() == 0);
    }
}

/// A pause of three days or less never adds a bar. Where every pause is such, the piece ends
/// after the bars of the subject, one bar for each commit and the closing one, and the liner
/// notes tell of the merges and of no breath.
pub proof fn lemma_short_pauses(
    seed: u64,
    branch: Seq<char>,
    commits: Seq<CommitView>,
    authors: Seq<AuthorView>,
    total_commits: u32,
    params: ComposeParams,
)
    requires
        history_fits(seed, commits, authors),
        forall|i: int|
            0 < i < commits.len() ==> (#[trigger] commits[i]).timestamp - commits[i - 1].timestamp
                <= 259_200,
    ensures
        ({
            let s = history_score(seed, branch, commits, authors, total_commits, params);
            let end = 1920 * (subject_bars(child_seed(seed, "subject"@)) + commits.len() + 1);
            &&& forall|i: int|
                0 <= i < s.events.len() ==> (#[trigger] s.events[i]).start + s.events[i].dur
                    <= end
            &&& exists|i: int|
                0 <= i < s.events.len() && (#[trigger] s.events[i]).start + s.events[i].dur == end
            &&& s.liner_notes.len() == 3 + voice_lines(authors).len() + how_many(
                commits,
                |c: CommitView| c.is_merge,
            )
        }),
{
    let s = history_score(seed, branch, commits, authors, total_commits, params);
    let n = commits.len() as int;
    lemma_no_long_pause(commits, n);
    lemma_history_ends(seed, branch, commits, authors, total_commits, params);
    lemma_liner_of_history(seed, branch, commits, authors, total_commits, params);
    lemma_only_merges(seed, commits, n);
    assert(commits.take(n) =~= commits);
    let end = 1920 * (subject_bars(child_seed(seed, "subject"@)) + n + 1);
    let i = choose|i: int|
        0 <= i < s.events.len() && (#[trigger] s.events[i]).voice == 0 && s.events[i].start
            == end - 1920 && s.events[i].dur == 1920 && s.events[i].velocity == 54;
    assert(s.events[i].start + s.events[i].dur == end);
}

/// A history can be composed if and only if its commits name authors, what is counted in the
/// liner notes fits into 32 bits, and so do the ticks up to the end of the piece.
pub proof fn lemma_history_can_be_composed(
    seed: u64,
    commits: Seq<CommitView>,
    authors: Seq<AuthorView>,
)
    ensures
        history_fits(seed, commits, authors) <==> {
            &&& forall|i: int|
                0 <= i < commits.len() ==> (#[trigger] commits[i]).author_id < authors.len()
            &&& stands_for(commits) <= 0xffff_ffff
            &&& tail_commits(authors) <= 0xffff_ffff
            &&& 1920 * (subject_bars(child_seed(seed, "subject"@)) + commits.len() + long_pauses(
                commits,
                commits.len() as int,
            ) + 1) <= 0xffff_ffff
        },
{
    let n = commits.len() as int;
    lemma_long_count(commits, n);
    lemma_stands_for(commits, n);
    assert(commits.take(n) =~= commits);
}

/// What a history score tells of its choices: the seed, the tempo and the scale that were
/// pinned, the tempo at the start, and no change of program.
pub proof fn lemma_particulars_of_history(
    seed: u64,
    branch: Seq<char>,
    commits: Seq<CommitView>,
    authors: Seq<AuthorView>,
    total_commits: u32,
    params: ComposeParams,
)
    requires
        history_fits(seed, commits, authors),
    ensures
        ({
            let s = history_score(seed, branch, commits, authors, total_commits, params);
            &&& s.seed == seed
            &&& s.key.root < 12
            &&& params.bpm matches Some(b) ==> s.bpm_base == b
            &&& params.bpm is None ==> 70 <= s.bpm_base <= 110
            &&& params.scale matches Some(scale) ==> s.scale == scale
            &&& s.program_changes.len() == 0
        }),
{
    crate::compose::lemma_globals(seed, params);
}

} // verus!
