//! What can be composed, and that every repository of ordinary size is among it.

use vstd::prelude::*;

use crate::compose::{
    duration_of, globals, lemma_globals, lemma_sections_wf, model_fits, plans, played_bars,
    static_composable, static_fits, static_sections, target_bars, ComposeParams,
};
use crate::compose_history::{folded_sum, history_composable, history_fits, lemma_breath_count};
use crate::extract::RawCommitView;
use crate::history::{
    author_id_text, author_texts, authors_of, count_by, folded_commit, folded_from, folded_total,
    group_end, leading_commit, lemma_author_of, lemma_author_texts, lemma_folded,
    lemma_leading_commit_leads,
};
use crate::model::{AuthorView, CommitView, RepoModel, UnitView};
use crate::phrases::{
    bars_sum, lemma_planned, listed_phrases, planned, section_phrases, unit_phrases, PhraseSpec,
};
use crate::rng::{child_seed, lemma_draw_below};
use crate::sections::{
    lemma_section_bars, lemma_section_names, loc_sum, section_bars, section_names, sections,
    share_sum, units_under,
};
use crate::sorting::views;
use crate::voices::{commits_of, lemma_tail_commits};

verus! {

/// As many files can always be composed.
pub const MAX_UNITS: usize = 0x4_0000;

/// As many functions can always be composed.
pub const MAX_FUNCTIONS: u64 = 0x2000_0000;

/// As many beats, in sixtieths, can always be aimed at.
pub const MAX_BEATS: u64 = 0x800_0000;

/// As many commits can always be composed.
pub const MAX_COMMITS: usize = 0x8_0000;

/// The functions of the first `k` units.
pub open spec fn function_count(units: Seq<UnitView>, k: int) -> int
    decreases k,
{
    if k <= 0 {
        0
    } else {
        function_count(units, k - 1) + units[k - 1].functions.len()
    }
}

/// The most beats that the pinned choices aim at, in sixtieths.
pub open spec fn beats_of(params: ComposeParams) -> int {
    let secs = match params.duration_secs {
        Some(d) => d as int,
        None => 180,
    };
    let bpm = match params.bpm {
        Some(b) => b as int,
        None => 110,
    };
    secs * bpm
}

/// Whether code is of a size that can always be composed.
pub open spec fn static_modest(units: Seq<UnitView>, params: ComposeParams) -> bool {
    &&& units.len() <= MAX_UNITS
    &&& function_count(units, units.len() as int) <= MAX_FUNCTIONS
    &&& beats_of(params) <= MAX_BEATS
}

/// Whether a history is of a size that can always be composed.
pub open spec fn history_modest(commits: Seq<CommitView>, authors: Seq<AuthorView>) -> bool {
    &&& commits.len() <= MAX_COMMITS
    &&& forall|i: int| 0 <= i < commits.len() ==> (#[trigger] commits[i]).author_id < authors.len()
    &&& folded_sum(commits, commits.len() as int) <= u32::MAX
    &&& commits_of(authors, authors.len() as int) <= u32::MAX
}

/// Whether a repository is of a size that can always be composed.
pub open spec fn model_modest(model: RepoModel, params: ComposeParams) -> bool {
    match model {
        RepoModel::Static { seed, units } => static_modest(views(units@), params),
        RepoModel::History { identity_seed, branch, commits, authors, total_commits } => {
            history_modest(views(commits@), views(authors@))
        },
    }
}

proof fn lemma_function_count(units: Seq<UnitView>, a: int, b: int)
    requires
        0 <= a <= b <= units.len(),
    ensures
        0 <= function_count(units, a) <= function_count(units, b),
    decreases b,
{
    if a < b {
        lemma_function_count(units, a, b - 1);
    } else if b > 0 {
        lemma_function_count(units, b - 1, b - 1);
    }
}

proof fn lemma_loc_sum(units: Seq<UnitView>, k: int)
    requires
        0 <= k <= units.len(),
    ensures
        0 <= loc_sum(units, k) <= k * u32::MAX,
    decreases k,
{
    if k > 0 {
        lemma_loc_sum(units, k - 1);
        assert(k * u32::MAX == (k - 1) * u32::MAX + u32::MAX) by (nonlinear_arith);
    }
}

proof fn lemma_bars_by_count(phrases: Seq<PhraseSpec>)
    requires
        forall|i: int| 0 <= i < phrases.len() ==> (#[trigger] phrases[i]).bars <= 4,
    ensures
        0 <= bars_sum(phrases) <= 4 * phrases.len(),
    decreases phrases.len(),
{
    if phrases.len() > 0 {
        let b = phrases.drop_last();
        assert forall|i: int| 0 <= i < b.len() implies (#[trigger] b[i]).bars <= 4 by {
            assert(b[i] == phrases[i]);
        }
        lemma_bars_by_count(b);
        assert(phrases.last() == phrases[phrases.len() - 1]);
    }
}

/// The phrases of a section are no more than the functions of all units.
proof fn lemma_listed_count(units: Seq<UnitView>, name: Seq<char>, k: int)
    requires
        0 <= k <= units.len() <= MAX_UNITS,
    ensures
        ({
            let list = units_under(units, name, k);
            let all = listed_phrases(units, list, list.len() as int);
            &&& all.len() <= function_count(units, k)
            &&& forall|i: int| 0 <= i < all.len() ==> (#[trigger] all[i]).bars <= 4
        }),
    decreases k,
{
    if k > 0 {
        lemma_listed_count(units, name, k - 1);
        let before = units_under(units, name, k - 1);
        let list = units_under(units, name, k);
        if list != before {
            assert(list.drop_last() =~= before);
            lemma_listed_prefix(units, before, list, before.len() as int);
            let old_phrases = listed_phrases(units, before, before.len() as int);
            let all = listed_phrases(units, list, list.len() as int);
            let more = unit_phrases(units[k - 1], (k - 1) as usize);
            assert(all == old_phrases + more);
            assert forall|i: int| 0 <= i < all.len() implies (#[trigger] all[i]).bars <= 4 by {
                if i < old_phrases.len() {
                    assert(all[i] == old_phrases[i]);
                } else {
                    assert(all[i] == more[i - old_phrases.len()]);
                }
            }
        }
    }
}

proof fn lemma_listed_prefix(units: Seq<UnitView>, a: Seq<usize>, b: Seq<usize>, k: int)
    requires
        0 <= k <= a.len() <= b.len(),
        forall|i: int| 0 <= i < a.len() ==> a[i] == b[i],
    ensures
        listed_phrases(units, a, k) == listed_phrases(units, b, k),
    decreases k,
{
    if k > 0 {
        lemma_listed_prefix(units, a, b, k - 1);
    }
}

/// Whether units are such as vectors can hold.
pub open spec fn units_valid(units: Seq<UnitView>) -> bool {
    &&& units.len() <= usize::MAX
    &&& forall|i: int|
        0 <= i < units.len() ==> (#[trigger] units[i]).functions.len() <= usize::MAX
}

/// The first sections play no more bars than they were given, and five more for each: for a
/// single phrase that is longer, and for the transition.
pub proof fn lemma_static_length(units: Seq<UnitView>, total_bars: int, s: int)
    requires
        units_valid(units),
        0 <= total_bars <= u32::MAX,
        0 <= s <= sections(units, total_bars).len(),
    ensures
        0 <= played_bars(plans(sections(units, total_bars), units), s) <= share_sum(
            section_bars(units, total_bars),
            s,
        ) + 5 * s,
    decreases s,
{
    if s > 0 {
        lemma_static_length(units, total_bars, s - 1);
        let secs = sections(units, total_bars);
        let sec = secs[s - 1];
        let p = planned(sec, units);
        lemma_sections_wf(units, total_bars, s - 1);
        lemma_planned(sec, units);
        lemma_section_bars(units, total_bars);
        assert(plans(secs, units)[s - 1] == p);
        assert forall|i: int| 0 <= i < p.len() implies (#[trigger] p[i]).bars <= 4 by {
            assert(crate::phrases::phrase_wf(p[i], units));
        }
        lemma_bars_by_count(p);
        assert(sec.bars == section_bars(units, total_bars)[s - 1]);
    }
}

/// Code of a modest size makes a piece of fewer than two million bars.
pub proof fn lemma_static_bars(seed: u64, units: Seq<UnitView>, params: ComposeParams)
    requires
        static_modest(units, params),
    ensures
        ({
            let secs = static_sections(seed, units, params);
            0 <= played_bars(plans(secs, units), secs.len() as int) < 2_000_000
        }),
        0 <= duration_of(seed, params) * globals(seed, params).bpm <= MAX_BEATS,
{
    let n = units.len() as int;
    let g = globals(seed, params);
    let d = duration_of(seed, params);
    lemma_globals(seed, params);
    assert(0 <= d * g.bpm <= MAX_BEATS) by {
        if params.duration_secs is None {
            lemma_draw_below(g.state, 91);
        }
        let secs: int = match params.duration_secs {
            Some(d) => d as int,
            None => 180,
        };
        let bpm: int = match params.bpm {
            Some(b) => b as int,
            None => 110,
        };
        assert(0 <= d * g.bpm <= secs * bpm) by (nonlinear_arith)
            requires
                0 <= d <= secs,
                0 <= g.bpm <= bpm,
        ;
    }
    let t = target_bars(seed, params);
    let secs = static_sections(seed, units, params);
    lemma_section_names(units, n);
    lemma_section_bars(units, t);
    assert forall|i: int| 0 <= i < units.len() implies (#[trigger] units[i]).functions.len()
        <= usize::MAX by {
        lemma_function_count(units, i + 1, n);
        lemma_function_count(units, 0, i);
    }
    lemma_static_length(units, t, secs.len() as int);
}

/// Code of a modest size can be composed with any seed.
pub proof fn lemma_static_fits(seed: u64, units: Seq<UnitView>, params: ComposeParams)
    requires
        static_modest(units, params),
    ensures
        static_fits(seed, units, params),
{
    let n = units.len() as int;
    lemma_static_bars(seed, units, params);
    lemma_loc_sum(units, n);
    assert(n * u32::MAX <= u64::MAX) by (nonlinear_arith)
        requires
            n <= 0x4_0000,
    ;
    let secs = static_sections(seed, units, params);
    assert forall|i: int| 0 <= i < secs.len() implies bars_sum(
        section_phrases(#[trigger] secs[i], units),
    ) <= u32::MAX by {
        lemma_listed_count(units, section_names(units, n)[i], n);
        lemma_bars_by_count(section_phrases(secs[i], units));
    }
}

/// A history of a modest size can be composed with any seed.
pub proof fn lemma_history_fits(seed: u64, commits: Seq<CommitView>, authors: Seq<AuthorView>)
    requires
        history_modest(commits, authors),
    ensures
        history_fits(seed, commits, authors),
{
    lemma_tail_commits(authors);
    lemma_breath_count(commits, 0, commits.len() as int);
    lemma_draw_below(child_seed(seed, "subject"@), 3);
}

/// A repository of a modest size can be composed.
pub proof fn lemma_model_fits(model: RepoModel, params: ComposeParams)
    requires
        model_modest(model, params),
    ensures
        model_fits(model, params),
{
    match model {
        RepoModel::Static { seed, units } => lemma_static_fits(seed, views(units@), params),
        RepoModel::History { identity_seed, branch, commits, authors, total_commits } => {
            lemma_history_fits(identity_seed, views(commits@), views(authors@))
        },
    }
}

/// How many of the first `k` commits are of the first `m` authors in a list.
spec fn counted(list: Seq<Seq<char>>, raw: Seq<RawCommitView>, m: int, k: int) -> int
    decreases m,
{
    if m <= 0 {
        0
    } else {
        counted(list, raw, m - 1, k) + count_by(raw, list[m - 1], k)
    }
}

proof fn lemma_counted_step(list: Seq<Seq<char>>, raw: Seq<RawCommitView>, m: int, k: int)
    requires
        0 <= m <= list.len(),
        0 < k <= raw.len(),
        forall|i: int, j: int|
            0 <= i < j < list.len() ==> #[trigger] list[i] != #[trigger] list[j],
    ensures
        counted(list, raw, m, k) == counted(list, raw, m, k - 1) + if (exists|i: int|
            0 <= i < m && #[trigger] list[i] == author_id_text(raw[k - 1])) {
            1int
        } else {
            0
        },
    decreases m,
{
    if m > 0 {
        lemma_counted_step(list, raw, m - 1, k);
        let x = author_id_text(raw[k - 1]);
        if list[m - 1] == x {
            assert(!(exists|i: int| 0 <= i < m - 1 && #[trigger] list[i] == x));
            assert(exists|i: int| 0 <= i < m && #[trigger] list[i] == x);
        } else {
            assert((exists|i: int| 0 <= i < m && #[trigger] list[i] == x) == (exists|i: int|
                0 <= i < m - 1 && #[trigger] list[i] == x));
        }
    }
}

proof fn lemma_counted(raw: Seq<RawCommitView>, k: int)
    requires
        0 <= k <= raw.len(),
    ensures
        ({
            let list = author_texts(raw, raw.len() as int);
            counted(list, raw, list.len() as int, k) == k
        }),
    decreases k,
{
    let list = author_texts(raw, raw.len() as int);
    if k > 0 {
        lemma_author_texts(raw, raw.len() as int);
        lemma_counted(raw, k - 1);
        lemma_counted_step(list, raw, list.len() as int, k);
        let x = author_id_text(raw[k - 1]);
        assert(list.contains(x));
        let i = list.index_of(x);
        assert(list[i] == x);
    } else {
        lemma_counted_none(list, raw, list.len() as int);
    }
}

proof fn lemma_counted_none(list: Seq<Seq<char>>, raw: Seq<RawCommitView>, m: int)
    requires
        0 <= m,
    ensures
        counted(list, raw, m, 0) == 0,
    decreases m,
{
    if m > 0 {
        lemma_counted_none(list, raw, m - 1);
    }
}

proof fn lemma_commits_of(raw: Seq<RawCommitView>, m: int)
    requires
        raw.len() <= u32::MAX,
        0 <= m <= authors_of(raw, raw.len() as int).len(),
    ensures
        commits_of(authors_of(raw, raw.len() as int), m) == counted(
            author_texts(raw, raw.len() as int),
            raw,
            m,
            raw.len() as int,
        ),
    decreases m,
{
    if m > 0 {
        lemma_commits_of(raw, m - 1);
        lemma_count_by(raw, author_texts(raw, raw.len() as int)[m - 1], raw.len() as int);
    }
}

proof fn lemma_count_by(raw: Seq<RawCommitView>, x: Seq<char>, k: int)
    requires
        0 <= k,
    ensures
        count_by(raw, x, k) <= k,
    decreases k,
{
    if k > 0 {
        lemma_count_by(raw, x, k - 1);
    }
}

/// No commit is lost: those of the authors add up to those of the log.
pub proof fn lemma_authors_share(raw: Seq<RawCommitView>)
    requires
        raw.len() <= u32::MAX,
    ensures
        commits_of(
            authors_of(raw, raw.len() as int),
            authors_of(raw, raw.len() as int).len() as int,
        ) == raw.len(),
{
    let m = authors_of(raw, raw.len() as int).len() as int;
    lemma_commits_of(raw, m);
    lemma_counted(raw, raw.len() as int);
}

proof fn lemma_folded_sum_total(commits: Seq<CommitView>, k: int)
    requires
        0 <= k <= commits.len(),
    ensures
        folded_sum(commits, commits.len() as int) == folded_sum(commits, k) + folded_total(
            commits.skip(k),
        ),
    decreases commits.len() - k,
{
    if k < commits.len() {
        lemma_folded_sum_total(commits, k + 1);
        assert(commits.skip(k).drop_first() =~= commits.skip(k + 1));
        assert(commits.skip(k)[0] == commits[k]);
    }
}

proof fn lemma_folded_authors(raw: Seq<RawCommitView>, k: int, a: int)
    requires
        1 <= k <= u32::MAX,
        0 <= a <= raw.len() <= usize::MAX,
    ensures
        forall|i: int|
            0 <= i < folded_from(raw, k, a).len() ==> (#[trigger] folded_from(
                raw,
                k,
                a,
            )[i]).author_id < authors_of(raw, raw.len() as int).len(),
        folded_from(raw, k, a).len() <= raw.len() - a,
    decreases raw.len() - a,
{
    if a < raw.len() {
        let b = group_end(raw.len() as int, a, k);
        lemma_folded_authors(raw, k, b);
        lemma_leading_commit_leads(raw, a, b, b);
        lemma_author_of(raw, leading_commit(raw, a, b, b));
        lemma_author_texts(raw, raw.len() as int);
        let rest = folded_from(raw, k, b);
        let all = folded_from(raw, k, a);
        assert(all == seq![folded_commit(raw, a, b)] + rest);
        assert forall|i: int| 0 <= i < all.len() implies (#[trigger] all[i]).author_id
            < authors_of(raw, raw.len() as int).len() by {
            if i > 0 {
                assert(all[i] == rest[i - 1]);
            }
        }
    }
}

/// A log of a modest size, folded in any way, can be composed.
pub proof fn lemma_log_fits(raw: Seq<RawCommitView>, k: int)
    requires
        raw.len() <= MAX_COMMITS,
        1 <= k <= u32::MAX,
    ensures
        history_modest(folded_from(raw, k, 0), authors_of(raw, raw.len() as int)),
{
    let all = folded_from(raw, k, 0);
    lemma_folded(raw, k, 0);
    lemma_folded_authors(raw, k, 0);
    lemma_folded_sum_total(all, 0);
    assert(all.skip(0) =~= all);
    lemma_authors_share(raw);
}

/// Whether a repository can be composed.
pub fn composable(model: &RepoModel, params: &ComposeParams) -> (r: bool)
    ensures
        r == model_fits(*model, *params),
{
    match model {
        RepoModel::Static { seed, units } => static_composable(*seed, units.as_slice(), params),
        RepoModel::History {
            identity_seed,
            branch: _,
            commits,
            authors,
            total_commits: _,
        } => history_composable(*identity_seed, commits.as_slice(), authors.as_slice()),
    }
}

} // verus!
