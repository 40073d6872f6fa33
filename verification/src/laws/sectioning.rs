//! How the directories of a repository share the bars of a static piece.

use vstd::prelude::*;

use crate::model::UnitView;
use crate::paths::top_directory;
use crate::sections::{
    bar_share, bar_shares, lemma_section_bars, lemma_section_names, lemma_units_under, loc_sum,
    loc_under, section_bars, section_names, sections, share_sum, shares_cut, units_under, widest,
};

verus! {

/// The lines of code of the units that meet a condition.
pub open spec fn lines_where(units: Seq<UnitView>, meets: spec_fn(UnitView) -> bool) -> int
    decreases units.len(),
{
    if units.len() == 0 {
        0
    } else {
        lines_where(units.drop_first(), meets) + if meets(units[0]) {
            units[0].loc as int
        } else {
            0
        }
    }
}

/// The sum of some numbers.
pub open spec fn sum_of(s: Seq<int>) -> int
    decreases s.len(),
{
    if s.len() == 0 {
        0
    } else {
        s[0] + sum_of(s.drop_first())
    }
}

/// What a section can claim: the bars in proportion to its lines, rounded down, or one.
pub open spec fn claim(lines: int, all_lines: int, bars: int) -> int {
    if all_lines > 0 && lines * bars >= all_lines {
        lines * bars / all_lines
    } else if all_lines <= 0 && lines * bars >= 1 {
        lines * bars
    } else {
        1
    }
}

proof fn lemma_lines_push(units: Seq<UnitView>, u: UnitView, meets: spec_fn(UnitView) -> bool)
    ensures
        lines_where(units.push(u), meets) == lines_where(units, meets) + if meets(u) {
            u.loc as int
        } else {
            0
        },
    decreases units.len(),
{
    let t = units.push(u);
    if units.len() == 0 {
        assert(t.drop_first() =~= units);
    } else {
        lemma_lines_push(units.drop_first(), u, meets);
        assert(t.drop_first() =~= units.drop_first().push(u));
    }
}

proof fn lemma_lines(units: Seq<UnitView>, name: Seq<char>, k: int)
    requires
        0 <= k <= units.len(),
    ensures
        loc_under(units, name, k) == lines_where(
            units.take(k),
            |u: UnitView| top_directory(u.path) == name,
        ),
        loc_sum(units, k) == lines_where(units.take(k), |u: UnitView| true),
        0 <= loc_under(units, name, k) <= loc_sum(units, k),
    decreases k,
{
    if k > 0 {
        lemma_lines(units, name, k - 1);
        lemma_lines_push(
            units.take(k - 1),
            units[k - 1],
            |u: UnitView| top_directory(u.path) == name,
        );
        lemma_lines_push(units.take(k - 1), units[k - 1], |u: UnitView| true);
        assert(units.take(k) =~= units.take(k - 1).push(units[k - 1]));
    } else {
        assert(units.take(0).len() == 0);
    }
}

/// The lines of all units.
pub proof fn lemma_all_lines(units: Seq<UnitView>)
    ensures
        loc_sum(units, units.len() as int) == lines_where(units, |u: UnitView| true),
{
    lemma_lines(units, seq![], units.len() as int);
    assert(units.take(units.len() as int) =~= units);
}

proof fn lemma_claim(lines: int, all_lines: int, bars: int)
    requires
        0 <= lines <= all_lines,
        bars >= 0,
    ensures
        bar_share(lines, all_lines, bars) == claim(lines, all_lines, bars),
        claim(lines, all_lines, bars) >= 1,
{
    let x = lines * bars;
    assert(x >= 0) by (nonlinear_arith)
        requires
            x == lines * bars,
            lines >= 0,
            bars >= 0,
    ;
    if all_lines > 0 {
        assert(x / all_lines >= 1 <==> x >= all_lines) by (nonlinear_arith)
            requires
                all_lines > 0,
                x >= 0,
        ;
    } else {
        assert(x == 0) by (nonlinear_arith)
            requires
                x == lines * bars,
                lines == 0,
        ;
        assert(x / 1 == x);
    }
}

proof fn lemma_widest(s: Seq<int>, k: int)
    requires
        0 <= k <= s.len(),
    ensures
        ({
            let w = widest(s, k);
            &&& -1 <= w < k
            &&& w >= 0 ==> s[w] > 1
            &&& forall|j: int| 0 <= j < k ==> (#[trigger] s[j]) <= 1 || (w >= 0 && s[j] <= s[w])
            &&& forall|j: int| w < j < k ==> (#[trigger] s[j]) <= 1 || (w >= 0 && s[j] < s[w])
        }),
    decreases k,
{
    if k > 0 {
        lemma_widest(s, k - 1);
    }
}

proof fn lemma_sum_take(s: Seq<int>, k: int)
    requires
        0 <= k <= s.len(),
    ensures
        share_sum(s, k) == sum_of(s.take(k)),
    decreases k,
{
    if k > 0 {
        lemma_sum_take(s, k - 1);
        lemma_sum_push(s.take(k - 1), s[k - 1]);
        assert(s.take(k) =~= s.take(k - 1).push(s[k - 1]));
    } else {
        assert(s.take(0).len() == 0);
    }
}

proof fn lemma_sum_push(s: Seq<int>, x: int)
    ensures
        sum_of(s.push(x)) == sum_of(s) + x,
    decreases s.len(),
{
    let t = s.push(x);
    if s.len() == 0 {
        assert(t.drop_first() =~= s);
    } else {
        lemma_sum_push(s.drop_first(), x);
        assert(t.drop_first() =~= s.drop_first().push(x));
    }
}

proof fn lemma_sum_update(s: Seq<int>, i: int, x: int)
    requires
        0 <= i < s.len(),
    ensures
        sum_of(s.update(i, x)) == sum_of(s) - s[i] + x,
    decreases s.len(),
{
    let t = s.update(i, x);
    if i == 0 {
        assert(t.drop_first() =~= s.drop_first());
    } else {
        lemma_sum_update(s.drop_first(), i - 1, x);
        assert(t.drop_first() =~= s.drop_first().update(i - 1, x));
    }
}

/// Whether bars were taken fairly: whoever gave one is left with at most one less than any
/// other, and of those left with one more each stands before it.
pub open spec fn fairly_cut(claims: Seq<int>, bars: Seq<int>) -> bool {
    forall|i: int, j: int|
        0 <= i < claims.len() && 0 <= j < claims.len() && (#[trigger] bars[i]) < claims[i] ==> (
        #[trigger] bars[j]) <= bars[i] + 1 && (bars[j] == bars[i] + 1 ==> j < i)
}

proof fn lemma_cut(s: Seq<int>, e: nat)
    requires
        forall|j: int| 0 <= j < s.len() ==> #[trigger] s[j] >= 1,
    ensures
        ({
            let f = shares_cut(s, e);
            &&& f.len() == s.len()
            &&& forall|j: int| 0 <= j < s.len() ==> 1 <= #[trigger] f[j] <= s[j]
            &&& fairly_cut(s, f)
            &&& sum_of(f) == sum_of(s) - e || (sum_of(f) > sum_of(s) - e && forall|j: int|
                0 <= j < s.len() ==> #[trigger] f[j] == 1)
        }),
    decreases e,
{
    let w = widest(s, s.len() as int);
    let f = shares_cut(s, e);
    lemma_widest(s, s.len() as int);
    if e > 0 && w >= 0 {
        let t = s.update(w, s[w] - 1);
        lemma_sum_update(s, w, s[w] - 1);
        assert forall|j: int| 0 <= j < t.len() implies #[trigger] t[j] >= 1 by {
            assert(s[j] >= 1);
        }
        lemma_cut(t, (e - 1) as nat);
        assert(f == shares_cut(t, (e - 1) as nat));
        assert forall|j: int| 0 <= j < s.len() implies 1 <= #[trigger] f[j] <= s[j] by {
            assert(f[j] <= t[j]);
        }
        assert forall|i: int, j: int|
            0 <= i < s.len() && 0 <= j < s.len() && (#[trigger] f[i]) < s[i] implies (
        #[trigger] f[j]) <= f[i] + 1 && (f[j] == f[i] + 1 ==> j < i) by {
            if f[i] >= t[i] {
                assert(i == w && f[i] == s[w] - 1);
                assert(f[j] <= t[j] <= s[j]);
                assert(s[j] <= 1 || s[j] <= s[w]);
                if j > w {
                    assert(s[j] <= 1 || s[j] < s[w]);
                }
            }
        }
    } else if e > 0 {
        assert forall|j: int| 0 <= j < s.len() implies #[trigger] f[j] == 1 by {
            assert(s[j] <= 1);
        }
    }
}

/// A section is that of a directory: the units whose top-level directory it is and no others,
/// in their order, and its lines are those of its units.
pub proof fn lemma_section_of_directory(units: Seq<UnitView>, total: int, j: int)
    requires
        units.len() <= usize::MAX,
        lines_where(units, |u: UnitView| true) <= u64::MAX,
        0 <= j < sections(units, total).len(),
    ensures
        ({
            let sec = sections(units, total)[j];
            &&& forall|u: usize| #[trigger]
                sec.unit_indices.contains(u) <==> u < units.len() && top_directory(
                    units[u as int].path,
                ) == sec.name
            &&& forall|a: int, b: int|
                0 <= a < b < sec.unit_indices.len() ==> #[trigger] sec.unit_indices[a]
                    < #[trigger] sec.unit_indices[b]
            &&& sec.loc == lines_where(units, |u: UnitView| top_directory(u.path) == sec.name)
        }),
{
    let n = units.len() as int;
    let name = section_names(units, n)[j];
    let sec = sections(units, total)[j];
    let under = units_under(units, name, n);
    assert(units.take(n) =~= units);
    lemma_units_under(units, name, n);
    lemma_lines(units, name, n);
    assert(sec.name == name && sec.unit_indices == under);
    assert forall|u: usize| #[trigger] sec.unit_indices.contains(u) <==> u < units.len()
        && top_directory(units[u as int].path) == sec.name by {
        if under.contains(u) {
            let a = choose|a: int| 0 <= a < under.len() && under[a] == u;
            assert(under[a] < n);
        }
        if u < units.len() && top_directory(units[u as int].path) == sec.name {
            assert(under.contains(u));
        }
    }
}

/// Every unit has a section, and the sections stand in the order of their names, none of them
/// twice.
pub proof fn lemma_section_of_unit(units: Seq<UnitView>, total: int, u: int) -> (j: int)
    requires
        0 <= u < units.len(),
    ensures
        0 <= j < sections(units, total).len(),
        sections(units, total)[j].name == top_directory(units[u].path),
{
    let n = units.len() as int;
    let names = section_names(units, n);
    lemma_section_names(units, n);
    assert(names.contains(top_directory(units[u].path)));
    choose|j: int| 0 <= j < names.len() && names[j] == top_directory(units[u].path)
}

/// The sections stand in the order of their names, none of them twice.
pub proof fn lemma_sections_by_name(units: Seq<UnitView>, total: int, i: int, j: int)
    requires
        0 <= i < j < sections(units, total).len(),
    ensures
        crate::sorting::lex_before(
            crate::text::codes(sections(units, total)[i].name),
            crate::text::codes(sections(units, total)[j].name),
        ),
{
    let names = section_names(units, units.len() as int);
    lemma_section_names(units, units.len() as int);
    assert(crate::sorting::lex_before(
        crate::text::codes(names[i]),
        crate::text::codes(names[j]),
    ));
}

/// The sections share the bars by their lines: each can claim the bars in proportion to its
/// lines, rounded down, but one at least. Where the claims fit they are met. Where they do not,
/// bars are taken from the largest, one at a time and of equals the last, until what is left
/// adds up to the total, or everyone is down to one.
pub proof fn lemma_bars_by_lines_of_code(units: Seq<UnitView>, total: int)
    requires
        0 <= total <= u32::MAX,
        lines_where(units, |u: UnitView| true) <= u64::MAX,
    ensures
        ({
            let secs = sections(units, total);
            let all = lines_where(units, |u: UnitView| true);
            let claims = Seq::new(secs.len(), |i: int| claim(secs[i].loc as int, all, total));
            let bars = Seq::new(secs.len(), |i: int| secs[i].bars as int);
            &&& forall|i: int| 0 <= i < secs.len() ==> 1 <= #[trigger] bars[i] <= claims[i]
            &&& sum_of(claims) <= total ==> bars == claims
            &&& sum_of(claims) > total ==> fairly_cut(claims, bars) && (sum_of(bars) == total || (
            sum_of(bars) > total && forall|i: int|
                0 <= i < secs.len() ==> #[trigger] bars[i] == 1))
        }),
{
    let n = units.len() as int;
    let secs = sections(units, total);
    let names = section_names(units, n);
    let all = lines_where(units, |u: UnitView| true);
    let claims = Seq::new(secs.len(), |i: int| claim(secs[i].loc as int, all, total));
    let bars = Seq::new(secs.len(), |i: int| secs[i].bars as int);
    lemma_section_bars(units, total);
    assert forall|i: int| 0 <= i < secs.len() implies #[trigger] bars[i] == section_bars(
        units,
        total,
    )[i] by {
        assert(section_bars(units, total)[i] <= total || section_bars(units, total)[i] == 1);
    }
    let shares = bar_shares(units, total);
    assert(units.take(n) =~= units);
    assert forall|i: int| 0 <= i < shares.len() implies #[trigger] shares[i] == claims[i]
        && shares[i] >= 1 by {
        lemma_lines(units, names[i], n);
        lemma_claim(loc_under(units, names[i], n), all, total);
        assert(secs[i].loc == loc_under(units, names[i], n));
    }
    assert(shares =~= claims);
    lemma_sum_take(shares, shares.len() as int);
    assert(shares.take(shares.len() as int) =~= shares);
    let sum = sum_of(claims);
    if sum > total {
        lemma_cut(shares, (sum - total) as nat);
        assert(bars =~= shares_cut(shares, (sum - total) as nat));
    } else {
        assert(bars =~= claims);
    }
}

} // verus!
