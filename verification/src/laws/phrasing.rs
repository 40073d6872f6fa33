//! How the functions of a section become its phrases.

use vstd::prelude::*;

use crate::model::UnitView;
use crate::phrases::{
    bars_sum, listed_phrases, phrase_bars, planned, repeats, sample_lines, sample_stride, sampled,
    section_phrases, shortened, unit_phrases, PhraseSpec, MAX_REPEATS,
};
use crate::sections::SectionView;
use crate::text::decimal;

verus! {

/// The bars of some phrases one after the other.
pub open spec fn run_length(phrases: Seq<PhraseSpec>) -> int
    decreases phrases.len(),
{
    if phrases.len() == 0 {
        0
    } else {
        phrases[0].bars + run_length(phrases.drop_first())
    }
}

/// How many functions the first `k` units of a section have.
pub open spec fn functions_before(section: SectionView, units: Seq<UnitView>, k: int) -> int
    decreases k,
{
    if k <= 0 {
        0
    } else {
        functions_before(section, units, k - 1) + units[section.unit_indices[k
            - 1] as int].functions.len()
    }
}

/// How many functions a section has.
pub open spec fn function_count(section: SectionView, units: Seq<UnitView>) -> int {
    functions_before(section, units, section.unit_indices.len() as int)
}

/// Whether the section's `k`th unit has an `f`th function.
pub open spec fn has_function(section: SectionView, units: Seq<UnitView>, k: int, f: int) -> bool {
    0 <= k < section.unit_indices.len() && 0 <= f
        < units[section.unit_indices[k] as int].functions.len()
}

/// Whether a phrase is that of the `f`th function of the section's `k`th unit.
pub open spec fn phrase_for(
    p: PhraseSpec,
    section: SectionView,
    units: Seq<UnitView>,
    k: int,
    f: int,
) -> bool {
    &&& p.unit == section.unit_indices[k]
    &&& p.func == f
    &&& p.bars == phrase_bars(units[section.unit_indices[k] as int].functions[f].lines)
}

/// Whether the phrases from the first on are those of the section's functions, each once: the
/// units in their order, and the functions of each in theirs.
pub open spec fn starts_with_each(
    phrases: Seq<PhraseSpec>,
    section: SectionView,
    units: Seq<UnitView>,
) -> bool {
    forall|k: int, f: int| #[trigger]
        has_function(section, units, k, f) ==> 0 <= functions_before(section, units, k) + f
            < phrases.len() && phrase_for(
            phrases[functions_before(section, units, k) + f],
            section,
            units,
            k,
            f,
        )
}

/// A function of fewer than sixteen lines gets a phrase of one bar, one of thirty-two or more
/// gets four bars, and between them eight lines more are a bar more. Longer functions never
/// get fewer bars.
pub proof fn lemma_bars_by_lines(a: u32, b: u32)
    ensures
        a < 16 ==> phrase_bars(a) == 1,
        16 <= a < 24 ==> phrase_bars(a) == 2,
        24 <= a < 32 ==> phrase_bars(a) == 3,
        a >= 32 ==> phrase_bars(a) == 4,
        a <= b ==> phrase_bars(a) <= phrase_bars(b),
{
}

proof fn lemma_run_length_push(phrases: Seq<PhraseSpec>, p: PhraseSpec)
    ensures
        run_length(phrases.push(p)) == run_length(phrases) + p.bars,
    decreases phrases.len(),
{
    let t = phrases.push(p);
    if phrases.len() == 0 {
        assert(t.drop_first() =~= phrases);
    } else {
        lemma_run_length_push(phrases.drop_first(), p);
        assert(t.drop_first() =~= phrases.drop_first().push(p));
    }
}

pub proof fn lemma_run_length(phrases: Seq<PhraseSpec>)
    ensures
        bars_sum(phrases) == run_length(phrases),
    decreases phrases.len(),
{
    if phrases.len() > 0 {
        lemma_run_length(phrases.drop_last());
        lemma_run_length_push(phrases.drop_last(), phrases.last());
        assert(phrases.drop_last().push(phrases.last()) =~= phrases);
    }
}

proof fn lemma_places(section: SectionView, units: Seq<UnitView>, n: int)
    requires
        0 <= n <= section.unit_indices.len(),
        forall|i: int|
            0 <= i < units.len() ==> (#[trigger] units[i]).functions.len() <= usize::MAX,
        forall|i: int|
            0 <= i < section.unit_indices.len() ==> #[trigger] section.unit_indices[i]
                < units.len(),
    ensures
        listed_phrases(units, section.unit_indices, n).len() == functions_before(
            section,
            units,
            n,
        ),
        forall|k: int, f: int| #[trigger]
            has_function(section, units, k, f) && k < n ==> ({
                let at = functions_before(section, units, k) + f;
                &&& 0 <= at < functions_before(section, units, n)
                &&& phrase_for(
                    listed_phrases(units, section.unit_indices, n)[at],
                    section,
                    units,
                    k,
                    f,
                )
            }),
    decreases n,
{
    if n > 0 {
        lemma_places(section, units, n - 1);
        let before = listed_phrases(units, section.unit_indices, n - 1);
        let index = section.unit_indices[n - 1];
        let more = unit_phrases(units[index as int], index);
        let now = listed_phrases(units, section.unit_indices, n);
        assert(now == before + more);
        assert(units[index as int].functions.len() <= usize::MAX);
        assert forall|k: int, f: int| #[trigger]
            has_function(section, units, k, f) && k < n implies ({
            let at = functions_before(section, units, k) + f;
            &&& 0 <= at < functions_before(section, units, n)
            &&& phrase_for(now[at], section, units, k, f)
        }) by {
            let at = functions_before(section, units, k) + f;
            if k < n - 1 {
                assert(now[at] == before[at]);
            } else {
                lemma_before_positive(section, units, k);
                assert(now[at] == more[f]);
            }
        }
    }
}

proof fn lemma_before_positive(section: SectionView, units: Seq<UnitView>, k: int)
    ensures
        functions_before(section, units, k) >= 0,
    decreases k,
{
    if k > 0 {
        lemma_before_positive(section, units, k - 1);
    }
}

/// Where the phrases of a section's functions fill its bars exactly, it plays each function
/// once, in order, and nothing else.
pub proof fn lemma_exact_fit(section: SectionView, units: Seq<UnitView>)
    requires
        forall|i: int|
            0 <= i < units.len() ==> (#[trigger] units[i]).functions.len() <= usize::MAX,
        forall|i: int|
            0 <= i < section.unit_indices.len() ==> #[trigger] section.unit_indices[i]
                < units.len(),
        run_length(section_phrases(section, units)) == section.bars,
    ensures
        planned(section, units).len() == function_count(section, units),
        starts_with_each(planned(section, units), section, units),
{
    let all = section_phrases(section, units);
    lemma_run_length(all);
    lemma_places(section, units, section.unit_indices.len() as int);
    assert(planned(section, units) == all);
}

proof fn lemma_short_run(phrases: Seq<PhraseSpec>)
    requires
        forall|i: int| 0 <= i < phrases.len() ==> (#[trigger] phrases[i]).bars == 1,
    ensures
        bars_sum(phrases) == phrases.len(),
    decreases phrases.len(),
{
    if phrases.len() > 0 {
        let rest = phrases.drop_last();
        assert forall|i: int| 0 <= i < rest.len() implies (#[trigger] rest[i]).bars == 1 by {
            assert(rest[i] == phrases[i]);
        }
        lemma_short_run(rest);
    }
}

proof fn lemma_all_short(section: SectionView, units: Seq<UnitView>, n: int)
    requires
        0 <= n <= section.unit_indices.len(),
        forall|k: int, f: int| #[trigger]
            has_function(section, units, k, f)
                ==> units[section.unit_indices[k] as int].functions[f].lines < 16,
    ensures
        forall|i: int|
            0 <= i < listed_phrases(units, section.unit_indices, n).len() ==> (
            #[trigger] listed_phrases(units, section.unit_indices, n)[i]).bars == 1,
    decreases n,
{
    if n > 0 {
        lemma_all_short(section, units, n - 1);
        let before = listed_phrases(units, section.unit_indices, n - 1);
        let index = section.unit_indices[n - 1];
        let more = unit_phrases(units[index as int], index);
        let now = listed_phrases(units, section.unit_indices, n);
        assert forall|i: int| 0 <= i < now.len() implies (#[trigger] now[i]).bars == 1 by {
            if i < before.len() {
                assert(now[i] == before[i]);
            } else {
                let f = i - before.len();
                assert(now[i] == more[f]);
                assert(has_function(section, units, n - 1, f));
            }
        }
    }
}

/// A section whose functions all have fewer than sixteen lines, and which has as many bars as
/// functions, plays each of them once, for one bar, in order.
pub proof fn lemma_short_functions_once(section: SectionView, units: Seq<UnitView>)
    requires
        forall|i: int|
            0 <= i < units.len() ==> (#[trigger] units[i]).functions.len() <= usize::MAX,
        forall|i: int|
            0 <= i < section.unit_indices.len() ==> #[trigger] section.unit_indices[i]
                < units.len(),
        forall|k: int, f: int| #[trigger]
            has_function(section, units, k, f)
                ==> units[section.unit_indices[k] as int].functions[f].lines < 16,
        function_count(section, units) == section.bars,
    ensures
        planned(section, units).len() == section.bars,
        starts_with_each(planned(section, units), section, units),
        forall|i: int|
            0 <= i < planned(section, units).len() ==> (
            #[trigger] planned(section, units)[i]).bars == 1,
{
    let n = section.unit_indices.len() as int;
    lemma_places(section, units, n);
    lemma_all_short(section, units, n);
    lemma_short_run(section_phrases(section, units));
    lemma_run_length(section_phrases(section, units));
    lemma_exact_fit(section, units);
}

proof fn lemma_repeats_cycle(base: Seq<PhraseSpec>, sum: int, budget: int, i: int)
    requires
        base.len() > 0,
        0 <= i <= MAX_REPEATS,
    ensures
        ({
            let more = repeats(base, sum, budget, i);
            &&& more.len() <= MAX_REPEATS - i
            &&& forall|j: int|
                0 <= j < more.len() ==> #[trigger] more[j] == base[(i + j) % base.len() as int]
            &&& i + more.len() == MAX_REPEATS || sum + bars_sum(more) + base[(i + more.len())
                % base.len() as int].bars > budget
        }),
    decreases MAX_REPEATS - i,
{
    let more = repeats(base, sum, budget, i);
    let next = base[i % base.len() as int];
    if i < MAX_REPEATS && sum + next.bars <= budget {
        lemma_repeats_cycle(base, sum + next.bars, budget, i + 1);
        let rest = repeats(base, sum + next.bars, budget, i + 1);
        assert(more == seq![next] + rest);
        lemma_run_length(more);
        lemma_run_length(rest);
        assert(more.drop_first() =~= rest);
        assert forall|j: int| 0 <= j < more.len() implies #[trigger] more[j] == base[(i + j)
            % base.len() as int] by {
            if j > 0 {
                assert(more[j] == rest[j - 1]);
                assert(i + 1 + (j - 1) == i + j);
            }
        }
        assert(i + 1 + rest.len() == i + more.len());
    }
}

/// A section with more bars than its functions need plays each function once, in order, and
/// then starts over from the first, as long as the next phrase fits into its bars and no more
/// than 4097 phrases are repeated.
pub proof fn lemma_da_capo(section: SectionView, units: Seq<UnitView>)
    requires
        forall|i: int|
            0 <= i < units.len() ==> (#[trigger] units[i]).functions.len() <= usize::MAX,
        forall|i: int|
            0 <= i < section.unit_indices.len() ==> #[trigger] section.unit_indices[i]
                < units.len(),
        function_count(section, units) > 0,
        run_length(section_phrases(section, units)) < section.bars,
    ensures
        ({
            let all = function_count(section, units);
            let plan = planned(section, units);
            &&& starts_with_each(plan, section, units)
            &&& all <= plan.len() <= all + 4097
            &&& forall|i: int|
                all <= i < plan.len() ==> #[trigger] plan[i] == plan[(i - all) % all]
            &&& plan.len() == all + 4097 || run_length(plan) + plan[(plan.len() - all) % all].bars
                > section.bars
        }),
{
    let phrases = section_phrases(section, units);
    let all = function_count(section, units);
    let budget = section.bars as int;
    let plan = planned(section, units);
    lemma_places(section, units, section.unit_indices.len() as int);
    lemma_run_length(phrases);
    let needed = bars_sum(phrases);
    let more = repeats(phrases, needed, budget, 0);
    lemma_repeats_cycle(phrases, needed, budget, 0);
    assert(plan == phrases + more);
    lemma_run_length(plan);
    lemma_sum_add(phrases, more);
    assert forall|i: int| all <= i < plan.len() implies #[trigger] plan[i] == plan[(i - all)
        % all] by {
        vstd::arithmetic::div_mod::lemma_mod_bound(i - all, all);
        assert(plan[i] == more[i - all]);
        assert(plan[(i - all) % all] == phrases[(i - all) % all]);
    }
    vstd::arithmetic::div_mod::lemma_mod_bound(plan.len() - all, all);
}

proof fn lemma_sum_add(a: Seq<PhraseSpec>, b: Seq<PhraseSpec>)
    ensures
        bars_sum(a + b) == bars_sum(a) + bars_sum(b),
    decreases b.len(),
{
    if b.len() == 0 {
        assert(a + b =~= a);
    } else {
        assert((a + b).drop_last() =~= a + b.drop_last());
        lemma_sum_add(a, b.drop_last());
    }
}

proof fn lemma_sampled_places(phrases: Seq<PhraseSpec>, stride: int, k: int)
    requires
        0 <= k <= phrases.len(),
        stride > 0,
    ensures
        ({
            let s = sampled(phrases, stride, k);
            &&& (s.len() - 1) * stride < k
            &&& k <= s.len() * stride
            &&& forall|j: int|
                0 <= j < s.len() ==> #[trigger] s[j] == phrases[j * stride]
        }),
    decreases k,
{
    let s = sampled(phrases, stride, k);
    if k <= 0 {
        assert(s.len() == 0);
        let none = s.len() as int;
        assert((none - 1) * stride < 0 && none * stride == 0) by (nonlinear_arith)
            requires
                stride > 0,
                none == 0,
        ;
    } else {
        lemma_sampled_places(phrases, stride, k - 1);
        let t = sampled(phrases, stride, k - 1);
        let m = t.len() as int;
        assert((m + 1) * stride == m * stride + stride && (m - 1) * stride == m * stride
            - stride) by (nonlinear_arith);
        if (k - 1) % stride == 0 {
            vstd::arithmetic::div_mod::lemma_fundamental_div_mod(k - 1, stride);
            let q = (k - 1) / stride;
            assert(q == m) by (nonlinear_arith)
                requires
                    k - 1 == stride * q,
                    stride > 0,
                    (m - 1) * stride < k - 1,
                    k - 1 <= m * stride,
            ;
            assert(m * stride == k - 1) by (nonlinear_arith)
                requires
                    q == m,
                    k - 1 == stride * q,
            ;
            assert(s == t.push(phrases[k - 1]));
            assert forall|j: int| 0 <= j < s.len() implies #[trigger] s[j]
                == phrases[j * stride] by {
                if j < m {
                    assert(s[j] == t[j]);
                }
            }
            assert(s.len() - 1 == m);
        } else {
            if m * stride == k - 1 {
                vstd::arithmetic::div_mod::lemma_mod_multiples_basic(m, stride);
            }
            assert(s == t);
            assert forall|j: int| 0 <= j < s.len() implies #[trigger] s[j]
                == phrases[j * stride] by {
                assert(t[j] == phrases[j * stride]);
            }
        }
    }
}

proof fn lemma_shortened_prefix(phrases: Seq<PhraseSpec>, budget: int)
    ensures
        ({
            let s = shortened(phrases, budget);
            &&& s.len() <= phrases.len()
            &&& s == phrases.take(s.len() as int)
            &&& phrases.len() > 0 ==> s.len() > 0
            &&& s.len() <= 1 || bars_sum(s) <= budget
            &&& s.len() < phrases.len() ==> bars_sum(phrases.take(s.len() as int + 1)) > budget
        }),
    decreases phrases.len(),
{
    let s = shortened(phrases, budget);
    if phrases.len() <= 1 || bars_sum(phrases) <= budget {
        assert(phrases.take(phrases.len() as int) =~= phrases);
    } else {
        let rest = phrases.drop_last();
        lemma_shortened_prefix(rest, budget);
        assert(rest.take(s.len() as int) =~= phrases.take(s.len() as int));
        if s.len() < rest.len() {
            assert(rest.take(s.len() as int + 1) =~= phrases.take(s.len() as int + 1));
        } else {
            assert(phrases.take(s.len() as int + 1) =~= phrases);
        }
    }
}

/// A section whose functions need more bars than it has plays every so manieth of them: the
/// distance is what they need over what there is, rounded up. Of these it plays as many, from
/// the first on, as fit into its bars, and one at least.
pub proof fn lemma_sampling(section: SectionView, units: Seq<UnitView>)
    requires
        section.bars > 0,
        run_length(section_phrases(section, units)) > section.bars,
    ensures
        ({
            let all = section_phrases(section, units);
            let needed = run_length(all);
            let budget = section.bars as int;
            let stride = (needed + budget - 1) / budget;
            let plan = planned(section, units);
            &&& 1 <= plan.len()
            &&& forall|j: int|
                0 <= j < plan.len() ==> #[trigger] plan[j] == all[j * stride]
            &&& (plan.len() - 1) * stride < all.len()
            &&& plan.len() == 1 || run_length(plan) <= budget
            &&& plan.len() * stride >= all.len() || run_length(plan) + all[plan.len()
                * stride].bars > budget
        }),
{
    let all = section_phrases(section, units);
    let budget = section.bars as int;
    lemma_run_length(all);
    let needed = bars_sum(all);
    let stride = sample_stride(needed, budget);
    assert(stride > 0) by (nonlinear_arith)
        requires
            needed > budget,
            budget > 0,
            stride == (needed + budget - 1) / budget,
    ;
    let n = all.len() as int;
    let picked = sampled(all, stride, n);
    lemma_sampled_places(all, stride, n);
    lemma_shortened_prefix(picked, budget);
    let plan = planned(section, units);
    assert(n > 0);
    assert(plan == shortened(picked, budget));
    if picked.len() == 0 {
        assert(picked.len() * stride == 0) by (nonlinear_arith)
            requires
                picked.len() == 0,
        ;
    }
    lemma_run_length(plan);
    assert forall|j: int| 0 <= j < plan.len() implies #[trigger] plan[j] == all[j * stride] by {
        assert(plan[j] == picked[j]);
    }
    assert((plan.len() - 1) * stride < all.len()) by (nonlinear_arith)
        requires
            plan.len() <= picked.len(),
            (picked.len() - 1) * stride < all.len(),
            stride > 0,
    ;
    if plan.len() < picked.len() {
        let longer = picked.take(plan.len() as int + 1);
        assert(longer.drop_last() =~= plan);
        assert(bars_sum(longer) == bars_sum(plan) + longer.last().bars);
        assert(longer.last() == picked[plan.len() as int]);
        assert(picked[plan.len() as int] == all[plan.len() * stride]);
    } else {
        assert(plan.len() * stride >= all.len());
    }
}

/// The line about a section tells how many of its functions are played, of how many, and how
/// far apart they stand, if and only if they need more bars than there are.
pub proof fn lemma_line_about_sampling(section: SectionView, units: Seq<UnitView>)
    requires
        section.bars > 0,
    ensures
        ({
            let all = section_phrases(section, units);
            let needed = run_length(all);
            let budget = section.bars as int;
            &&& needed <= budget ==> sample_lines(section, units) == Seq::<Seq<char>>::empty()
            &&& needed > budget ==> sample_lines(section, units) == seq![
                "  "@ + section.name + ": sampled "@ + decimal(planned(section, units).len())
                    + " of "@ + decimal(all.len()) + " motifs (stride "@ + decimal(
                    ((needed + budget - 1) / budget) as nat,
                ) + ")"@,
            ]
        }),
{
    lemma_run_length(section_phrases(section, units));
}

} // verus!
