//! The phrases of a section: one for each function, sampled where the section's bars do
//! not suffice and repeated where they are too many.

use vstd::prelude::*;
use vstd::string::StringExecFns;

use crate::model::{CodeUnit, UnitView};
use crate::sections::{Section, SectionView};
use crate::sorting::views;
use crate::text::{decimal, push_decimal, texts};
use crate::theory::clamp;

verus! {

/// A phrase to be composed: a function of a unit, and how many bars it gets.
#[derive(Debug, Clone, Copy, PartialEq, Eq, Structural)]
pub struct PhraseSpec {
    pub unit: usize,
    pub func: usize,
    pub bars: u32,
}

/// The bars of a function's phrase: one for every eight lines, one to four.
pub open spec fn phrase_bars(lines: u32) -> u32 {
    clamp(lines as int / 8, 1, 4) as u32
}

/// The phrases of a unit.
pub open spec fn unit_phrases(unit: UnitView, index: usize) -> Seq<PhraseSpec> {
    Seq::new(
        unit.functions.len(),
        |f: int|
            PhraseSpec {
                unit: index,
                func: f as usize,
                bars: phrase_bars(unit.functions[f].lines),
            },
    )
}

/// The phrases of the first `k` of the listed units.
pub open spec fn listed_phrases(
    units: Seq<UnitView>,
    indices: Seq<usize>,
    k: int,
) -> Seq<PhraseSpec>
    decreases k,
{
    if k <= 0 {
        seq![]
    } else {
        listed_phrases(units, indices, k - 1) + unit_phrases(
            units[indices[k - 1] as int],
            indices[k - 1],
        )
    }
}

/// The phrases of all functions of a section.
pub open spec fn section_phrases(section: SectionView, units: Seq<UnitView>) -> Seq<PhraseSpec> {
    listed_phrases(units, section.unit_indices, section.unit_indices.len() as int)
}

/// The bars of the phrases.
pub open spec fn bars_sum(phrases: Seq<PhraseSpec>) -> int
    decreases phrases.len(),
{
    if phrases.len() == 0 {
        0
    } else {
        bars_sum(phrases.drop_last()) + phrases.last().bars
    }
}

/// How far apart the sampled phrases stand, so that they about fill the budget.
pub open spec fn sample_stride(needed: int, budget: int) -> int {
    (needed + budget - 1) / budget
}

/// Every phrase among the first `k` whose number is a multiple of the stride.
pub open spec fn sampled(phrases: Seq<PhraseSpec>, stride: int, k: int) -> Seq<PhraseSpec>
    decreases k,
{
    if k <= 0 {
        seq![]
    } else if (k - 1) % stride == 0 {
        sampled(phrases, stride, k - 1).push(phrases[k - 1])
    } else {
        sampled(phrases, stride, k - 1)
    }
}

/// The phrases without the last ones that do not fit into the budget; one is always kept.
pub open spec fn shortened(phrases: Seq<PhraseSpec>, budget: int) -> Seq<PhraseSpec>
    decreases phrases.len(),
{
    if phrases.len() <= 1 || bars_sum(phrases) <= budget {
        phrases
    } else {
        shortened(phrases.drop_last(), budget)
    }
}

/// The most phrases that are repeated.
pub const MAX_REPEATS: usize = 4097;

/// The phrases over again from the `i`th repetition on, while the next one fits into the
/// budget.
pub open spec fn repeats(base: Seq<PhraseSpec>, sum: int, budget: int, i: int) -> Seq<PhraseSpec>
    decreases MAX_REPEATS - i,
{
    let next = base[i % base.len() as int];
    if i >= MAX_REPEATS || sum + next.bars > budget {
        seq![]
    } else {
        seq![next] + repeats(base, sum + next.bars, budget, i + 1)
    }
}

/// The phrases that a section plays.
pub open spec fn planned(section: SectionView, units: Seq<UnitView>) -> Seq<PhraseSpec> {
    let all = section_phrases(section, units);
    let needed = bars_sum(all);
    let budget = section.bars as int;
    if all.len() == 0 {
        all
    } else if needed > budget {
        shortened(sampled(all, sample_stride(needed, budget), all.len() as int), budget)
    } else if needed < budget {
        all + repeats(all, needed, budget, 0)
    } else {
        all
    }
}

/// The line about a section whose functions were sampled.
pub open spec fn sample_lines(section: SectionView, units: Seq<UnitView>) -> Seq<Seq<char>> {
    let all = section_phrases(section, units);
    let needed = bars_sum(all);
    if all.len() > 0 && needed > section.bars {
        seq![
            "  "@ + section.name + ": sampled "@ + decimal(planned(section, units).len()) + " of "@
                + decimal(all.len()) + " motifs (stride "@ + decimal(
                sample_stride(needed, section.bars as int) as nat,
            ) + ")"@,
        ]
    } else {
        seq![]
    }
}

/// Whether the section's units are there.
pub open spec fn section_wf(section: SectionView, units: Seq<UnitView>) -> bool {
    &&& section.bars >= 1
    &&& forall|i: int|
        0 <= i < section.unit_indices.len() ==> #[trigger] section.unit_indices[i] < units.len()
}

/// Whether a phrase is that of a function of a unit.
pub open spec fn phrase_wf(p: PhraseSpec, units: Seq<UnitView>) -> bool {
    &&& p.unit < units.len()
    &&& p.func < units[p.unit as int].functions.len()
    &&& p.bars == phrase_bars(units[p.unit as int].functions[p.func as int].lines)
}

/// Whether all phrases are.
pub open spec fn phrases_wf(phrases: Seq<PhraseSpec>, units: Seq<UnitView>) -> bool {
    forall|i: int| 0 <= i < phrases.len() ==> phrase_wf(#[trigger] phrases[i], units)
}

proof fn lemma_listed_phrases(units: Seq<UnitView>, indices: Seq<usize>, k: int)
    requires
        0 <= k <= indices.len(),
        forall|i: int| 0 <= i < indices.len() ==> #[trigger] indices[i] < units.len(),
        forall|i: int|
            0 <= i < units.len() ==> (#[trigger] units[i]).functions.len() <= usize::MAX,
    ensures
        phrases_wf(listed_phrases(units, indices, k), units),
    decreases k,
{
    if k > 0 {
        lemma_listed_phrases(units, indices, k - 1);
        let before = listed_phrases(units, indices, k - 1);
        let more = unit_phrases(units[indices[k - 1] as int], indices[k - 1]);
        let now = listed_phrases(units, indices, k);
        assert(units[indices[k - 1] as int].functions.len() <= usize::MAX);
        assert forall|i: int| 0 <= i < now.len() implies phrase_wf(#[trigger] now[i], units) by {
            if i < before.len() {
                assert(phrase_wf(before[i], units));
            } else {
                assert(now[i] == more[i - before.len()]);
            }
        }
    }
}

proof fn lemma_bars_sum_push(phrases: Seq<PhraseSpec>, p: PhraseSpec)
    ensures
        bars_sum(phrases.push(p)) == bars_sum(phrases) + p.bars,
{
    assert(phrases.push(p).drop_last() =~= phrases);
}

proof fn lemma_bars_sum_add(a: Seq<PhraseSpec>, b: Seq<PhraseSpec>)
    ensures
        bars_sum(a + b) == bars_sum(a) + bars_sum(b),
    decreases b.len(),
{
    if b.len() == 0 {
        assert(a + b =~= a);
    } else {
        assert((a + b).drop_last() =~= a + b.drop_last());
        lemma_bars_sum_add(a, b.drop_last());
    }
}

proof fn lemma_bars_sum_bounds(phrases: Seq<PhraseSpec>, k: int)
    requires
        0 <= k <= phrases.len(),
    ensures
        0 <= bars_sum(phrases.take(k)) <= bars_sum(phrases),
    decreases phrases.len(),
{
    if k < phrases.len() {
        lemma_bars_sum_bounds(phrases.drop_last(), k);
        assert(phrases.drop_last().take(k) =~= phrases.take(k));
    } else {
        assert(phrases.take(k) =~= phrases);
        if phrases.len() > 0 {
            lemma_bars_sum_bounds(phrases.drop_last(), 0);
            lemma_bars_sum_bounds(phrases.drop_last(), phrases.len() - 1);
        }
    }
}

proof fn lemma_sampled(phrases: Seq<PhraseSpec>, units: Seq<UnitView>, stride: int, k: int)
    requires
        0 <= k <= phrases.len(),
        stride > 0,
        phrases_wf(phrases, units),
    ensures
        phrases_wf(sampled(phrases, stride, k), units),
        sampled(phrases, stride, k).len() <= k,
        k > 0 ==> sampled(phrases, stride, k).len() > 0,
        0 <= bars_sum(sampled(phrases, stride, k)) <= bars_sum(phrases.take(k)),
    decreases k,
{
    assert(phrases.take(0) =~= Seq::<PhraseSpec>::empty());
    if k > 0 {
        lemma_sampled(phrases, units, stride, k - 1);
        assert(phrases.take(k).drop_last() =~= phrases.take(k - 1));
        lemma_bars_sum_push(sampled(phrases, stride, k - 1), phrases[k - 1]);
        assert(phrase_wf(phrases[k - 1], units));
        if k == 1 {
            assert(0int % stride == 0) by (nonlinear_arith)
                requires
                    stride > 0,
            ;
        }
    }
}

proof fn lemma_shortened(phrases: Seq<PhraseSpec>, units: Seq<UnitView>, budget: int)
    requires
        phrases_wf(phrases, units),
    ensures
        phrases_wf(shortened(phrases, budget), units),
        phrases.len() > 0 ==> shortened(phrases, budget).len() > 0,
        shortened(phrases, budget).len() <= 1 || bars_sum(shortened(phrases, budget)) <= budget,
    decreases phrases.len(),
{
    if phrases.len() > 1 && bars_sum(phrases) > budget {
        lemma_shortened(phrases.drop_last(), units, budget);
    }
}

proof fn lemma_repeats(
    base: Seq<PhraseSpec>,
    units: Seq<UnitView>,
    sum: int,
    budget: int,
    i: int,
)
    requires
        phrases_wf(base, units),
        base.len() > 0,
        sum <= budget,
        0 <= i,
    ensures
        phrases_wf(repeats(base, sum, budget, i), units),
        sum + bars_sum(repeats(base, sum, budget, i)) <= budget,
    decreases MAX_REPEATS - i,
{
    let next = base[i % base.len() as int];
    assert(0 <= i % base.len() as int && i % base.len() as int <= base.len() - 1) by {
        vstd::arithmetic::div_mod::lemma_mod_bound(i, base.len() as int);
    }
    if i < MAX_REPEATS && sum + next.bars <= budget {
        lemma_repeats(base, units, sum + next.bars, budget, i + 1);
        let rest = repeats(base, sum + next.bars, budget, i + 1);
        lemma_bars_sum_add(seq![next], rest);
        lemma_bars_sum_push(seq![], next);
        assert(Seq::<PhraseSpec>::empty().push(next) =~= seq![next]);
        let all = seq![next] + rest;
        assert forall|j: int| 0 <= j < all.len() implies phrase_wf(#[trigger] all[j], units) by {
            if j > 0 {
                assert(all[j] == rest[j - 1]);
            } else {
                assert(phrase_wf(base[i % base.len() as int], units));
            }
        }
    }
}

/// A section plays phrases of its functions, at least one if it has any, and no more bars
/// of them than planned, unless it plays a single phrase.
pub proof fn lemma_planned(section: SectionView, units: Seq<UnitView>)
    requires
        section_wf(section, units),
        forall|i: int|
            0 <= i < units.len() ==> (#[trigger] units[i]).functions.len() <= usize::MAX,
    ensures
        phrases_wf(planned(section, units), units),
        section_phrases(section, units).len() > 0 ==> planned(section, units).len() > 0,
        bars_sum(planned(section, units)) <= section.bars || planned(section, units).len() == 1,
{
    let all = section_phrases(section, units);
    let needed = bars_sum(all);
    let budget = section.bars as int;
    lemma_listed_phrases(units, section.unit_indices, section.unit_indices.len() as int);
    if all.len() > 0 {
        if needed > budget {
            lemma_stride(needed, budget);
            let stride = sample_stride(needed, budget);
            lemma_sampled(all, units, stride, all.len() as int);
            lemma_shortened(sampled(all, stride, all.len() as int), units, budget);
        } else if needed < budget {
            lemma_repeats(all, units, needed, budget, 0);
            lemma_bars_sum_add(all, repeats(all, needed, budget, 0));
            let p = planned(section, units);
            assert forall|j: int| 0 <= j < p.len() implies phrase_wf(#[trigger] p[j], units) by {
                if j >= all.len() {
                    assert(p[j] == repeats(all, needed, budget, 0)[j - all.len()]);
                } else {
                    assert(phrase_wf(all[j], units));
                }
            }
        }
    }
}

proof fn lemma_stride(needed: int, budget: int)
    requires
        1 <= budget < needed,
    ensures
        1 <= sample_stride(needed, budget) <= needed,
{
    assert(1 <= (needed + budget - 1) / budget <= needed) by (nonlinear_arith)
        requires
            1 <= budget < needed,
    ;
}

/// The bars of a function's phrase.
fn bars_for(lines: u32) -> (r: u32)
    ensures
        r == phrase_bars(lines),
        1 <= r <= 4,
{
    let n: u32 = lines / 8;
    if n < 1 {
        1
    } else if n > 4 {
        4
    } else {
        n
    }
}

/// Whether the bars of all functions of a section can be counted in 32 bits.
pub fn phrases_countable(section: &Section, units: &[CodeUnit]) -> (r: bool)
    requires
        section_wf(section@, views(units@)),
    ensures
        r == (bars_sum(section_phrases(section@, views(units@))) <= u32::MAX),
{
    let ghost every = views(units@);
    let ghost sec = section@;
    let ghost count = sec.unit_indices.len() as int;
    let mut needed: u64 = 0;
    for k in 0..section.unit_indices.len()
        invariant
            every == views(units@),
            sec == section@,
            section_wf(sec, every),
            count == section.unit_indices@.len(),
            needed == bars_sum(listed_phrases(every, sec.unit_indices, k as int)),
            needed <= u32::MAX,
    {
        let index: usize = section.unit_indices[k];
        assert(sec.unit_indices[k as int] < every.len());
        assert(every[index as int] == units@[index as int]@);
        let ghost before = listed_phrases(every, sec.unit_indices, k as int);
        let ghost more = unit_phrases(every[index as int], index);
        assert(before + more.take(0) =~= before);
        proof {
            lemma_listed_prefix(every, sec.unit_indices, k + 1, count);
        }
        let functions: usize = units[index].functions.len();
        for f in 0..functions
            invariant
                every == views(units@),
                sec == section@,
                index < units@.len(),
                functions == units@[index as int].functions@.len(),
                every[index as int] == units@[index as int]@,
                more == unit_phrases(every[index as int], index),
                needed == bars_sum(before + more.take(f as int)),
                needed <= u32::MAX,
                bars_sum(before + more) <= bars_sum(section_phrases(sec, every)),
        {
            let bars: u32 = bars_for(units[index].functions[f].lines);
            proof {
                let mid = before + more.take(f as int);
                assert(more.take(f + 1) =~= more.take(f as int).push(more[f as int]));
                assert(before + more.take(f + 1) =~= mid.push(more[f as int]));
                lemma_bars_sum_push(mid, more[f as int]);
                assert((before + more).take(before.len() + f + 1) =~= before + more.take(f + 1));
                lemma_bars_sum_bounds(before + more, before.len() + f + 1);
            }
            needed = needed + bars as u64;
            if needed > 0xffff_ffff {
                return false;
            }
        }
        assert(more.take(more.len() as int) =~= more);
    }
    true
}

/// Plans the phrases of a section.
pub fn plan_phrases(section: &Section, units: &[CodeUnit], liner: &mut Vec<String>) -> (r: Vec<
    PhraseSpec,
>)
    requires
        section_wf(section@, views(units@)),
        bars_sum(section_phrases(section@, views(units@))) <= u32::MAX,
    ensures
        r@ == planned(section@, views(units@)),
        texts(final(liner)@) == texts(old(liner)@) + sample_lines(section@, views(units@)),
{
    let ghost every = views(units@);
    let ghost sec = section@;
    let ghost full = section_phrases(sec, every);
    let ghost count = sec.unit_indices.len() as int;
    let mut all: Vec<PhraseSpec> = Vec::new();
    let mut needed: u32 = 0;
    for k in 0..section.unit_indices.len()
        invariant
            every == views(units@),
            sec == section@,
            section_wf(sec, every),
            full == section_phrases(sec, every),
            count == section.unit_indices@.len(),
            bars_sum(full) <= u32::MAX,
            all@ == listed_phrases(every, sec.unit_indices, k as int),
            needed == bars_sum(all@),
    {
        let index: usize = section.unit_indices[k];
        assert(sec.unit_indices[k as int] < every.len());
        assert(every[index as int] == units@[index as int]@);
        let ghost before = all@;
        let ghost more = unit_phrases(every[index as int], index);
        assert(more.take(0) =~= Seq::<PhraseSpec>::empty());
        assert(before + more.take(0) =~= before);
        proof {
            lemma_listed_prefix(every, sec.unit_indices, k + 1, count);
        }
        let functions: usize = units[index].functions.len();
        for f in 0..functions
            invariant
                every == views(units@),
                index < units@.len(),
                functions == units@[index as int].functions@.len(),
                every[index as int] == units@[index as int]@,
                more == unit_phrases(every[index as int], index),
                all@ == before + more.take(f as int),
                needed == bars_sum(all@),
                bars_sum(before + more) <= u32::MAX,
        {
            let bars: u32 = bars_for(units[index].functions[f].lines);
            let ghost mid = all@;
            proof {
                assert(more.take(f + 1) =~= more.take(f as int).push(more[f as int]));
                assert(before + more.take(f + 1) =~= mid.push(more[f as int]));
                lemma_bars_sum_push(mid, more[f as int]);
                assert((before + more).take(before.len() + f + 1) =~= before + more.take(f + 1));
                lemma_bars_sum_bounds(before + more, before.len() + f + 1);
            }
            needed = needed + bars;
            all.push(PhraseSpec { unit: index, func: f, bars });
        }
        proof {
            assert(more.take(more.len() as int) =~= more);
            assert(all@ == listed_phrases(every, sec.unit_indices, k + 1));
        }
    }
    proof {
        assert forall|i: int| 0 <= i < every.len() implies (#[trigger] every[i]).functions.len()
            <= usize::MAX by {
            assert(every[i] == units@[i]@);
            assert(units@[i].functions@.len() == units@[i].functions.len());
        }
        lemma_listed_phrases(every, sec.unit_indices, count);
    }
    if all.len() == 0 {
        assert(texts(liner@) =~= texts(liner@) + sample_lines(sec, every));
        return all;
    }
    let budget: u32 = section.bars;
    let ghost said = texts(liner@);
    if needed > budget {
        proof {
            lemma_stride(needed as int, budget as int);
            let far = sample_stride(needed as int, budget as int);
            lemma_sampled(full, every, far, full.len() as int);
        }
        let stride: u64 = (needed as u64 + budget as u64 - 1) / budget as u64;
        let mut kept: Vec<PhraseSpec> = Vec::new();
        let mut sum: u32 = 0;
        for i in 0..all.len()
            invariant
                all@ == full,
                stride > 0,
                kept@ == sampled(full, stride as int, i as int),
                sum == bars_sum(kept@),
                phrases_wf(full, every),
                bars_sum(full) <= u32::MAX,
        {
            proof {
                lemma_sampled(full, every, stride as int, i + 1);
                lemma_bars_sum_bounds(full, i + 1);
                lemma_bars_sum_push(kept@, full[i as int]);
            }
            if (i as u64) % stride == 0 {
                sum = sum + all[i].bars;
                kept.push(all[i]);
            }
        }
        while sum > budget && kept.len() > 1
            invariant
                sum == bars_sum(kept@),
                shortened(kept@, budget as int) == shortened(
                    sampled(full, stride as int, full.len() as int),
                    budget as int,
                ),
            decreases kept@.len(),
        {
            let ghost before = kept@;
            proof {
                lemma_bars_sum_bounds(before.drop_last(), 0);
            }
            match kept.pop() {
                Some(p) => {
                    sum = sum - p.bars;
                },
                None => {},
            }
        }
        let mut line = String::from_str("  ");
        line.append(section.name.as_str());
        line.append(": sampled ");
        push_decimal(&mut line, kept.len() as u64);
        line.append(" of ");
        push_decimal(&mut line, all.len() as u64);
        line.append(" motifs (stride ");
        push_decimal(&mut line, stride);
        line.append(")");
        liner.push(line);
        assert(texts(liner@) =~= said + sample_lines(sec, every));
        return kept;
    }
    if needed < budget {
        let base: usize = all.len();
        let mut sum: u32 = needed;
        let mut i: usize = 0;
        proof {
            assert(full + repeats(full, needed as int, budget as int, 0) =~= all@ + repeats(
                full,
                sum as int,
                budget as int,
                i as int,
            ));
        }
        loop
            invariant_except_break
                base == full.len(),
                base > 0,
                i <= MAX_REPEATS,
                all@.len() == base + i,
                sum <= budget,
                forall|j: int| 0 <= j < base ==> #[trigger] all@[j] == full[j],
                all@ + repeats(full, sum as int, budget as int, i as int) == full + repeats(
                    full,
                    needed as int,
                    budget as int,
                    0,
                ),
            ensures
                all@ == full + repeats(full, needed as int, budget as int, 0),
            decreases MAX_REPEATS - i,
        {
            let next: PhraseSpec = all[i % base];
            assert(next == full[i as int % base as int]);
            let ghost before = all@;
            if i >= MAX_REPEATS || next.bars > budget - sum {
                assert(all@ + Seq::<PhraseSpec>::empty() =~= all@);
                break ;
            }
            all.push(next);
            sum = sum + next.bars;
            proof {
                let rest = repeats(full, sum as int, budget as int, i + 1);
                assert(before + (seq![next] + rest) =~= all@ + rest);
            }
            i = i + 1;
        }
    }
    assert(texts(liner@) =~= texts(liner@) + sample_lines(sec, every));
    all
}

/// The phrases of the first units are the first of the phrases of all.
proof fn lemma_listed_prefix(units: Seq<UnitView>, indices: Seq<usize>, a: int, b: int)
    requires
        0 <= a <= b,
    ensures
        listed_phrases(units, indices, a).len() <= listed_phrases(units, indices, b).len(),
        listed_phrases(units, indices, a) == listed_phrases(units, indices, b).take(
            listed_phrases(units, indices, a).len() as int,
        ),
        0 <= bars_sum(listed_phrases(units, indices, a)) <= bars_sum(
            listed_phrases(units, indices, b),
        ),
    decreases b,
{
    let pa = listed_phrases(units, indices, a);
    let pb = listed_phrases(units, indices, b);
    if a < b {
        lemma_listed_prefix(units, indices, a, b - 1);
        let mid = listed_phrases(units, indices, b - 1);
        assert(pb.take(pa.len() as int) =~= mid.take(pa.len() as int));
    } else {
        assert(pb.take(pa.len() as int) =~= pa);
    }
    lemma_bars_sum_bounds(pb, pa.len() as int);
}

} // verus!
