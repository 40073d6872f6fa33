//! The plan of a static piece: the top-level directories become sections, with bars by
//! their lines of code, and the functions of a section become its phrases.

use vstd::prelude::*;

use crate::model::{CodeUnit, UnitView};
use crate::paths::{top_directory, top_of};
use crate::sorting::{comes_before, lemma_lex_total, lemma_lex_transitive, lex_before, views};
use crate::text::{char_lists, chars_of, code_points, codes, part, same_chars, string_of};

verus! {

/// A section of a static piece.
pub struct Section {
    pub name: String,
    pub unit_indices: Vec<usize>,
    pub loc: u64,
    pub bars: u32,
}

/// What a `Section` says.
#[verifier::ext_equal]
pub struct SectionView {
    pub name: Seq<char>,
    pub unit_indices: Seq<usize>,
    pub loc: u64,
    pub bars: u32,
}

impl View for Section {
    type V = SectionView;

    open spec fn view(&self) -> SectionView {
        SectionView {
            name: self.name@,
            unit_indices: self.unit_indices@,
            loc: self.loc,
            bars: self.bars,
        }
    }
}

/// The names with `x` in its place, unless it is there already.
pub open spec fn name_added(names: Seq<Seq<char>>, x: Seq<char>) -> Seq<Seq<char>>
    decreases names.len(),
{
    if names.len() == 0 || lex_before(codes(names.last()), codes(x)) {
        names.push(x)
    } else if names.last() == x {
        names
    } else {
        name_added(names.drop_last(), x).push(names.last())
    }
}

/// The top-level directories of the first `k` units, in the order of their names.
pub open spec fn section_names(units: Seq<UnitView>, k: int) -> Seq<Seq<char>>
    decreases k,
{
    if k <= 0 {
        seq![]
    } else {
        name_added(section_names(units, k - 1), top_directory(units[k - 1].path))
    }
}

/// The numbers of the units below a top-level directory, among the first `k`.
pub open spec fn units_under(units: Seq<UnitView>, name: Seq<char>, k: int) -> Seq<usize>
    decreases k,
{
    if k <= 0 {
        seq![]
    } else if top_directory(units[k - 1].path) == name {
        units_under(units, name, k - 1).push((k - 1) as usize)
    } else {
        units_under(units, name, k - 1)
    }
}

/// The lines of code below a top-level directory, in the first `k` units.
pub open spec fn loc_under(units: Seq<UnitView>, name: Seq<char>, k: int) -> int
    decreases k,
{
    if k <= 0 {
        0
    } else if top_directory(units[k - 1].path) == name {
        loc_under(units, name, k - 1) + units[k - 1].loc
    } else {
        loc_under(units, name, k - 1)
    }
}

/// The lines of code in the first `k` units.
pub open spec fn loc_sum(units: Seq<UnitView>, k: int) -> int
    decreases k,
{
    if k <= 0 {
        0
    } else {
        loc_sum(units, k - 1) + units[k - 1].loc
    }
}

/// A section's share of the bars, by its lines of code; at least one.
pub open spec fn bar_share(loc: int, total_loc: int, total_bars: int) -> int {
    let all = if total_loc > 0 {
        total_loc
    } else {
        1
    };
    let share = (loc * total_bars) / all;
    if share < 1 {
        1
    } else {
        share
    }
}

/// The shares of the sections.
pub open spec fn bar_shares(units: Seq<UnitView>, total_bars: int) -> Seq<int> {
    let n = units.len() as int;
    section_names(units, n).map_values(
        |name: Seq<char>| bar_share(loc_under(units, name, n), loc_sum(units, n), total_bars),
    )
}

/// The sum of the first `k` shares.
pub open spec fn share_sum(shares: Seq<int>, k: int) -> int
    decreases k,
{
    if k <= 0 {
        0
    } else {
        share_sum(shares, k - 1) + shares[k - 1]
    }
}

/// The last of the largest shares above one, among the first `k`; -1 if there is none.
pub open spec fn widest(shares: Seq<int>, k: int) -> int
    decreases k,
{
    if k <= 0 {
        -1
    } else {
        let best = widest(shares, k - 1);
        if shares[k - 1] > 1 && (best < 0 || shares[k - 1] >= shares[best]) {
            k - 1
        } else {
            best
        }
    }
}

/// The shares with `excess` bars taken away, one at a time from the largest, as long as
/// one of them is above one.
pub open spec fn shares_cut(shares: Seq<int>, excess: nat) -> Seq<int>
    decreases excess,
{
    let i = widest(shares, shares.len() as int);
    if excess == 0 || i < 0 {
        shares
    } else {
        shares_cut(shares.update(i, shares[i] - 1), (excess - 1) as nat)
    }
}

/// The bars of the sections: their shares, cut where they add up to more than the total.
pub open spec fn section_bars(units: Seq<UnitView>, total_bars: int) -> Seq<int> {
    let shares = bar_shares(units, total_bars);
    let sum = share_sum(shares, shares.len() as int);
    if sum > total_bars {
        shares_cut(shares, (sum - total_bars) as nat)
    } else {
        shares
    }
}

/// The sections of a piece.
pub open spec fn sections(units: Seq<UnitView>, total_bars: int) -> Seq<SectionView> {
    let n = units.len() as int;
    let names = section_names(units, n);
    Seq::new(
        names.len(),
        |i: int|
            SectionView {
                name: names[i],
                unit_indices: units_under(units, names[i], n),
                loc: loc_under(units, names[i], n) as u64,
                bars: section_bars(units, total_bars)[i] as u32,
            },
    )
}

/// Whether the names stand in rising order.
pub open spec fn names_rise(names: Seq<Seq<char>>) -> bool {
    forall|i: int, j: int|
        0 <= i < j < names.len() ==> lex_before(
            codes(#[trigger] names[i]),
            codes(#[trigger] names[j]),
        )
}

proof fn lemma_codes(a: Seq<char>, b: Seq<char>)
    ensures
        codes(a) == codes(b) ==> a == b,
{
    if codes(a) == codes(b) {
        assert(a.len() == codes(a).len() && b.len() == codes(b).len());
        assert forall|i: int| 0 <= i < a.len() implies a[i] == b[i] by {
            assert(codes(a)[i] == a[i] as u32 && codes(b)[i] == b[i] as u32);
            vstd::utf8::char_u32_cast(a[i], codes(a)[i]);
            vstd::utf8::char_u32_cast(b[i], codes(b)[i]);
        }
        assert(a =~= b);
    }
}

proof fn lemma_name_added(names: Seq<Seq<char>>, x: Seq<char>)
    requires
        names_rise(names),
    ensures
        names_rise(name_added(names, x)),
        forall|y: Seq<char>|
            #[trigger] name_added(names, x).contains(y) <==> names.contains(y) || y == x,
        name_added(names, x).len() <= names.len() + 1,
    decreases names.len(),
{
    let t = name_added(names, x);
    if names.len() == 0 || lex_before(codes(names.last()), codes(x)) {
        assert forall|i: int, j: int| 0 <= i < j < t.len() implies lex_before(
            codes(#[trigger] t[i]),
            codes(#[trigger] t[j]),
        ) by {
            if j < names.len() {
                assert(lex_before(codes(names[i]), codes(names[j])));
            } else if i < names.len() - 1 {
                assert(lex_before(codes(names[i]), codes(names[names.len() - 1])));
                lemma_lex_transitive(codes(names[i]), codes(names.last()), codes(x));
            }
        }
        lemma_contains_push(names, x);
    } else if names.last() == x {
        assert(names[names.len() - 1] == x);
    } else {
        let r = names.drop_last();
        let last = names.last();
        assert forall|i: int, j: int| 0 <= i < j < r.len() implies lex_before(
            codes(#[trigger] r[i]),
            codes(#[trigger] r[j]),
        ) by {
            assert(lex_before(codes(names[i]), codes(names[j])));
        }
        lemma_name_added(r, x);
        let u = name_added(r, x);
        lemma_contains_push(u, last);
        lemma_contains_push(r, last);
        assert(r.push(last) =~= names);
        lemma_lex_total(codes(last), codes(x));
        lemma_codes(last, x);
        assert forall|i: int, j: int| 0 <= i < j < t.len() implies lex_before(
            codes(#[trigger] t[i]),
            codes(#[trigger] t[j]),
        ) by {
            if j < u.len() {
                assert(lex_before(codes(u[i]), codes(u[j])));
            } else {
                assert(u.contains(u[i]));
                if u[i] != x {
                    let k = choose|k: int| 0 <= k < r.len() && r[k] == u[i];
                    assert(lex_before(codes(names[k]), codes(names[names.len() - 1])));
                }
            }
        }
    }
}

proof fn lemma_contains_push(names: Seq<Seq<char>>, x: Seq<char>)
    ensures
        forall|y: Seq<char>| #[trigger] names.push(x).contains(y) <==> names.contains(y) || y == x,
{
    assert forall|y: Seq<char>| #[trigger] names.push(x).contains(y) <==> names.contains(y) || y
        == x by {
        let t = names.push(x);
        if t.contains(y) {
            let i = choose|i: int| 0 <= i < t.len() && t[i] == y;
            if i < names.len() {
                assert(names[i] == y);
            }
        }
        if names.contains(y) {
            let i = choose|i: int| 0 <= i < names.len() && names[i] == y;
            assert(t[i] == y);
        }
        assert(t[names.len() as int] == x);
    }
}

/// The sections are the top-level directories of the units, each once, in the order of
/// their names.
pub proof fn lemma_section_names(units: Seq<UnitView>, k: int)
    requires
        0 <= k <= units.len(),
    ensures
        names_rise(section_names(units, k)),
        section_names(units, k).len() <= k,
        forall|i: int|
            0 <= i < k ==> section_names(units, k).contains(
                top_directory((#[trigger] units[i]).path),
            ),
        forall|i: int|
            #![trigger section_names(units, k)[i]]
            0 <= i < section_names(units, k).len() ==> exists|j: int|
                0 <= j < k && top_directory((#[trigger] units[j]).path) == section_names(
                    units,
                    k,
                )[i],
    decreases k,
{
    if k > 0 {
        lemma_section_names(units, k - 1);
        let before = section_names(units, k - 1);
        let x = top_directory(units[k - 1].path);
        lemma_name_added(before, x);
        let now = section_names(units, k);
        assert forall|i: int| 0 <= i < k implies now.contains(
            top_directory((#[trigger] units[i]).path),
        ) by {
            if i < k - 1 {
                assert(before.contains(top_directory(units[i].path)));
            }
        }
        assert forall|i: int| 0 <= i < now.len() implies exists|j: int|
            0 <= j < k && top_directory((#[trigger] units[j]).path) == #[trigger] now[i] by {
            assert(now.contains(now[i]));
            if now[i] == x {
                assert(top_directory(units[k - 1].path) == now[i]);
            } else {
                assert(before.contains(now[i]));
                let m = choose|m: int| 0 <= m < before.len() && before[m] == now[i];
                let j = choose|j: int|
                    0 <= j < k - 1 && top_directory((#[trigger] units[j]).path) == before[m];
                assert(top_directory(units[j].path) == now[i]);
            }
        }
    }
}

proof fn lemma_loc_under(units: Seq<UnitView>, name: Seq<char>, k: int)
    requires
        0 <= k <= units.len(),
    ensures
        0 <= loc_under(units, name, k) <= loc_sum(units, k),
    decreases k,
{
    if k > 0 {
        lemma_loc_under(units, name, k - 1);
    }
}

proof fn lemma_loc_sum(units: Seq<UnitView>, a: int, b: int)
    requires
        0 <= a <= b <= units.len(),
    ensures
        0 <= loc_sum(units, a) <= loc_sum(units, b),
    decreases b,
{
    if a < b {
        lemma_loc_sum(units, a, b - 1);
    } else if b > 0 {
        lemma_loc_sum(units, b - 1, b - 1);
    }
}

/// A unit belongs to the section of its top-level directory and to no other, and the
/// numbers of a section's units rise.
pub proof fn lemma_units_under(units: Seq<UnitView>, name: Seq<char>, k: int)
    requires
        0 <= k <= units.len() <= usize::MAX,
    ensures
        forall|i: int|
            #![trigger units_under(units, name, k)[i]]
            0 <= i < units_under(units, name, k).len() ==> units_under(units, name, k)[i] < k
                && top_directory(units[units_under(units, name, k)[i] as int].path) == name,
        forall|i: int, j: int|
            #![trigger units_under(units, name, k)[i], units_under(units, name, k)[j]]
            0 <= i < j < units_under(units, name, k).len() ==> units_under(units, name, k)[i]
                < units_under(units, name, k)[j],
        forall|i: usize|
            i < k && top_directory((#[trigger] units[i as int]).path) == name ==> units_under(
                units,
                name,
                k,
            ).contains(i),
    decreases k,
{
    if k > 0 {
        lemma_units_under(units, name, k - 1);
        let before = units_under(units, name, k - 1);
        let now = units_under(units, name, k);
        assert forall|i: usize|
            i < k && top_directory((#[trigger] units[i as int]).path)
                == name implies now.contains(i) by {
            if i < k - 1 {
                assert(before.contains(i));
                let j = choose|j: int| 0 <= j < before.len() && before[j] == i;
                assert(now[j] == i);
            } else {
                assert(now[before.len() as int] == i);
            }
        }
    }
}

proof fn lemma_bar_share(loc: int, total_loc: int, total_bars: int)
    requires
        0 <= loc <= total_loc,
        0 <= total_bars,
    ensures
        1 <= bar_share(loc, total_loc, total_bars),
        bar_share(loc, total_loc, total_bars) <= total_bars || bar_share(
            loc,
            total_loc,
            total_bars,
        ) == 1,
{
    let all = if total_loc > 0 {
        total_loc
    } else {
        1
    };
    assert(loc * total_bars <= total_bars * all) by (nonlinear_arith)
        requires
            0 <= loc <= all,
            0 <= total_bars,
    ;
    assert((loc * total_bars) / all <= total_bars) by (nonlinear_arith)
        requires
            loc * total_bars <= total_bars * all,
            all > 0,
    ;
}

proof fn lemma_widest(shares: Seq<int>, k: int)
    requires
        0 <= k <= shares.len(),
    ensures
        -1 <= widest(shares, k) < k,
        widest(shares, k) >= 0 ==> shares[widest(shares, k)] > 1,
        widest(shares, k) < 0 ==> forall|i: int| 0 <= i < k ==> #[trigger] shares[i] <= 1,
    decreases k,
{
    if k > 0 {
        lemma_widest(shares, k - 1);
    }
}

proof fn lemma_share_update(shares: Seq<int>, i: int, k: int)
    requires
        0 <= i < shares.len(),
        0 <= k <= shares.len(),
    ensures
        share_sum(shares.update(i, shares[i] - 1), k) == share_sum(shares, k) - if i < k {
            1int
        } else {
            0
        },
    decreases k,
{
    if k > 0 {
        lemma_share_update(shares, i, k - 1);
    }
}

proof fn lemma_shares_cut(shares: Seq<int>, excess: nat)
    requires
        forall|i: int| 0 <= i < shares.len() ==> #[trigger] shares[i] >= 1,
    ensures
        ({
            let cut = shares_cut(shares, excess);
            let n = shares.len() as int;
            &&& cut.len() == n
            &&& forall|i: int| 0 <= i < n ==> 1 <= #[trigger] cut[i] <= shares[i]
            &&& share_sum(cut, n) == share_sum(shares, n) - excess || (share_sum(cut, n) == n
                && share_sum(cut, n) >= share_sum(shares, n) - excess)
        }),
    decreases excess,
{
    let n = shares.len() as int;
    let i = widest(shares, n);
    lemma_widest(shares, n);
    if excess > 0 && i >= 0 {
        let next = shares.update(i, shares[i] - 1);
        lemma_share_update(shares, i, n);
        lemma_shares_cut(next, (excess - 1) as nat);
        let cut = shares_cut(shares, excess);
        assert forall|j: int| 0 <= j < n implies 1 <= #[trigger] cut[j] <= shares[j] by {
            assert(1 <= cut[j] <= next[j]);
        }
    } else if excess > 0 {
        lemma_all_one(shares, n);
    }
}

proof fn lemma_all_one(shares: Seq<int>, k: int)
    requires
        0 <= k <= shares.len(),
        forall|i: int| 0 <= i < shares.len() ==> #[trigger] shares[i] == 1,
    ensures
        share_sum(shares, k) == k,
    decreases k,
{
    if k > 0 {
        lemma_all_one(shares, k - 1);
    }
}

/// Every section has at least one bar, and together they have no more bars than planned,
/// unless there are more sections than bars: then each has exactly one.
pub proof fn lemma_section_bars(units: Seq<UnitView>, total_bars: int)
    requires
        0 <= total_bars,
    ensures
        ({
            let bars = section_bars(units, total_bars);
            let n = section_names(units, units.len() as int).len() as int;
            &&& bars.len() == n
            &&& forall|i: int| 0 <= i < n ==> 1 <= #[trigger] bars[i]
            &&& forall|i: int| 0 <= i < n ==> #[trigger] bars[i] <= total_bars || bars[i] == 1
            &&& share_sum(bars, n) <= total_bars || share_sum(bars, n) == n
        }),
{
    let k = units.len() as int;
    let names = section_names(units, k);
    let shares = bar_shares(units, total_bars);
    assert forall|i: int| 0 <= i < shares.len() implies 1 <= #[trigger] shares[i] && (shares[i]
        <= total_bars || shares[i] == 1) by {
        lemma_loc_under(units, names[i], k);
        lemma_bar_share(loc_under(units, names[i], k), loc_sum(units, k), total_bars);
    }
    let sum = share_sum(shares, shares.len() as int);
    if sum > total_bars {
        lemma_shares_cut(shares, (sum - total_bars) as nat);
        let bars = section_bars(units, total_bars);
        assert forall|i: int| 0 <= i < bars.len() implies #[trigger] bars[i] <= total_bars
            || bars[i] == 1 by {
            assert(1 <= bars[i] <= shares[i]);
        }
    }
}

/// Adds a name in its place, unless it is there already.
fn add_name(names: &mut Vec<Vec<char>>, x: &Vec<char>)
    ensures
        char_lists(final(names)@) == name_added(char_lists(old(names)@), x@),
{
    let ghost all = char_lists(names@);
    let code: Vec<u32> = code_points(x.as_slice());
    let mut i: usize = names.len();
    assert(all.take(i as int) =~= all);
    assert(name_added(all, x@) =~= name_added(all.take(i as int), x@) + all.skip(i as int));
    while i > 0 && !comes_before(code_points(names[i - 1].as_slice()).as_slice(), code.as_slice())
        invariant
            i <= names@.len(),
            names@ == old(names)@,
            all == char_lists(names@),
            code@ == codes(x@),
            name_added(all, x@) == name_added(all.take(i as int), x@) + all.skip(i as int),
        decreases i,
    {
        assert(all[i - 1] == names@[i - 1]@);
        assert(all.take(i as int).last() == all[i - 1]);
        if same_chars(names[i - 1].as_slice(), x.as_slice()) {
            assert(all.take(i as int) + all.skip(i as int) =~= all);
            return ;
        }
        proof {
            assert(all.take(i as int).drop_last() =~= all.take(i - 1));
            assert(name_added(all.take(i as int), x@) + all.skip(i as int) =~= name_added(
                all.take(i - 1),
                x@,
            ) + all.skip(i - 1));
        }
        i = i - 1;
    }
    proof {
        if i > 0 {
            assert(all[i - 1] == names@[i - 1]@);
            assert(all.take(i as int).last() == all[i - 1]);
        }
        assert(name_added(all, x@) =~= all.take(i as int).push(x@) + all.skip(i as int));
    }
    let copy: Vec<char> = part(x.as_slice(), 0, x.len());
    assert(copy@ =~= x@);
    names.insert(i, copy);
    assert(char_lists(names@) =~= all.take(i as int).push(x@) + all.skip(i as int));
}

/// Cuts the shares of the sections down to the planned bars.
fn cut_shares(shares: &mut Vec<u64>, excess: u128)
    ensures
        final(shares)@.len() == old(shares)@.len(),
        final(shares)@.map_values(|b: u64| b as int) == shares_cut(
            old(shares)@.map_values(|b: u64| b as int),
            excess as nat,
        ),
{
    let ghost start = shares@.map_values(|b: u64| b as int);
    let mut left: u128 = excess;
    let mut open: bool = true;
    while left > 0 && open
        invariant
            shares@.len() == old(shares)@.len(),
            shares_cut(start, excess as nat) == shares_cut(
                shares@.map_values(|b: u64| b as int),
                left as nat,
            ),
            !open ==> widest(shares@.map_values(|b: u64| b as int), shares@.len() as int) < 0,
        decreases left, open as int,
    {
        let ghost now = shares@.map_values(|b: u64| b as int);
        let n: usize = shares.len();
        let mut best: usize = n;
        for i in 0..n
            invariant
                n == shares@.len(),
                now == shares@.map_values(|b: u64| b as int),
                best <= n,
                best == n ==> widest(now, i as int) < 0,
                best < n ==> best == widest(now, i as int) && best < i,
        {
            if shares[i] > 1 && (best == n || shares[i] >= shares[best]) {
                best = i;
            }
        }
        if best == n {
            open = false;
        } else {
            proof {
                lemma_widest(now, n as int);
            }
            let b: u64 = shares[best];
            shares.set(best, b - 1);
            left = left - 1;
            assert(shares@.map_values(|b: u64| b as int) =~= now.update(best as int, b - 1));
        }
    }
}

/// Plans the sections of a piece: one for each top-level directory, with bars in proportion
/// to the lines of code.
pub fn plan_sections(units: &[CodeUnit], total_bars: u32) -> (r: Vec<Section>)
    requires
        loc_sum(views(units@), units@.len() as int) <= u64::MAX,
    ensures
        views(r@) == sections(views(units@), total_bars as int),
{
    let ghost all = views(units@);
    let ghost n = units@.len() as int;
    let mut tops: Vec<Vec<char>> = Vec::new();
    let mut names: Vec<Vec<char>> = Vec::new();
    let mut total_loc: u64 = 0;
    assert(char_lists(names@) =~= section_names(all, 0));
    for i in 0..units.len()
        invariant
            all == views(units@),
            n == units@.len(),
            loc_sum(all, n) <= u64::MAX,
            tops@.len() == i,
            forall|j: int| 0 <= j < i ==> (#[trigger] tops@[j])@ == top_directory(all[j].path),
            char_lists(names@) == section_names(all, i as int),
            total_loc == loc_sum(all, i as int),
    {
        assert(all[i as int] == units@[i as int]@);
        proof {
            lemma_loc_sum(all, i + 1, n);
        }
        let top: Vec<char> = top_of(chars_of(units[i].path.as_str()).as_slice());
        add_name(&mut names, &top);
        tops.push(top);
        total_loc = total_loc + units[i].loc as u64;
    }
    let whole: u128 = if total_loc > 0 {
        total_loc as u128
    } else {
        1
    };
    let ghost heads = section_names(all, n);
    let ghost shares_wanted = bar_shares(all, total_bars as int);
    let mut groups: Vec<Vec<usize>> = Vec::new();
    let mut locs: Vec<u64> = Vec::new();
    let mut shares: Vec<u64> = Vec::new();
    let mut allocated: u128 = 0;
    for s in 0..names.len()
        invariant
            all == views(units@),
            n == units@.len(),
            loc_sum(all, n) <= u64::MAX,
            total_loc == loc_sum(all, n),
            whole == (if total_loc > 0 {
                total_loc as int
            } else {
                1
            }),
            tops@.len() == n,
            forall|j: int| 0 <= j < n ==> (#[trigger] tops@[j])@ == top_directory(all[j].path),
            heads == section_names(all, n),
            char_lists(names@) == heads,
            shares_wanted == bar_shares(all, total_bars as int),
            groups@.len() == s,
            locs@.len() == s,
            shares@.len() == s,
            forall|j: int|
                0 <= j < s ==> (#[trigger] groups@[j])@ == units_under(all, heads[j], n),
            forall|j: int| 0 <= j < s ==> (#[trigger] locs@[j]) == loc_under(all, heads[j], n),
            forall|j: int| 0 <= j < s ==> (#[trigger] shares@[j]) == shares_wanted[j],
            allocated == share_sum(shares_wanted, s as int),
            allocated <= s * 0x1_0000_0000,
    {
        assert(heads[s as int] == names@[s as int]@);
        let ghost name = heads[s as int];
        let mut group: Vec<usize> = Vec::new();
        let mut loc: u64 = 0;
        for i in 0..units.len()
            invariant
                all == views(units@),
                n == units@.len(),
                loc_sum(all, n) <= u64::MAX,
                tops@.len() == n,
                forall|j: int| 0 <= j < n ==> (#[trigger] tops@[j])@ == top_directory(all[j].path),
                s < names@.len(),
                name == names@[s as int]@,
                group@ == units_under(all, name, i as int),
                loc == loc_under(all, name, i as int),
        {
            assert(all[i as int] == units@[i as int]@);
            proof {
                lemma_loc_under(all, name, i + 1);
                lemma_loc_sum(all, i + 1, n);
            }
            if same_chars(tops[i].as_slice(), names[s].as_slice()) {
                group.push(i);
                loc = loc + units[i].loc as u64;
            }
        }
        proof {
            lemma_loc_under(all, name, n);
            lemma_bar_share(loc as int, total_loc as int, total_bars as int);
            assert(loc * total_bars <= 0xffff_ffff_ffff_ffff * 0xffff_ffff) by (nonlinear_arith)
                requires
                    0 <= loc <= 0xffff_ffff_ffff_ffff,
                    0 <= total_bars <= 0xffff_ffff,
            ;
        }
        let share: u128 = (loc as u128 * total_bars as u128) / whole;
        let bars: u64 = if share < 1 {
            1
        } else {
            share as u64
        };
        assert(bars == shares_wanted[s as int]);
        groups.push(group);
        locs.push(loc);
        shares.push(bars);
        allocated = allocated + bars as u128;
    }
    let ghost even = shares@.map_values(|b: u64| b as int);
    assert(even =~= shares_wanted);
    if allocated > total_bars as u128 {
        cut_shares(&mut shares, allocated - total_bars as u128);
    }
    let ghost bars = section_bars(all, total_bars as int);
    proof {
        assert(shares@.map_values(|b: u64| b as int) == bars);
        lemma_section_bars(all, total_bars as int);
    }
    let mut out: Vec<Section> = Vec::new();
    let ghost plan = sections(all, total_bars as int);
    for s in 0..names.len()
        invariant
            all == views(units@),
            n == units@.len(),
            loc_sum(all, n) <= u64::MAX,
            heads == section_names(all, n),
            char_lists(names@) == heads,
            groups@.len() == heads.len() - s,
            locs@.len() == heads.len(),
            shares@.len() == heads.len(),
            bars == section_bars(all, total_bars as int),
            bars.len() == heads.len(),
            plan == sections(all, total_bars as int),
            shares@.map_values(|b: u64| b as int) == bars,
            forall|i: int|
                0 <= i < heads.len() ==> #[trigger] bars[i] <= total_bars || bars[i] == 1,
            forall|j: int|
                0 <= j < heads.len() - s ==> (#[trigger] groups@[j])@ == units_under(
                    all,
                    heads[j + s],
                    n,
                ),
            forall|j: int|
                0 <= j < heads.len() ==> (#[trigger] locs@[j]) == loc_under(all, heads[j], n),
            views(out@) == plan.take(s as int),
    {
        assert(heads[s as int] == names@[s as int]@);
        assert(bars[s as int] == shares@[s as int]);
        let ghost left = groups@;
        let group: Vec<usize> = groups.remove(0);
        assert(left[0]@ == units_under(all, heads[s as int], n));
        assert forall|j: int| 0 <= j < heads.len() - s - 1 implies (#[trigger] groups@[j])@
            == units_under(all, heads[j + s + 1], n) by {
            assert(groups@[j] == left[j + 1]);
        }
        let section = Section {
            name: string_of(names[s].as_slice()),
            unit_indices: group,
            loc: locs[s],
            bars: shares[s] as u32,
        };
        assert(section@ =~= plan[s as int]);
        let ghost before = views(out@);
        out.push(section);
        assert(views(out@) =~= before.push(plan[s as int]));
        assert(plan.take(s + 1) =~= plan.take(s as int).push(plan[s as int]));
    }
    assert(plan.take(plan.len() as int) =~= plan);
    out
}

} // verus!
