//! Stable sorting.

use vstd::prelude::*;

verus! {

/// Values with a rank: `le` is a total preorder.
pub trait Ranked: Sized {
    /// Whether `self` ranks no higher than `other`.
    spec fn le(self, other: Self) -> bool;

    proof fn le_total(a: Self, b: Self)
        ensures
            a.le(b) || b.le(a),
    ;

    proof fn le_transitive(a: Self, b: Self, c: Self)
        requires
            a.le(b),
            b.le(c),
        ensures
            a.le(c),
    ;
}

/// Items that can be sorted by the rank of what they stand for.
pub trait Sortable: View where Self::V: Ranked {
    /// Whether `self` ranks no higher than `other`.
    fn no_higher(&self, other: &Self) -> (r: bool)
        ensures
            r == self@.le(other@),
    ;
}

/// What the items stand for.
pub open spec fn views<T: View>(s: Seq<T>) -> Seq<T::V> {
    s.map_values(|x: T| x@)
}

/// The sequence with `x` put in front of the values at its end that rank higher.
pub open spec fn placed<V: Ranked>(s: Seq<V>, x: V) -> Seq<V>
    decreases s.len(),
{
    if s.len() == 0 || s.last().le(x) {
        s.push(x)
    } else {
        placed(s.drop_last(), x).push(s.last())
    }
}

/// The values in the order of their rank, those of one rank in the order they came in.
pub open spec fn sorted<V: Ranked>(s: Seq<V>) -> Seq<V>
    decreases s.len(),
{
    if s.len() == 0 {
        s
    } else {
        placed(sorted(s.drop_last()), s.last())
    }
}

/// Whether no value ranks higher than a later one.
pub open spec fn in_order<V: Ranked>(s: Seq<V>) -> bool {
    forall|i: int, j: int| 0 <= i <= j < s.len() ==> (#[trigger] s[i]).le(#[trigger] s[j])
}

/// The values of the rank of `x`, in the order they stand in.
pub open spec fn of_rank<V: Ranked>(s: Seq<V>, x: V) -> Seq<V> {
    s.filter(|y: V| x.le(y) && y.le(x))
}

proof fn lemma_placed_at<V: Ranked>(s: Seq<V>, x: V, j: int)
    requires
        0 <= j <= s.len(),
        j == 0 || s[j - 1].le(x),
        forall|k: int| j <= k < s.len() ==> !(#[trigger] s[k]).le(x),
    ensures
        placed(s, x) == s.insert(j, x),
    decreases s.len(),
{
    if j == s.len() {
        assert(s.insert(j, x) =~= s.push(x));
    } else {
        lemma_placed_at(s.drop_last(), x, j);
        assert(s.insert(j, x) =~= s.drop_last().insert(j, x).push(s.last()));
    }
}

proof fn lemma_placed_len<V: Ranked>(s: Seq<V>, x: V)
    ensures
        placed(s, x).len() == s.len() + 1,
    decreases s.len(),
{
    if s.len() > 0 && !s.last().le(x) {
        lemma_placed_len(s.drop_last(), x);
    }
}

/// Sorting keeps the number of values.
pub proof fn lemma_sorted_len<V: Ranked>(s: Seq<V>)
    ensures
        sorted(s).len() == s.len(),
    decreases s.len(),
{
    if s.len() > 0 {
        lemma_sorted_len(s.drop_last());
        lemma_placed_len(sorted(s.drop_last()), s.last());
    }
}

proof fn lemma_placed_holds<V: Ranked>(s: Seq<V>, x: V, y: V)
    ensures
        placed(s, x).contains(y) <==> s.contains(y) || y == x,
    decreases s.len(),
{
    if s.len() == 0 || s.last().le(x) {
        let t = s.push(x);
        assert(t[s.len() as int] == x);
        if s.contains(y) {
            let i = choose|i: int| 0 <= i < s.len() && s[i] == y;
            assert(t[i] == y);
        }
        if t.contains(y) {
            let i = choose|i: int| 0 <= i < t.len() && t[i] == y;
            if i < s.len() {
                assert(s[i] == y);
            }
        }
    } else {
        lemma_placed_holds(s.drop_last(), x, y);
        let u = placed(s.drop_last(), x);
        let t = u.push(s.last());
        assert(t.last() == s.last());
        if u.contains(y) {
            let i = choose|i: int| 0 <= i < u.len() && u[i] == y;
            assert(t[i] == y);
        }
        if t.contains(y) {
            let i = choose|i: int| 0 <= i < t.len() && t[i] == y;
            if i < u.len() {
                assert(u[i] == y);
            } else {
                assert(s[s.len() - 1] == y);
            }
        }
        if s.contains(y) {
            let i = choose|i: int| 0 <= i < s.len() && s[i] == y;
            if i < s.len() - 1 {
                assert(s.drop_last()[i] == y);
            } else {
                assert(t[u.len() as int] == y);
            }
        }
        if s.drop_last().contains(y) {
            let i = choose|i: int| 0 <= i < s.drop_last().len() && s.drop_last()[i] == y;
            assert(s[i] == y);
        }
    }
}

/// Sorting drops no value and adds none.
pub proof fn lemma_sorted_holds<V: Ranked>(s: Seq<V>, y: V)
    ensures
        sorted(s).contains(y) <==> s.contains(y),
    decreases s.len(),
{
    if s.len() > 0 {
        lemma_sorted_holds(s.drop_last(), y);
        lemma_placed_holds(sorted(s.drop_last()), s.last(), y);
        if s.contains(y) {
            let i = choose|i: int| 0 <= i < s.len() && s[i] == y;
            if i < s.len() - 1 {
                assert(s.drop_last()[i] == y);
            }
        }
        if s.drop_last().contains(y) {
            let i = choose|i: int| 0 <= i < s.drop_last().len() && s.drop_last()[i] == y;
            assert(s[i] == y);
        }
        assert(s[s.len() - 1] == s.last());
    }
}

proof fn lemma_placed_in_order<V: Ranked>(s: Seq<V>, x: V)
    requires
        in_order(s),
    ensures
        in_order(placed(s, x)),
    decreases s.len(),
{
    if s.len() == 0 || s.last().le(x) {
        let t = s.push(x);
        assert forall|i: int, j: int| 0 <= i <= j < t.len() implies (#[trigger] t[i]).le(
            #[trigger] t[j],
        ) by {
            V::le_total(x, x);
            if j == s.len() && i < s.len() {
                assert(s[i].le(s[s.len() - 1]));
                V::le_transitive(s[i], s.last(), x);
            } else if j < s.len() {
                assert(s[i].le(s[j]));
            }
        }
    } else {
        let b = s.drop_last();
        assert(in_order(b)) by {
            assert forall|i: int, j: int| 0 <= i <= j < b.len() implies (#[trigger] b[i]).le(
                #[trigger] b[j],
            ) by {
                assert(s[i].le(s[j]));
            }
        }
        lemma_placed_in_order(b, x);
        lemma_placed_len(b, x);
        let u = placed(b, x);
        let t = u.push(s.last());
        assert forall|i: int, j: int| 0 <= i <= j < t.len() implies (#[trigger] t[i]).le(
            #[trigger] t[j],
        ) by {
            if j < u.len() {
                assert(u[i].le(u[j]));
            } else if i < u.len() {
                lemma_placed_holds(b, x, u[i]);
                assert(u.contains(u[i]));
                V::le_total(x, s.last());
                if u[i] != x {
                    let k = choose|k: int| 0 <= k < b.len() && b[k] == u[i];
                    assert(s[k].le(s[s.len() - 1]));
                }
            } else {
                V::le_total(s.last(), s.last());
            }
        }
    }
}

/// A sorted sequence is in order.
pub proof fn lemma_sorted_in_order<V: Ranked>(s: Seq<V>)
    ensures
        in_order(sorted(s)),
    decreases s.len(),
{
    if s.len() > 0 {
        lemma_sorted_in_order(s.drop_last());
        lemma_placed_in_order(sorted(s.drop_last()), s.last());
    }
}

/// Sorting leaves a sequence that is in order as it is.
pub proof fn lemma_sorted_of_ordered<V: Ranked>(s: Seq<V>)
    requires
        in_order(s),
    ensures
        sorted(s) == s,
    decreases s.len(),
{
    if s.len() > 0 {
        let b = s.drop_last();
        assert forall|i: int, j: int| 0 <= i <= j < b.len() implies (#[trigger] b[i]).le(
            #[trigger] b[j],
        ) by {
            assert(s[i].le(s[j]));
        }
        lemma_sorted_of_ordered(b);
        if b.len() > 0 {
            assert(s[s.len() - 2].le(s[s.len() - 1]));
        }
        assert(b.push(s.last()) =~= s);
    }
}

proof fn lemma_placed_behind<V: Ranked>(a: Seq<V>, s: Seq<V>, x: V)
    requires
        forall|i: int| 0 <= i < a.len() ==> (#[trigger] a[i]).le(x),
    ensures
        placed(a + s, x) == a + placed(s, x),
    decreases s.len(),
{
    let all = a + s;
    if s.len() == 0 {
        assert(all =~= a);
        if a.len() > 0 {
            assert(a[a.len() - 1].le(x));
        }
        assert(a.push(x) =~= a + s.push(x));
    } else {
        assert(all.last() == s.last());
        if s.last().le(x) {
            assert(all.push(x) =~= a + s.push(x));
        } else {
            assert(all.drop_last() =~= a + s.drop_last());
            lemma_placed_behind(a, s.drop_last(), x);
            let b = placed(s.drop_last(), x);
            assert((a + b).push(s.last()) =~= a + b.push(s.last()));
        }
    }
}

/// Values in order that rank no higher than all that follow stay in front when the whole is
/// sorted.
pub proof fn lemma_sorted_behind<V: Ranked>(a: Seq<V>, s: Seq<V>)
    requires
        in_order(a),
        forall|i: int, j: int|
            0 <= i < a.len() && 0 <= j < s.len() ==> (#[trigger] a[i]).le(#[trigger] s[j]),
    ensures
        sorted(a + s) == a + sorted(s),
    decreases s.len(),
{
    if s.len() == 0 {
        assert(a + s =~= a);
        lemma_sorted_of_ordered(a);
        assert(a + sorted(s) =~= a);
    } else {
        let b = s.drop_last();
        assert forall|i: int, j: int| 0 <= i < a.len() && 0 <= j < b.len() implies (
        #[trigger] a[i]).le(#[trigger] b[j]) by {
            assert(a[i].le(s[j]));
        }
        lemma_sorted_behind(a, b);
        assert((a + s).drop_last() =~= a + b);
        assert((a + s).last() == s.last());
        assert forall|i: int| 0 <= i < a.len() implies (#[trigger] a[i]).le(s.last()) by {
            assert(a[i].le(s[s.len() - 1]));
        }
        lemma_placed_behind(a, sorted(b), s.last());
    }
}

proof fn lemma_of_rank_push<V: Ranked>(s: Seq<V>, x: V, y: V)
    ensures
        of_rank(s.push(x), y) == if y.le(x) && x.le(y) {
            of_rank(s, y).push(x)
        } else {
            of_rank(s, y)
        },
{
    reveal(Seq::filter);
    assert(s.push(x).drop_last() =~= s);
}

proof fn lemma_placed_of_rank<V: Ranked>(s: Seq<V>, x: V, y: V)
    ensures
        of_rank(placed(s, x), y) == of_rank(s.push(x), y),
    decreases s.len(),
{
    if s.len() > 0 && !s.last().le(x) {
        let b = s.drop_last();
        let z = s.last();
        lemma_placed_of_rank(b, x, y);
        assert(b.push(z) =~= s);
        lemma_of_rank_push(placed(b, x), z, y);
        lemma_of_rank_push(b, x, y);
        lemma_of_rank_push(b, z, y);
        lemma_of_rank_push(s, x, y);
        if y.le(z) && z.le(y) && y.le(x) && x.le(y) {
            V::le_transitive(z, y, x);
        }
    }
}

/// Sorting keeps the values of one rank in the order they came in.
pub proof fn lemma_sorted_stable<V: Ranked>(s: Seq<V>, y: V)
    ensures
        of_rank(sorted(s), y) == of_rank(s, y),
    decreases s.len(),
{
    if s.len() > 0 {
        let b = s.drop_last();
        lemma_sorted_stable(b, y);
        lemma_placed_of_rank(sorted(b), s.last(), y);
        lemma_of_rank_push(sorted(b), s.last(), y);
        lemma_of_rank_push(b, s.last(), y);
        assert(b.push(s.last()) =~= s);
    }
}

/// Sorts the items by rank; items of one rank keep their order.
pub fn sort<T: Sortable>(v: &mut Vec<T>) where T::V: Ranked
    ensures
        views(final(v)@) == sorted(views(old(v)@)),
{
    let ghost start = views(v@);
    let n: usize = v.len();
    let mut i: usize = 0;
    proof {
        assert(start.take(0) =~= Seq::<T::V>::empty());
        assert(views(v@) =~= sorted(start.take(0)) + start.skip(0));
    }
    while i < n
        invariant
            i <= n,
            n == v@.len(),
            n == start.len(),
            sorted(start.take(i as int)).len() == i,
            views(v@) == sorted(start.take(i as int)) + start.skip(i as int),
        decreases n - i,
    {
        let ghost head = sorted(start.take(i as int));
        let ghost x = start[i as int];
        let ghost before = views(v@);
        assert(before[i as int] == x);
        assert(v@[i as int]@ == x);
        let mut j: usize = i;
        while j > 0 && !v[j - 1].no_higher(&v[i])
            invariant
                j <= i < n,
                n == v@.len(),
                n == start.len(),
                head.len() == i,
                views(v@) == before,
                before == head + start.skip(i as int),
                v@[i as int]@ == x,
                forall|k: int| j <= k < i ==> !(#[trigger] head[k]).le(x),
            decreases j,
        {
            assert(before[j - 1] == head[j - 1]);
            j = j - 1;
        }
        proof {
            if j > 0 {
                assert(before[j - 1] == head[j - 1]);
            }
            lemma_placed_at(head, x, j as int);
            assert(start.take(i + 1).drop_last() =~= start.take(i as int));
            assert(start.take(i + 1).last() == x);
            lemma_sorted_len(start.take(i + 1));
        }
        if j < i {
            let item: T = v.remove(i);
            v.insert(j, item);
        }
        proof {
            let goal = head.insert(j as int, x) + start.skip(i + 1);
            assert(views(v@).len() == goal.len());
            assert forall|k: int| 0 <= k < goal.len() implies views(v@)[k] == goal[k] by {
                assert(before[k] == (head + start.skip(i as int))[k]);
                if k > 0 {
                    assert(before[k - 1] == (head + start.skip(i as int))[k - 1]);
                }
            }
            assert(views(v@) =~= goal);
        }
        i = i + 1;
    }
    proof {
        assert(start.take(n as int) =~= start);
        assert(views(v@) =~= sorted(start));
    }
}

/// Whether `a` comes before `b` in lexicographic order.
pub open spec fn lex_before(a: Seq<u32>, b: Seq<u32>) -> bool
    decreases a.len(),
{
    if b.len() == 0 {
        false
    } else if a.len() == 0 {
        true
    } else if a[0] != b[0] {
        a[0] < b[0]
    } else {
        lex_before(a.drop_first(), b.drop_first())
    }
}

/// Of two lists, one comes before the other or they are the same, and never both.
pub proof fn lemma_lex_total(a: Seq<u32>, b: Seq<u32>)
    ensures
        lex_before(a, b) || lex_before(b, a) || a == b,
        !(lex_before(a, b) && lex_before(b, a)),
        a == b ==> !lex_before(a, b),
    decreases a.len(),
{
    if a.len() > 0 && b.len() > 0 && a[0] == b[0] {
        lemma_lex_total(a.drop_first(), b.drop_first());
        if a.drop_first() == b.drop_first() {
            assert(a =~= seq![a[0]] + a.drop_first());
            assert(b =~= seq![b[0]] + b.drop_first());
        }
    } else if a.len() == 0 && b.len() == 0 {
        assert(a =~= b);
    }
}

/// The lexicographic order is transitive.
pub proof fn lemma_lex_transitive(a: Seq<u32>, b: Seq<u32>, c: Seq<u32>)
    requires
        lex_before(a, b),
        lex_before(b, c),
    ensures
        lex_before(a, c),
    decreases a.len(),
{
    if a.len() > 0 && b.len() > 0 && c.len() > 0 && a[0] == b[0] && b[0] == c[0] {
        lemma_lex_transitive(a.drop_first(), b.drop_first(), c.drop_first());
    }
}

/// If neither step leads down in the lexicographic order, the two together do not either.
pub proof fn lemma_lex_le_transitive(a: Seq<u32>, b: Seq<u32>, c: Seq<u32>)
    requires
        !lex_before(b, a),
        !lex_before(c, b),
    ensures
        !lex_before(c, a),
{
    lemma_lex_total(a, b);
    lemma_lex_total(b, c);
    lemma_lex_total(a, c);
    if lex_before(a, b) && lex_before(b, c) {
        lemma_lex_transitive(a, b, c);
    }
}

/// Whether `a` comes before `b` in lexicographic order.
pub fn comes_before(a: &[u32], b: &[u32]) -> (r: bool)
    ensures
        r == lex_before(a@, b@),
{
    let mut i: usize = 0;
    proof {
        assert(a@.skip(0) =~= a@);
        assert(b@.skip(0) =~= b@);
    }
    while i < a.len() && i < b.len() && a[i] == b[i]
        invariant
            i <= a@.len(),
            i <= b@.len(),
            lex_before(a@, b@) == lex_before(a@.skip(i as int), b@.skip(i as int)),
        decreases a@.len() - i,
    {
        assert(a@.skip(i as int).drop_first() =~= a@.skip(i + 1));
        assert(b@.skip(i as int).drop_first() =~= b@.skip(i + 1));
        i = i + 1;
    }
    if i == b.len() {
        false
    } else if i == a.len() {
        true
    } else {
        a[i] < b[i]
    }
}

} // verus!
