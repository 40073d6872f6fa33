//! Plain words for the laws: letters, occurrences and counts.

use vstd::prelude::*;

use crate::text::{begins, lowered, occurs};

verus! {

/// The text with the letters A to Z made small.
pub open spec fn small_letters(s: Seq<char>) -> Seq<char> {
    Seq::new(
        s.len(),
        |i: int|
            if 65 <= s[i] as int && s[i] as int <= 90 {
                (s[i] as int + 32) as char
            } else {
                s[i]
            },
    )
}

/// Whether the text `p` stands in `s` at `i`.
pub open spec fn stands_at(s: Seq<char>, p: Seq<char>, i: int) -> bool {
    &&& 0 <= i
    &&& i + p.len() <= s.len()
    &&& forall|j: int| 0 <= j < p.len() ==> s[i + j] == #[trigger] p[j]
}

/// Whether the text `p` stands somewhere in `s`.
pub open spec fn stands_in(s: Seq<char>, p: Seq<char>) -> bool {
    exists|i: int| #[trigger] stands_at(s, p, i)
}

/// How many of the items meet a condition.
pub open spec fn how_many<A>(s: Seq<A>, meets: spec_fn(A) -> bool) -> int
    decreases s.len(),
{
    if s.len() == 0 {
        0
    } else {
        how_many(s.drop_first(), meets) + if meets(s[0]) {
            1int
        } else {
            0
        }
    }
}

/// Lower case changes the letters A to Z and nothing else.
pub proof fn lemma_small_letters(s: Seq<char>)
    ensures
        lowered(s) == small_letters(s),
{
    assert forall|i: int| 0 <= i < s.len() implies lowered(s)[i] == small_letters(s)[i] by {
        let c = s[i];
        if 'A' <= c <= 'Z' {
            let n = c as u8;
            assert(65 <= c as int <= 90);
            assert(((c as u8) + 32) as u8 as char == (c as int + 32) as char);
        }
    }
    assert(lowered(s) =~= small_letters(s));
}

/// A text begins with another where that stands at its start.
pub proof fn lemma_begins(s: Seq<char>, p: Seq<char>)
    ensures
        begins(s, p) <==> stands_at(s, p, 0),
{
    if p.len() <= s.len() {
        if begins(s, p) {
            assert forall|j: int| 0 <= j < p.len() implies s[0 + j] == #[trigger] p[j] by {
                assert(s.take(p.len() as int)[j] == p[j]);
            }
        }
        if stands_at(s, p, 0) {
            assert forall|j: int| 0 <= j < p.len() implies s.take(p.len() as int)[j] == p[j] by {
                assert(s[0 + j] == p[j]);
            }
            assert(s.take(p.len() as int) =~= p);
        }
    }
}

/// A text occurs in another where it stands somewhere in it.
pub proof fn lemma_occurs(s: Seq<char>, p: Seq<char>)
    ensures
        occurs(s, p) <==> stands_in(s, p),
{
    if occurs(s, p) {
        let i = choose|i: int| 0 <= i <= s.len() && #[trigger] begins(s.skip(i), p);
        lemma_begins(s.skip(i), p);
        assert forall|j: int| 0 <= j < p.len() implies s[i + j] == #[trigger] p[j] by {
            assert(s.skip(i)[0 + j] == p[j]);
        }
        assert(stands_at(s, p, i));
    }
    if stands_in(s, p) {
        let i = choose|i: int| #[trigger] stands_at(s, p, i);
        assert forall|j: int| 0 <= j < p.len() implies s.skip(i)[0 + j] == #[trigger] p[j] by {
            assert(s[i + j] == p[j]);
        }
        lemma_begins(s.skip(i), p);
        assert(begins(s.skip(i), p));
    }
}

/// One item more or less at the end.
pub proof fn lemma_how_many_push<A>(s: Seq<A>, x: A, meets: spec_fn(A) -> bool)
    ensures
        how_many(s.push(x), meets) == how_many(s, meets) + if meets(x) {
            1int
        } else {
            0
        },
    decreases s.len(),
{
    let t = s.push(x);
    if s.len() == 0 {
        assert(t.drop_first() =~= s);
    } else {
        lemma_how_many_push(s.drop_first(), x, meets);
        assert(t.drop_first() =~= s.drop_first().push(x));
    }
}

/// A count lies between none and all.
pub proof fn lemma_how_many_bounds<A>(s: Seq<A>, meets: spec_fn(A) -> bool)
    ensures
        0 <= how_many(s, meets) <= s.len(),
    decreases s.len(),
{
    if s.len() > 0 {
        lemma_how_many_bounds(s.drop_first(), meets);
    }
}

} // verus!
