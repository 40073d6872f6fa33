//! What the model of a history says of the commits and the people of a log.

use vstd::prelude::*;
use vstd::utf8::encode_utf8;

use crate::extract::RawCommitView;
use crate::history::{
    author_by, author_id_text, author_of, author_texts, authors_of, bot, count_by, diff_sum,
    first_by, fold_size, folded_commit, folded_from, hash_number, leading_commit, lemma_author_of,
    lemma_author_texts, share_of,
};
use crate::laws::plain::{
    how_many, lemma_begins, lemma_how_many_bounds, lemma_how_many_push, lemma_occurs,
    lemma_small_letters, small_letters, stands_at, stands_in,
};
use crate::text::{hex, lemma_hex_roundtrip, lowered};

verus! {

/// Whether a name or an email is marked as that of a bot, in whatever case: "[bot]" stands
/// somewhere in it, or it begins with "dependabot" or "renovate".
pub open spec fn marked(text: Seq<char>) -> bool {
    let t = small_letters(text);
    ||| stands_in(t, "[bot]"@)
    ||| stands_at(t, "dependabot"@, 0)
    ||| stands_at(t, "renovate"@, 0)
}

/// What tells the author of a commit from others: the email, or the name in small letters
/// where there is no email.
pub open spec fn identity(c: RawCommitView) -> Seq<char> {
    if c.author_email.len() > 0 {
        c.author_email
    } else {
        small_letters(c.author_name)
    }
}

/// Whether `i` is the first commit of its author.
pub open spec fn first_of_author(raw: Seq<RawCommitView>, i: int) -> bool {
    &&& 0 <= i < raw.len()
    &&& forall|j: int| 0 <= j < i ==> identity(#[trigger] raw[j]) != identity(raw[i])
}

/// A bot is known by its name or its email.
pub proof fn lemma_bots_are_marked(name: Seq<char>, email: Seq<char>)
    ensures
        bot(name, email) <==> marked(name) || marked(email),
{
    let n = lowered(name);
    let e = lowered(email);
    lemma_small_letters(name);
    lemma_small_letters(email);
    lemma_occurs(n, "[bot]"@);
    lemma_occurs(e, "[bot]"@);
    lemma_begins(n, "dependabot"@);
    lemma_begins(n, "renovate"@);
    lemma_begins(e, "dependabot"@);
    lemma_begins(e, "renovate"@);
}

proof fn lemma_identity(c: RawCommitView)
    ensures
        author_id_text(c) == identity(c),
{
    lemma_small_letters(c.author_name);
}

proof fn lemma_count(raw: Seq<RawCommitView>, x: Seq<char>, k: int)
    requires
        0 <= k <= raw.len(),
    ensures
        count_by(raw, x, k) == how_many(raw.take(k), |c: RawCommitView| identity(c) == x),
    decreases k,
{
    let meets = |c: RawCommitView| identity(c) == x;
    if k > 0 {
        lemma_count(raw, x, k - 1);
        lemma_identity(raw[k - 1]);
        assert(raw.take(k) =~= raw.take(k - 1).push(raw[k - 1]));
        lemma_how_many_push(raw.take(k - 1), raw[k - 1], meets);
    } else {
        assert(raw.take(0).len() == 0);
    }
}

proof fn lemma_first(raw: Seq<RawCommitView>, x: Seq<char>, from: int)
    requires
        0 <= from <= raw.len(),
    ensures
        from <= first_by(raw, x, from) <= raw.len(),
        first_by(raw, x, from) < raw.len() ==> identity(raw[first_by(raw, x, from)]) == x,
        forall|j: int|
            from <= j < first_by(raw, x, from) ==> identity(#[trigger] raw[j]) != x,
    decreases raw.len() - from,
{
    if from < raw.len() {
        lemma_identity(raw[from]);
        if author_id_text(raw[from]) != x {
            lemma_first(raw, x, from + 1);
        }
    }
}

/// The author of a commit in the model: known by the commit's own identity, named and told
/// from a bot by the first commit of that identity, with as many commits as the log has of
/// it.
pub proof fn lemma_author_of_commit(raw: Seq<RawCommitView>, i: int) -> (first: int)
    requires
        0 <= i < raw.len() <= u32::MAX,
    ensures
        ({
            let authors = authors_of(raw, raw.len() as int);
            let a = authors[author_of(raw, i)];
            &&& 0 <= author_of(raw, i) < authors.len()
            &&& a.email == identity(raw[i])
            &&& first_of_author(raw, first)
            &&& first <= i
            &&& identity(raw[first]) == identity(raw[i])
            &&& a.name == raw[first].author_name
            &&& a.is_bot <==> marked(raw[first].author_name) || marked(raw[first].author_email)
            &&& a.commits == how_many(raw, |c: RawCommitView| identity(c) == identity(raw[i]))
        }),
{
    let n = raw.len() as int;
    let x = identity(raw[i]);
    lemma_identity(raw[i]);
    lemma_author_of(raw, i);
    lemma_first(raw, x, 0);
    let first = first_by(raw, x, 0);
    if first > i {
        assert(identity(raw[i]) != x);
    }
    lemma_bots_are_marked(raw[first].author_name, raw[first].author_email);
    lemma_count(raw, x, n);
    assert(raw.take(n) =~= raw);
    lemma_how_many_bounds(raw, |c: RawCommitView| identity(c) == x);
    assert(authors_of(raw, n)[author_of(raw, i)] == author_by(raw, x, n));
    first
}

/// Every author of the model has a commit in the log, and no two authors have the same
/// identity.
pub proof fn lemma_authors_have_commits(raw: Seq<RawCommitView>, a: int) -> (i: int)
    requires
        raw.len() <= u32::MAX,
        0 <= a < authors_of(raw, raw.len() as int).len(),
    ensures
        0 <= i < raw.len(),
        author_of(raw, i) == a,
        forall|b: int|
            0 <= b < authors_of(raw, raw.len() as int).len() && b != a ==> (
            #[trigger] authors_of(raw, raw.len() as int)[b]).email != authors_of(
                raw,
                raw.len() as int,
            )[a].email,
{
    let n = raw.len() as int;
    let list = author_texts(raw, n);
    let x = list[a];
    lemma_author_texts(raw, n);
    assert(count_by(raw, x, n) >= 1);
    lemma_count(raw, x, n);
    lemma_first(raw, x, 0);
    let i = first_by(raw, x, 0);
    if i == n {
        lemma_nobody(raw, x, n);
    }
    lemma_identity(raw[i]);
    lemma_author_of(raw, i);
    let p = author_of(raw, i);
    if p < a {
        assert(list[p] != list[a]);
    } else if a < p {
        assert(list[a] != list[p]);
    }
    assert forall|b: int| 0 <= b < authors_of(raw, n).len() && b != a implies (
    #[trigger] authors_of(raw, n)[b]).email != authors_of(raw, n)[a].email by {
        if b < a {
            assert(list[b] != list[a]);
        } else {
            assert(list[a] != list[b]);
        }
    }
    i
}

proof fn lemma_nobody(raw: Seq<RawCommitView>, x: Seq<char>, k: int)
    requires
        0 <= k <= raw.len(),
        forall|j: int| 0 <= j < raw.len() ==> identity(#[trigger] raw[j]) != x,
    ensures
        count_by(raw, x, k) == 0,
    decreases k,
{
    if k > 0 {
        lemma_nobody(raw, x, k - 1);
        lemma_identity(raw[k - 1]);
        assert(identity(raw[k - 1]) != x);
    }
}

/// Authors are numbered in the order in which they first appear in the log.
pub proof fn lemma_authors_by_appearance(raw: Seq<RawCommitView>, i: int, j: int)
    requires
        first_of_author(raw, i),
        first_of_author(raw, j),
        i < j,
    ensures
        author_of(raw, i) < author_of(raw, j),
{
    lemma_number_of_first(raw, i);
    lemma_number_of_first(raw, j);
    lemma_texts_grow(raw, i, j);
}

proof fn lemma_texts_grow(raw: Seq<RawCommitView>, i: int, j: int)
    requires
        0 <= i < j <= raw.len(),
        first_of_author(raw, i),
    ensures
        author_texts(raw, i).len() < author_texts(raw, j).len(),
    decreases j,
{
    if j == i + 1 {
        lemma_not_yet(raw, i, i);
    } else {
        lemma_texts_grow(raw, i, j - 1);
    }
}

/// The identity of a first commit is not among the authors before it.
proof fn lemma_not_yet(raw: Seq<RawCommitView>, i: int, k: int)
    requires
        first_of_author(raw, i),
        0 <= k <= i,
    ensures
        !author_texts(raw, k).contains(author_id_text(raw[i])),
    decreases k,
{
    lemma_identity(raw[i]);
    if k > 0 {
        lemma_not_yet(raw, i, k - 1);
        lemma_identity(raw[k - 1]);
        assert(identity(raw[k - 1]) != identity(raw[i]));
        let before = author_texts(raw, k - 1);
        let now = author_texts(raw, k);
        if now.contains(author_id_text(raw[i])) {
            let m = choose|m: int| 0 <= m < now.len() && now[m] == author_id_text(raw[i]);
            if m < before.len() {
                assert(before[m] == author_id_text(raw[i]));
            }
        }
    }
}

proof fn lemma_number_of_first(raw: Seq<RawCommitView>, i: int)
    requires
        first_of_author(raw, i),
    ensures
        author_of(raw, i) == author_texts(raw, i).len(),
{
    let n = raw.len() as int;
    let x = author_id_text(raw[i]);
    lemma_not_yet(raw, i, i);
    assert(author_texts(raw, i + 1) == author_texts(raw, i).push(x));
    crate::history::lemma_author_prefix(raw, i + 1, n);
    let all = author_texts(raw, n);
    let at = author_texts(raw, i).len() as int;
    assert(all.take(at + 1)[at] == all[at]);
    lemma_author_texts(raw, n);
    lemma_author_of(raw, i);
    let p = author_of(raw, i);
    if p < at {
        assert(all[p] != all[at]);
    } else if at < p {
        assert(all[at] != all[p]);
    }
}

/// Where all commits of a log are marked as those of bots, every author is a bot; where none
/// is, no author is.
pub proof fn lemma_bots_all_or_none(raw: Seq<RawCommitView>)
    requires
        raw.len() <= u32::MAX,
    ensures
        (forall|i: int|
            0 <= i < raw.len() ==> marked((#[trigger] raw[i]).author_name) || marked(
                raw[i].author_email,
            )) ==> forall|a: int|
            0 <= a < authors_of(raw, raw.len() as int).len() ==> (#[trigger] authors_of(
                raw,
                raw.len() as int,
            )[a]).is_bot,
        (forall|i: int|
            0 <= i < raw.len() ==> !marked((#[trigger] raw[i]).author_name) && !marked(
                raw[i].author_email,
            )) ==> forall|a: int|
            0 <= a < authors_of(raw, raw.len() as int).len() ==> !(#[trigger] authors_of(
                raw,
                raw.len() as int,
            )[a]).is_bot,
{
    let n = raw.len() as int;
    let authors = authors_of(raw, n);
    if forall|i: int|
        0 <= i < raw.len() ==> marked((#[trigger] raw[i]).author_name) || marked(
            raw[i].author_email,
        ) {
        assert forall|a: int| 0 <= a < authors.len() implies (#[trigger] authors[a]).is_bot by {
            let i = lemma_authors_have_commits(raw, a);
            let first = lemma_author_of_commit(raw, i);
            assert(marked(raw[first].author_name) || marked(raw[first].author_email));
        }
    }
    if forall|i: int|
        0 <= i < raw.len() ==> !marked((#[trigger] raw[i]).author_name) && !marked(
            raw[i].author_email,
        ) {
        assert forall|a: int| 0 <= a < authors.len() implies !(#[trigger] authors[a]).is_bot by {
            let i = lemma_authors_have_commits(raw, a);
            let first = lemma_author_of_commit(raw, i);
            assert(!marked(raw[first].author_name) && !marked(raw[first].author_email));
        }
    }
}

/// The sizes of the diffs of some commits together.
pub open spec fn sizes(commits: Seq<RawCommitView>) -> int
    decreases commits.len(),
{
    if commits.len() == 0 {
        0
    } else {
        commits[0].diff_magnitude + sizes(commits.drop_first())
    }
}

proof fn lemma_sizes_push(commits: Seq<RawCommitView>, c: RawCommitView)
    ensures
        sizes(commits.push(c)) == sizes(commits) + c.diff_magnitude,
        sizes(commits) >= 0,
    decreases commits.len(),
{
    let t = commits.push(c);
    if commits.len() == 0 {
        assert(t.drop_first() =~= commits);
    } else {
        lemma_sizes_push(commits.drop_first(), c);
        assert(t.drop_first() =~= commits.drop_first().push(c));
    }
}

proof fn lemma_sizes(raw: Seq<RawCommitView>, a: int, b: int)
    requires
        0 <= a <= b <= raw.len(),
    ensures
        diff_sum(raw, a, b) == sizes(raw.subrange(a, b)),
        sizes(raw.subrange(a, b)) >= 0,
    decreases b - a,
{
    if a < b {
        lemma_sizes(raw, a, b - 1);
        lemma_sizes_push(raw.subrange(a, b - 1), raw[b - 1]);
        assert(raw.subrange(a, b) =~= raw.subrange(a, b - 1).push(raw[b - 1]));
    }
}

proof fn lemma_share(raw: Seq<RawCommitView>, i: int, a: int, b: int)
    requires
        0 <= a <= b <= raw.len(),
        0 <= i < raw.len(),
    ensures
        share_of(raw, author_of(raw, i), a, b) == how_many(
            raw.subrange(a, b),
            |c: RawCommitView| identity(c) == identity(raw[i]),
        ),
    decreases b - a,
{
    let meets = |c: RawCommitView| identity(c) == identity(raw[i]);
    if a < b {
        lemma_share(raw, i, a, b - 1);
        lemma_how_many_push(raw.subrange(a, b - 1), raw[b - 1], meets);
        assert(raw.subrange(a, b) =~= raw.subrange(a, b - 1).push(raw[b - 1]));
        lemma_same_author(raw, i, b - 1);
    } else {
        assert(raw.subrange(a, b).len() == 0);
    }
}

/// Two commits have the same author where their identities are the same.
pub proof fn lemma_same_author(raw: Seq<RawCommitView>, i: int, j: int)
    requires
        0 <= i < raw.len(),
        0 <= j < raw.len(),
    ensures
        author_of(raw, i) == author_of(raw, j) <==> identity(raw[i]) == identity(raw[j]),
{
    lemma_identity(raw[i]);
    lemma_identity(raw[j]);
    lemma_author_of(raw, i);
    lemma_author_of(raw, j);
}

proof fn lemma_leader_is_first(raw: Seq<RawCommitView>, a: int, b: int, j: int)
    requires
        a < j <= b,
    ensures
        ({
            let best = leading_commit(raw, a, b, j);
            &&& a <= best < j
            &&& forall|i: int|
                a <= i < j ==> share_of(raw, #[trigger] author_of(raw, i), a, b) <= share_of(
                    raw,
                    author_of(raw, best),
                    a,
                    b,
                )
            &&& forall|i: int|
                a <= i < best ==> share_of(raw, #[trigger] author_of(raw, i), a, b) < share_of(
                    raw,
                    author_of(raw, best),
                    a,
                    b,
                )
        }),
    decreases j - a,
{
    if j > a + 1 {
        lemma_leader_is_first(raw, a, b, j - 1);
    }
}

/// What a bar of commits says: the commits from `a` up to `b` as one. It takes the hash and
/// the time of the last, the sizes of all together as far as 32 bits hold them, a merge if
/// there is one among them, and the author with the most of them, the earliest of several.
pub proof fn lemma_bar_of_commits(raw: Seq<RawCommitView>, a: int, b: int) -> (leader: int)
    requires
        0 <= a < b <= raw.len() <= u32::MAX,
        raw.len() <= usize::MAX,
    ensures
        ({
            let c = folded_commit(raw, a, b);
            let last = raw[b - 1];
            let all = sizes(raw.subrange(a, b));
            &&& c.timestamp == last.timestamp
            &&& c.hash == hash_number(last.hash)
            &&& c.short.len() == if last.hash.len() < 7 {
                last.hash.len() as int
            } else {
                7
            }
            &&& forall|i: int| 0 <= i < c.short.len() ==> c.short[i] == #[trigger] last.hash[i]
            &&& c.diff_magnitude == if all <= 0xffff_ffff {
                all
            } else {
                0xffff_ffff
            }
            &&& c.is_merge <==> exists|i: int| a <= i < b && (#[trigger] raw[i]).is_merge
            &&& c.folded == b - a
            &&& a <= leader < b
            &&& c.author_id == author_of(raw, leader)
            &&& forall|i: int|
                a <= i < b ==> how_many(
                    raw.subrange(a, b),
                    |d: RawCommitView| identity(d) == identity(#[trigger] raw[i]),
                ) <= how_many(
                    raw.subrange(a, b),
                    |d: RawCommitView| identity(d) == identity(raw[leader]),
                )
            &&& forall|i: int|
                a <= i < leader ==> how_many(
                    raw.subrange(a, b),
                    |d: RawCommitView| identity(d) == identity(#[trigger] raw[i]),
                ) < how_many(
                    raw.subrange(a, b),
                    |d: RawCommitView| identity(d) == identity(raw[leader]),
                )
        }),
{
    let leader = leading_commit(raw, a, b, b);
    let c = folded_commit(raw, a, b);
    let last = raw[b - 1];
    lemma_sizes(raw, a, b);
    lemma_leader_is_first(raw, a, b, b);
    lemma_author_of(raw, leader);
    lemma_author_texts(raw, raw.len() as int);
    lemma_share(raw, leader, a, b);
    assert forall|i: int| a <= i < b implies how_many(
        raw.subrange(a, b),
        |d: RawCommitView| identity(d) == identity(#[trigger] raw[i]),
    ) <= how_many(
        raw.subrange(a, b),
        |d: RawCommitView| identity(d) == identity(raw[leader]),
    ) by {
        lemma_share(raw, i, a, b);
        assert(share_of(raw, author_of(raw, i), a, b) <= share_of(
            raw,
            author_of(raw, leader),
            a,
            b,
        ));
    }
    assert forall|i: int| a <= i < leader implies how_many(
        raw.subrange(a, b),
        |d: RawCommitView| identity(d) == identity(#[trigger] raw[i]),
    ) < how_many(
        raw.subrange(a, b),
        |d: RawCommitView| identity(d) == identity(raw[leader]),
    ) by {
        lemma_share(raw, i, a, b);
        assert(share_of(raw, author_of(raw, i), a, b) < share_of(
            raw,
            author_of(raw, leader),
            a,
            b,
        ));
    }
    leader
}

/// A log of `n` commits, `k` of them to a bar, makes as many bars as `n` over `k`, rounded
/// up, and the bar `j` is that of the commits from `j k` on.
pub proof fn lemma_bars_of_log(raw: Seq<RawCommitView>, compress: u32)
    ensures
        ({
            let k: int = if compress == 0 {
                1
            } else {
                compress as int
            };
            let bars = folded_from(raw, fold_size(compress), 0);
            &&& bars.len() == (raw.len() + k - 1) / k
            &&& forall|j: int|
                0 <= j < bars.len() ==> #[trigger] bars[j] == folded_commit(
                    raw,
                    j * k,
                    if (j + 1) * k < raw.len() {
                        (j + 1) * k
                    } else {
                        raw.len() as int
                    },
                )
        }),
{
    let k = fold_size(compress);
    lemma_bars_from(raw, k, 0);
    let bars = folded_from(raw, k, 0);
    let n = raw.len() as int;
    assert(bars.len() == (n + k - 1) / k) by (nonlinear_arith)
        requires
            k >= 1,
            n >= 0,
            bars.len() * k >= n,
            bars.len() * k < n + k,
    ;
}

proof fn lemma_bars_from(raw: Seq<RawCommitView>, k: int, m: int)
    requires
        k >= 1,
        0 <= m,
    ensures
        ({
            let bars = folded_from(raw, k, m * k);
            &&& m * k <= raw.len() ==> bars.len() * k >= raw.len() - m * k
            &&& m * k <= raw.len() ==> bars.len() * k < raw.len() - m * k + k
            &&& forall|j: int|
                0 <= j < bars.len() ==> #[trigger] bars[j] == folded_commit(
                    raw,
                    (m + j) * k,
                    if (m + j + 1) * k < raw.len() {
                        (m + j + 1) * k
                    } else {
                        raw.len() as int
                    },
                )
        }),
    decreases
            (if m * k < raw.len() {
                raw.len() - m * k
            } else {
                0
            }),
{
    let n = raw.len() as int;
    let a = m * k;
    assert((m + 1) * k == a + k) by (nonlinear_arith)
        requires
            a == m * k,
    ;
    assert(a >= 0) by (nonlinear_arith)
        requires
            a == m * k,
            m >= 0,
            k >= 1,
    ;
    if a < n {
        let bars = folded_from(raw, k, a);
        if a + k < n {
            lemma_bars_from(raw, k, m + 1);
            let rest = folded_from(raw, k, (m + 1) * k);
            assert(bars == seq![folded_commit(raw, a, a + k)] + rest);
            assert(bars.len() * k == rest.len() * k + k) by (nonlinear_arith)
                requires
                    bars.len() == rest.len() + 1,
            ;
            assert forall|j: int| 0 <= j < bars.len() implies #[trigger] bars[j] == folded_commit(
                raw,
                (m + j) * k,
                if (m + j + 1) * k < n {
                    (m + j + 1) * k
                } else {
                    n
                },
            ) by {
                if j > 0 {
                    assert(bars[j] == rest[j - 1]);
                    assert(m + 1 + (j - 1) == m + j);
                }
            }
        } else {
            assert(folded_from(raw, k, n) =~= seq![]);
            assert(bars =~= seq![folded_commit(raw, a, n)]);
            assert(bars.len() * k == k) by (nonlinear_arith)
                requires
                    bars.len() == 1,
            ;
        }
    } else {
        assert(folded_from(raw, k, a).len() == 0);
        assert(folded_from(raw, k, a).len() * k == 0) by (nonlinear_arith)
            requires
                folded_from(raw, k, a).len() == 0,
        ;
    }
}

/// A commit hash that begins with sixteen hexadecimal digits is taken by the number that
/// they write.
pub proof fn lemma_hash_by_digits(number: u64, rest: Seq<char>)
    ensures
        hash_number(hex(number as nat, 16) + rest) == number,
{
    let h = hex(number as nat, 16);
    lemma_hex_roundtrip(number);
    crate::text::lemma_hex_digits(number as nat, 16);
    assert((h + rest).take(16) =~= h);
    if rest.len() == 0 {
        assert(h + rest =~= h);
    }
}

/// A commit hash that is empty, or has something else than hexadecimal digits among its first
/// sixteen characters, is taken by the hash of its text.
pub proof fn lemma_hash_without_digits(hash: Seq<char>, i: int)
    requires
        hash.len() == 0 || (0 < i < 16 && i < hash.len() && {
            let n = hash[i] as int;
            !(48 <= n <= 57) && !(97 <= n <= 102) && !(65 <= n <= 70)
        }),
    ensures
        hash_number(hash) == crate::rng::fnv(encode_utf8(hash)),
{
    if hash.len() > 0 {
        let head = if hash.len() < 16 {
            hash
        } else {
            hash.take(16)
        };
        assert(head[i] == hash[i]);
        assert(crate::text::digit(head[i]) >= 16);
        if head[0] == '+' {
            assert(head.skip(1)[i - 1] == head[i]);
        }
    }
}

} // verus!
