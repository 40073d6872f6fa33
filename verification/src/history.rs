//! The analysis of a commit log: the authors, and the commits that become bars.

use vstd::prelude::*;

use crate::extract::{capped, RawCommit, RawCommitView};
use crate::model::{Author, AuthorView, CommitNode, CommitView, RepoModel};
use crate::rng::{fnv, fnv1a, utf8};
use crate::sorting::views;
use crate::text::{
    begins, begins_at, chars_of, contains, lower_chars, lowered, occurs, parse_unsigned, part,
    string_of, unsigned_number,
};

verus! {

/// Whether an author is a bot: dependabot, renovate, or anything marked as one.
pub open spec fn bot(name: Seq<char>, email: Seq<char>) -> bool {
    let n = lowered(name);
    let e = lowered(email);
    ||| occurs(n, "[bot]"@)
    ||| occurs(e, "[bot]"@)
    ||| begins(n, "dependabot"@)
    ||| begins(n, "renovate"@)
    ||| begins(e, "dependabot"@)
    ||| begins(e, "renovate"@)
}

/// What the author of a commit is known by: the email, or the name in lower case if there
/// is none.
pub open spec fn author_id_text(c: RawCommitView) -> Seq<char> {
    if c.author_email.len() == 0 {
        lowered(c.author_name)
    } else {
        c.author_email
    }
}

/// The place of a text in a list, looked for from `from` on; the length if it is not there.
pub open spec fn place_of(list: Seq<Seq<char>>, x: Seq<char>, from: int) -> int
    decreases list.len() - from,
{
    if from >= list.len() || list[from] == x {
        from
    } else {
        place_of(list, x, from + 1)
    }
}

/// The authors of the first `k` commits, as they are known, in the order they appear in.
pub open spec fn author_texts(raw: Seq<RawCommitView>, k: int) -> Seq<Seq<char>>
    decreases k,
{
    if k <= 0 {
        seq![]
    } else {
        let before = author_texts(raw, k - 1);
        let x = author_id_text(raw[k - 1]);
        if before.contains(x) {
            before
        } else {
            before.push(x)
        }
    }
}

/// The first commit at `from` or behind it whose author is known by `x`.
pub open spec fn first_by(raw: Seq<RawCommitView>, x: Seq<char>, from: int) -> int
    decreases raw.len() - from,
{
    if from >= raw.len() || author_id_text(raw[from]) == x {
        from
    } else {
        first_by(raw, x, from + 1)
    }
}

/// How many of the first `k` commits are of the author known by `x`.
pub open spec fn count_by(raw: Seq<RawCommitView>, x: Seq<char>, k: int) -> nat
    decreases k,
{
    if k <= 0 {
        0
    } else {
        count_by(raw, x, k - 1) + if author_id_text(raw[k - 1]) == x {
            1nat
        } else {
            0
        }
    }
}

/// The author known by `x`, with the commits among the first `k`. The name is that of the
/// author's first commit.
pub open spec fn author_by(raw: Seq<RawCommitView>, x: Seq<char>, k: int) -> AuthorView {
    let first = raw[first_by(raw, x, 0)];
    AuthorView {
        email: x,
        name: first.author_name,
        commits: count_by(raw, x, k) as u32,
        is_bot: bot(first.author_name, first.author_email),
    }
}

/// The authors of the first `k` commits.
pub open spec fn authors_of(raw: Seq<RawCommitView>, k: int) -> Seq<AuthorView> {
    author_texts(raw, k).map_values(|x: Seq<char>| author_by(raw, x, k))
}

/// The number of the author of a commit.
pub open spec fn author_of(raw: Seq<RawCommitView>, i: int) -> int {
    place_of(author_texts(raw, raw.len() as int), author_id_text(raw[i]), 0)
}

/// How many of the commits from `a` up to `b` are of the author with the number `id`.
pub open spec fn share_of(raw: Seq<RawCommitView>, id: int, a: int, b: int) -> nat
    decreases b - a,
{
    if a >= b {
        0
    } else {
        share_of(raw, id, a, b - 1) + if author_of(raw, b - 1) == id {
            1nat
        } else {
            0
        }
    }
}

/// The commit among those from `a` up to `j` whose author has most of the commits from `a`
/// up to `b`, the earliest of them if there are several.
pub open spec fn leading_commit(raw: Seq<RawCommitView>, a: int, b: int, j: int) -> int
    decreases j - a,
{
    if j <= a + 1 {
        a
    } else {
        let best = leading_commit(raw, a, b, j - 1);
        if share_of(raw, author_of(raw, j - 1), a, b) > share_of(raw, author_of(raw, best), a, b) {
            j - 1
        } else {
            best
        }
    }
}

/// The sizes of the diffs from `a` up to `b`.
pub open spec fn diff_sum(raw: Seq<RawCommitView>, a: int, b: int) -> int
    decreases b - a,
{
    if a >= b {
        0
    } else {
        diff_sum(raw, a, b - 1) + raw[b - 1].diff_magnitude
    }
}

/// Whether one of the commits from `a` up to `b` is a merge.
pub open spec fn any_merge(raw: Seq<RawCommitView>, a: int, b: int) -> bool {
    exists|i: int| a <= i < b && (#[trigger] raw[i]).is_merge
}

/// The number that a commit hash stands for: its first sixteen hexadecimal digits, or a
/// hash of the text if they are none.
pub open spec fn hash_number(hash: Seq<char>) -> u64 {
    let head = if hash.len() < 16 {
        hash
    } else {
        hash.take(16)
    };
    match unsigned_number(head, 16, u64::MAX as int) {
        Some(n) => n as u64,
        None => fnv(utf8(hash)),
    }
}

/// The short form of a commit hash.
pub open spec fn short_hash(hash: Seq<char>) -> Seq<char> {
    if hash.len() < 7 {
        hash
    } else {
        hash.take(7)
    }
}

/// The commits from `a` up to `b` folded into one: the hash and the time of the last, the
/// author of the most, the sum of the diffs.
pub open spec fn folded_commit(raw: Seq<RawCommitView>, a: int, b: int) -> CommitView {
    let last = raw[b - 1];
    CommitView {
        hash: hash_number(last.hash),
        short: short_hash(last.hash),
        author_id: author_of(raw, leading_commit(raw, a, b, b)) as usize,
        timestamp: last.timestamp,
        diff_magnitude: capped(diff_sum(raw, a, b)),
        is_merge: any_merge(raw, a, b),
        folded: (b - a) as u32,
    }
}

/// The end of the group of `k` commits that starts at `a`.
pub open spec fn group_end(len: int, a: int, k: int) -> int {
    if a + k < len {
        a + k
    } else {
        len
    }
}

/// The commits from `a` on, every `k` of them folded into one.
pub open spec fn folded_from(raw: Seq<RawCommitView>, k: int, a: int) -> Seq<CommitView>
    decreases raw.len() - a,
{
    if k < 1 || a >= raw.len() {
        seq![]
    } else {
        let b = group_end(raw.len() as int, a, k);
        seq![folded_commit(raw, a, b)] + folded_from(raw, k, b)
    }
}

/// How many commits are folded into one.
pub open spec fn fold_size(compress: u32) -> int {
    if compress < 1 {
        1
    } else {
        compress as int
    }
}

proof fn lemma_place_of(list: Seq<Seq<char>>, x: Seq<char>, from: int)
    requires
        0 <= from <= list.len(),
    ensures
        from <= place_of(list, x, from) <= list.len(),
        place_of(list, x, from) < list.len() ==> list[place_of(list, x, from)] == x,
        (forall|i: int| from <= i < list.len() ==> list[i] != x) ==> place_of(list, x, from)
            == list.len(),
        forall|i: int| from <= i < place_of(list, x, from) ==> list[i] != x,
    decreases list.len() - from,
{
    if from < list.len() && list[from] != x {
        lemma_place_of(list, x, from + 1);
    }
}

/// The authors are told apart: no two of them are known by the same text, and every commit
/// has one.
pub proof fn lemma_author_texts(raw: Seq<RawCommitView>, k: int)
    requires
        0 <= k <= raw.len(),
    ensures
        author_texts(raw, k).len() <= k,
        forall|i: int, j: int|
            0 <= i < j < author_texts(raw, k).len() ==> #[trigger] author_texts(raw, k)[i]
                != #[trigger] author_texts(raw, k)[j],
        forall|i: int|
            0 <= i < k ==> author_texts(raw, k).contains(author_id_text(#[trigger] raw[i])),
        forall|i: int|
            0 <= i < author_texts(raw, k).len() ==> count_by(
                raw,
                #[trigger] author_texts(raw, k)[i],
                k,
            ) >= 1,
    decreases k,
{
    if k > 0 {
        lemma_author_texts(raw, k - 1);
        let before = author_texts(raw, k - 1);
        let now = author_texts(raw, k);
        let x = author_id_text(raw[k - 1]);
        if !before.contains(x) {
            assert forall|i: int, j: int| 0 <= i < j < now.len() implies #[trigger] now[i]
                != #[trigger] now[j] by {
                if j == before.len() {
                    assert(before.contains(before[i]));
                }
            }
            assert(now[before.len() as int] == x);
        }
        assert forall|i: int| 0 <= i < k implies now.contains(
            author_id_text(#[trigger] raw[i]),
        ) by {
            if i < k - 1 {
                assert(before.contains(author_id_text(raw[i])));
                let m = choose|m: int|
                    0 <= m < before.len() && before[m] == author_id_text(raw[i]);
                assert(now[m] == author_id_text(raw[i]));
            }
        }
        assert forall|i: int| 0 <= i < now.len() implies count_by(raw, #[trigger] now[i], k)
            >= 1 by {
            if i < before.len() {
                assert(count_by(raw, before[i], k - 1) >= 1);
            }
        }
    }
}

/// The authors of the first commits are the first of all authors.
pub proof fn lemma_author_prefix(raw: Seq<RawCommitView>, a: int, b: int)
    requires
        0 <= a <= b <= raw.len(),
    ensures
        author_texts(raw, a).len() <= author_texts(raw, b).len(),
        author_texts(raw, a) == author_texts(raw, b).take(author_texts(raw, a).len() as int),
    decreases b,
{
    if a < b {
        lemma_author_prefix(raw, a, b - 1);
        let n = author_texts(raw, a).len() as int;
        assert(author_texts(raw, b).take(n) =~= author_texts(raw, b - 1).take(n));
    } else {
        let n = author_texts(raw, a).len() as int;
        assert(author_texts(raw, a).take(n) =~= author_texts(raw, a));
    }
}

/// Every commit's author is one of the authors.
pub proof fn lemma_author_of(raw: Seq<RawCommitView>, i: int)
    requires
        0 <= i < raw.len(),
    ensures
        0 <= author_of(raw, i) < author_texts(raw, raw.len() as int).len(),
        author_texts(raw, raw.len() as int)[author_of(raw, i)] == author_id_text(raw[i]),
{
    let list = author_texts(raw, raw.len() as int);
    lemma_author_texts(raw, raw.len() as int);
    lemma_place_of(list, author_id_text(raw[i]), 0);
    assert(list.contains(author_id_text(raw[i])));
}

proof fn lemma_first_by(raw: Seq<RawCommitView>, x: Seq<char>, from: int, at: int)
    requires
        0 <= from <= at < raw.len(),
        author_id_text(raw[at]) == x,
        forall|i: int| from <= i < at ==> author_id_text(#[trigger] raw[i]) != x,
    ensures
        first_by(raw, x, from) == at,
    decreases at - from,
{
    if from < at {
        assert(author_id_text(raw[from]) != x);
        lemma_first_by(raw, x, from + 1, at);
    }
}

proof fn lemma_count_by(raw: Seq<RawCommitView>, x: Seq<char>, a: int, b: int)
    requires
        0 <= a <= b <= raw.len(),
    ensures
        count_by(raw, x, a) <= count_by(raw, x, b),
        count_by(raw, x, b) - count_by(raw, x, a) <= b - a,
    decreases b,
{
    if a < b {
        lemma_count_by(raw, x, a, b - 1);
    }
}

proof fn lemma_leading_commit(raw: Seq<RawCommitView>, a: int, b: int, j: int)
    requires
        a < j,
    ensures
        a <= leading_commit(raw, a, b, j) < j,
    decreases j - a,
{
    if j > a + 1 {
        lemma_leading_commit(raw, a, b, j - 1);
    }
}

/// A folded commit is of an author with the most commits in its group.
pub proof fn lemma_leading_commit_leads(raw: Seq<RawCommitView>, a: int, b: int, j: int)
    requires
        a < j <= b,
    ensures
        a <= leading_commit(raw, a, b, j) < j,
        forall|i: int|
            a <= i < j ==> share_of(raw, #[trigger] author_of(raw, i), a, b) <= share_of(
                raw,
                author_of(raw, leading_commit(raw, a, b, j)),
                a,
                b,
            ),
    decreases j - a,
{
    if j > a + 1 {
        lemma_leading_commit_leads(raw, a, b, j - 1);
    }
}

/// How many commits the folded ones stand for.
pub open spec fn folded_total(commits: Seq<CommitView>) -> int
    decreases commits.len(),
{
    if commits.len() == 0 {
        0
    } else {
        commits[0].folded + folded_total(commits.drop_first())
    }
}

/// Folding loses no commit: the folded ones stand for as many as there were, and there are
/// as many of them as whole and broken groups.
pub proof fn lemma_folded(raw: Seq<RawCommitView>, k: int, a: int)
    requires
        1 <= k <= u32::MAX,
        0 <= a <= raw.len(),
    ensures
        folded_total(folded_from(raw, k, a)) == raw.len() - a,
        folded_from(raw, k, a).len() * k >= raw.len() - a,
        folded_from(raw, k, a).len() * k < raw.len() - a + k,
    decreases raw.len() - a,
{
    if a < raw.len() {
        let b = group_end(raw.len() as int, a, k);
        lemma_folded(raw, k, b);
        let rest = folded_from(raw, k, b);
        let all = folded_from(raw, k, a);
        assert(all.drop_first() =~= rest);
        assert(all.len() * k == rest.len() * k + k) by (nonlinear_arith)
            requires
                all.len() == rest.len() + 1,
        ;
    }
}

/// Whether an author is a bot.
pub fn is_bot(name: &str, email: &str) -> (r: bool)
    ensures
        r == bot(name@, email@),
{
    let n: Vec<char> = lower_chars(chars_of(name).as_slice());
    let e: Vec<char> = lower_chars(chars_of(email).as_slice());
    let marked: Vec<char> = chars_of("[bot]");
    let dependabot: Vec<char> = chars_of("dependabot");
    let renovate: Vec<char> = chars_of("renovate");
    assert(n@.skip(0) =~= n@);
    assert(e@.skip(0) =~= e@);
    contains(n.as_slice(), marked.as_slice()) || contains(e.as_slice(), marked.as_slice())
        || begins_at(n.as_slice(), 0, dependabot.as_slice()) || begins_at(
        n.as_slice(),
        0,
        renovate.as_slice(),
    ) || begins_at(e.as_slice(), 0, dependabot.as_slice()) || begins_at(
        e.as_slice(),
        0,
        renovate.as_slice(),
    )
}

/// What the author of a commit is known by.
fn known_by(c: &RawCommit) -> (r: String)
    ensures
        r@ == author_id_text(c@),
{
    let email: Vec<char> = chars_of(c.author_email.as_str());
    if email.len() == 0 {
        string_of(lower_chars(chars_of(c.author_name.as_str()).as_slice()).as_slice())
    } else {
        c.author_email.clone()
    }
}

/// The emails of a list of authors.
spec fn emails(authors: Seq<Author>) -> Seq<Seq<char>> {
    authors.map_values(|a: Author| a.email@)
}

/// Collects the authors of the commits, and each commit's author.
fn collect_authors(raw: &[RawCommit]) -> (r: (Vec<Author>, Vec<usize>))
    requires
        forall|i: int|
            0 <= i < raw@.len() ==> count_by(
                views(raw@),
                author_id_text(#[trigger] views(raw@)[i]),
                raw@.len() as int,
            ) <= u32::MAX,
    ensures
        views(r.0@) == authors_of(views(raw@), raw@.len() as int),
        r.1@.len() == raw@.len(),
        forall|i: int| 0 <= i < raw@.len() ==> #[trigger] r.1@[i] == author_of(views(raw@), i),
{
    let ghost all = views(raw@);
    let ghost n = raw@.len() as int;
    let mut authors: Vec<Author> = Vec::new();
    let mut ids: Vec<usize> = Vec::new();
    assert(emails(authors@) =~= author_texts(all, 0));
    assert(views(authors@) =~= authors_of(all, 0));
    for k in 0..raw.len()
        invariant
            all == views(raw@),
            n == raw@.len(),
            forall|i: int|
                0 <= i < n ==> count_by(all, author_id_text(#[trigger] all[i]), n) <= u32::MAX,
            emails(authors@) == author_texts(all, k as int),
            views(authors@) == authors_of(all, k as int),
            ids@.len() == k,
            forall|i: int| 0 <= i < k ==> #[trigger] ids@[i] == author_of(all, i),
    {
        assert(all[k as int] == raw@[k as int]@);
        let key: String = known_by(&raw[k]);
        let ghost x = key@;
        let ghost texts = author_texts(all, k as int);
        let ghost shown = views(authors@);
        let ghost held = authors@;
        proof {
            assert(texts.len() == authors@.len());
        }
        let mut id: usize = 0;
        while id < authors.len() && authors[id].email != key
            invariant
                id <= authors@.len(),
                emails(authors@) == texts,
                x == key@,
                authors@ == held,
                place_of(texts, x, 0) == place_of(texts, x, id as int),
            decreases authors@.len() - id,
        {
            assert(texts[id as int] == authors@[id as int].email@);
            id = id + 1;
        }
        proof {
            if id < authors@.len() {
                assert(texts[id as int] == authors@[id as int].email@);
            }
            assert(id == place_of(texts, x, 0));
            lemma_place_of(texts, x, 0);
            lemma_author_texts(all, k as int);
            lemma_author_texts(all, k + 1);
            lemma_author_prefix(all, k + 1, n);
            lemma_author_of(all, k as int);
            lemma_author_texts(all, n);
            lemma_count_by(all, x, k + 1, n);
            assert(count_by(all, author_id_text(all[k as int]), n) <= u32::MAX);
        }
        let ghost full = author_texts(all, n);
        if id == authors.len() {
            proof {
                assert(!texts.contains(x)) by {
                    if texts.contains(x) {
                        let m = choose|m: int| 0 <= m < texts.len() && texts[m] == x;
                        assert(texts[m] != x);
                    }
                }
                assert forall|i: int| 0 <= i < k implies author_id_text(
                    #[trigger] all[i],
                ) != x by {
                    assert(texts.contains(author_id_text(all[i])));
                }
                lemma_first_by(all, x, 0, k as int);
                lemma_none_before(all, x, k as int);
            }
            let author = Author {
                email: key,
                name: raw[k].author_name.clone(),
                commits: 1,
                is_bot: is_bot(raw[k].author_name.as_str(), raw[k].author_email.as_str()),
            };
            assert(author@ == author_by(all, x, k + 1));
            authors.push(author);
        } else {
            assert(texts.contains(x));
            let ghost old_author = authors@[id as int]@;
            assert(old_author == shown[id as int]);
            let name: String = authors[id].name.clone();
            let commits: u32 = authors[id].commits;
            let bot_flag: bool = authors[id].is_bot;
            assert(commits == count_by(all, x, k as int) as u32);
            authors.set(
                id,
                Author { email: key, name, commits: commits + 1, is_bot: bot_flag },
            );
            assert(authors@[id as int]@ == author_by(all, x, k + 1));
        }
        proof {
            let now = author_texts(all, k + 1);
            assert(emails(authors@) =~= now);
            assert forall|i: int| 0 <= i < now.len() implies views(authors@)[i] == authors_of(
                all,
                k + 1,
            )[i] by {
                if i < texts.len() && i != id {
                    assert(views(authors@)[i] == shown[i]);
                    assert(shown[i] == author_by(all, texts[i], k as int));
                    assert(texts[i] != x) by {
                        if id < texts.len() {
                            if i < id {
                                assert(texts[i] != texts[id as int]);
                            } else {
                                assert(texts[id as int] != texts[i]);
                            }
                        }
                    }
                    assert(now[i] == texts[i]);
                }
            }
            assert(views(authors@) =~= authors_of(all, k + 1));
            assert(now[id as int] == x);
            assert(full.take(now.len() as int)[id as int] == full[id as int]);
            lemma_place_unique(full, x, id as int);
        }
        ids.push(id);
    }
    (authors, ids)
}

proof fn lemma_place_unique(list: Seq<Seq<char>>, x: Seq<char>, at: int)
    requires
        0 <= at < list.len(),
        list[at] == x,
        forall|i: int, j: int| 0 <= i < j < list.len() ==> #[trigger] list[i] != #[trigger] list[j],
    ensures
        place_of(list, x, 0) == at,
{
    lemma_place_of(list, x, 0);
    let p = place_of(list, x, 0);
    if p < at {
        assert(list[p] != list[at]);
    }
}

proof fn lemma_none_before(raw: Seq<RawCommitView>, x: Seq<char>, k: int)
    requires
        0 <= k <= raw.len(),
        forall|i: int| 0 <= i < k ==> author_id_text(#[trigger] raw[i]) != x,
    ensures
        count_by(raw, x, k) == 0,
    decreases k,
{
    if k > 0 {
        lemma_none_before(raw, x, k - 1);
    }
}

/// The number that a commit hash stands for.
fn number_of_hash(hash: &str) -> (r: u64)
    ensures
        r == hash_number(hash@),
{
    let chars: Vec<char> = chars_of(hash);
    let n: usize = if chars.len() < 16 {
        chars.len()
    } else {
        16
    };
    let head: Vec<char> = part(chars.as_slice(), 0, n);
    assert(head@ =~= if hash@.len() < 16 {
        hash@
    } else {
        hash@.take(16)
    });
    match parse_unsigned(head.as_slice(), 16, u64::MAX) {
        Some(v) => v,
        None => fnv1a(hash.as_bytes()),
    }
}

/// Folds the commits from `a` up to `b` into one.
fn fold_group(raw: &[RawCommit], ids: &Vec<usize>, a: usize, b: usize) -> (r: CommitNode)
    requires
        a < b <= raw@.len(),
        b - a <= u32::MAX,
        ids@.len() == raw@.len(),
        forall|i: int| 0 <= i < raw@.len() ==> #[trigger] ids@[i] == author_of(views(raw@), i),
    ensures
        r@ == folded_commit(views(raw@), a as int, b as int),
{
    let ghost all = views(raw@);
    let mut best: usize = a;
    let mut best_count: u32 = count_in(raw, ids, ids[a], a, b);
    let mut sum: u128 = 0;
    let mut merge: bool = false;
    for j in a..b
        invariant
            a <= j <= b <= raw@.len(),
            a < b,
            b - a <= u32::MAX,
            all == views(raw@),
            ids@.len() == raw@.len(),
            forall|i: int| 0 <= i < raw@.len() ==> #[trigger] ids@[i] == author_of(all, i),
            a <= best < b,
            best == leading_commit(all, a as int, b as int, j as int),
            best_count == share_of(all, author_of(all, best as int), a as int, b as int),
            sum <= u32::MAX,
            sum as u32 == capped(diff_sum(all, a as int, j as int)),
            merge == any_merge(all, a as int, j as int),
    {
        assert(all[j as int] == raw@[j as int]@);
        let count: u32 = count_in(raw, ids, ids[j], a, b);
        proof {
            lemma_leading_commit(all, a as int, b as int, j + 1);
            lemma_diff_sum(all, a as int, j as int);
        }
        if j > a && count > best_count {
            best = j;
            best_count = count;
        }
        let more: u128 = sum + raw[j].diff_magnitude as u128;
        sum = if more > u32::MAX as u128 {
            u32::MAX as u128
        } else {
            more
        };
        if raw[j].is_merge {
            assert(all[j as int].is_merge);
            merge = true;
        }
    }
    let last: &RawCommit = &raw[b - 1];
    assert(all[b - 1] == raw@[b - 1]@);
    let chars: Vec<char> = chars_of(last.hash.as_str());
    let n: usize = if chars.len() < 7 {
        chars.len()
    } else {
        7
    };
    let short: Vec<char> = part(chars.as_slice(), 0, n);
    assert(short@ =~= short_hash(last.hash@));
    CommitNode {
        hash: number_of_hash(last.hash.as_str()),
        short: string_of(short.as_slice()),
        author_id: ids[best],
        timestamp: last.timestamp,
        diff_magnitude: sum as u32,
        is_merge: merge,
        folded: (b - a) as u32,
    }
}

proof fn lemma_diff_sum(raw: Seq<RawCommitView>, a: int, b: int)
    ensures
        diff_sum(raw, a, b) >= 0,
    decreases b - a,
{
    if a < b {
        lemma_diff_sum(raw, a, b - 1);
    }
}

/// How many of the commits from `a` up to `b` are of an author.
fn count_in(raw: &[RawCommit], ids: &Vec<usize>, id: usize, a: usize, b: usize) -> (r: u32)
    requires
        a <= b <= raw@.len(),
        b - a <= u32::MAX,
        ids@.len() == raw@.len(),
        forall|i: int| 0 <= i < raw@.len() ==> #[trigger] ids@[i] == author_of(views(raw@), i),
    ensures
        r == share_of(views(raw@), id as int, a as int, b as int),
{
    let ghost all = views(raw@);
    let mut n: u32 = 0;
    for j in a..b
        invariant
            a <= j <= b <= raw@.len(),
            b - a <= u32::MAX,
            all == views(raw@),
            ids@.len() == raw@.len(),
            forall|i: int| 0 <= i < raw@.len() ==> #[trigger] ids@[i] == author_of(all, i),
            n == share_of(all, id as int, a as int, j as int),
            n <= j - a,
    {
        if ids[j] == id {
            n = n + 1;
        }
    }
    n
}

/// Builds the model of the history mode from the raw log, oldest commit first. Every
/// `compress` commits are folded into one bar.
pub fn build_history_model(
    raw: &[RawCommit],
    identity_seed: u64,
    branch: String,
    total_commits: u32,
    compress: u32,
) -> (r: RepoModel)
    requires
        forall|i: int|
            0 <= i < raw@.len() ==> count_by(
                views(raw@),
                author_id_text(#[trigger] views(raw@)[i]),
                raw@.len() as int,
            ) <= u32::MAX,
    ensures
        match r {
            RepoModel::History {
                identity_seed: s,
                branch: b,
                commits,
                authors,
                total_commits: t,
            } => {
                &&& s == identity_seed
                &&& b@ == branch@
                &&& t == total_commits
                &&& views(commits@) == folded_from(views(raw@), fold_size(compress), 0)
                &&& views(authors@) == authors_of(views(raw@), raw@.len() as int)
            },
            _ => false,
        },
{
    let ghost all = views(raw@);
    let (authors, ids) = collect_authors(raw);
    let k: usize = if compress < 1 {
        1
    } else {
        compress as usize
    };
    let mut commits: Vec<CommitNode> = Vec::new();
    let mut a: usize = 0;
    let ghost whole = folded_from(all, k as int, 0);
    assert(views(commits@) + whole =~= whole);
    while a < raw.len()
        invariant
            all == views(raw@),
            raw@.len() == raw.len(),
            1 <= k <= u32::MAX,
            a <= raw@.len(),
            ids@.len() == raw@.len(),
            forall|i: int| 0 <= i < raw@.len() ==> #[trigger] ids@[i] == author_of(all, i),
            whole == views(commits@) + folded_from(all, k as int, a as int),
        decreases raw@.len() - a,
    {
        let b: usize = if k < raw.len() - a {
            a + k
        } else {
            raw.len()
        };
        let ghost before = views(commits@);
        let commit: CommitNode = fold_group(raw, &ids, a, b);
        let ghost shown = commit@;
        commits.push(commit);
        proof {
            assert(views(commits@) =~= before.push(shown));
            let rest = folded_from(all, k as int, b as int);
            assert(before + (seq![shown] + rest) =~= views(commits@) + rest);
        }
        a = b;
    }
    assert(views(commits@) + Seq::<CommitView>::empty() =~= views(commits@));
    RepoModel::History { identity_seed, branch, commits, authors, total_commits }
}

} // verus!
