//! What is read out of the words of git.

use vstd::prelude::*;

use vstd::utf8::encode_utf8;

use crate::encoding::lossy;
use crate::extract::{
    byte_from, count_of, counted_from, lemma_byte_found, line_count, listed_blob, listed_from,
    logged_back_to, logged_commit, logged_commits, root_of, stat_count, BlobView, Fault,
    RawCommitView,
};
use crate::laws::plain::{lemma_small_letters, small_letters};
use crate::laws::texts::{
    joined, lemma_lines, lemma_pieces_of_join, lemma_trimmed, lemma_white_space, without,
};
use crate::text::{
    decimal, digit, is_space, is_word, lemma_decimal_digits, lemma_decimal_roundtrip,
    lemma_first_word, pieces, signed_number, text_lines, trimmed, words,
};

verus! {

/// What git writes of a commit in the log.
pub struct LogEntry {
    pub hash: Seq<char>,
    pub parents: Seq<Seq<char>>,
    pub name: Seq<char>,
    pub email: Seq<char>,
    pub time: int,
    /// The lines added and removed in each file, and its path; no counts for a binary file.
    pub stats: Seq<(Option<nat>, Option<nat>, Seq<char>)>,
}

/// Whether a text has no white space around it.
pub open spec fn tidy(s: Seq<char>) -> bool {
    s.len() > 0 ==> !is_space(s[0]) && !is_space(s.last())
}

/// Whether a text holds no character that separates lines, fields or records.
pub open spec fn unseparated(s: Seq<char>) -> bool {
    without(s, '\n') && without(s, '\u{1f}') && without(s, '\u{1}')
}

/// Whether an entry can be written.
pub open spec fn writable(e: LogEntry) -> bool {
    &&& tidy(e.hash) && unseparated(e.hash)
    &&& tidy(e.name) && unseparated(e.name)
    &&& tidy(e.email) && unseparated(e.email)
    &&& i64::MIN <= e.time <= i64::MAX
    &&& forall|i: int|
        0 <= i < e.parents.len() ==> is_word(#[trigger] e.parents[i]) && unseparated(e.parents[i])
    &&& forall|i: int| 0 <= i < e.stats.len() ==> countable(#[trigger] e.stats[i])
}

/// Whether the statistics of a file can be written.
pub open spec fn countable(s: (Option<nat>, Option<nat>, Seq<char>)) -> bool {
    &&& s.0 is Some ==> s.0->0 <= u64::MAX
    &&& s.1 is Some ==> s.1->0 <= u64::MAX
    &&& unseparated(s.2) && without(s.2, '\t')
    &&& s.2.len() > 0 ==> s.2.last() != '\r'
}

/// A count as git writes it; a dash for a binary file.
pub open spec fn count_text(n: Option<nat>) -> Seq<char> {
    match n {
        Some(n) => decimal(n),
        None => seq!['-'],
    }
}

/// The line about a file.
pub open spec fn stat_line(s: (Option<nat>, Option<nat>, Seq<char>)) -> Seq<char> {
    joined(seq![count_text(s.0), count_text(s.1), s.2], '\t')
}

/// The lines about the files.
pub open spec fn stat_lines(stats: Seq<(Option<nat>, Option<nat>, Seq<char>)>) -> Seq<char>
    decreases stats.len(),
{
    if stats.len() == 0 {
        seq![]
    } else {
        stat_line(stats[0]) + seq!['\n'] + stat_lines(stats.drop_first())
    }
}

/// A time as git writes it.
pub open spec fn time_text(t: int) -> Seq<char> {
    if t < 0 {
        seq!['-'] + decimal((-t) as nat)
    } else {
        decimal(t as nat)
    }
}

/// The fields of a commit.
pub open spec fn fields_of(e: LogEntry) -> Seq<Seq<char>> {
    seq![e.hash, joined(e.parents, ' '), e.name, e.email, time_text(e.time)]
}

/// The record of a commit: a line of fields, an empty line, and the lines about the files.
pub open spec fn record_of(e: LogEntry) -> Seq<char> {
    joined(fields_of(e), '\u{1f}') + seq!['\n'] + (seq![] + seq!['\n'] + stat_lines(e.stats))
}

/// The log: a control character in front of each record.
pub open spec fn log_of(entries: Seq<LogEntry>) -> Seq<char> {
    joined(seq![seq![]] + entries.map_values(|e: LogEntry| record_of(e)), '\u{1}')
}

/// The lines that a count stands for; eight where there is none.
pub open spec fn counts(n: Option<nat>) -> int {
    match n {
        Some(n) => n as int,
        None => 8,
    }
}

/// The lines added and removed in all files.
pub open spec fn changed(stats: Seq<(Option<nat>, Option<nat>, Seq<char>)>) -> int
    decreases stats.len(),
{
    if stats.len() == 0 {
        0
    } else {
        counts(stats[0].0) + counts(stats[0].1) + changed(stats.drop_first())
    }
}

/// What an entry says.
pub open spec fn commit_of(e: LogEntry) -> RawCommitView {
    RawCommitView {
        hash: e.hash,
        author_name: e.name,
        author_email: small_letters(e.email),
        timestamp: e.time as i64,
        diff_magnitude: if changed(e.stats) > 0xffff_ffff {
            0xffff_ffff
        } else {
            changed(e.stats) as u32
        },
        is_merge: e.parents.len() >= 2,
    }
}

proof fn lemma_tidy(s: Seq<char>)
    requires
        tidy(s),
    ensures
        trimmed(s) == s,
{
    let (a, b) = lemma_trimmed(s);
    if s.len() > 0 {
        if a > 0 {
            assert(is_space(s[0]));
        }
        if b < s.len() {
            assert(is_space(s[s.len() - 1]));
        }
        assert(s.subrange(0, s.len() as int) =~= s);
    } else {
        assert(s.subrange(a, b) =~= s);
    }
}

proof fn lemma_decimal_plain(n: nat)
    ensures
        tidy(decimal(n)),
        unseparated(decimal(n)),
        without(decimal(n), '\t'),
        decimal(n).len() > 0,
        digit(decimal(n)[0]) < 10,
        decimal(n).last() != '\r',
        decimal(n)[0] != '-',
{
    lemma_decimal_digits(n);
    let s = decimal(n);
    assert('0' <= s[0] <= '9' && '0' <= s[s.len() - 1] <= '9');
    assert forall|i: int| 0 <= i < s.len() implies #[trigger] s[i] != '\n' && s[i] != '\u{1f}'
        && s[i] != '\u{1}' && s[i] != '\t' by {
        assert('0' <= s[i] <= '9');
    }
}

proof fn lemma_count(n: Option<nat>)
    requires
        n is Some ==> n->0 <= u64::MAX,
    ensures
        stat_count(count_text(n)) == counts(n),
        unseparated(count_text(n)),
        without(count_text(n), '\t'),
{
    let s = count_text(n);
    match n {
        Some(k) => {
            lemma_decimal_plain(k);
            lemma_tidy(s);
            lemma_decimal_roundtrip(k, u64::MAX as int);
        },
        None => {
            reveal_strlit("-");
            assert("-"@ =~= s);
            assert(s[0] == '-');
            assert(tidy(s));
            lemma_tidy(s);
            assert(digit(s[0]) >= 10);
        },
    }
}

proof fn lemma_stat_line(s: (Option<nat>, Option<nat>, Seq<char>))
    requires
        countable(s),
    ensures
        line_count(stat_line(s)) == counts(s.0) + counts(s.1),
        unseparated(stat_line(s)),
        stat_line(s).len() > 0,
        stat_line(s).last() != '\r',
{
    let parts = seq![count_text(s.0), count_text(s.1), s.2];
    lemma_count(s.0);
    lemma_count(s.1);
    assert forall|i: int| 0 <= i < parts.len() implies without(#[trigger] parts[i], '\t') by {}
    lemma_pieces_of_join(parts, '\t');
    let line = stat_line(s);
    let rest = parts.drop_first();
    assert(rest.drop_first() =~= seq![s.2]);
    assert(joined(rest.drop_first(), '\t') == s.2);
    assert(joined(rest, '\t') == count_text(s.1) + seq!['\t'] + s.2);
    assert(line == count_text(s.0) + seq!['\t'] + (count_text(s.1) + seq!['\t'] + s.2));
    let a = count_text(s.0).len() as int;
    let b = count_text(s.1).len() as int;
    assert forall|i: int| 0 <= i < line.len() implies #[trigger] line[i] != '\n' && line[i]
        != '\u{1f}' && line[i] != '\u{1}' by {
        if i < a {
            assert(line[i] == count_text(s.0)[i]);
        } else if a < i < a + 1 + b {
            assert(line[i] == count_text(s.1)[i - a - 1]);
        } else if i > a + 1 + b {
            assert(line[i] == s.2[i - a - b - 2]);
        }
    }
    if s.2.len() > 0 {
        assert(line.last() == s.2.last());
    } else {
        assert(line.last() == '\t');
    }
}

proof fn lemma_stat_lines(stats: Seq<(Option<nat>, Option<nat>, Seq<char>)>, front: Seq<Seq<char>>)
    requires
        forall|i: int| 0 <= i < stats.len() ==> countable(#[trigger] stats[i]),
    ensures
        counted_from(front + text_lines(stat_lines(stats)), front.len() as int) == changed(stats),
        without(stat_lines(stats), '\u{1}'),
    decreases stats.len(),
{
    let text = stat_lines(stats);
    if stats.len() == 0 {
        lemma_lines(text, text);
        assert(text_lines(text) =~= seq![]);
    } else {
        let line = stat_line(stats[0]);
        let rest = stats.drop_first();
        assert(countable(stats[0]));
        assert forall|i: int| 0 <= i < rest.len() implies countable(#[trigger] rest[i]) by {
            assert(countable(stats[i + 1]));
        }
        lemma_stat_line(stats[0]);
        lemma_lines(line, stat_lines(rest));
        let more = front.push(line);
        lemma_stat_lines(rest, more);
        assert(front + text_lines(text) =~= more + text_lines(stat_lines(rest)));
        let ls = front + text_lines(text);
        assert(ls[front.len() as int] == line);
        assert(more.len() == front.len() + 1);
        assert forall|i: int| 0 <= i < text.len() implies #[trigger] text[i] != '\u{1}' by {
            if i < line.len() {
                assert(text[i] == line[i]);
            } else if i > line.len() {
                assert(text[i] == stat_lines(rest)[i - line.len() - 1]);
            }
        }
    }
}

proof fn lemma_parents(parents: Seq<Seq<char>>)
    requires
        forall|i: int| 0 <= i < parents.len() ==> is_word(#[trigger] parents[i]),
    ensures
        words(joined(parents, ' ')) == parents,
    decreases parents.len(),
{
    if parents.len() > 0 {
        let w = parents[0];
        let rest = parents.drop_first();
        assert forall|i: int| 0 <= i < rest.len() implies is_word(#[trigger] rest[i]) by {
            assert(is_word(parents[i + 1]));
        }
        lemma_parents(rest);
        lemma_first_word(w, joined(rest, ' '));
        if parents.len() == 1 {
            assert(parents =~= seq![w]);
        } else {
            assert(joined(parents, ' ') =~= w + (seq![' '] + joined(rest, ' ')));
            assert(parents =~= seq![w] + rest);
        }
    }
}

proof fn lemma_joined_unseparated(parts: Seq<Seq<char>>, c: char, x: char)
    requires
        forall|i: int| 0 <= i < parts.len() ==> without(#[trigger] parts[i], x),
        c != x,
    ensures
        without(joined(parts, c), x),
    decreases parts.len(),
{
    let s = joined(parts, c);
    if parts.len() > 0 {
        assert(without(parts[0], x));
    }
    if parts.len() > 1 {
        let rest = parts.drop_first();
        assert forall|i: int| 0 <= i < rest.len() implies without(#[trigger] rest[i], x) by {
            assert(without(parts[i + 1], x));
        }
        lemma_joined_unseparated(rest, c, x);
        let n = parts[0].len() as int;
        assert forall|i: int| 0 <= i < s.len() implies #[trigger] s[i] != x by {
            if i < n {
                assert(s[i] == parts[0][i]);
            } else if i > n {
                assert(s[i] == joined(rest, c)[i - n - 1]);
            }
        }
    }
}

proof fn lemma_time(t: int)
    requires
        i64::MIN <= t <= i64::MAX,
    ensures
        signed_number(trimmed(time_text(t))) == Some(t),
        unseparated(time_text(t)),
        time_text(t).len() > 0,
        time_text(t).last() != '\r',
{
    let s = time_text(t);
    let n = if t < 0 {
        (-t) as nat
    } else {
        t as nat
    };
    let d = decimal(n);
    lemma_decimal_plain(n);
    if t < 0 {
        assert(s[0] == '-');
        assert(s.last() == d.last());
        assert(tidy(s));
        assert(s.skip(1) =~= d);
        lemma_decimal_roundtrip(n, 0x8000_0000_0000_0000);
        assert(d[0] != '+') by {
            lemma_decimal_digits(n);
        }
        assert forall|i: int| 0 <= i < s.len() implies #[trigger] s[i] != '\n' && s[i] != '\u{1f}'
            && s[i] != '\u{1}' by {
            if i > 0 {
                assert(s[i] == d[i - 1]);
            }
        }
    } else {
        lemma_decimal_roundtrip(n, 0x7fff_ffff_ffff_ffff);
    }
    lemma_tidy(s);
}

proof fn lemma_header(e: LogEntry)
    requires
        writable(e),
    ensures
        ({
            let header = joined(fields_of(e), '\u{1f}');
            &&& pieces(header, '\u{1f}') == fields_of(e)
            &&& without(header, '\n')
            &&& without(header, '\u{1}')
            &&& header.len() > 0
            &&& header.last() != '\r'
        }),
{
    let parts = fields_of(e);
    let header = joined(parts, '\u{1f}');
    lemma_time(e.time);
    assert forall|i: int| 0 <= i < e.parents.len() implies without(#[trigger] e.parents[i], '\n')
        && without(e.parents[i], '\u{1f}') && without(e.parents[i], '\u{1}') by {
        assert(unseparated(e.parents[i]));
    }
    lemma_joined_unseparated(e.parents, ' ', '\n');
    lemma_joined_unseparated(e.parents, ' ', '\u{1f}');
    lemma_joined_unseparated(e.parents, ' ', '\u{1}');
    assert forall|i: int| 0 <= i < parts.len() implies unseparated(#[trigger] parts[i]) by {}
    assert forall|i: int| 0 <= i < parts.len() implies without(#[trigger] parts[i], '\u{1f}') by {
        assert(unseparated(parts[i]));
    }
    assert forall|i: int| 0 <= i < parts.len() implies without(#[trigger] parts[i], '\n') by {
        assert(unseparated(parts[i]));
    }
    assert forall|i: int| 0 <= i < parts.len() implies without(#[trigger] parts[i], '\u{1}') by {
        assert(unseparated(parts[i]));
    }
    lemma_pieces_of_join(parts, '\u{1f}');
    lemma_joined_unseparated(parts, '\u{1f}', '\n');
    lemma_joined_unseparated(parts, '\u{1f}', '\u{1}');
    lemma_last_of_join(parts, '\u{1f}');
}

proof fn lemma_last_of_join(parts: Seq<Seq<char>>, c: char)
    requires
        parts.len() > 0,
        parts.last().len() > 0,
    ensures
        joined(parts, c).len() > 0,
        joined(parts, c).last() == parts.last().last(),
    decreases parts.len(),
{
    if parts.len() > 1 {
        lemma_last_of_join(parts.drop_first(), c);
    }
}

/// The record of a commit is read as the commit: its hash, its author with the email in small
/// letters, its time, the lines that it changed, with eight for each count that a binary file
/// has not, and whether it has two parents or more.
pub proof fn lemma_record(e: LogEntry)
    requires
        writable(e),
    ensures
        logged_commit(record_of(e)) == Some(commit_of(e)),
        without(record_of(e), '\u{1}'),
{
    let header = joined(fields_of(e), '\u{1f}');
    let stats = stat_lines(e.stats);
    let none = Seq::<char>::empty();
    let tail = none + seq!['\n'] + stats;
    let text = record_of(e);
    lemma_header(e);
    lemma_lines(header, tail);
    lemma_lines(none, stats);
    let ls = text_lines(text);
    let front = seq![header, none];
    assert(ls =~= front + text_lines(stats));
    lemma_stat_lines(e.stats, front);
    assert(ls[0] == header && ls[1] == none);
    assert(line_count(none) == 0) by {
        assert(pieces(none, '\t') =~= seq![none]);
        lemma_tidy(none);
        reveal_strlit("-");
        assert("-"@.len() == 1);
    }
    assert(counted_from(ls, 1) == line_count(ls[1]) + counted_from(ls, 2));
    lemma_tidy(e.hash);
    lemma_tidy(e.name);
    lemma_tidy(e.email);
    lemma_small_letters(e.email);
    lemma_time(e.time);
    assert forall|i: int| 0 <= i < e.parents.len() implies is_word(#[trigger] e.parents[i]) by {}
    lemma_parents(e.parents);
    lemma_changed(e.stats);
    assert forall|i: int| 0 <= i < text.len() implies #[trigger] text[i] != '\u{1}' by {
        let n = header.len() as int;
        if i < n {
            assert(text[i] == header[i]);
        } else if i > n + 1 {
            assert(text[i] == stats[i - n - 2]);
        }
    }
}

proof fn lemma_changed(stats: Seq<(Option<nat>, Option<nat>, Seq<char>)>)
    ensures
        changed(stats) >= 0,
    decreases stats.len(),
{
    if stats.len() > 0 {
        lemma_changed(stats.drop_first());
    }
}

proof fn lemma_back_to(records: Seq<Seq<char>>, entries: Seq<LogEntry>, k: int)
    requires
        1 <= k <= records.len(),
        records.len() == entries.len() + 1,
        forall|i: int|
            0 <= i < entries.len() ==> logged_commit(#[trigger] records[i + 1]) == Some(
                commit_of(entries[i]),
            ),
    ensures
        logged_back_to(records, k) == Seq::new(
            (records.len() - k) as nat,
            |i: int| commit_of(entries[entries.len() - 1 - i]),
        ),
    decreases records.len() - k,
{
    if k < records.len() {
        lemma_back_to(records, entries, k + 1);
        assert(logged_commit(records[(k - 1) + 1]) == Some(commit_of(entries[k - 1])));
        assert(logged_back_to(records, k) =~= Seq::new(
            (records.len() - k) as nat,
            |i: int| commit_of(entries[entries.len() - 1 - i]),
        ));
    } else {
        assert(logged_back_to(records, k) =~= Seq::new(
            0,
            |i: int| commit_of(entries[entries.len() - 1 - i]),
        ));
    }
}

/// A log is read as its commits, the last of them, which is the oldest, first.
pub proof fn lemma_log(entries: Seq<LogEntry>)
    requires
        forall|i: int| 0 <= i < entries.len() ==> writable(#[trigger] entries[i]),
    ensures
        logged_commits(log_of(entries)) == Seq::new(
            entries.len(),
            |i: int| commit_of(entries[entries.len() - 1 - i]),
        ),
{
    let none = Seq::<char>::empty();
    let records = seq![none] + entries.map_values(|e: LogEntry| record_of(e));
    assert forall|i: int| 0 <= i < records.len() implies without(
        #[trigger] records[i],
        '\u{1}',
    ) by {
        if i > 0 {
            assert(records[i] == record_of(entries[i - 1]));
            lemma_record(entries[i - 1]);
        }
    }
    lemma_pieces_of_join(records, '\u{1}');
    assert forall|i: int| 0 <= i < entries.len() implies logged_commit(#[trigger] records[i + 1])
        == Some(commit_of(entries[i])) by {
        assert(records[i + 1] == record_of(entries[i]));
        lemma_record(entries[i]);
    }
    lemma_back_to(records, entries, 1);
}

/// A count that git writes is read as its number, whatever white space is around it; nothing
/// that is no number counts.
pub proof fn lemma_count_of(n: nat, before: Seq<char>, behind: Seq<char>)
    requires
        n <= u32::MAX,
        crate::text::is_blank(before),
        crate::text::is_blank(behind),
    ensures
        count_of(before + decimal(n) + behind) == n,
{
    let d = decimal(n);
    let s = before + d + behind;
    lemma_decimal_plain(n);
    let (a, b) = lemma_trimmed(s);
    let x = before.len() as int;
    let y = x + d.len();
    assert(s[x] == d[0] && s[y - 1] == d[d.len() - 1]);
    if a > x {
        assert(is_space(s[x]));
    }
    if b < y {
        assert(is_space(s[y - 1]));
    }
    if a < x {
        assert(s[a] == before[a]);
        assert(is_space(s[a]));
    }
    if b > y {
        assert(s[b - 1] == behind[b - 1 - y]);
        assert(is_space(s[b - 1]));
    }
    assert(s.subrange(x, y) =~= d);
    lemma_decimal_roundtrip(n, u32::MAX as int);
}

/// The root commit is the last line, without the white space around it; a text whose last line
/// is blank names none.
pub proof fn lemma_root(front: Seq<char>, line: Seq<char>)
    requires
        without(line, '\n'),
        line.len() > 0,
        tidy(line),
    ensures
        root_of(line) == Some(line),
        root_of(line + seq!['\n']) == Some(line),
        front.len() > 0 && without(front, '\n')
            ==> root_of(front + seq!['\n'] + line) == Some(line),
        root_of(seq![]) is None,
{
    let none = Seq::<char>::empty();
    lemma_lines(line, none);
    lemma_lines(none, none);
    lemma_tidy(line);
    assert(line + seq!['\n'] + none =~= line + seq!['\n']);
    assert(text_lines(none) =~= seq![]);
    assert(line.last() != '\r') by {
        lemma_white_space(line.last());
        lemma_white_space('\r');
    }
    assert(text_lines(line + seq!['\n']) =~= seq![line]);
    if front.len() > 0 && without(front, '\n') {
        lemma_lines(front, line);
    }
}

/// Whether a text is a word of printable ASCII characters.
pub open spec fn ascii_word(s: Seq<char>) -> bool {
    s.len() > 0 && forall|i: int| 0 <= i < s.len() ==> '!' <= #[trigger] s[i] <= '~'
}

/// A record of the listing of a tree: mode, type and object id, a tab, and the path.
pub open spec fn tree_record(
    mode: Seq<char>,
    kind: Seq<char>,
    oid: Seq<char>,
    path: Seq<u8>,
) -> Seq<u8> {
    encode_utf8(mode + (seq![' '] + (kind + (seq![' '] + oid)))).push(9) + path
}

/// A record of the listing is read as its object id and path if it is that of a blob, and
/// passed over if it is that of anything else.
pub proof fn lemma_tree_record(
    mode: Seq<char>,
    kind: Seq<char>,
    oid: Seq<char>,
    path: Seq<u8>,
)
    requires
        ascii_word(mode),
        ascii_word(kind),
        ascii_word(oid),
    ensures
        listed_blob(tree_record(mode, kind, oid, path)) == (if kind == "blob"@ {
            Ok::<Option<BlobView>, Fault>(Some(BlobView { oid, path: lossy(path) }))
        } else {
            Ok(None)
        }),
{
    let h = mode + (seq![' '] + (kind + (seq![' '] + oid)));
    let bytes = encode_utf8(h);
    let record = tree_record(mode, kind, oid, path);
    assert(is_word(mode) && is_word(kind) && is_word(oid));
    lemma_first_word(oid, seq![]);
    lemma_first_word(kind, oid);
    lemma_first_word(mode, kind + (seq![' '] + oid));
    assert(words(h) =~= seq![mode, kind, oid]);
    let a = mode.len() as int;
    let b = kind.len() as int;
    assert forall|i: int| 0 <= i < h.len() implies ' ' <= #[trigger] h[i] <= '~' by {
        if i < a {
            assert(h[i] == mode[i]);
        } else if a < i < a + 1 + b {
            assert(h[i] == kind[i - a - 1]);
        } else if i > a + 1 + b {
            assert(h[i] == oid[i - a - b - 2]);
        }
    }
    assert(vstd::utf8::is_ascii_chars(h));
    vstd::utf8::is_ascii_chars_encode_utf8(h);
    let tab = bytes.len() as int;
    assert(record[tab] == 9);
    assert forall|j: int| 0 <= j < tab implies #[trigger] record[j] != 9 by {
        assert(record[j] == bytes[j]);
        assert(h[j] as u8 == bytes[j]);
        assert(' ' <= h[j]);
    }
    lemma_byte_found(record, 9, 0, tab);
    assert(record.take(tab) =~= bytes);
    assert(record.skip(tab + 1) =~= path);
    vstd::utf8::encode_utf8_valid_utf8(h);
    vstd::utf8::encode_utf8_decode_utf8(h);
}

proof fn lemma_byte_skip(s: Seq<u8>, b: u8, k: int, i: int)
    requires
        0 <= k <= s.len(),
        0 <= i,
    ensures
        byte_from(s.skip(k), b, i) == byte_from(s, b, k + i) - k,
    decreases s.len() - k - i,
{
    if i < s.len() - k && s[k + i] != b {
        lemma_byte_skip(s, b, k, i + 1);
    }
}

proof fn lemma_byte_stops(s: Seq<u8>, b: u8, i: int)
    requires
        0 <= i <= s.len(),
    ensures
        i <= byte_from(s, b, i) <= s.len(),
    decreases s.len() - i,
{
    if i < s.len() && s[i] != b {
        lemma_byte_stops(s, b, i + 1);
    }
}

proof fn lemma_listed_skip(s: Seq<u8>, k: int, at: int)
    requires
        0 <= k <= s.len(),
        0 <= at,
    ensures
        listed_from(s.skip(k), at) == listed_from(s, k + at),
    decreases s.len() + 1 - k - at,
{
    let t = s.skip(k);
    if at < t.len() {
        let end = byte_from(t, 0, at);
        lemma_byte_skip(s, 0, k, at);
        lemma_byte_stops(t, 0, at);
        assert(t.subrange(at, end) =~= s.subrange(k + at, k + end));
        lemma_listed_skip(s, k, end + 1);
    }
}

/// A listing is read record by record, each up to a zero byte: the blob of the first, if it is
/// one, and then those of the rest. An error in either is the error of the whole.
pub proof fn lemma_listing(record: Seq<u8>, rest: Seq<u8>)
    requires
        forall|i: int| 0 <= i < record.len() ==> #[trigger] record[i] != 0,
    ensures
        listed_from(seq![], 0) == Ok::<Seq<BlobView>, Fault>(seq![]),
        listed_from(record.push(0) + rest, 0) == match (listed_blob(record), listed_from(rest, 0)) {
            (Err(e), _) => Err(e),
            (_, Err(e)) => Err(e),
            (Ok(None), Ok(blobs)) => Ok(blobs),
            (Ok(Some(b)), Ok(blobs)) => Ok(seq![b] + blobs),
        },
{
    let s = record.push(0) + rest;
    let n = record.len() as int;
    assert forall|j: int| 0 <= j < n implies #[trigger] s[j] != 0 by {
        assert(s[j] == record[j]);
    }
    lemma_byte_found(s, 0, 0, n);
    assert(s.subrange(0, n) =~= record);
    assert(s.skip(n + 1) =~= rest);
    lemma_listed_skip(s, n + 1, 0);
}

} // verus!
