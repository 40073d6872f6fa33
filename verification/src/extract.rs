//! What the extraction stage reads out of git: the text formats that git's plumbing writes,
//! and the arguments that it is called with. Running git is left to the caller.

use vstd::prelude::*;
use vstd::slice::{slice_subrange, slice_to_vec};
use vstd::string::StringExecFns;
use vstd::utf8::{decode_utf8, valid_utf8};

use crate::encoding::{lossy, lossy_text, strict_text};
use crate::paths::{key_of_path, path_key};
use crate::rng::utf8;
use crate::sorting::{
    comes_before, in_order, lemma_lex_le_transitive, lemma_lex_total, lemma_sorted_in_order,
    lex_before, sort, sorted, views, Ranked, Sortable,
};
use crate::text::{
    begins, begins_at, char_lists, chars_of, decimal, is_word, lemma_decimal_digits,
    lemma_decimal_roundtrip, lemma_first_word, lines, lower_chars, lowered, parse_signed,
    parse_unsigned, pieces, push_decimal, signed_number, spells, split, split_words, string_of,
    text_lines, texts, trim, trimmed, unsigned_number, words,
};

verus! {

/// A tracked file at HEAD: its path and content.
#[derive(Debug, Clone)]
pub struct RawFile {
    pub path: String,
    pub content: Vec<u8>,
}

/// What a `RawFile` says.
#[verifier::ext_equal]
pub struct FileView {
    pub path: Seq<char>,
    pub content: Seq<u8>,
}

impl View for RawFile {
    type V = FileView;

    open spec fn view(&self) -> FileView {
        FileView { path: self.path@, content: self.content@ }
    }
}

/// One commit of the first-parent log.
#[derive(Debug, Clone)]
pub struct RawCommit {
    pub hash: String,
    pub author_name: String,
    pub author_email: String,
    pub timestamp: i64,
    /// Insertions and deletions across the commit's diff.
    pub diff_magnitude: u32,
    pub is_merge: bool,
}

/// What a `RawCommit` says.
#[verifier::ext_equal]
pub struct RawCommitView {
    pub hash: Seq<char>,
    pub author_name: Seq<char>,
    pub author_email: Seq<char>,
    pub timestamp: i64,
    pub diff_magnitude: u32,
    pub is_merge: bool,
}

impl View for RawCommit {
    type V = RawCommitView;

    open spec fn view(&self) -> RawCommitView {
        RawCommitView {
            hash: self.hash@,
            author_name: self.author_name@,
            author_email: self.author_email@,
            timestamp: self.timestamp,
            diff_magnitude: self.diff_magnitude,
            is_merge: self.is_merge,
        }
    }
}

/// A blob of the HEAD tree: its object id and its path.
#[derive(Debug, Clone)]
pub struct BlobEntry {
    pub oid: String,
    pub path: String,
}

/// What a `BlobEntry` says.
#[verifier::ext_equal]
pub struct BlobView {
    pub oid: Seq<char>,
    pub path: Seq<char>,
}

impl View for BlobEntry {
    type V = BlobView;

    open spec fn view(&self) -> BlobView {
        BlobView { oid: self.oid@, path: self.path@ }
    }
}

/// Blobs rank by their paths, component by component.
impl Ranked for BlobView {
    open spec fn le(self, other: Self) -> bool {
        !lex_before(path_key(other.path), path_key(self.path))
    }

    proof fn le_total(a: Self, b: Self) {
        lemma_lex_total(path_key(a.path), path_key(b.path));
    }

    proof fn le_transitive(a: Self, b: Self, c: Self) {
        lemma_lex_le_transitive(path_key(a.path), path_key(b.path), path_key(c.path));
    }
}

impl Sortable for BlobEntry {
    fn no_higher(&self, other: &Self) -> (r: bool) {
        let mine: Vec<u32> = key_of_path(chars_of(self.path.as_str()).as_slice());
        let theirs: Vec<u32> = key_of_path(chars_of(other.path.as_str()).as_slice());
        !comes_before(theirs.as_slice(), mine.as_slice())
    }
}

/// Why git's output could not be read.
#[derive(Debug, Clone, PartialEq, Eq)]
pub enum ExtractError {
    /// A header is not UTF-8.
    NotUtf8,
    /// The output of `git cat-file --batch` ends too early.
    Truncated,
    /// The output of `git cat-file --batch` names another object than was asked for.
    OidMismatch { wanted: String, got: String },
}

/// What an `ExtractError` says.
#[verifier::ext_equal]
pub enum Fault {
    NotUtf8,
    Truncated,
    OidMismatch { wanted: Seq<char>, got: Seq<char> },
}

impl View for ExtractError {
    type V = Fault;

    open spec fn view(&self) -> Fault {
        match self {
            ExtractError::NotUtf8 => Fault::NotUtf8,
            ExtractError::Truncated => Fault::Truncated,
            ExtractError::OidMismatch { wanted, got } => Fault::OidMismatch {
                wanted: wanted@,
                got: got@,
            },
        }
    }
}

/// What is said of an error.
pub open spec fn fault_message(e: Fault) -> Seq<char> {
    match e {
        Fault::NotUtf8 => "git output is not UTF-8"@,
        Fault::Truncated => "truncated cat-file output"@,
        Fault::OidMismatch { wanted, got } => "cat-file oid mismatch: wanted "@ + wanted + ", got "@
            + got,
    }
}

impl ExtractError {
    /// What is said of this error.
    pub fn message(&self) -> (r: String)
        ensures
            r@ == fault_message(self@),
    {
        match self {
            ExtractError::NotUtf8 => String::from_str("git output is not UTF-8"),
            ExtractError::Truncated => String::from_str("truncated cat-file output"),
            ExtractError::OidMismatch { wanted, got } => {
                let mut text = String::from_str("cat-file oid mismatch: wanted ");
                text.append(wanted.as_str());
                text.append(", got ");
                text.append(got.as_str());
                text
            },
        }
    }
}

/// The index of the first byte `b` at `i` or behind it, or the length if there is none.
pub open spec fn byte_from(s: Seq<u8>, b: u8, i: int) -> int
    decreases s.len() - i,
{
    if i >= s.len() {
        s.len() as int
    } else if s[i] == b {
        i
    } else {
        byte_from(s, b, i + 1)
    }
}

/// The index of the first byte `b`.
pub fn find_byte(s: &[u8], b: u8, i: usize) -> (r: usize)
    requires
        i <= s@.len(),
    ensures
        r == byte_from(s@, b, i as int),
        i <= r <= s@.len(),
{
    let mut k: usize = i;
    while k < s.len() && s[k] != b
        invariant
            i <= k <= s@.len(),
            byte_from(s@, b, i as int) == byte_from(s@, b, k as int),
        decreases s@.len() - k,
    {
        k = k + 1;
    }
    k
}

/// The word with the given number, or the empty text.
pub open spec fn word_at(ws: Seq<Seq<char>>, i: int) -> Seq<char> {
    if 0 <= i < ws.len() {
        ws[i]
    } else {
        seq![]
    }
}

/// What a record of `git ls-tree -z` says: nothing if it is no blob, an error if its
/// description is not UTF-8. A record is mode, type and object id, a tab, and the path.
pub open spec fn listed_blob(record: Seq<u8>) -> Result<Option<BlobView>, Fault> {
    let tab = byte_from(record, 9, 0);
    if tab >= record.len() {
        Ok(None)
    } else if !valid_utf8(record.take(tab)) {
        Err(Fault::NotUtf8)
    } else {
        let ws = words(decode_utf8(record.take(tab)));
        if word_at(ws, 1) == "blob"@ {
            Ok(Some(BlobView { oid: word_at(ws, 2), path: lossy(record.skip(tab + 1)) }))
        } else {
            Ok(None)
        }
    }
}

/// The blobs of a listing from the byte `at` on, in its order, or the first error.
pub open spec fn listed_from(listing: Seq<u8>, at: int) -> Result<Seq<BlobView>, Fault>
    decreases listing.len() + 1 - at,
{
    if at < 0 || at >= listing.len() {
        Ok(seq![])
    } else {
        let end = byte_from(listing, 0, at);
        if end < at || end > listing.len() {
            Ok(seq![])
        } else {
            match listed_blob(listing.subrange(at, end)) {
                Err(e) => Err(e),
                Ok(blob) => match listed_from(listing, end + 1) {
                    Err(e) => Err(e),
                    Ok(rest) => Ok(
                        match blob {
                            Some(b) => seq![b] + rest,
                            None => rest,
                        },
                    ),
                },
            }
        }
    }
}

/// The blobs of a listing of the HEAD tree, in the order of their paths.
pub open spec fn listed_blobs(listing: Seq<u8>) -> Result<Seq<BlobView>, Fault> {
    match listed_from(listing, 0) {
        Ok(blobs) => Ok(sorted(blobs)),
        Err(e) => Err(e),
    }
}

proof fn lemma_decoded(s: Seq<char>, bytes: Seq<u8>)
    requires
        utf8(s) == bytes,
    ensures
        decode_utf8(bytes) == s,
{
    vstd::utf8::encode_utf8_decode_utf8(s);
}

/// The texts in a list of words as strings.
fn word_string(ws: &Vec<Vec<char>>, i: usize) -> (r: String)
    ensures
        r@ == word_at(char_lists(ws@), i as int),
{
    if i < ws.len() {
        assert(char_lists(ws@)[i as int] == ws@[i as int]@);
        string_of(ws[i].as_slice())
    } else {
        String::new()
    }
}

/// Reads a record of `git ls-tree -z`.
fn read_record(record: &[u8]) -> (r: Result<Option<BlobEntry>, ExtractError>)
    ensures
        match r {
            Ok(Some(b)) => listed_blob(record@) == Ok::<_, Fault>(Some(b@)),
            Ok(None) => listed_blob(record@) == Ok::<Option<BlobView>, Fault>(None),
            Err(e) => listed_blob(record@) == Err::<Option<BlobView>, _>(e@),
        },
{
    let tab: usize = find_byte(record, 9, 0);
    if tab >= record.len() {
        return Ok(None);
    }
    let head: &[u8] = slice_subrange(record, 0, tab);
    assert(head@ =~= record@.take(tab as int));
    match strict_text(head) {
        None => Err(ExtractError::NotUtf8),
        Some(meta) => {
            proof {
                lemma_decoded(meta@, head@);
            }
            let ws: Vec<Vec<char>> = split_words(chars_of(meta.as_str()).as_slice());
            let kind: String = word_string(&ws, 1);
            if !spells(chars_of(kind.as_str()).as_slice(), "blob") {
                return Ok(None);
            }
            let tail: &[u8] = slice_subrange(record, tab + 1, record.len());
            assert(tail@ =~= record@.skip(tab + 1));
            Ok(Some(BlobEntry { oid: word_string(&ws, 2), path: lossy_text(tail) }))
        },
    }
}

/// Reads the listing that `git ls-tree -r -z HEAD` writes: the blobs, in the order of their
/// paths.
pub fn read_listing(listing: &[u8]) -> (r: Result<Vec<BlobEntry>, ExtractError>)
    ensures
        match r {
            Ok(v) => listed_blobs(listing@) == Ok::<_, Fault>(views(v@)),
            Err(e) => listed_blobs(listing@) == Err::<Seq<BlobView>, _>(e@),
        },
{
    let mut out: Vec<BlobEntry> = Vec::new();
    let mut at: usize = 0;
    let ghost whole = listed_from(listing@, 0);
    proof {
        assert(whole is Ok ==> views(out@) + whole->Ok_0 =~= whole->Ok_0);
    }
    while at < listing.len()
        invariant
            whole == listed_from(listing@, 0),
            whole is Ok <==> listed_from(listing@, at as int) is Ok,
            whole is Ok ==> whole->Ok_0 == views(out@) + listed_from(listing@, at as int)->Ok_0,
            whole is Err ==> whole->Err_0 == listed_from(listing@, at as int)->Err_0,
            at <= listing@.len() + 1,
            listing@.len() == listing.len(),
        decreases listing@.len() + 1 - at,
    {
        let end: usize = find_byte(listing, 0, at);
        let record: &[u8] = slice_subrange(listing, at, end);
        let ghost before = views(out@);
        match read_record(record) {
            Err(e) => {
                return Err(e);
            },
            Ok(Some(b)) => {
                out.push(b);
                assert(views(out@) =~= before.push(b@));
                proof {
                    if listed_from(listing@, end + 1) is Ok {
                        let rest = listed_from(listing@, end + 1)->Ok_0;
                        assert(before + (seq![b@] + rest) =~= views(out@) + rest);
                    }
                }
            },
            Ok(None) => {},
        }
        if end == listing.len() {
            proof {
                assert(listed_from(listing@, end + 1) == Ok::<Seq<BlobView>, Fault>(
                    seq![],
                ));
                assert(views(out@) + Seq::<BlobView>::empty() =~= views(out@));
            }
            at = end;
        } else {
            at = end + 1;
        }
    }
    assert(views(out@) + Seq::<BlobView>::empty() =~= views(out@));
    sort(&mut out);
    Ok(out)
}

/// The size that a header of `git cat-file --batch` gives: its last word behind the first;
/// 0 if that is no number.
pub open spec fn batch_size(ws: Seq<Seq<char>>) -> int {
    if ws.len() < 2 {
        0
    } else {
        match unsigned_number(ws.last(), 10, usize::MAX as int) {
            Some(n) => n,
            None => 0,
        }
    }
}

/// The files in the output of `git cat-file --batch` from the byte `at` on, for the entries
/// from `k` on. Each is a header line of object id, type and size, the content, and a line
/// feed.
pub open spec fn batch_from(
    out: Seq<u8>,
    entries: Seq<BlobView>,
    k: int,
    at: int,
) -> Result<Seq<FileView>, Fault>
    decreases entries.len() - k,
{
    if k >= entries.len() {
        Ok(seq![])
    } else {
        let nl = byte_from(out, 10, at);
        let header = out.subrange(at, nl);
        let ws = words(decode_utf8(header));
        let start = nl + 1;
        let size = batch_size(ws);
        if nl >= out.len() {
            Err(Fault::Truncated)
        } else if !valid_utf8(header) {
            Err(Fault::NotUtf8)
        } else if !begins(word_at(ws, 0), entries[k].oid) {
            Err(Fault::OidMismatch { wanted: entries[k].oid, got: word_at(ws, 0) })
        } else if start + size + 1 > out.len() {
            Err(Fault::Truncated)
        } else {
            let file = FileView {
                path: entries[k].path,
                content: out.subrange(start, start + size),
            };
            match batch_from(out, entries, k + 1, start + size + 1) {
                Ok(rest) => Ok(seq![file] + rest),
                Err(e) => Err(e),
            }
        }
    }
}

/// The files of the entries in the output of `git cat-file --batch`.
pub open spec fn batch_files(out: Seq<u8>, entries: Seq<BlobView>) -> Result<Seq<FileView>, Fault> {
    batch_from(out, entries, 0, 0)
}

/// Reads a header of `git cat-file --batch`: its first word and the size.
fn read_header(header: &[u8]) -> (r: Option<(String, usize)>)
    ensures
        match r {
            Some((got, size)) => valid_utf8(header@) && got@ == word_at(
                words(decode_utf8(header@)),
                0,
            ) && size == batch_size(words(decode_utf8(header@))),
            None => !valid_utf8(header@),
        },
{
    match strict_text(header) {
        None => None,
        Some(text) => {
            proof {
                lemma_decoded(text@, header@);
            }
            let ws: Vec<Vec<char>> = split_words(chars_of(text.as_str()).as_slice());
            let ghost lists = char_lists(ws@);
            let mut size: usize = 0;
            if ws.len() >= 2 {
                let last: usize = ws.len() - 1;
                assert(lists.last() == ws@[last as int]@);
                match parse_unsigned(ws[last].as_slice(), 10, usize::MAX as u64) {
                    Some(n) => {
                        size = n as usize;
                    },
                    None => {},
                }
            }
            Some((word_string(&ws, 0), size))
        },
    }
}

/// Reads what `git cat-file --batch` writes for the entries.
pub fn read_batch(out: &[u8], entries: &[BlobEntry]) -> (r: Result<Vec<RawFile>, ExtractError>)
    ensures
        match r {
            Ok(v) => batch_files(out@, views(entries@)) == Ok::<_, Fault>(views(v@)),
            Err(e) => batch_files(out@, views(entries@)) == Err::<Seq<FileView>, _>(e@),
        },
{
    let ghost all = views(entries@);
    let ghost whole = batch_files(out@, all);
    let mut files: Vec<RawFile> = Vec::new();
    let mut at: usize = 0;
    proof {
        assert(whole is Ok ==> views(files@) + whole->Ok_0 =~= whole->Ok_0);
    }
    for k in 0..entries.len()
        invariant
            all == views(entries@),
            whole == batch_files(out@, all),
            at <= out@.len(),
            out@.len() == out.len(),
            whole is Ok <==> batch_from(out@, all, k as int, at as int) is Ok,
            whole is Ok ==> whole->Ok_0 == views(files@) + batch_from(
                out@,
                all,
                k as int,
                at as int,
            )->Ok_0,
            whole is Err ==> whole->Err_0 == batch_from(out@, all, k as int, at as int)->Err_0,
    {
        assert(all[k as int] == entries@[k as int]@);
        let nl: usize = find_byte(out, 10, at);
        if nl >= out.len() {
            return Err(ExtractError::Truncated);
        }
        let header: &[u8] = slice_subrange(out, at, nl);
        match read_header(header) {
            None => {
                return Err(ExtractError::NotUtf8);
            },
            Some((got, size)) => {
                let oid: Vec<char> = chars_of(entries[k].oid.as_str());
                let word: Vec<char> = chars_of(got.as_str());
                assert(word@.skip(0) =~= word@);
                if !begins_at(word.as_slice(), 0, oid.as_slice()) {
                    let wanted: String = entries[k].oid.clone();
                    return Err(ExtractError::OidMismatch { wanted, got });
                }
                let start: usize = nl + 1;
                if size >= out.len() - start {
                    return Err(ExtractError::Truncated);
                }
                let content: Vec<u8> = slice_to_vec(slice_subrange(out, start, start + size));
                let ghost before = views(files@);
                let file = RawFile { path: entries[k].path.clone(), content };
                let ghost shown = file@;
                files.push(file);
                at = start + size + 1;
                proof {
                    assert(views(files@) =~= before.push(shown));
                    if batch_from(out@, all, k + 1, at as int) is Ok {
                        let rest = batch_from(out@, all, k + 1, at as int)->Ok_0;
                        assert(before + (seq![shown] + rest) =~= views(files@) + rest);
                    }
                }
            },
        }
    }
    assert(views(files@) + Seq::<FileView>::empty() =~= views(files@));
    Ok(files)
}

/// The lines that a column of `git log --numstat` counts; a binary file counts as a small
/// fixed cost.
pub open spec fn stat_count(column: Seq<char>) -> int {
    match unsigned_number(trimmed(column), 10, u64::MAX as int) {
        Some(n) => n,
        None => if trimmed(column) == "-"@ {
            8
        } else {
            0
        },
    }
}

/// The lines that a line of `git log --numstat` counts: its first two columns.
pub open spec fn line_count(line: Seq<char>) -> int {
    let columns = pieces(line, '\t');
    stat_count(columns[0]) + if columns.len() > 1 {
        stat_count(columns[1])
    } else {
        0
    }
}

/// The lines that the lines from `i` on count.
pub open spec fn counted_from(ls: Seq<Seq<char>>, i: int) -> int
    decreases ls.len() - i,
{
    if i >= ls.len() {
        0
    } else {
        line_count(ls[i]) + counted_from(ls, i + 1)
    }
}

/// The number as a 32-bit one, the largest of them if it is larger.
pub open spec fn capped(n: int) -> u32 {
    if n > u32::MAX {
        u32::MAX
    } else {
        n as u32
    }
}

/// What a record of the log says: a header of hash, parents, author, email and time, and
/// the lines of the diff's statistics. Nothing if the header is not complete.
pub open spec fn logged_commit(record: Seq<char>) -> Option<RawCommitView> {
    let ls = text_lines(record);
    let fields = pieces(ls[0], '\u{1f}');
    if ls.len() == 0 || fields.len() < 5 {
        None
    } else {
        Some(
            RawCommitView {
                hash: trimmed(fields[0]),
                author_name: trimmed(fields[2]),
                author_email: lowered(trimmed(fields[3])),
                timestamp: match signed_number(trimmed(fields[4])) {
                    Some(n) => n as i64,
                    None => 0,
                },
                diff_magnitude: capped(counted_from(ls, 1)),
                is_merge: words(fields[1]).len() > 1,
            },
        )
    }
}

/// The commits of the records from `k` on, the last record first.
pub open spec fn logged_back_to(records: Seq<Seq<char>>, k: int) -> Seq<RawCommitView>
    decreases records.len() - k,
{
    if k >= records.len() {
        seq![]
    } else {
        match logged_commit(records[k]) {
            Some(c) => logged_back_to(records, k + 1).push(c),
            None => logged_back_to(records, k + 1),
        }
    }
}

/// The commits of a log, oldest first. Git writes the newest first, with a control
/// character in front of each record.
pub open spec fn logged_commits(text: Seq<char>) -> Seq<RawCommitView> {
    logged_back_to(pieces(text, '\u{1}'), 1)
}

/// The lines that a column counts.
fn read_stat(column: &[char]) -> (r: u64)
    ensures
        r == stat_count(column@),
{
    let t: Vec<char> = trim(column);
    match parse_unsigned(t.as_slice(), 10, u64::MAX) {
        Some(n) => n,
        None => {
            if spells(t.as_slice(), "-") {
                8
            } else {
                0
            }
        },
    }
}

/// The lines that a line counts.
fn read_counts(line: &[char]) -> (r: u128)
    ensures
        r == line_count(line@),
        r <= 2 * u64::MAX,
{
    let columns: Vec<Vec<char>> = split(line, '\t');
    let ghost lists = char_lists(columns@);
    assert(lists[0] == columns@[0]@);
    let first: u64 = read_stat(columns[0].as_slice());
    let second: u64 = if columns.len() > 1 {
        assert(lists[1] == columns@[1]@);
        read_stat(columns[1].as_slice())
    } else {
        0
    };
    first as u128 + second as u128
}

proof fn lemma_counted_from(ls: Seq<Seq<char>>, i: int)
    requires
        0 <= i,
    ensures
        counted_from(ls, i) >= 0,
    decreases ls.len() - i,
{
    if i < ls.len() {
        lemma_counted_from(ls, i + 1);
        lemma_stat_count(pieces(ls[i], '\t')[0]);
        lemma_stat_count(pieces(ls[i], '\t')[1]);
    }
}

proof fn lemma_stat_count(column: Seq<char>)
    ensures
        stat_count(column) >= 0,
{
    let t = trimmed(column);
    crate::text::lemma_unsigned_nonneg(t, 10, u64::MAX as int);
}

/// Reads a record of the log.
fn read_commit(record: &[char]) -> (r: Option<RawCommit>)
    ensures
        match r {
            Some(c) => logged_commit(record@) == Some(c@),
            None => logged_commit(record@) is None,
        },
{
    let ls: Vec<Vec<char>> = lines(record);
    let ghost all = char_lists(ls@);
    assert(all.len() == ls@.len());
    if ls.len() == 0 {
        return None;
    }
    assert(all[0] == ls@[0]@);
    let fields: Vec<Vec<char>> = split(ls[0].as_slice(), '\u{1f}');
    let ghost parts = char_lists(fields@);
    assert(parts.len() == fields@.len());
    if fields.len() < 5 {
        return None;
    }
    proof {
        assert(parts[0] == fields@[0]@);
        assert(parts[1] == fields@[1]@);
        assert(parts[2] == fields@[2]@);
        assert(parts[3] == fields@[3]@);
        assert(parts[4] == fields@[4]@);
    }
    let mut magnitude: u128 = 0;
    for i in 1..ls.len()
        invariant
            all == char_lists(ls@),
            magnitude <= u32::MAX,
            capped(magnitude + counted_from(all, i as int)) == capped(counted_from(all, 1)),
    {
        assert(all[i as int] == ls@[i as int]@);
        proof {
            lemma_counted_from(all, i + 1);
        }
        let more: u128 = magnitude + read_counts(ls[i].as_slice());
        magnitude = if more > u32::MAX as u128 {
            u32::MAX as u128
        } else {
            more
        };
    }
    let parents: Vec<Vec<char>> = split_words(fields[1].as_slice());
    assert(char_lists(parents@).len() == parents@.len());
    let timestamp: i64 = match parse_signed(trim(fields[4].as_slice()).as_slice()) {
        Some(n) => n,
        None => 0,
    };
    Some(
        RawCommit {
            hash: string_of(trim(fields[0].as_slice()).as_slice()),
            author_name: string_of(trim(fields[2].as_slice()).as_slice()),
            author_email: string_of(
                lower_chars(trim(fields[3].as_slice()).as_slice()).as_slice(),
            ),
            timestamp,
            diff_magnitude: magnitude as u32,
            is_merge: parents.len() > 1,
        },
    )
}

/// Reads the log that git writes: its commits, oldest first.
pub fn parse_log(text: &str) -> (r: Vec<RawCommit>)
    ensures
        views(r@) == logged_commits(text@),
{
    let records: Vec<Vec<char>> = split(chars_of(text).as_slice(), '\u{1}');
    let ghost all = char_lists(records@);
    let mut out: Vec<RawCommit> = Vec::new();
    let mut k: usize = records.len();
    assert(views(out@) =~= logged_back_to(all, k as int));
    while k > 1
        invariant
            all == char_lists(records@),
            1 <= k <= records@.len(),
            views(out@) == logged_back_to(all, k as int),
        decreases k,
    {
        k = k - 1;
        assert(all[k as int] == records@[k as int]@);
        let ghost before = views(out@);
        match read_commit(records[k].as_slice()) {
            Some(c) => {
                let ghost shown = c@;
                out.push(c);
                assert(views(out@) =~= before.push(shown));
            },
            None => {},
        }
    }
    out
}

/// Reads the bytes of the log that git writes.
pub fn read_log(out: &[u8]) -> (r: Vec<RawCommit>)
    ensures
        views(r@) == logged_commits(lossy(out@)),
{
    parse_log(lossy_text(out).as_str())
}

/// The arguments of the `git log` that lists commits: all of a range, or of HEAD, and only
/// the newest `limit` if one is given.
pub open spec fn log_words(range: Option<Seq<char>>, limit: Option<usize>) -> Seq<Seq<char>> {
    let fixed = seq![
        "log"@,
        "--first-parent"@,
        "--numstat"@,
        "--format=%x01%H%x1f%P%x1f%an%x1f%ae%x1f%at"@,
    ];
    let count = match limit {
        Some(n) => seq!["-n"@, decimal(n as nat)],
        None => seq![],
    };
    (fixed + count).push(
        match range {
            Some(r) => r,
            None => "HEAD"@,
        },
    )
}

/// The arguments of the `git log` that lists commits.
pub fn log_args(range: Option<&str>, limit: Option<usize>) -> (r: Vec<String>)
    ensures
        texts(r@) == log_words(
            match range {
                Some(s) => Some(s@),
                None => None,
            },
            limit,
        ),
{
    let mut args: Vec<String> = Vec::new();
    args.push(String::from_str("log"));
    args.push(String::from_str("--first-parent"));
    args.push(String::from_str("--numstat"));
    args.push(String::from_str("--format=%x01%H%x1f%P%x1f%an%x1f%ae%x1f%at"));
    match limit {
        Some(n) => {
            args.push(String::from_str("-n"));
            let mut count = String::new();
            push_decimal(&mut count, n as u64);
            assert(count@ =~= decimal(n as nat));
            args.push(count);
        },
        None => {},
    }
    args.push(
        match range {
            Some(s) => String::from_str(s),
            None => String::from_str("HEAD"),
        },
    );
    assert(texts(args@) =~= log_words(
        match range {
            Some(s) => Some(s@),
            None => None,
        },
        limit,
    ));
    args
}

/// What git writes on a single line, such as a hash or the name of a branch.
pub open spec fn line_text(out: Seq<u8>) -> Result<Seq<char>, Fault> {
    if valid_utf8(out) {
        Ok(trimmed(decode_utf8(out)))
    } else {
        Err(Fault::NotUtf8)
    }
}

/// Reads what git writes on a single line.
pub fn read_text(out: &[u8]) -> (r: Result<String, ExtractError>)
    ensures
        match r {
            Ok(s) => line_text(out@) == Ok::<_, Fault>(s@),
            Err(e) => line_text(out@) == Err::<Seq<char>, _>(e@),
        },
{
    match strict_text(out) {
        None => Err(ExtractError::NotUtf8),
        Some(text) => {
            proof {
                lemma_decoded(text@, out@);
            }
            Ok(string_of(trim(chars_of(text.as_str()).as_slice()).as_slice()))
        },
    }
}

/// The root commit in the output of `git rev-list --max-parents=0`: its last line, unless
/// that is blank.
pub open spec fn root_of(text: Seq<char>) -> Option<Seq<char>> {
    let ls = text_lines(text);
    if ls.len() == 0 || trimmed(ls.last()).len() == 0 {
        None
    } else {
        Some(trimmed(ls.last()))
    }
}

/// Reads the root commit.
pub fn read_root(text: &str) -> (r: Option<String>)
    ensures
        match r {
            Some(s) => root_of(text@) == Some(s@),
            None => root_of(text@) is None,
        },
{
    let ls: Vec<Vec<char>> = lines(chars_of(text).as_slice());
    let ghost all = char_lists(ls@);
    assert(all.len() == ls@.len());
    if ls.len() == 0 {
        return None;
    }
    let last: usize = ls.len() - 1;
    assert(all.last() == ls@[last as int]@);
    let t: Vec<char> = trim(ls[last].as_slice());
    if t.len() == 0 {
        None
    } else {
        Some(string_of(t.as_slice()))
    }
}

/// The commit count in the output of `git rev-list --count`; 0 if it is no 32-bit number.
pub open spec fn count_of(text: Seq<char>) -> int {
    match unsigned_number(trimmed(text), 10, u32::MAX as int) {
        Some(n) => n,
        None => 0,
    }
}

/// Reads the commit count.
pub fn read_count(text: &str) -> (r: u32)
    ensures
        r == count_of(text@),
{
    match parse_unsigned(trim(chars_of(text).as_slice()).as_slice(), 10, u32::MAX as u64) {
        Some(n) => n as u32,
        None => 0,
    }
}

/// The blobs of HEAD come in the order of their paths, whatever the order of the listing.
pub proof fn lemma_listing_in_order(listing: Seq<u8>)
    ensures
        listed_blobs(listing) is Ok ==> in_order(listed_blobs(listing)->Ok_0),
{
    if listed_from(listing, 0) is Ok {
        lemma_sorted_in_order(listed_from(listing, 0)->Ok_0);
    }
}

/// Every blob that was asked for becomes a file under its path, in the order of the blobs.
pub proof fn lemma_batch_complete(out: Seq<u8>, entries: Seq<BlobView>)
    ensures
        match batch_files(out, entries) {
            Ok(files) => files.len() == entries.len() && forall|i: int|
                0 <= i < files.len() ==> (#[trigger] files[i]).path == entries[i].path,
            Err(_) => true,
        },
{
    lemma_batch_from(out, entries, 0, 0);
}

proof fn lemma_batch_from(out: Seq<u8>, entries: Seq<BlobView>, k: int, at: int)
    requires
        0 <= k <= entries.len(),
    ensures
        match batch_from(out, entries, k, at) {
            Ok(files) => files.len() == entries.len() - k && forall|i: int|
                0 <= i < files.len() ==> (#[trigger] files[i]).path == entries[k + i].path,
            Err(_) => true,
        },
    decreases entries.len() - k,
{
    if k < entries.len() {
        let nl = byte_from(out, 10, at);
        let size = batch_size(words(decode_utf8(out.subrange(at, nl))));
        let next = nl + 1 + size + 1;
        lemma_batch_from(out, entries, k + 1, next);
        if batch_from(out, entries, k, at) is Ok {
            let files = batch_from(out, entries, k, at)->Ok_0;
            let rest = batch_from(out, entries, k + 1, next)->Ok_0;
            assert forall|i: int| 0 <= i < files.len() implies (#[trigger] files[i]).path
                == entries[k + i].path by {
                if i > 0 {
                    assert(files[i] == rest[i - 1]);
                }
            }
        }
    }
}

/// The header line that `git cat-file --batch` writes for a blob.
pub open spec fn batch_header(oid: Seq<char>, size: nat) -> Seq<char> {
    oid + (seq![' '] + ("blob"@ + (seq![' '] + decimal(size))))
}

/// What `git cat-file --batch` writes for the blobs from `k` on.
pub open spec fn batch_output(
    entries: Seq<BlobView>,
    contents: Seq<Seq<u8>>,
    k: int,
) -> Seq<u8>
    decreases entries.len() - k,
{
    if k >= entries.len() {
        seq![]
    } else {
        utf8(batch_header(entries[k].oid, contents[k].len())).push(10) + contents[k].push(10)
            + batch_output(entries, contents, k + 1)
    }
}

/// Whether a text is an object id: hexadecimal digits in lower case.
pub open spec fn is_oid(s: Seq<char>) -> bool {
    s.len() > 0 && forall|i: int|
        0 <= i < s.len() ==> '0' <= #[trigger] s[i] <= '9' || 'a' <= s[i] <= 'f'
}

/// What git writes for blobs is read as the blobs: every file comes back with its content.
pub proof fn lemma_batch_roundtrip(entries: Seq<BlobView>, contents: Seq<Seq<u8>>)
    requires
        contents.len() == entries.len(),
        forall|i: int| 0 <= i < entries.len() ==> is_oid((#[trigger] entries[i]).oid),
        forall|i: int| 0 <= i < contents.len() ==> (#[trigger] contents[i]).len() <= usize::MAX,
    ensures
        batch_files(batch_output(entries, contents, 0), entries) == Ok::<_, Fault>(
            Seq::new(
                entries.len(),
                |i: int| FileView { path: entries[i].path, content: contents[i] },
            ),
        ),
{
    let out = batch_output(entries, contents, 0);
    assert(out.skip(0) =~= out);
    lemma_batch_read(out, entries, contents, 0, 0);
    assert(batch_files(out, entries)->Ok_0 =~= Seq::new(
        entries.len(),
        |i: int| FileView { path: entries[i].path, content: contents[i] },
    ));
}

proof fn lemma_batch_read(
    out: Seq<u8>,
    entries: Seq<BlobView>,
    contents: Seq<Seq<u8>>,
    k: int,
    at: int,
)
    requires
        contents.len() == entries.len(),
        forall|i: int| 0 <= i < entries.len() ==> is_oid((#[trigger] entries[i]).oid),
        forall|i: int| 0 <= i < contents.len() ==> (#[trigger] contents[i]).len() <= usize::MAX,
        0 <= k <= entries.len(),
        0 <= at <= out.len(),
        out.skip(at) == batch_output(entries, contents, k),
    ensures
        batch_from(out, entries, k, at) == Ok::<_, Fault>(
            Seq::new(
                (entries.len() - k) as nat,
                |i: int| FileView { path: entries[k + i].path, content: contents[k + i] },
            ),
        ),
    decreases entries.len() - k,
{
    let files = Seq::new(
        (entries.len() - k) as nat,
        |i: int| FileView { path: entries[k + i].path, content: contents[k + i] },
    );
    if k == entries.len() {
        assert(files =~= seq![]);
    } else {
        let oid = entries[k].oid;
        let content = contents[k];
        let h = batch_header(oid, content.len());
        let bytes = utf8(h);
        lemma_batch_header(oid, content.len());
        let rest = batch_output(entries, contents, k + 1);
        let tail = out.skip(at);
        assert(tail == bytes.push(10) + content.push(10) + rest);
        let nl = at + bytes.len();
        let size = content.len() as int;
        let start = nl + 1;
        assert(out.len() == at + bytes.len() + 1 + size + 1 + rest.len());
        assert forall|i: int| 0 <= i < bytes.len() implies out[at + i] == #[trigger] bytes[i] by {
            assert(out[at + i] == tail[i]);
        }
        assert(out[nl] == 10) by {
            assert(out[nl] == tail[bytes.len() as int]);
        }
        assert forall|j: int| at <= j < nl implies #[trigger] out[j] != 10 by {
            assert(out[at + (j - at)] == bytes[j - at]);
        }
        lemma_byte_found(out, 10, at, nl);
        assert(out.subrange(at, nl) =~= bytes);
        vstd::utf8::encode_utf8_valid_utf8(h);
        vstd::utf8::encode_utf8_decode_utf8(h);
        assert(out.subrange(start, start + size) =~= content) by {
            assert forall|i: int| 0 <= i < size implies out[start + i] == content[i] by {
                assert(out[start + i] == tail[bytes.len() + 1 + i]);
            }
        }
        let next = start + size + 1;
        assert(out.skip(next) =~= rest) by {
            assert forall|i: int| 0 <= i < rest.len() implies out[next + i] == #[trigger] rest[i] by {
                assert(out[next + i] == tail[bytes.len() + 1 + size + 1 + i]);
            }
        }
        lemma_batch_read(out, entries, contents, k + 1, next);
        assert(oid.take(oid.len() as int) =~= oid);
        let file = FileView { path: entries[k].path, content };
        let others = Seq::new(
            (entries.len() - (k + 1)) as nat,
            |i: int| FileView { path: entries[k + 1 + i].path, content: contents[k + 1 + i] },
        );
        assert(seq![file] + others =~= files);
    }
}

pub proof fn lemma_byte_found(s: Seq<u8>, b: u8, i: int, at: int)
    requires
        0 <= i <= at < s.len(),
        s[at] == b,
        forall|j: int| i <= j < at ==> #[trigger] s[j] != b,
    ensures
        byte_from(s, b, i) == at,
    decreases at - i,
{
    if i < at {
        lemma_byte_found(s, b, i + 1, at);
    }
}

/// A header is one line of three words: the id, the type and the size.
proof fn lemma_batch_header(oid: Seq<char>, size: nat)
    requires
        is_oid(oid),
        size <= usize::MAX,
    ensures
        ({
            let h = batch_header(oid, size);
            &&& words(h) == seq![oid, "blob"@, decimal(size)]
            &&& batch_size(words(h)) == size
            &&& forall|i: int| 0 <= i < utf8(h).len() ==> #[trigger] utf8(h)[i] != 10
        }),
{
    reveal_strlit("blob");
    let h = batch_header(oid, size);
    let n = decimal(size);
    lemma_decimal_digits(size);
    lemma_decimal_roundtrip(size, usize::MAX as int);
    assert(is_word(oid));
    assert(is_word("blob"@));
    assert(is_word(n));
    lemma_first_word(n, seq![]);
    lemma_first_word("blob"@, n);
    lemma_first_word(oid, "blob"@ + (seq![' '] + n));
    assert(seq![oid] + (seq!["blob"@] + seq![n]) =~= seq![oid, "blob"@, n]);
    assert forall|i: int| 0 <= i < h.len() implies ' ' <= #[trigger] h[i] <= '\u{7f}' by {
        let a = oid.len() as int;
        if i < a {
            assert(h[i] == oid[i]);
        } else if a + 1 <= i < a + 5 {
            assert(h[i] == "blob"@[i - a - 1]);
        } else if i >= a + 6 {
            assert(h[i] == n[i - a - 6]);
        }
    }
    assert(vstd::utf8::is_ascii_chars(h));
    vstd::utf8::is_ascii_chars_encode_utf8(h);
    assert forall|i: int| 0 <= i < utf8(h).len() implies #[trigger] utf8(h)[i] != 10 by {
        assert(h[i] as u8 == utf8(h)[i]);
        assert(' ' <= h[i]);
    }
}

} // verus!
