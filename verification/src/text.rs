//! Text as sequences of characters: trimming, splitting, numbers and case.

use vstd::prelude::*;
use vstd::slice::{slice_subrange, slice_to_vec};

verus! {

/// `String::push`: appends the character to the end.
pub assume_specification[ String::push ](s: &mut String, c: char)
    ensures
        final(s)@ == old(s)@.push(c),
;

/// Whether a character is white space in the sense of Unicode.
pub open spec fn is_space(c: char) -> bool {
    ||| '\u{9}' <= c <= '\u{d}'
    ||| c == ' '
    ||| c == '\u{85}'
    ||| c == '\u{a0}'
    ||| c == '\u{1680}'
    ||| '\u{2000}' <= c <= '\u{200a}'
    ||| c == '\u{2028}'
    ||| c == '\u{2029}'
    ||| c == '\u{202f}'
    ||| c == '\u{205f}'
    ||| c == '\u{3000}'
}

/// The lower-case form of an ASCII letter; any other character stays as it is.
pub open spec fn lower(c: char) -> char {
    if 'A' <= c <= 'Z' {
        ((c as u8) + 32) as u8 as char
    } else {
        c
    }
}

/// The text with its ASCII letters in lower case.
pub open spec fn lowered(s: Seq<char>) -> Seq<char> {
    s.map_values(|c: char| lower(c))
}

/// Whether `s` begins with `p`.
pub open spec fn begins(s: Seq<char>, p: Seq<char>) -> bool {
    p.len() <= s.len() && s.take(p.len() as int) == p
}

/// Whether `p` occurs somewhere in `s`.
pub open spec fn occurs(s: Seq<char>, p: Seq<char>) -> bool {
    exists|i: int| 0 <= i <= s.len() && #[trigger] begins(s.skip(i), p)
}

/// The text without its leading white space.
pub open spec fn trimmed_start(s: Seq<char>) -> Seq<char>
    decreases s.len(),
{
    if s.len() > 0 && is_space(s[0]) {
        trimmed_start(s.drop_first())
    } else {
        s
    }
}

/// The text without its trailing white space.
pub open spec fn trimmed_end(s: Seq<char>) -> Seq<char>
    decreases s.len(),
{
    if s.len() > 0 && is_space(s.last()) {
        trimmed_end(s.drop_last())
    } else {
        s
    }
}

/// The text without its leading and trailing white space.
pub open spec fn trimmed(s: Seq<char>) -> Seq<char> {
    trimmed_end(trimmed_start(s))
}

/// Whether a text holds nothing but white space.
pub open spec fn is_blank(s: Seq<char>) -> bool {
    forall|i: int| 0 <= i < s.len() ==> is_space(#[trigger] s[i])
}

/// The index of the first `c` at `i` or behind it, or the length if there is none.
pub open spec fn find_from(s: Seq<char>, c: char, i: int) -> int
    decreases s.len() - i,
{
    if i >= s.len() {
        s.len() as int
    } else if s[i] == c {
        i
    } else {
        find_from(s, c, i + 1)
    }
}

/// The text cut at every `c`: the pieces between them, in order, empty ones too.
pub open spec fn pieces(s: Seq<char>, c: char) -> Seq<Seq<char>>
    decreases s.len(),
{
    let i = find_from(s, c, 0);
    if i < 0 || i >= s.len() {
        seq![s]
    } else {
        seq![s.take(i)] + pieces(s.skip(i + 1), c)
    }
}

/// The text without the carriage return at its end, if there is one.
pub open spec fn without_return(s: Seq<char>) -> Seq<char> {
    if s.len() > 0 && s.last() == '\r' {
        s.drop_last()
    } else {
        s
    }
}

/// The lines of a text, without their line ends. A line feed at the very end opens no
/// further line, and a carriage return before a line feed belongs to the line end.
pub open spec fn text_lines(s: Seq<char>) -> Seq<Seq<char>>
    decreases s.len(),
{
    let i = find_from(s, '\n', 0);
    if s.len() == 0 {
        seq![]
    } else if i < 0 || i >= s.len() {
        seq![s]
    } else {
        seq![without_return(s.take(i))] + text_lines(s.skip(i + 1))
    }
}

/// The length of the stretch of `s` at its start that holds no white space.
pub open spec fn word_len(s: Seq<char>) -> int
    decreases s.len(),
{
    if s.len() == 0 || is_space(s[0]) {
        0
    } else {
        1 + word_len(s.drop_first())
    }
}

/// The words of a text: its maximal stretches without white space.
pub open spec fn words(s: Seq<char>) -> Seq<Seq<char>>
    decreases s.len(),
{
    if s.len() == 0 {
        seq![]
    } else if is_space(s[0]) {
        words(s.drop_first())
    } else if 0 < word_len(s) <= s.len() {
        seq![s.take(word_len(s))] + words(s.skip(word_len(s)))
    } else {
        seq![]
    }
}

/// The value of a digit in base 16; 16 for any other character.
pub open spec fn digit(c: char) -> int {
    if '0' <= c <= '9' {
        c as int - '0' as int
    } else if 'a' <= c <= 'f' {
        c as int - 'a' as int + 10
    } else if 'A' <= c <= 'F' {
        c as int - 'A' as int + 10
    } else {
        16
    }
}

/// Whether every character is a digit in the base.
pub open spec fn all_digits(s: Seq<char>, base: int) -> bool {
    forall|i: int| 0 <= i < s.len() ==> digit(#[trigger] s[i]) < base
}

/// The number that the digits write.
pub open spec fn digits_value(s: Seq<char>, base: int) -> int
    decreases s.len(),
{
    if s.len() == 0 {
        0
    } else {
        digits_value(s.drop_last(), base) * base + digit(s.last())
    }
}

/// The number that a text of digits writes, if there is a digit, nothing else, and the
/// number is at most `max`.
pub open spec fn digits_number(s: Seq<char>, base: int, max: int) -> Option<int> {
    if s.len() > 0 && all_digits(s, base) && digits_value(s, base) <= max {
        Some(digits_value(s, base))
    } else {
        None
    }
}

/// The number up to `max` that a text writes, with or without a plus sign in front.
pub open spec fn unsigned_number(s: Seq<char>, base: int, max: int) -> Option<int> {
    if s.len() > 0 && s[0] == '+' {
        digits_number(s.skip(1), base, max)
    } else {
        digits_number(s, base, max)
    }
}

/// A number that digits write is not negative.
pub proof fn lemma_unsigned_nonneg(s: Seq<char>, base: int, max: int)
    requires
        2 <= base <= 16,
    ensures
        unsigned_number(s, base, max) is Some ==> unsigned_number(s, base, max)->0 >= 0,
{
    if s.len() > 0 && s[0] == '+' {
        if all_digits(s.skip(1), base) {
            lemma_digits_grow(s.skip(1), base, 0);
        }
    } else if all_digits(s, base) {
        lemma_digits_grow(s, base, 0);
    }
}

/// The 64-bit signed number that a text writes in decimal, with or without a sign.
pub open spec fn signed_number(s: Seq<char>) -> Option<int> {
    if s.len() > 0 && s[0] == '-' {
        match digits_number(s.skip(1), 10, 0x8000_0000_0000_0000) {
            Some(n) => Some(-n),
            None => None,
        }
    } else {
        unsigned_number(s, 10, 0x7fff_ffff_ffff_ffff)
    }
}

/// The decimal digit for a number below ten.
pub open spec fn decimal_digit(n: int) -> char {
    (n + '0' as int) as u8 as char
}

/// A number in decimal.
pub open spec fn decimal(n: nat) -> Seq<char>
    decreases n,
{
    if n < 10 {
        seq![decimal_digit(n as int)]
    } else {
        decimal(n / 10).push(decimal_digit((n % 10) as int))
    }
}

/// The hexadecimal digit for a number below sixteen.
pub open spec fn hex_digit(n: int) -> char {
    if n < 10 {
        (n + '0' as int) as u8 as char
    } else {
        (n - 10 + 'a' as int) as u8 as char
    }
}

/// The last `width` hexadecimal digits of a number, zeros in front.
pub open spec fn hex(n: nat, width: nat) -> Seq<char>
    decreases width,
{
    if width == 0 {
        seq![]
    } else {
        hex(n / 16, (width - 1) as nat).push(hex_digit((n % 16) as int))
    }
}

/// The code points of a text. In their lexicographic order texts stand as in that of
/// their UTF-8 bytes.
pub open spec fn codes(s: Seq<char>) -> Seq<u32> {
    s.map_values(|c: char| c as u32)
}

/// The texts in a list of strings.
pub open spec fn texts(v: Seq<String>) -> Seq<Seq<char>> {
    v.map_values(|s: String| s@)
}

/// The texts in a list of character vectors.
pub open spec fn char_lists(v: Seq<Vec<char>>) -> Seq<Seq<char>> {
    v.map_values(|s: Vec<char>| s@)
}

/// The characters of a text.
pub fn chars_of(s: &str) -> (r: Vec<char>)
    ensures
        r@ == s@,
{
    let mut out: Vec<char> = Vec::new();
    for c in it: s.chars()
        invariant
            out@ == s@.take(it.index()),
            it.seq() == s@,
    {
        assert(s@.take(it.index() + 1) =~= s@.take(it.index()).push(c));
        out.push(c);
    }
    assert(s@.take(s@.len() as int) =~= s@);
    out
}

/// The text with the given characters.
pub fn string_of(s: &[char]) -> (r: String)
    ensures
        r@ == s@,
{
    let mut out = String::new();
    for i in 0..s.len()
        invariant
            out@ == s@.take(i as int),
    {
        assert(s@.take(i + 1) =~= s@.take(i as int).push(s@[i as int]));
        out.push(s[i]);
    }
    assert(s@.take(s@.len() as int) =~= s@);
    out
}

/// The characters from `i` up to `j`.
pub fn part(s: &[char], i: usize, j: usize) -> (r: Vec<char>)
    requires
        i <= j <= s@.len(),
    ensures
        r@ == s@.subrange(i as int, j as int),
{
    slice_to_vec(slice_subrange(s, i, j))
}

/// Whether two character lists are the same.
pub fn same_chars(a: &[char], b: &[char]) -> (r: bool)
    ensures
        r == (a@ == b@),
{
    if a.len() != b.len() {
        return false;
    }
    for i in 0..a.len()
        invariant
            a@.len() == b@.len(),
            forall|j: int| 0 <= j < i ==> a@[j] == b@[j],
    {
        if a[i] != b[i] {
            assert(a@[i as int] != b@[i as int]);
            return false;
        }
    }
    assert(a@ =~= b@);
    true
}

/// Whether the characters write the text.
pub fn spells(a: &[char], b: &str) -> (r: bool)
    ensures
        r == (a@ == b@),
{
    same_chars(a, chars_of(b).as_slice())
}

/// Whether a character is white space in the sense of Unicode.
pub fn space(c: char) -> (r: bool)
    ensures
        r == is_space(c),
{
    ('\u{9}' <= c && c <= '\u{d}') || c == ' ' || c == '\u{85}' || c == '\u{a0}' || c
        == '\u{1680}' || ('\u{2000}' <= c && c <= '\u{200a}') || c == '\u{2028}' || c
        == '\u{2029}' || c == '\u{202f}' || c == '\u{205f}' || c == '\u{3000}'
}

/// Whether the text holds nothing but white space.
pub fn blank(s: &[char]) -> (r: bool)
    ensures
        r == is_blank(s@),
{
    for i in 0..s.len()
        invariant
            forall|j: int| 0 <= j < i ==> is_space(#[trigger] s@[j]),
    {
        if !space(s[i]) {
            assert(!is_space(s@[i as int]));
            return false;
        }
    }
    true
}

/// The text with its ASCII letters in lower case.
pub fn lower_chars(s: &[char]) -> (r: Vec<char>)
    ensures
        r@ == lowered(s@),
{
    let mut out: Vec<char> = Vec::new();
    for i in 0..s.len()
        invariant
            out@ == lowered(s@.take(i as int)),
    {
        let c: char = s[i];
        let l: char = if 'A' <= c && c <= 'Z' {
            ((c as u8) + 32) as char
        } else {
            c
        };
        assert(lowered(s@.take(i + 1)) =~= lowered(s@.take(i as int)).push(lower(c)));
        out.push(l);
    }
    assert(s@.take(s@.len() as int) =~= s@);
    out
}

/// Whether the text begins with `p` at `at`.
pub fn begins_at(s: &[char], at: usize, p: &[char]) -> (r: bool)
    requires
        at <= s@.len(),
    ensures
        r == begins(s@.skip(at as int), p@),
{
    if p.len() > s.len() - at {
        return false;
    }
    for i in 0..p.len()
        invariant
            at + p@.len() <= s@.len(),
            s@.len() == s.len(),
            forall|j: int| 0 <= j < i ==> s@[at + j] == p@[j],
    {
        if s[at + i] != p[i] {
            assert(s@.skip(at as int).take(p@.len() as int)[i as int] == s@[at + i]);
            return false;
        }
    }
    assert(s@.skip(at as int).take(p@.len() as int) =~= p@);
    true
}

/// Whether `p` occurs somewhere in the text.
pub fn contains(s: &[char], p: &[char]) -> (r: bool)
    ensures
        r == occurs(s@, p@),
{
    for i in 0..s.len()
        invariant
            forall|j: int| 0 <= j < i ==> !#[trigger] begins(s@.skip(j), p@),
    {
        if begins_at(s, i, p) {
            assert(begins(s@.skip(i as int), p@));
            return true;
        }
    }
    let r: bool = begins_at(s, s.len(), p);
    assert(r ==> begins(s@.skip(s@.len() as int), p@));
    r
}

proof fn lemma_trimmed_start(s: Seq<char>, i: int)
    requires
        0 <= i <= s.len(),
        forall|j: int| 0 <= j < i ==> is_space(#[trigger] s[j]),
        i == s.len() || !is_space(s[i]),
    ensures
        trimmed_start(s) == s.skip(i),
    decreases i,
{
    if i > 0 {
        lemma_trimmed_start(s.drop_first(), i - 1);
        assert(s.drop_first().skip(i - 1) =~= s.skip(i));
    } else {
        assert(s.skip(0) =~= s);
    }
}

proof fn lemma_trimmed_end(s: Seq<char>, n: int)
    requires
        0 <= n <= s.len(),
        forall|j: int| n <= j < s.len() ==> is_space(#[trigger] s[j]),
        n == 0 || !is_space(s[n - 1]),
    ensures
        trimmed_end(s) == s.take(n),
    decreases s.len(),
{
    if n < s.len() {
        lemma_trimmed_end(s.drop_last(), n);
        assert(s.drop_last().take(n) =~= s.take(n));
    } else {
        assert(s.take(n) =~= s);
    }
}

/// The text without its leading and trailing white space.
pub fn trim(s: &[char]) -> (r: Vec<char>)
    ensures
        r@ == trimmed(s@),
{
    let mut i: usize = 0;
    while i < s.len() && space(s[i])
        invariant
            i <= s@.len(),
            forall|j: int| 0 <= j < i ==> is_space(#[trigger] s@[j]),
        decreases s@.len() - i,
    {
        i = i + 1;
    }
    let mut n: usize = s.len();
    while n > i && space(s[n - 1])
        invariant
            i <= n <= s@.len(),
            forall|j: int| n <= j < s@.len() ==> is_space(#[trigger] s@[j]),
        decreases n,
    {
        n = n - 1;
    }
    proof {
        lemma_trimmed_start(s@, i as int);
        lemma_trimmed_end(s@.skip(i as int), n - i);
        assert(s@.skip(i as int).take(n - i) =~= s@.subrange(i as int, n as int));
    }
    part(s, i, n)
}

proof fn lemma_find_skip(s: Seq<char>, c: char, k: int, i: int)
    requires
        0 <= k <= s.len(),
        0 <= i,
    ensures
        find_from(s.skip(k), c, i) == find_from(s, c, k + i) - k,
    decreases s.len() - k - i,
{
    if i < s.len() - k && s[k + i] != c {
        lemma_find_skip(s, c, k, i + 1);
    }
}

/// The index of the first `c` at `i` or behind it, or the length if there is none.
pub fn find(s: &[char], c: char, i: usize) -> (r: usize)
    requires
        i <= s@.len(),
    ensures
        r == find_from(s@, c, i as int),
        i <= r <= s@.len(),
        r < s@.len() ==> s@[r as int] == c,
{
    let mut k: usize = i;
    while k < s.len() && s[k] != c
        invariant
            i <= k <= s@.len(),
            find_from(s@, c, i as int) == find_from(s@, c, k as int),
        decreases s@.len() - k,
    {
        k = k + 1;
    }
    k
}

/// The text cut at every `c`.
pub fn split(s: &[char], c: char) -> (r: Vec<Vec<char>>)
    ensures
        char_lists(r@) == pieces(s@, c),
        r@.len() > 0,
{
    let mut out: Vec<Vec<char>> = Vec::new();
    let mut start: usize = 0;
    assert(s@.skip(0) =~= s@);
    assert(char_lists(out@) + pieces(s@, c) =~= pieces(s@, c));
    loop
        invariant_except_break
            start <= s@.len(),
            char_lists(out@) + pieces(s@.skip(start as int), c) == pieces(s@, c),
        ensures
            char_lists(out@) == pieces(s@, c),
            out@.len() > 0,
        decreases s@.len() - start,
    {
        let ghost before = out@;
        let end: usize = find(s, c, start);
        proof {
            lemma_find_skip(s@, c, start as int, 0);
        }
        let piece: Vec<char> = part(s, start, end);
        assert(piece@ =~= s@.skip(start as int).take(end - start));
        out.push(piece);
        assert(char_lists(out@) =~= char_lists(before).push(piece@));
        if end >= s.len() {
            assert(piece@ =~= s@.skip(start as int));
            assert(char_lists(out@) =~= char_lists(before) + seq![piece@]);
            break;
        }
        proof {
            assert(s@.skip(start as int).skip(end - start + 1) =~= s@.skip(end + 1));
            assert(char_lists(out@) + pieces(s@.skip(end + 1), c) =~= char_lists(before) + (
            seq![piece@] + pieces(s@.skip(end + 1), c)));
        }
        start = end + 1;
    }
    out
}

/// The lines of a text, without their line ends.
pub fn lines(s: &[char]) -> (r: Vec<Vec<char>>)
    ensures
        char_lists(r@) == text_lines(s@),
{
    let mut out: Vec<Vec<char>> = Vec::new();
    let mut start: usize = 0;
    assert(s@.skip(0) =~= s@);
    assert(char_lists(out@) + text_lines(s@) =~= text_lines(s@));
    while start < s.len()
        invariant
            start <= s@.len(),
            char_lists(out@) + text_lines(s@.skip(start as int)) == text_lines(s@),
        decreases s@.len() - start,
    {
        let ghost before = out@;
        let end: usize = find(s, '\n', start);
        proof {
            lemma_find_skip(s@, '\n', start as int, 0);
        }
        let ghost body = s@.skip(start as int).take(end - start);
        if end >= s.len() {
            let line: Vec<char> = part(s, start, end);
            assert(line@ =~= s@.skip(start as int));
            out.push(line);
            proof {
                assert(s@.skip(end as int) =~= Seq::<char>::empty());
                assert(char_lists(out@) + text_lines(s@.skip(end as int)) =~= char_lists(before)
                    + seq![line@]);
            }
            start = end;
        } else {
            let stop: usize = if end > start && s[end - 1] == '\r' {
                end - 1
            } else {
                end
            };
            let line: Vec<char> = part(s, start, stop);
            assert(line@ =~= without_return(body));
            out.push(line);
            proof {
                assert(s@.skip(start as int).skip(end - start + 1) =~= s@.skip(end + 1));
                assert(char_lists(out@) + text_lines(s@.skip(end + 1)) =~= char_lists(before) + (
                seq![line@] + text_lines(s@.skip(end + 1))));
            }
            start = end + 1;
        }
    }
    proof {
        assert(s@.skip(start as int) =~= Seq::<char>::empty());
        assert(char_lists(out@) + Seq::<Seq<char>>::empty() =~= char_lists(out@));
    }
    out
}

proof fn lemma_word_len(s: Seq<char>, n: int)
    requires
        0 <= n <= s.len(),
        forall|j: int| 0 <= j < n ==> !is_space(#[trigger] s[j]),
        n == s.len() || is_space(s[n]),
    ensures
        word_len(s) == n,
    decreases n,
{
    if n > 0 {
        lemma_word_len(s.drop_first(), n - 1);
    }
}

/// The words of a text.
pub fn split_words(s: &[char]) -> (r: Vec<Vec<char>>)
    ensures
        char_lists(r@) == words(s@),
{
    let mut out: Vec<Vec<char>> = Vec::new();
    let mut start: usize = 0;
    assert(s@.skip(0) =~= s@);
    assert(char_lists(out@) + words(s@) =~= words(s@));
    while start < s.len()
        invariant
            start <= s@.len(),
            char_lists(out@) + words(s@.skip(start as int)) == words(s@),
        decreases s@.len() - start,
    {
        if space(s[start]) {
            assert(s@.skip(start as int).drop_first() =~= s@.skip(start + 1));
            start = start + 1;
        } else {
            let ghost before = out@;
            let mut end: usize = start;
            while end < s.len() && !space(s[end])
                invariant
                    start <= end <= s@.len(),
                    forall|j: int| start <= j < end ==> !is_space(#[trigger] s@[j]),
                decreases s@.len() - end,
            {
                end = end + 1;
            }
            let word: Vec<char> = part(s, start, end);
            proof {
                lemma_word_len(s@.skip(start as int), end - start);
                assert(word@ =~= s@.skip(start as int).take(end - start));
                assert(s@.skip(start as int).skip(end - start) =~= s@.skip(end as int));
            }
            out.push(word);
            assert(char_lists(out@) + words(s@.skip(end as int)) =~= char_lists(before) + (
            seq![word@] + words(s@.skip(end as int))));
            start = end;
        }
    }
    proof {
        assert(s@.skip(start as int) =~= Seq::<char>::empty());
        assert(char_lists(out@) + Seq::<Seq<char>>::empty() =~= char_lists(out@));
    }
    out
}

/// The value of a digit in base 16; 16 for any other character.
fn digit_of(c: char) -> (r: u8)
    ensures
        r == digit(c),
{
    if '0' <= c && c <= '9' {
        c as u8 - 48
    } else if 'a' <= c && c <= 'f' {
        c as u8 - 97 + 10
    } else if 'A' <= c && c <= 'F' {
        c as u8 - 65 + 10
    } else {
        16
    }
}

proof fn lemma_digits_grow(s: Seq<char>, base: int, k: int)
    requires
        0 <= k <= s.len(),
        all_digits(s, base),
        2 <= base <= 16,
    ensures
        0 <= digits_value(s.take(k), base) <= digits_value(s, base),
    decreases s.len(),
{
    if k < s.len() {
        lemma_digits_grow(s.drop_last(), base, k);
        assert(s.drop_last().take(k) =~= s.take(k));
        let v = digits_value(s.drop_last(), base);
        assert(v <= v * base) by (nonlinear_arith)
            requires
                v >= 0,
                base >= 2,
        ;
        assert(digit(s.last()) >= 0);
    } else {
        assert(s.take(k) =~= s);
        if s.len() > 0 {
            lemma_digits_grow(s.drop_last(), base, s.len() - 1);
            assert(s.drop_last().take(s.len() - 1) =~= s.drop_last());
            let v = digits_value(s.drop_last(), base);
            assert(0 <= v * base) by (nonlinear_arith)
                requires
                    v >= 0,
                    base >= 2,
            ;
            assert(digit(s.last()) >= 0);
        }
    }
}

/// The number that the digits from `at` on write, if there is a digit, nothing else, and
/// the number is at most `max`.
fn parse_digits(s: &[char], at: usize, base: u8, max: u64) -> (r: Option<u64>)
    requires
        at <= s@.len(),
        2 <= base <= 16,
    ensures
        match r {
            Some(n) => digits_number(s@.skip(at as int), base as int, max as int) == Some(n as int),
            None => digits_number(s@.skip(at as int), base as int, max as int) is None,
        },
{
    let ghost body = s@.skip(at as int);
    if at == s.len() {
        return None;
    }
    let mut total: u128 = 0;
    let mut i: usize = at;
    while i < s.len()
        invariant
            at <= i <= s@.len(),
            body == s@.skip(at as int),
            2 <= base <= 16,
            total <= max,
            all_digits(body.take(i - at), base as int),
            total == digits_value(body.take(i - at), base as int),
        decreases s@.len() - i,
    {
        let d: u8 = digit_of(s[i]);
        assert(body[i - at] == s@[i as int]);
        if d >= base {
            assert(!all_digits(body, base as int));
            return None;
        }
        proof {
            assert(body.take(i - at + 1).drop_last() =~= body.take(i - at));
            assert(total * base <= total * 16) by (nonlinear_arith)
                requires
                    base <= 16,
                    total >= 0,
            ;
            assert forall|j: int| 0 <= j < i - at + 1 implies digit(
                #[trigger] body.take(i - at + 1)[j],
            ) < base by {
                if j < i - at {
                    assert(body.take(i - at)[j] == body.take(i - at + 1)[j]);
                }
            }
        }
        total = total * base as u128 + d as u128;
        i = i + 1;
        if total > max as u128 {
            proof {
                if all_digits(body, base as int) {
                    lemma_digits_grow(body, base as int, i - at);
                }
            }
            return None;
        }
    }
    assert(body.take(i - at) =~= body);
    Some(total as u64)
}

/// The number up to `max` that the text writes in the base, with or without a plus sign.
pub fn parse_unsigned(s: &[char], base: u8, max: u64) -> (r: Option<u64>)
    requires
        2 <= base <= 16,
    ensures
        match r {
            Some(n) => unsigned_number(s@, base as int, max as int) == Some(n as int) && n <= max,
            None => unsigned_number(s@, base as int, max as int) is None,
        },
{
    if s.len() > 0 && s[0] == '+' {
        parse_digits(s, 1, base, max)
    } else {
        assert(s@.skip(0) =~= s@);
        parse_digits(s, 0, base, max)
    }
}

/// The 64-bit signed number that the text writes in decimal.
pub fn parse_signed(s: &[char]) -> (r: Option<i64>)
    ensures
        match r {
            Some(n) => signed_number(s@) == Some(n as int),
            None => signed_number(s@) is None,
        },
{
    if s.len() > 0 && s[0] == '-' {
        match parse_digits(s, 1, 10, 0x8000_0000_0000_0000) {
            Some(n) => Some((-(n as i128)) as i64),
            None => None,
        }
    } else {
        match parse_unsigned(s, 10, 0x7fff_ffff_ffff_ffff) {
            Some(n) => Some(n as i64),
            None => None,
        }
    }
}

/// A number in decimal is written with the digits 0 to 9.
pub proof fn lemma_decimal_digits(n: nat)
    ensures
        decimal(n).len() > 0,
        forall|i: int| 0 <= i < decimal(n).len() ==> '0' <= #[trigger] decimal(n)[i] <= '9',
    decreases n,
{
    if n >= 10 {
        lemma_decimal_digits(n / 10);
        let head = decimal(n / 10);
        assert forall|i: int| 0 <= i < decimal(n).len() implies '0' <= #[trigger] decimal(n)[i]
            <= '9' by {
            if i < head.len() {
                assert(decimal(n)[i] == head[i]);
            }
        }
    }
}

proof fn lemma_decimal_value(n: nat)
    ensures
        digits_value(decimal(n), 10) == n,
    decreases n,
{
    reveal_with_fuel(digits_value, 2);
    if n >= 10 {
        lemma_decimal_value(n / 10);
        assert(decimal(n).drop_last() =~= decimal(n / 10));
    } else {
        assert(decimal(n).drop_last() =~= Seq::<char>::empty());
    }
}

/// A number is read back from its decimal form.
pub proof fn lemma_decimal_roundtrip(n: nat, max: int)
    requires
        n <= max,
    ensures
        unsigned_number(decimal(n), 10, max) == Some(n as int),
{
    let s = decimal(n);
    lemma_decimal_digits(n);
    lemma_decimal_value(n);
    assert(s[0] != '+');
    assert forall|i: int| 0 <= i < s.len() implies digit(#[trigger] s[i]) < 10 by {
        assert('0' <= s[i] <= '9');
    }
}

/// The hexadecimal form of a number has as many digits as asked for, all in base 16.
pub proof fn lemma_hex_digits(n: nat, width: nat)
    ensures
        hex(n, width).len() == width,
        forall|i: int|
            0 <= i < width ==> '0' <= #[trigger] hex(n, width)[i] <= '9' || 'a' <= hex(n, width)[i]
                <= 'f',
    decreases width,
{
    if width > 0 {
        let head = hex(n / 16, (width - 1) as nat);
        lemma_hex_digits(n / 16, (width - 1) as nat);
        assert forall|i: int| 0 <= i < width implies '0' <= #[trigger] hex(n, width)[i] <= '9'
            || 'a' <= hex(n, width)[i] <= 'f' by {
            if i < width - 1 {
                assert(hex(n, width)[i] == head[i]);
            }
        }
    }
}

/// The least number that takes more than `width` hexadecimal digits.
spec fn hex_end(width: nat) -> nat
    decreases width,
{
    if width == 0 {
        1
    } else {
        16 * hex_end((width - 1) as nat)
    }
}

proof fn lemma_hex_value(n: nat, width: nat)
    requires
        n < hex_end(width),
    ensures
        digits_value(hex(n, width), 16) == n,
    decreases width,
{
    if width > 0 {
        lemma_hex_value(n / 16, (width - 1) as nat);
        assert(hex(n, width).drop_last() =~= hex(n / 16, (width - 1) as nat));
    }
}

/// A 64-bit number is read back from its sixteen hexadecimal digits.
pub proof fn lemma_hex_roundtrip(n: u64)
    ensures
        unsigned_number(hex(n as nat, 16), 16, u64::MAX as int) == Some(n as int),
{
    let s = hex(n as nat, 16);
    lemma_hex_digits(n as nat, 16);
    assert(hex_end(16) == 0x1_0000_0000_0000_0000) by {
        reveal_with_fuel(hex_end, 17);
    }
    lemma_hex_value(n as nat, 16);
    assert(s[0] != '+');
    assert forall|i: int| 0 <= i < s.len() implies digit(#[trigger] s[i]) < 16 by {
        assert('0' <= s[i] <= '9' || 'a' <= s[i] <= 'f');
    }
}

/// Whether a text is a single word.
pub open spec fn is_word(s: Seq<char>) -> bool {
    s.len() > 0 && forall|i: int| 0 <= i < s.len() ==> !is_space(#[trigger] s[i])
}

proof fn lemma_word_ends(w: Seq<char>, rest: Seq<char>)
    requires
        forall|i: int| 0 <= i < w.len() ==> !is_space(#[trigger] w[i]),
        rest.len() == 0 || is_space(rest[0]),
    ensures
        word_len(w + rest) == w.len(),
    decreases w.len(),
{
    if w.len() == 0 {
        assert(w + rest =~= rest);
    } else {
        let v = w.drop_first();
        assert forall|i: int| 0 <= i < v.len() implies !is_space(#[trigger] v[i]) by {
            assert(v[i] == w[i + 1]);
        }
        lemma_word_ends(v, rest);
        assert((w + rest).drop_first() =~= v + rest);
        assert((w + rest)[0] == w[0]);
    }
}

/// A word in front of a space, or alone, is the first word of a text.
pub proof fn lemma_first_word(w: Seq<char>, rest: Seq<char>)
    requires
        is_word(w),
    ensures
        words(w) == seq![w],
        words(w + (seq![' '] + rest)) == seq![w] + words(rest),
{
    let none = Seq::<char>::empty();
    lemma_word_ends(w, none);
    assert(w + none =~= w);
    assert(w.take(w.len() as int) =~= w);
    assert(w.skip(w.len() as int) =~= none);
    assert(!is_space(w[0]));
    assert(words(none) =~= Seq::<Seq<char>>::empty());
    assert(words(w) =~= seq![w] + words(none));
    assert(seq![w] + Seq::<Seq<char>>::empty() =~= seq![w]);
    let tail = seq![' '] + rest;
    let all = w + tail;
    lemma_word_ends(w, tail);
    assert(all[0] == w[0]);
    assert(all.take(w.len() as int) =~= w);
    assert(all.skip(w.len() as int) =~= tail);
    assert(tail.drop_first() =~= rest);
    assert(words(tail) == words(rest));
}

/// Appends a number in decimal.
pub fn push_decimal(out: &mut String, n: u64)
    ensures
        final(out)@ == old(out)@ + decimal(n as nat),
    decreases n,
{
    let ghost before = out@;
    if n >= 10 {
        push_decimal(out, n / 10);
    }
    out.push((48 + (n % 10) as u8) as char);
    proof {
        if n < 10 {
            assert(out@ =~= before + decimal(n as nat));
        } else {
            assert(out@ =~= before + decimal(n as nat / 10).push(decimal_digit((n % 10) as int)));
        }
    }
}

/// Appends the last `width` hexadecimal digits of a number, zeros in front.
pub fn push_hex(out: &mut String, n: u64, width: u32)
    ensures
        final(out)@ == old(out)@ + hex(n as nat, width as nat),
    decreases width,
{
    let ghost before = out@;
    if width > 0 {
        push_hex(out, n / 16, width - 1);
        let d: u8 = (n % 16) as u8;
        if d < 10 {
            out.push((48 + d) as char);
        } else {
            out.push((97 + (d - 10)) as char);
        }
    }
    assert(out@ =~= before + hex(n as nat, width as nat));
}

/// The code points of a text.
pub fn code_points(s: &[char]) -> (r: Vec<u32>)
    ensures
        r@ == codes(s@),
{
    let mut out: Vec<u32> = Vec::new();
    for i in 0..s.len()
        invariant
            out@ == codes(s@.take(i as int)),
    {
        assert(codes(s@.take(i + 1)) =~= codes(s@.take(i as int)).push(s@[i as int] as u32));
        out.push(s[i] as u32);
    }
    assert(s@.take(s@.len() as int) =~= s@);
    out
}

} // verus!
