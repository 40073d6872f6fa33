//! What is read out of texts and paths.

use vstd::prelude::*;

use crate::paths::{
    components, extension, file_name, is_component, last_dot, leading_part, path_depth,
    top_directory,
};
use crate::sorting::lex_before;
use crate::text::{
    decimal, digit, find_from, is_space, pieces, text_lines, trimmed, trimmed_end, trimmed_start,
    word_len, words,
};

verus! {

/// Texts with a separator between each two.
pub open spec fn joined(parts: Seq<Seq<char>>, c: char) -> Seq<char>
    decreases parts.len(),
{
    if parts.len() == 0 {
        seq![]
    } else if parts.len() == 1 {
        parts[0]
    } else {
        parts[0] + seq![c] + joined(parts.drop_first(), c)
    }
}

/// Whether a character is nowhere in a text.
pub open spec fn without(s: Seq<char>, c: char) -> bool {
    forall|i: int| 0 <= i < s.len() ==> #[trigger] s[i] != c
}

/// Whether a text is a plain name in a path: not empty, without a slash, and neither the
/// current directory nor the one above.
pub open spec fn plain_name(name: Seq<char>) -> bool {
    name.len() > 0 && without(name, '/') && name != seq!['.'] && name != seq!['.', '.']
}

/// Whether texts are plain names, one at least.
pub open spec fn plain_names(names: Seq<Seq<char>>) -> bool {
    names.len() > 0 && forall|i: int| 0 <= i < names.len() ==> plain_name(#[trigger] names[i])
}

proof fn lemma_find(s: Seq<char>, c: char, i: int, k: int)
    requires
        0 <= k <= i <= s.len(),
        forall|j: int| k <= j < i ==> #[trigger] s[j] != c,
        i == s.len() || s[i] == c,
    ensures
        find_from(s, c, k) == i,
    decreases i - k,
{
    if k < i {
        lemma_find(s, c, i, k + 1);
    }
}

/// A text cut at a character: what stands before the first one, and the rest cut likewise.
/// So pieces hold no separator, and joined by it they are the text.
pub proof fn lemma_pieces_of_join(parts: Seq<Seq<char>>, c: char)
    requires
        parts.len() > 0,
        forall|i: int| 0 <= i < parts.len() ==> without(#[trigger] parts[i], c),
    ensures
        pieces(joined(parts, c), c) == parts,
    decreases parts.len(),
{
    let s = joined(parts, c);
    assert(without(parts[0], c));
    if parts.len() == 1 {
        lemma_find(s, c, s.len() as int, 0);
        assert(parts =~= seq![s]);
    } else {
        let i = parts[0].len() as int;
        let rest = parts.drop_first();
        assert(s[i] == c);
        assert forall|j: int| 0 <= j < i implies #[trigger] s[j] != c by {
            assert(s[j] == parts[0][j]);
        }
        lemma_find(s, c, i, 0);
        assert(s.take(i) =~= parts[0]);
        assert(s.skip(i + 1) =~= joined(rest, c));
        assert forall|j: int| 0 <= j < rest.len() implies without(#[trigger] rest[j], c) by {
            assert(rest[j] == parts[j + 1]);
        }
        lemma_pieces_of_join(rest, c);
        assert(seq![parts[0]] + rest =~= parts);
    }
}

proof fn lemma_find_stops(s: Seq<char>, c: char, k: int)
    requires
        0 <= k <= s.len(),
    ensures
        k <= find_from(s, c, k) <= s.len(),
        forall|j: int| k <= j < find_from(s, c, k) ==> #[trigger] s[j] != c,
        find_from(s, c, k) < s.len() ==> s[find_from(s, c, k)] == c,
    decreases s.len() - k,
{
    if k < s.len() && s[k] != c {
        lemma_find_stops(s, c, k + 1);
    }
}

/// The pieces of a text hold no separator, and joined by it they are the text.
pub proof fn lemma_join_of_pieces(s: Seq<char>, c: char)
    ensures
        pieces(s, c).len() > 0,
        forall|i: int| 0 <= i < pieces(s, c).len() ==> without(#[trigger] pieces(s, c)[i], c),
        joined(pieces(s, c), c) == s,
    decreases s.len(),
{
    let i = find_from(s, c, 0);
    lemma_find_stops(s, c, 0);
    let ps = pieces(s, c);
    if i < s.len() {
        let rest = s.skip(i + 1);
        lemma_join_of_pieces(rest, c);
        let more = pieces(rest, c);
        assert(ps == seq![s.take(i)] + more);
        assert(ps.drop_first() =~= more);
        assert(s.take(i) + seq![c] + rest =~= s);
        assert forall|j: int| 0 <= j < ps.len() implies without(#[trigger] ps[j], c) by {
            if j > 0 {
                assert(ps[j] == more[j - 1]);
            } else {
                assert forall|k: int| 0 <= k < ps[0].len() implies #[trigger] ps[0][k] != c by {
                    assert(ps[0][k] == s[k]);
                }
            }
        }
    } else {
        assert(ps == seq![s]);
        assert(ps[0] == s);
    }
}

/// A text without a line feed is one line, an empty one none; and a line feed ends a line,
/// together with a carriage return in front of it.
pub proof fn lemma_lines(line: Seq<char>, rest: Seq<char>)
    requires
        without(line, '\n'),
    ensures
        text_lines(line) == if line.len() == 0 {
            seq![]
        } else {
            seq![line]
        },
        text_lines(line + seq!['\n'] + rest) == seq![
            if line.len() > 0 && line.last() == '\r' {
                line.take(line.len() - 1)
            } else {
                line
            },
        ] + text_lines(rest),
{
    lemma_find(line, '\n', line.len() as int, 0);
    let s = line + seq!['\n'] + rest;
    let i = line.len() as int;
    assert(s[i] == '\n');
    assert forall|j: int| 0 <= j < i implies #[trigger] s[j] != '\n' by {
        assert(s[j] == line[j]);
    }
    lemma_find(s, '\n', i, 0);
    assert(s.take(i) =~= line);
    assert(s.skip(i + 1) =~= rest);
}

/// White space, by its code points.
pub proof fn lemma_white_space(c: char)
    ensures
        is_space(c) <==> {
            let n = c as int;
            ||| 9 <= n <= 13
            ||| n == 32
            ||| n == 0x85
            ||| n == 0xa0
            ||| n == 0x1680
            ||| 0x2000 <= n <= 0x200a
            ||| n == 0x2028
            ||| n == 0x2029
            ||| n == 0x202f
            ||| n == 0x205f
            ||| n == 0x3000
        },
{
}

/// A trimmed text is what is left between white space: it neither begins nor ends with any.
pub proof fn lemma_trimmed(s: Seq<char>) -> (bounds: (int, int))
    ensures
        0 <= bounds.0 <= bounds.1 <= s.len(),
        trimmed(s) == s.subrange(bounds.0, bounds.1),
        forall|i: int| 0 <= i < bounds.0 ==> is_space(#[trigger] s[i]),
        forall|i: int| bounds.1 <= i < s.len() ==> is_space(#[trigger] s[i]),
        bounds.0 < bounds.1 ==> !is_space(s[bounds.0]) && !is_space(s[bounds.1 - 1]),
{
    let a = lemma_trimmed_start(s);
    let t = trimmed_start(s);
    let n = lemma_trimmed_end(t);
    assert(trimmed(s) =~= s.subrange(a, a + n));
    assert forall|i: int| a + n <= i < s.len() implies is_space(#[trigger] s[i]) by {
        assert(is_space(t[i - a]));
    }
    if n > 0 {
        assert(t[0] == s[a] && t[n - 1] == s[a + n - 1]);
    }
    (a, a + n)
}

proof fn lemma_trimmed_start(s: Seq<char>) -> (a: int)
    ensures
        0 <= a <= s.len(),
        trimmed_start(s) == s.skip(a),
        forall|i: int| 0 <= i < a ==> is_space(#[trigger] s[i]),
        a < s.len() ==> !is_space(s[a]),
    decreases s.len(),
{
    if s.len() > 0 && is_space(s[0]) {
        let b = lemma_trimmed_start(s.drop_first());
        assert(s.drop_first().skip(b) =~= s.skip(b + 1));
        assert forall|i: int| 0 <= i < b + 1 implies is_space(#[trigger] s[i]) by {
            if i > 0 {
                assert(is_space(s.drop_first()[i - 1]));
            }
        }
        b + 1
    } else {
        assert(s.skip(0) =~= s);
        0
    }
}

proof fn lemma_trimmed_end(s: Seq<char>) -> (n: int)
    ensures
        0 <= n <= s.len(),
        trimmed_end(s) == s.take(n),
        forall|i: int| n <= i < s.len() ==> is_space(#[trigger] s[i]),
        n > 0 ==> !is_space(s[n - 1]),
    decreases s.len(),
{
    if s.len() > 0 && is_space(s.last()) {
        let b = lemma_trimmed_end(s.drop_last());
        assert(s.drop_last().take(b) =~= s.take(b));
        assert forall|i: int| b <= i < s.len() implies is_space(#[trigger] s[i]) by {
            if i < s.len() - 1 {
                assert(is_space(s.drop_last()[i]));
            }
        }
        b
    } else {
        assert(s.take(s.len() as int) =~= s);
        s.len() as int
    }
}

/// The digits: 0 to 9, then a to f in either case.
pub proof fn lemma_digits(c: char)
    ensures
        48 <= c as int <= 57 ==> digit(c) == c as int - 48,
        97 <= c as int <= 102 ==> digit(c) == c as int - 87,
        65 <= c as int <= 70 ==> digit(c) == c as int - 55,
        digit(c) >= 16 <==> !(48 <= c as int <= 57) && !(97 <= c as int <= 102) && !(65 <= c as int
            <= 70),
{
}

/// In the order of lists, what counts is the first place where two differ; a list stands
/// before those that go on from it.
pub proof fn lemma_first_difference(front: Seq<u32>, a: Seq<u32>, b: Seq<u32>)
    ensures
        a.len() == 0 && b.len() > 0 ==> lex_before(front + a, front + b),
        b.len() == 0 ==> !lex_before(front + a, front + b),
        a.len() > 0 && b.len() > 0 && a[0] < b[0] ==> lex_before(front + a, front + b),
        a.len() > 0 && b.len() > 0 && a[0] > b[0] ==> !lex_before(front + a, front + b),
    decreases front.len(),
{
    if front.len() == 0 {
        assert(front + a =~= a);
        assert(front + b =~= b);
    } else {
        lemma_first_difference(front.drop_first(), a, b);
        assert((front + a).drop_first() =~= front.drop_first() + a);
        assert((front + b).drop_first() =~= front.drop_first() + b);
    }
}

proof fn lemma_all_kept(parts: Seq<Seq<char>>)
    requires
        forall|i: int| 0 <= i < parts.len() ==> is_component(#[trigger] parts[i]),
    ensures
        parts.filter(|p: Seq<char>| is_component(p)) == parts,
    decreases parts.len(),
{
    reveal(Seq::filter);
    if parts.len() > 0 {
        let front = parts.drop_last();
        assert forall|i: int| 0 <= i < front.len() implies is_component(#[trigger] front[i]) by {
            assert(front[i] == parts[i]);
        }
        lemma_all_kept(front);
        assert(front.push(parts.last()) =~= parts);
    }
}

proof fn lemma_components_of_names(names: Seq<Seq<char>>)
    requires
        plain_names(names),
    ensures
        components(joined(names, '/')) == names,
{
    let path = joined(names, '/');
    assert forall|i: int| 0 <= i < names.len() implies without(#[trigger] names[i], '/') by {
        assert(plain_name(names[i]));
    }
    lemma_pieces_of_join(names, '/');
    assert(leading_part(path) =~= seq![]) by {
        assert(plain_name(names[0]));
        assert(path[0] == names[0][0]);
    }
    assert forall|i: int| 0 <= i < names.len() implies is_component(#[trigger] names[i]) by {
        assert(plain_name(names[i]));
    }
    lemma_all_kept(names);
    assert(components(path) =~= names);
}

/// The components of a path of plain names are the names. The directory at its top is the
/// first of several, its depth is how many stand before the last, and its name is the last.
pub proof fn lemma_path_of_names(names: Seq<Seq<char>>)
    requires
        plain_names(names),
    ensures
        components(joined(names, '/')) == names,
        file_name(joined(names, '/')) == Some(names.last()),
        top_directory(joined(names, '/')) == if names.len() > 1 {
            names[0]
        } else {
            seq!['.']
        },
        names.len() <= 256 ==> path_depth(joined(names, '/')) == names.len() - 1,
{
    lemma_components_of_names(names);
    let last = names[names.len() - 1];
    assert(plain_name(last));
    if last == crate::paths::root_part() {
        assert(last[0] == '/');
    }
}

proof fn lemma_last_dot(s: Seq<char>, i: int, n: int)
    requires
        0 <= i < n <= s.len(),
        s[i] == '.',
        forall|j: int| i < j < n ==> #[trigger] s[j] != '.',
    ensures
        last_dot(s, n) == i,
    decreases n,
{
    if s[n - 1] != '.' {
        lemma_last_dot(s, i, n - 1);
    }
}

proof fn lemma_no_dot(s: Seq<char>, n: int)
    requires
        0 <= n <= s.len(),
        forall|j: int| 0 <= j < n ==> #[trigger] s[j] != '.',
    ensures
        last_dot(s, n) == -1,
    decreases n,
{
    if n > 0 {
        lemma_no_dot(s, n - 1);
    }
}

/// The extension of a path is what follows the last dot of its name, where something stands
/// before that dot.
pub proof fn lemma_extension(names: Seq<Seq<char>>, stem: Seq<char>, ext: Seq<char>)
    requires
        plain_names(names),
        names.last() == stem + seq!['.'] + ext,
        without(ext, '.'),
    ensures
        stem.len() > 0 ==> extension(joined(names, '/')) == Some(ext),
        stem.len() == 0 ==> extension(joined(names, '/')) is None,
{
    lemma_path_of_names(names);
    let name = names.last();
    let i = stem.len() as int;
    assert(name[i] == '.');
    assert forall|j: int| i < j < name.len() implies #[trigger] name[j] != '.' by {
        assert(name[j] == ext[j - i - 1]);
    }
    lemma_last_dot(name, i, name.len() as int);
    assert(name.skip(i + 1) =~= ext);
}

/// A name without a dot has no extension.
pub proof fn lemma_no_extension(names: Seq<Seq<char>>)
    requires
        plain_names(names),
        without(names.last(), '.'),
    ensures
        extension(joined(names, '/')) is None,
{
    lemma_path_of_names(names);
    lemma_no_dot(names.last(), names.last().len() as int);
}

proof fn lemma_word_length(w: Seq<char>, c: char, rest: Seq<char>)
    requires
        forall|i: int| 0 <= i < w.len() ==> !is_space(#[trigger] w[i]),
        is_space(c),
    ensures
        word_len(w + seq![c] + rest) == w.len(),
    decreases w.len(),
{
    let s = w + seq![c] + rest;
    if w.len() > 0 {
        assert(s[0] == w[0]);
        let v = w.drop_first();
        assert forall|i: int| 0 <= i < v.len() implies !is_space(#[trigger] v[i]) by {
            assert(!is_space(w[i + 1]));
        }
        lemma_word_length(v, c, rest);
        assert(s.drop_first() =~= v + seq![c] + rest);
    } else {
        assert(s[0] == c);
    }
}

/// The words of a text are parted by white space of any kind, one or more.
pub proof fn lemma_words(w: Seq<char>, c: char, rest: Seq<char>)
    requires
        w.len() > 0,
        forall|i: int| 0 <= i < w.len() ==> !is_space(#[trigger] w[i]),
        is_space(c),
    ensures
        words(seq![]) == Seq::<Seq<char>>::empty(),
        words(seq![c] + rest) == words(rest),
        words(w + seq![c] + rest) == seq![w] + words(rest),
{
    let s = w + seq![c] + rest;
    let t = seq![c] + rest;
    lemma_word_length(w, c, rest);
    assert(s[0] == w[0]);
    assert(s.take(w.len() as int) =~= w);
    assert(s.skip(w.len() as int) =~= t);
    assert(t[0] == c);
    assert(t.drop_first() =~= rest);
    assert(words(t) == words(rest));
    assert(!is_space(s[0]) && 0 < word_len(s) <= s.len());
    assert(words(s) == seq![s.take(word_len(s))] + words(s.skip(word_len(s))));
}

/// A number in decimal has no zero in front of it, and one digit more than its tenth.
pub proof fn lemma_decimal_length(n: nat)
    ensures
        n < 10 ==> decimal(n).len() == 1,
        n >= 10 ==> decimal(n).len() == decimal(n / 10).len() + 1,
        n > 0 ==> decimal(n)[0] != '0',
    decreases n,
{
    if n >= 10 {
        lemma_decimal_length(n / 10);
        crate::text::lemma_decimal_digits(n / 10);
        assert(decimal(n)[0] == decimal(n / 10)[0]);
    }
}

} // verus!
