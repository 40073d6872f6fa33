//! Repository paths: texts whose parts are separated by slashes.

use vstd::prelude::*;

use crate::text::{char_lists, find_from, part, pieces, spells, split};

verus! {

/// The component that stands for the root at the start of an absolute path.
pub open spec fn root_part() -> Seq<char> {
    seq!['/']
}

/// The component that stands for the current directory.
pub open spec fn here_part() -> Seq<char> {
    seq!['.']
}

/// The component that stands for the parent directory.
pub open spec fn parent_part() -> Seq<char> {
    seq!['.', '.']
}

/// Whether a piece between slashes is a component: it is, unless it is empty or names
/// the current directory.
pub open spec fn is_component(p: Seq<char>) -> bool {
    p.len() > 0 && p != here_part()
}

/// The component in front of the pieces: the root of an absolute path, or the current
/// directory where a path begins with it.
pub open spec fn leading_part(path: Seq<char>) -> Seq<Seq<char>> {
    if path.len() > 0 && path[0] == '/' {
        seq![root_part()]
    } else if pieces(path, '/')[0] == here_part() {
        seq![here_part()]
    } else {
        seq![]
    }
}

/// The components of a path.
pub open spec fn components(path: Seq<char>) -> Seq<Seq<char>> {
    leading_part(path) + pieces(path, '/').filter(|p: Seq<char>| is_component(p))
}

/// The name that a path ends in, if its last component is a plain name.
pub open spec fn file_name(path: Seq<char>) -> Option<Seq<char>> {
    let parts = components(path);
    if parts.len() == 0 || parts.last() == root_part() || parts.last() == here_part()
        || parts.last() == parent_part() {
        None
    } else {
        Some(parts.last())
    }
}

/// The index of the last dot before `n`, or -1 if there is none.
pub open spec fn last_dot(s: Seq<char>, n: int) -> int
    decreases n,
{
    if n <= 0 {
        -1
    } else if s[n - 1] == '.' {
        n - 1
    } else {
        last_dot(s, n - 1)
    }
}

/// The extension of a path: what follows the last dot of its name, where that dot is not
/// the name's first character.
pub open spec fn extension(path: Seq<char>) -> Option<Seq<char>> {
    match file_name(path) {
        Some(name) => {
            let i = last_dot(name, name.len() as int);
            if i <= 0 {
                None
            } else {
                Some(name.skip(i + 1))
            }
        },
        None => None,
    }
}

/// Where a component stands among the others: the root first, then the current
/// directory, then the parent directory, then the plain names.
pub open spec fn component_kind(p: Seq<char>) -> u32 {
    if p == root_part() {
        0
    } else if p == here_part() {
        1
    } else if p == parent_part() {
        2
    } else {
        3
    }
}

/// The key of one component: its kind, its characters, and an end below every character.
pub open spec fn component_key(p: Seq<char>) -> Seq<u32> {
    (seq![component_kind(p)] + p.map_values(|c: char| (c as u32 + 1) as u32)).push(0)
}

/// The key of a list of components.
pub open spec fn components_key(parts: Seq<Seq<char>>) -> Seq<u32>
    decreases parts.len(),
{
    if parts.len() == 0 {
        seq![]
    } else {
        components_key(parts.drop_last()) + component_key(parts.last())
    }
}

/// The key of a path: in the lexicographic order of their keys, paths stand component by
/// component.
pub open spec fn path_key(path: Seq<char>) -> Seq<u32> {
    components_key(components(path))
}

/// The directory at the top of a path, or `.` for a path of one component.
pub open spec fn top_directory(path: Seq<char>) -> Seq<char> {
    if components(path).len() > 1 {
        components(path)[0]
    } else {
        here_part()
    }
}

/// How many directories a path goes down, modulo 256.
pub open spec fn path_depth(path: Seq<char>) -> int {
    if components(path).len() == 0 {
        0
    } else {
        (components(path).len() - 1) % 256
    }
}

/// A text of more than two characters without a slash is the name of a file.
pub proof fn lemma_plain_name(s: Seq<char>)
    requires
        s.len() > 2,
        forall|i: int| 0 <= i < s.len() ==> #[trigger] s[i] != '/',
    ensures
        file_name(s) == Some(s),
{
    lemma_no_separator(s, '/', 0);
    let all = pieces(s, '/');
    assert(all =~= seq![s]);
    assert(is_component(s));
    assert(leading_part(s) =~= seq![]);
    reveal(Seq::filter);
    let kept = all.filter(|p: Seq<char>| is_component(p));
    assert(all.drop_last() =~= Seq::<Seq<char>>::empty());
    assert(kept =~= seq![s]);
    assert(components(s) =~= seq![s]);
}

proof fn lemma_no_separator(s: Seq<char>, c: char, i: int)
    requires
        0 <= i <= s.len(),
        forall|j: int| 0 <= j < s.len() ==> #[trigger] s[j] != c,
    ensures
        find_from(s, c, i) == s.len(),
    decreases s.len() - i,
{
    if i < s.len() {
        lemma_no_separator(s, c, i + 1);
    }
}

/// The components of a path.
pub fn split_path(path: &[char]) -> (r: Vec<Vec<char>>)
    ensures
        char_lists(r@) == components(path@),
{
    let all: Vec<Vec<char>> = split(path, '/');
    let mut out: Vec<Vec<char>> = Vec::new();
    let ghost keep = |p: Seq<char>| is_component(p);
    let ghost lists = char_lists(all@);
    proof {
        reveal_strlit(".");
        assert("."@ =~= here_part());
        assert(lists[0] == all@[0]@);
    }
    if path.len() > 0 && path[0] == '/' {
        let mut root: Vec<char> = Vec::new();
        root.push('/');
        assert(root@ =~= root_part());
        out.push(root);
        assert(char_lists(out@) =~= leading_part(path@));
    } else if spells(all[0].as_slice(), ".") {
        let mut here: Vec<char> = Vec::new();
        here.push('.');
        assert(here@ =~= here_part());
        out.push(here);
        assert(char_lists(out@) =~= leading_part(path@));
    } else {
        assert(char_lists(out@) =~= leading_part(path@));
    }
    let ghost lead = char_lists(out@);
    assert(lead + lists.take(0).filter(keep) =~= lead) by {
        reveal(Seq::filter);
    }
    for i in 0..all.len()
        invariant
            lists == char_lists(all@),
            lead == leading_part(path@),
            keep == (|p: Seq<char>| is_component(p)),
            "."@ == here_part(),
            char_lists(out@) == lead + lists.take(i as int).filter(keep),
    {
        let ghost before = char_lists(out@);
        proof {
            reveal(Seq::filter);
            assert(lists.take(i + 1).drop_last() =~= lists.take(i as int));
            assert(lists[i as int] == all@[i as int]@);
        }
        if all[i].len() > 0 && !spells(all[i].as_slice(), ".") {
            let piece: Vec<char> = part(all[i].as_slice(), 0, all[i].len());
            assert(piece@ =~= all@[i as int]@);
            out.push(piece);
            assert(char_lists(out@) =~= before.push(piece@));
            assert(char_lists(out@) =~= lead + lists.take(i + 1).filter(keep));
        }
    }
    assert(lists.take(lists.len() as int) =~= lists);
    out
}

/// Whether a component is a plain name.
fn plain(p: &[char]) -> (r: bool)
    ensures
        r == (p@ != root_part() && p@ != here_part() && p@ != parent_part()),
{
    proof {
        reveal_strlit("/");
        reveal_strlit(".");
        reveal_strlit("..");
        assert("/"@ =~= root_part());
        assert("."@ =~= here_part());
        assert(".."@ =~= parent_part());
    }
    !spells(p, "/") && !spells(p, ".") && !spells(p, "..")
}

/// The name that a path ends in, if its last component is a plain name.
pub fn name_of(path: &[char]) -> (r: Option<Vec<char>>)
    ensures
        match r {
            Some(n) => file_name(path@) == Some(n@),
            None => file_name(path@) is None,
        },
{
    let mut parts: Vec<Vec<char>> = split_path(path);
    let ghost all = parts@;
    assert(char_lists(all).len() == all.len());
    match parts.pop() {
        Some(last) => {
            assert(last@ == char_lists(all)[all.len() - 1]);
            if plain(last.as_slice()) {
                Some(last)
            } else {
                None
            }
        },
        None => None,
    }
}

/// The extension of a path.
pub fn extension_of(path: &[char]) -> (r: Option<Vec<char>>)
    ensures
        match r {
            Some(n) => extension(path@) == Some(n@),
            None => extension(path@) is None,
        },
{
    match name_of(path) {
        Some(name) => {
            let mut n: usize = name.len();
            while n > 0 && name[n - 1] != '.'
                invariant
                    n <= name@.len(),
                    last_dot(name@, n as int) == last_dot(name@, name@.len() as int),
                decreases n,
            {
                n = n - 1;
            }
            if n <= 1 {
                None
            } else {
                let tail: Vec<char> = part(name.as_slice(), n, name.len());
                assert(tail@ =~= name@.skip(n as int));
                Some(tail)
            }
        },
        None => None,
    }
}

/// The key of a path.
pub fn key_of_path(path: &[char]) -> (r: Vec<u32>)
    ensures
        r@ == path_key(path@),
{
    let parts: Vec<Vec<char>> = split_path(path);
    let ghost lists = char_lists(parts@);
    let mut out: Vec<u32> = Vec::new();
    assert(components_key(lists.take(0)) =~= Seq::<u32>::empty());
    for i in 0..parts.len()
        invariant
            lists == char_lists(parts@),
            out@ == components_key(lists.take(i as int)),
    {
        let ghost before = out@;
        let p: &Vec<char> = &parts[i];
        let kind: u32 = component_rank(p.as_slice());
        out.push(kind);
        let ghost tail = p@.map_values(|c: char| (c as u32 + 1) as u32);
        assert(out@ =~= before + (seq![kind] + tail.take(0)));
        for j in 0..p.len()
            invariant
                tail == p@.map_values(|c: char| (c as u32 + 1) as u32),
                out@ == before + (seq![kind] + tail.take(j as int)),
        {
            assert(tail.take(j + 1) =~= tail.take(j as int).push(tail[j as int]));
            let c: u32 = p[j] as u32;
            assert(c < 0x110000) by {
                vstd::utf8::char_is_scalar(p@[j as int]);
            }
            out.push(c + 1);
            assert(out@ =~= before + (seq![kind] + tail.take(j + 1)));
        }
        out.push(0);
        proof {
            assert(tail.take(tail.len() as int) =~= tail);
            assert(out@ =~= before + component_key(p@));
            assert(lists.take(i + 1).drop_last() =~= lists.take(i as int));
            assert(lists.take(i + 1).last() == p@);
        }
    }
    assert(lists.take(lists.len() as int) =~= lists);
    out
}

/// Where a component stands among the others.
fn component_rank(p: &[char]) -> (r: u32)
    ensures
        r == component_kind(p@),
{
    proof {
        reveal_strlit("/");
        reveal_strlit(".");
        reveal_strlit("..");
        assert("/"@ =~= root_part());
        assert("."@ =~= here_part());
        assert(".."@ =~= parent_part());
    }
    if spells(p, "/") {
        0
    } else if spells(p, ".") {
        1
    } else if spells(p, "..") {
        2
    } else {
        3
    }
}

/// The directory at the top of a path, or `.` for a path of one component.
pub fn top_of(path: &[char]) -> (r: Vec<char>)
    ensures
        r@ == top_directory(path@),
{
    let parts: Vec<Vec<char>> = split_path(path);
    assert(char_lists(parts@).len() == parts@.len());
    if parts.len() > 1 {
        assert(char_lists(parts@)[0] == parts@[0]@);
        part(parts[0].as_slice(), 0, parts[0].len())
    } else {
        let mut here: Vec<char> = Vec::new();
        here.push('.');
        assert(here@ =~= here_part());
        here
    }
}

/// How many directories a path goes down, modulo 256.
pub fn depth_of(path: &[char]) -> (r: u8)
    ensures
        r == path_depth(path@),
{
    let parts: Vec<Vec<char>> = split_path(path);
    assert(char_lists(parts@).len() == parts@.len());
    if parts.len() == 0 {
        0
    } else {
        ((parts.len() - 1) % 256) as u8
    }
}

} // verus!
