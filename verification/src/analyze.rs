//! The analysis stage: from raw files to the units of the static mode.
//!
//! Functions come from the syntax tree where there is a grammar for the file, and from the
//! indentation elsewhere, so that any text renders. The nesting depth is always that of the
//! indentation.

use vstd::prelude::*;

use crate::encoding::{lossy, lossy_text};
use crate::extract::{FileView, RawFile};
use crate::model::{lang_of, CodeUnit, FnUnit, Lang, UnitView};
use crate::paths::{depth_of, extension, extension_of, path_depth};
use crate::rng::{fnv, fnv1a, utf8, FNV_OFFSET, FNV_PRIME};
use crate::sorting::{in_order, lemma_sorted_holds, lemma_sorted_in_order, sort, sorted, views};
use crate::syntax::{nodes_view, parse_nodes, steady, syntax_of, Grammar, NodeView, SyntaxNode};
use crate::text::{
    blank, char_lists, chars_of, is_blank, lines, lower_chars, lowered, spells, string_of,
    text_lines, trim, trimmed,
};

verus! {

/// The largest file that is analyzed, in bytes.
pub const MAX_FILE_BYTES: usize = 1_000_000;

/// How many bytes of a file are looked at to tell whether it is binary.
pub const BINARY_PROBE: usize = 8000;

/// Whether a file is binary: a zero byte stands near its start.
pub open spec fn looks_binary(content: Seq<u8>) -> bool {
    exists|i: int| 0 <= i < content.len() && i < BINARY_PROBE && #[trigger] content[i] == 0
}

/// Whether a character can be part of an identifier.
pub open spec fn in_identifier(c: char) -> bool {
    ||| 'a' <= c <= 'z'
    ||| 'A' <= c <= 'Z'
    ||| '0' <= c <= '9'
    ||| c == '_'
}

/// The hash turned by seven bits to the left.
pub open spec fn turned(h: u64) -> u64 {
    (h << 7) | (h >> 57)
}

/// The rolling hash over the identifiers of a text, and whether the text ends inside one.
/// Each of their characters is hashed in, and the end of an identifier turns the hash.
pub open spec fn identifiers(text: Seq<char>) -> (u64, bool)
    decreases text.len(),
{
    if text.len() == 0 {
        (FNV_OFFSET, false)
    } else {
        let (h, inside) = identifiers(text.drop_last());
        let c = text.last();
        if in_identifier(c) {
            ((h ^ (c as u64)).wrapping_mul(FNV_PRIME), true)
        } else if inside {
            (turned(h), false)
        } else {
            (h, false)
        }
    }
}

/// The width of the white space that a line starts with: a tab counts as four spaces.
pub open spec fn leading_width(line: Seq<char>) -> nat
    decreases line.len(),
{
    if line.len() == 0 {
        0
    } else if line[0] == ' ' {
        1 + leading_width(line.drop_first())
    } else if line[0] == '\t' {
        4 + leading_width(line.drop_first())
    } else {
        0
    }
}

/// The indentation of a line; none for a blank line.
pub open spec fn indent(line: Seq<char>) -> Option<nat> {
    if is_blank(line) {
        None
    } else {
        Some(leading_width(line))
    }
}

/// How many of the lines from `a` up to `b` are not blank.
pub open spec fn filled(ls: Seq<Seq<char>>, a: int, b: int) -> nat
    decreases b - a,
{
    if a >= b {
        0
    } else {
        filled(ls, a, b - 1) + if is_blank(ls[b - 1]) {
            0nat
        } else {
            1
        }
    }
}

/// The least indentation above zero among the first `k` lines; 0 if there is none.
pub open spec fn least_indent(ls: Seq<Seq<char>>, k: int) -> nat
    decreases k,
{
    if k <= 0 {
        0
    } else {
        let before = least_indent(ls, k - 1);
        match indent(ls[k - 1]) {
            Some(w) if w > 0 && (before == 0 || w < before) => w,
            _ => before,
        }
    }
}

/// The unit of indentation of a text: the least that occurs, or four.
pub open spec fn indent_step(ls: Seq<Seq<char>>) -> nat {
    let least = least_indent(ls, ls.len() as int);
    if least == 0 {
        4
    } else {
        least
    }
}

/// The largest indentation among the lines from `a` up to `b`.
pub open spec fn deepest(ls: Seq<Seq<char>>, a: int, b: int) -> nat
    decreases b - a,
{
    if a >= b {
        0
    } else {
        let before = deepest(ls, a, b - 1);
        match indent(ls[b - 1]) {
            Some(w) if w > before => w,
            _ => before,
        }
    }
}

/// The nesting depth of the lines from `a` up to `b`, at most 255.
pub open spec fn nesting(ls: Seq<Seq<char>>, a: int, b: int) -> u8 {
    let level = deepest(ls, a, b) / indent_step(ls);
    if level > 255 {
        255
    } else {
        level as u8
    }
}

/// Whether a line is indented by nothing, and not blank.
pub open spec fn at_margin(ls: Seq<Seq<char>>, i: int) -> bool {
    indent(ls[i]) == Some(0nat)
}

/// The first line at `i` or behind it that is not blank, or the number of lines.
pub open spec fn next_filled(ls: Seq<Seq<char>>, i: int) -> int
    decreases ls.len() - i,
{
    if i >= ls.len() {
        ls.len() as int
    } else if !is_blank(ls[i]) {
        i
    } else {
        next_filled(ls, i + 1)
    }
}

/// Whether a line at the margin opens a block: the next line that is not blank is indented.
pub open spec fn opens_block(ls: Seq<Seq<char>>, i: int) -> bool {
    let next = next_filled(ls, i + 1);
    at_margin(ls, i) && next < ls.len() && leading_width(ls[next]) > 0
}

/// The first line at `i` or behind it that opens a block, or the number of lines.
pub open spec fn next_opener(ls: Seq<Seq<char>>, i: int) -> int
    decreases ls.len() - i,
{
    if i >= ls.len() {
        ls.len() as int
    } else if opens_block(ls, i) {
        i
    } else {
        next_opener(ls, i + 1)
    }
}

/// The number of filled lines as 32 bits hold it.
pub open spec fn line_total(n: nat) -> u32 {
    (n % 0x1_0000_0000) as u32
}

/// The function that the lines from `a` up to `b` make up, with the hash of its name.
pub open spec fn block(ls: Seq<Seq<char>>, a: int, b: int, name_hash: u64) -> FnUnit {
    let n = line_total(filled(ls, a, b));
    FnUnit {
        name_hash,
        lines: if n < 1 {
            1
        } else {
            n
        },
        nesting: nesting(ls, a, b),
    }
}

/// The functions that the indentation shows in the first `k` lines: a block runs from a
/// line at the margin with indented lines behind it up to the next such line, and is named
/// by its first line.
pub open spec fn indent_blocks(ls: Seq<Seq<char>>, k: int) -> Seq<FnUnit>
    decreases k,
{
    if k <= 0 {
        seq![]
    } else if opens_block(ls, k - 1) {
        indent_blocks(ls, k - 1).push(
            block(ls, k - 1, next_opener(ls, k), fnv(utf8(trimmed(ls[k - 1])))),
        )
    } else {
        indent_blocks(ls, k - 1)
    }
}

/// The grammar for a file, by its extension.
pub open spec fn grammar_of(path: Seq<char>) -> Option<Grammar> {
    match extension(path) {
        None => None,
        Some(e) => {
            let ext = lowered(e);
            if ext == "rs"@ {
                Some(Grammar::Rust)
            } else if ext == "py"@ {
                Some(Grammar::Python)
            } else if ext == "js"@ || ext == "jsx"@ || ext == "mjs"@ || ext == "cjs"@ || ext
                == "ts"@ || ext == "tsx"@ {
                Some(Grammar::JavaScript)
            } else {
                None
            }
        },
    }
}

/// Whether a node of the grammar is a function.
pub open spec fn is_function(grammar: Grammar, kind: Seq<char>) -> bool {
    match grammar {
        Grammar::Rust => kind == "function_item"@,
        Grammar::Python => kind == "function_definition"@,
        Grammar::JavaScript => kind == "function_declaration"@ || kind == "method_definition"@
            || kind == "generator_function_declaration"@,
    }
}

/// The function at a node of the syntax tree, by the rows that it spans.
pub open spec fn node_function(ls: Seq<Seq<char>>, node: NodeView) -> FnUnit {
    let last = ls.len() - 1;
    let a = if node.start_row < last {
        node.start_row as int
    } else {
        last
    };
    let b = if node.end_row + 1 < ls.len() {
        node.end_row + 1
    } else {
        ls.len() as int
    };
    let name = match node.name {
        Some(n) => n,
        None => "anonymous"@,
    };
    block(ls, a, b, fnv(utf8(name)))
}

/// The functions among the first `k` nodes of a syntax tree.
pub open spec fn node_functions(
    grammar: Grammar,
    ls: Seq<Seq<char>>,
    nodes: Seq<NodeView>,
    k: int,
) -> Seq<FnUnit>
    decreases k,
{
    if k <= 0 {
        seq![]
    } else if is_function(grammar, nodes[k - 1].kind) {
        node_functions(grammar, ls, nodes, k - 1).push(node_function(ls, nodes[k - 1]))
    } else {
        node_functions(grammar, ls, nodes, k - 1)
    }
}

/// The functions of a file: those of its syntax tree if it has one, else those that the
/// indentation shows.
pub open spec fn found_functions(
    path: Seq<char>,
    ls: Seq<Seq<char>>,
    nodes: Option<Seq<NodeView>>,
) -> Seq<FnUnit> {
    match (grammar_of(path), nodes) {
        (Some(g), Some(n)) => node_functions(g, ls, n, n.len() as int),
        _ => indent_blocks(ls, ls.len() as int),
    }
}

/// What the analysis of a file's text gives, when its syntax tree has the given nodes:
/// nothing for a blank text. A file without functions is a single one, named by its path.
pub open spec fn text_unit(
    path: Seq<char>,
    text: Seq<char>,
    nodes: Option<Seq<NodeView>>,
) -> Option<UnitView> {
    let ls = text_lines(text);
    let n = ls.len() as int;
    let loc = line_total(filled(ls, 0, n));
    let found = found_functions(path, ls, nodes);
    if loc == 0 {
        None
    } else {
        Some(
            UnitView {
                path,
                depth: path_depth(path) as u8,
                language: lang_of(path),
                loc,
                nesting_max: nesting(ls, 0, n),
                ident_hash: identifiers(text).0,
                functions: if found.len() == 0 {
                    seq![
                        FnUnit {
                            name_hash: fnv(utf8(path)),
                            lines: loc,
                            nesting: nesting(ls, 0, n),
                        },
                    ]
                } else {
                    found
                },
            },
        )
    }
}

/// Whether a file of the text can have a syntax tree of the given nodes: it has none
/// without a grammar, and the one that tree-sitter makes where its text is steady.
pub open spec fn nodes_possible(
    path: Seq<char>,
    text: Seq<char>,
    nodes: Option<Seq<NodeView>>,
) -> bool {
    match grammar_of(path) {
        Some(g) => steady(g, text) ==> nodes == syntax_of(g, text),
        None => nodes is None,
    }
}

/// What the analysis of a file gives, when its syntax tree has the given nodes.
pub open spec fn file_unit(file: FileView, nodes: Option<Seq<NodeView>>) -> Option<UnitView> {
    if file.content.len() > MAX_FILE_BYTES || looks_binary(file.content) {
        None
    } else {
        text_unit(file.path, lossy(file.content), nodes)
    }
}

/// Whether the analysis of a file can give the unit, or nothing, by a syntax tree of the
/// given nodes.
pub open spec fn analyzed(
    file: FileView,
    nodes: Option<Seq<NodeView>>,
    unit: Option<UnitView>,
) -> bool {
    &&& nodes_possible(file.path, lossy(file.content), nodes)
    &&& unit == file_unit(file, nodes)
}

/// The nodes of the syntax tree of a file that is steady.
pub open spec fn steady_nodes(file: FileView) -> Option<Seq<NodeView>> {
    match grammar_of(file.path) {
        Some(g) => syntax_of(g, lossy(file.content)),
        None => None,
    }
}

/// The nodes of the syntax trees of files that are steady.
pub open spec fn steady_trees(files: Seq<FileView>) -> Seq<Option<Seq<NodeView>>> {
    files.map_values(|f: FileView| steady_nodes(f))
}

/// Whether the files can have syntax trees of the given nodes.
pub open spec fn trees_possible(files: Seq<FileView>, trees: Seq<Option<Seq<NodeView>>>) -> bool {
    &&& trees.len() == files.len()
    &&& forall|i: int|
        0 <= i < files.len() ==> nodes_possible(
            files[i].path,
            lossy(files[i].content),
            #[trigger] trees[i],
        )
}

/// The units of the first `k` files, in their order, when their syntax trees have the given
/// nodes.
pub open spec fn file_units(
    files: Seq<FileView>,
    trees: Seq<Option<Seq<NodeView>>>,
    k: int,
) -> Seq<UnitView>
    decreases k,
{
    if k <= 0 {
        seq![]
    } else {
        match file_unit(files[k - 1], trees[k - 1]) {
            Some(u) => file_units(files, trees, k - 1).push(u),
            None => file_units(files, trees, k - 1),
        }
    }
}

/// Whether the analysis of files can give the units, by syntax trees of the given nodes: one
/// unit for each file that has one, in the order of their paths.
pub open spec fn all_analyzed(
    files: Seq<FileView>,
    trees: Seq<Option<Seq<NodeView>>>,
    units: Seq<UnitView>,
) -> bool {
    &&& trees_possible(files, trees)
    &&& units == sorted(file_units(files, trees, files.len() as int))
}

/// Whether the analysis of a file is the same on every machine: it has no grammar, or its
/// text is steady.
pub open spec fn file_steady(file: FileView) -> bool {
    match grammar_of(file.path) {
        Some(g) => steady(g, lossy(file.content)),
        None => true,
    }
}

/// The same files always give the same units, where all of them are steady.
pub proof fn lemma_same_units(
    files: Seq<FileView>,
    trees: Seq<Option<Seq<NodeView>>>,
    units: Seq<UnitView>,
    other_trees: Seq<Option<Seq<NodeView>>>,
    other_units: Seq<UnitView>,
)
    requires
        all_analyzed(files, trees, units),
        all_analyzed(files, other_trees, other_units),
        forall|i: int| 0 <= i < files.len() ==> file_steady(#[trigger] files[i]),
    ensures
        units == other_units,
{
    assert forall|i: int| 0 <= i < files.len() implies #[trigger] trees[i] == other_trees[i] by {
        assert(file_steady(files[i]));
        assert(nodes_possible(files[i].path, lossy(files[i].content), other_trees[i]));
    }
    assert(trees =~= other_trees);
}

/// A syntax tree only tells the functions of a file: whether there is a unit, and all else
/// that it says, does not depend on the tree.
pub proof fn lemma_trees_tell_functions(
    file: FileView,
    nodes: Option<Seq<NodeView>>,
    other: Option<Seq<NodeView>>,
)
    ensures
        match (file_unit(file, nodes), file_unit(file, other)) {
            (Some(u), Some(v)) => u == (UnitView { functions: u.functions, ..v }),
            (None, None) => true,
            _ => false,
        },
{
}

/// Every file that is not blank sings: its unit has at least one function.
pub proof fn lemma_every_file_sings(
    path: Seq<char>,
    text: Seq<char>,
    nodes: Option<Seq<NodeView>>,
)
    ensures
        text_unit(path, text, nodes) is Some ==> text_unit(path, text, nodes)->0.functions.len()
            >= 1,
        text_unit(path, text, nodes) is Some <==> filled(
            text_lines(text),
            0,
            text_lines(text).len() as int,
        ) % 0x1_0000_0000 != 0,
{
}

/// The units of files stand in the order of their paths, whatever the order of the files,
/// and each is that of a file.
pub proof fn lemma_units_in_order(
    files: Seq<FileView>,
    trees: Seq<Option<Seq<NodeView>>>,
    units: Seq<UnitView>,
)
    requires
        all_analyzed(files, trees, units),
    ensures
        in_order(units),
        forall|u: UnitView|
            units.contains(u) ==> exists|i: int|
                0 <= i < files.len() && #[trigger] file_unit(files[i], trees[i]) == Some(u),
{
    let all = file_units(files, trees, files.len() as int);
    lemma_sorted_in_order(all);
    assert forall|u: UnitView| units.contains(u) implies exists|i: int|
        0 <= i < files.len() && #[trigger] file_unit(files[i], trees[i]) == Some(u) by {
        lemma_sorted_holds(all, u);
        lemma_unit_of_file(files, trees, files.len() as int, u);
    }
}

proof fn lemma_unit_of_file(
    files: Seq<FileView>,
    trees: Seq<Option<Seq<NodeView>>>,
    k: int,
    u: UnitView,
)
    requires
        0 <= k <= files.len(),
        file_units(files, trees, k).contains(u),
    ensures
        exists|i: int| 0 <= i < k && #[trigger] file_unit(files[i], trees[i]) == Some(u),
    decreases k,
{
    if k > 0 {
        let before = file_units(files, trees, k - 1);
        let now = file_units(files, trees, k);
        let j = now.index_of(u);
        if j < before.len() {
            assert(before[j] == u);
            lemma_unit_of_file(files, trees, k - 1, u);
        } else {
            assert(file_unit(files[k - 1], trees[k - 1]) == Some(u));
        }
    }
}

proof fn lemma_file_units_front(
    files: Seq<FileView>,
    trees: Seq<Option<Seq<NodeView>>>,
    more: Seq<Option<Seq<NodeView>>>,
    k: int,
)
    requires
        k <= trees.len() <= more.len(),
        forall|i: int| 0 <= i < k ==> trees[i] == more[i],
    ensures
        file_units(files, trees, k) == file_units(files, more, k),
    decreases k,
{
    if k > 0 {
        lemma_file_units_front(files, trees, more, k - 1);
    }
}

/// Whether a file is binary.
fn is_binary(content: &[u8]) -> (r: bool)
    ensures
        r == looks_binary(content@),
{
    let n: usize = if content.len() < BINARY_PROBE {
        content.len()
    } else {
        BINARY_PROBE
    };
    for i in 0..n
        invariant
            n <= content@.len(),
            n <= BINARY_PROBE,
            forall|j: int| 0 <= j < i ==> #[trigger] content@[j] != 0,
    {
        if content[i] == 0 {
            return true;
        }
    }
    false
}

/// The rolling hash over the identifiers of a text.
fn identifier_hash(text: &[char]) -> (r: u64)
    ensures
        r == identifiers(text@).0,
{
    let mut h: u64 = FNV_OFFSET;
    let mut inside: bool = false;
    for i in 0..text.len()
        invariant
            (h, inside) == identifiers(text@.take(i as int)),
    {
        assert(text@.take(i + 1).drop_last() =~= text@.take(i as int));
        let c: char = text[i];
        if ('a' <= c && c <= 'z') || ('A' <= c && c <= 'Z') || ('0' <= c && c <= '9') || c == '_' {
            h = (h ^ (c as u64)).wrapping_mul(FNV_PRIME);
            inside = true;
        } else if inside {
            h = (h << 7) | (h >> 57);
            inside = false;
        }
    }
    assert(text@.take(text@.len() as int) =~= text@);
    h
}

/// The indentation of a line.
fn indent_width(line: &[char]) -> (r: Option<u128>)
    ensures
        match r {
            Some(w) => indent(line@) == Some(w as nat),
            None => indent(line@) is None,
        },
{
    if blank(line) {
        return None;
    }
    let mut w: u128 = 0;
    let mut i: usize = 0;
    assert(line@.skip(0) =~= line@);
    while i < line.len() && (line[i] == ' ' || line[i] == '\t')
        invariant
            i <= line@.len(),
            line@.len() == line.len(),
            w <= 4 * i,
            leading_width(line@) == w + leading_width(line@.skip(i as int)),
        decreases line@.len() - i,
    {
        assert(line@.skip(i as int).drop_first() =~= line@.skip(i + 1));
        if line[i] == ' ' {
            w = w + 1;
        } else {
            w = w + 4;
        }
        i = i + 1;
    }
    Some(w)
}

/// The unit of indentation of a text.
fn indent_unit(ls: &Vec<Vec<char>>) -> (r: u128)
    ensures
        r == indent_step(char_lists(ls@)),
        r > 0,
{
    let ghost all = char_lists(ls@);
    let mut least: u128 = 0;
    for i in 0..ls.len()
        invariant
            all == char_lists(ls@),
            least == least_indent(all, i as int),
    {
        assert(all[i as int] == ls@[i as int]@);
        match indent_width(ls[i].as_slice()) {
            Some(w) => {
                if w > 0 && (least == 0 || w < least) {
                    least = w;
                }
            },
            None => {},
        }
    }
    if least == 0 {
        4
    } else {
        least
    }
}

/// The nesting depth of the lines from `a` up to `b`, when the unit is known.
fn nesting_of(ls: &Vec<Vec<char>>, a: usize, b: usize, unit: u128) -> (r: u8)
    requires
        a <= b <= ls@.len(),
        unit == indent_step(char_lists(ls@)),
        unit > 0,
    ensures
        r == nesting(char_lists(ls@), a as int, b as int),
{
    let ghost all = char_lists(ls@);
    let mut max: u128 = 0;
    for i in a..b
        invariant
            a <= i <= b <= ls@.len(),
            all == char_lists(ls@),
            max == deepest(all, a as int, i as int),
    {
        assert(all[i as int] == ls@[i as int]@);
        match indent_width(ls[i].as_slice()) {
            Some(w) => {
                if w > max {
                    max = w;
                }
            },
            None => {},
        }
    }
    let level: u128 = max / unit;
    if level > 255 {
        255
    } else {
        level as u8
    }
}

/// How many of the lines from `a` up to `b` are not blank, as 32 bits hold it.
fn filled_lines(ls: &Vec<Vec<char>>, a: usize, b: usize) -> (r: u32)
    requires
        a <= b <= ls@.len(),
    ensures
        r == line_total(filled(char_lists(ls@), a as int, b as int)),
{
    let ghost all = char_lists(ls@);
    let mut n: u64 = 0;
    for i in a..b
        invariant
            a <= i <= b <= ls@.len(),
            all == char_lists(ls@),
            n == filled(all, a as int, i as int),
            n <= i - a,
    {
        assert(all[i as int] == ls@[i as int]@);
        if !blank(ls[i].as_slice()) {
            n = n + 1;
        }
    }
    (n % 0x1_0000_0000) as u32
}

/// The function that the lines from `a` up to `b` make up.
fn block_to_fn(ls: &Vec<Vec<char>>, a: usize, b: usize, unit: u128, name_hash: u64) -> (r: FnUnit)
    requires
        a <= b <= ls@.len(),
        unit == indent_step(char_lists(ls@)),
        unit > 0,
    ensures
        r == block(char_lists(ls@), a as int, b as int, name_hash),
{
    let n: u32 = filled_lines(ls, a, b);
    FnUnit {
        name_hash,
        lines: if n < 1 {
            1
        } else {
            n
        },
        nesting: nesting_of(ls, a, b, unit),
    }
}

/// Whether a line stands at the margin.
fn margin_line(line: &[char]) -> (r: bool)
    ensures
        r == (indent(line@) == Some(0nat)),
{
    match indent_width(line) {
        Some(w) => w == 0,
        None => false,
    }
}

/// Whether a line opens a block.
fn block_opener(ls: &Vec<Vec<char>>, i: usize) -> (r: bool)
    requires
        i < ls@.len(),
    ensures
        r == opens_block(char_lists(ls@), i as int),
{
    let ghost all = char_lists(ls@);
    let n: usize = ls.len();
    assert(all[i as int] == ls@[i as int]@);
    if !margin_line(ls[i].as_slice()) {
        return false;
    }
    let mut next: usize = i + 1;
    while next < ls.len() && blank(ls[next].as_slice())
        invariant
            all == char_lists(ls@),
            i < next <= ls@.len(),
            next_filled(all, i + 1) == next_filled(all, next as int),
        decreases ls@.len() - next,
    {
        assert(all[next as int] == ls@[next as int]@);
        next = next + 1;
    }
    if next == ls.len() {
        return false;
    }
    assert(all[next as int] == ls@[next as int]@);
    match indent_width(ls[next].as_slice()) {
        Some(w) => w > 0,
        None => false,
    }
}

/// The functions that the indentation shows.
fn indent_functions(ls: &Vec<Vec<char>>, unit: u128) -> (r: Vec<FnUnit>)
    requires
        unit == indent_step(char_lists(ls@)),
        unit > 0,
    ensures
        r@ == indent_blocks(char_lists(ls@), ls@.len() as int),
{
    let ghost all = char_lists(ls@);
    let mut out: Vec<FnUnit> = Vec::new();
    for i in 0..ls.len()
        invariant
            all == char_lists(ls@),
            ls@.len() == ls.len(),
            unit == indent_step(all),
            unit > 0,
            out@ == indent_blocks(all, i as int),
    {
        assert(all[i as int] == ls@[i as int]@);
        if block_opener(ls, i) {
            let mut end: usize = i + 1;
            while end < ls.len() && !block_opener(ls, end)
                invariant
                    all == char_lists(ls@),
                    i < end <= ls@.len(),
                    next_opener(all, i + 1) == next_opener(all, end as int),
                decreases ls@.len() - end,
            {
                end = end + 1;
            }
            let name: String = string_of(trim(ls[i].as_slice()).as_slice());
            let hash: u64 = fnv1a(name.as_str().as_bytes());
            out.push(block_to_fn(ls, i, end, unit, hash));
        }
    }
    out
}

/// The grammar for a file.
fn grammar_for(path: &[char]) -> (r: Option<Grammar>)
    ensures
        r == grammar_of(path@),
{
    match extension_of(path) {
        None => None,
        Some(e) => {
            let lower: Vec<char> = lower_chars(e.as_slice());
            let ext: &[char] = lower.as_slice();
            if spells(ext, "rs") {
                Some(Grammar::Rust)
            } else if spells(ext, "py") {
                Some(Grammar::Python)
            } else if spells(ext, "js") || spells(ext, "jsx") || spells(ext, "mjs") || spells(
                ext,
                "cjs",
            ) || spells(ext, "ts") || spells(ext, "tsx") {
                Some(Grammar::JavaScript)
            } else {
                None
            }
        },
    }
}

/// Whether a node of the grammar is a function.
fn function_kind(grammar: Grammar, kind: &str) -> (r: bool)
    ensures
        r == is_function(grammar, kind@),
{
    let chars: Vec<char> = chars_of(kind);
    let k: &[char] = chars.as_slice();
    match grammar {
        Grammar::Rust => spells(k, "function_item"),
        Grammar::Python => spells(k, "function_definition"),
        Grammar::JavaScript => spells(k, "function_declaration") || spells(k, "method_definition")
            || spells(k, "generator_function_declaration"),
    }
}

/// The functions of a syntax tree.
fn tree_functions(
    grammar: Grammar,
    ls: &Vec<Vec<char>>,
    nodes: &Vec<SyntaxNode>,
    unit: u128,
) -> (r: Vec<FnUnit>)
    requires
        ls@.len() > 0,
        unit == indent_step(char_lists(ls@)),
        unit > 0,
        forall|i: int|
            0 <= i < nodes@.len() ==> (#[trigger] nodes@[i]).start_row <= nodes@[i].end_row,
    ensures
        r@ == node_functions(grammar, char_lists(ls@), views(nodes@), nodes@.len() as int),
{
    let ghost all = char_lists(ls@);
    let ghost shown = views(nodes@);
    let mut out: Vec<FnUnit> = Vec::new();
    for i in 0..nodes.len()
        invariant
            ls@.len() > 0,
            all == char_lists(ls@),
            shown == views(nodes@),
            unit == indent_step(all),
            unit > 0,
            forall|i: int|
                0 <= i < nodes@.len() ==> (#[trigger] nodes@[i]).start_row <= nodes@[i].end_row,
            out@ == node_functions(grammar, all, shown, i as int),
    {
        assert(shown[i as int] == nodes@[i as int]@);
        let node: &SyntaxNode = &nodes[i];
        assert(nodes@[i as int].start_row <= nodes@[i as int].end_row);
        if function_kind(grammar, node.kind.as_str()) {
            let last: usize = ls.len() - 1;
            let a: usize = if node.start_row < last {
                node.start_row
            } else {
                last
            };
            let b: usize = if node.end_row < last {
                node.end_row + 1
            } else {
                ls.len()
            };
            let hash: u64 = match &node.name {
                Some(n) => fnv1a(n.as_str().as_bytes()),
                None => fnv1a("anonymous".as_bytes()),
            };
            out.push(block_to_fn(ls, a, b, unit, hash));
        }
    }
    out
}

/// Analyzes the text of a file whose syntax tree has the given nodes, if it has a tree.
pub fn analyze_text(path: &str, text: &str, nodes: Option<Vec<SyntaxNode>>) -> (r: Option<
    CodeUnit,
>)
    requires
        nodes is Some ==> forall|i: int|
            0 <= i < nodes->0@.len() ==> (#[trigger] nodes->0@[i]).start_row
                <= nodes->0@[i].end_row,
    ensures
        ({
            let shown = match nodes {
                Some(v) => Some(views(v@)),
                None => None,
            };
            match r {
                Some(u) => text_unit(path@, text@, shown) == Some(u@),
                None => text_unit(path@, text@, shown) is None,
            }
        }),
{
    let chars: Vec<char> = chars_of(text);
    let ls: Vec<Vec<char>> = lines(chars.as_slice());
    let ghost all = char_lists(ls@);
    assert(all.len() == ls@.len());
    let loc: u32 = filled_lines(&ls, 0, ls.len());
    if loc == 0 {
        return None;
    }
    let name: Vec<char> = chars_of(path);
    let unit: u128 = indent_unit(&ls);
    let nesting_max: u8 = nesting_of(&ls, 0, ls.len(), unit);
    let grammar: Option<Grammar> = grammar_for(name.as_slice());
    assert(ls@.len() > 0);
    let mut functions: Vec<FnUnit> = match (grammar, nodes) {
        (Some(g), Some(n)) => tree_functions(g, &ls, &n, unit),
        _ => indent_functions(&ls, unit),
    };
    if functions.len() == 0 {
        functions.push(
            FnUnit { name_hash: fnv1a(path.as_bytes()), lines: loc, nesting: nesting_max },
        );
    }
    Some(
        CodeUnit {
            path: string_of(name.as_slice()),
            depth: depth_of(name.as_slice()),
            language: Lang::from_path(path),
            loc,
            nesting_max,
            ident_hash: identifier_hash(chars.as_slice()),
            functions,
        },
    )
}

/// What a unit says, if there is one.
pub open spec fn unit_view(unit: Option<CodeUnit>) -> Option<UnitView> {
    match unit {
        Some(u) => Some(u@),
        None => None,
    }
}

/// Analyzes a file: nothing if it is too large, binary or blank. Its functions are those of
/// its syntax tree if it has one; which nodes the tree of a text that is not steady has is
/// left to tree-sitter.
pub fn analyze_file(file: &RawFile) -> (r: Option<CodeUnit>)
    ensures
        exists|nodes: Option<Seq<NodeView>>| #[trigger] analyzed(file@, nodes, unit_view(r)),
        file_steady(file@) ==> unit_view(r) == file_unit(file@, steady_nodes(file@)),
{
    if file.content.len() > MAX_FILE_BYTES || is_binary(file.content.as_slice()) {
        assert(analyzed(file@, steady_nodes(file@), None));
        return None;
    }
    let text: String = lossy_text(file.content.as_slice());
    let path: Vec<char> = chars_of(file.path.as_str());
    let nodes: Option<Vec<SyntaxNode>> = match grammar_for(path.as_slice()) {
        Some(g) => parse_nodes(g, text.as_str()),
        None => None,
    };
    let ghost shown = nodes_view(nodes);
    let r: Option<CodeUnit> = analyze_text(file.path.as_str(), text.as_str(), nodes);
    assert(analyzed(file@, shown, unit_view(r)));
    r
}

/// Analyzes the files of a repository: the units, in the order of their paths.
pub fn build_units(files: &[RawFile]) -> (r: Vec<CodeUnit>)
    ensures
        exists|trees: Seq<Option<Seq<NodeView>>>| #[trigger]
            all_analyzed(views(files@), trees, views(r@)),
        (forall|i: int| 0 <= i < files@.len() ==> file_steady(#[trigger] views(files@)[i]))
            ==> all_analyzed(views(files@), steady_trees(views(files@)), views(r@)),
{
    let ghost all = views(files@);
    let ghost mut trees: Seq<Option<Seq<NodeView>>> = seq![];
    let mut units: Vec<CodeUnit> = Vec::new();
    assert(views(units@) =~= file_units(all, trees, 0));
    for i in 0..files.len()
        invariant
            all == views(files@),
            trees.len() == i,
            forall|j: int|
                0 <= j < i ==> nodes_possible(
                    all[j].path,
                    lossy(all[j].content),
                    #[trigger] trees[j],
                ),
            views(units@) == file_units(all, trees, i as int),
    {
        assert(all[i as int] == files@[i as int]@);
        let ghost before = views(units@);
        let unit: Option<CodeUnit> = analyze_file(&files[i]);
        proof {
            let nodes = choose|nodes: Option<Seq<NodeView>>| #[trigger]
                analyzed(all[i as int], nodes, unit_view(unit));
            lemma_file_units_front(all, trees, trees.push(nodes), i as int);
            trees = trees.push(nodes);
        }
        match unit {
            Some(u) => {
                let ghost shown = u@;
                units.push(u);
                assert(views(units@) =~= before.push(shown));
            },
            None => {},
        }
    }
    sort(&mut units);
    proof {
        assert(all_analyzed(all, trees, views(units@)));
        if forall|i: int| 0 <= i < files@.len() ==> file_steady(#[trigger] all[i]) {
            assert forall|i: int| 0 <= i < all.len() implies #[trigger] trees[i] == steady_nodes(
                all[i],
            ) by {
                assert(file_steady(all[i]));
            }
            assert(trees =~= steady_trees(all));
        }
    }
    units
}

} // verus!
