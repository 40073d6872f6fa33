//! What the analysis of a file says of its text and of its syntax tree.

use vstd::prelude::*;
use vstd::utf8::encode_utf8;

use crate::analyze::{
    all_analyzed, block, deepest, file_unit, file_units, filled, grammar_of, identifiers, indent,
    indent_blocks, indent_step, is_function, leading_width, least_indent, nesting, next_filled,
    next_opener, node_function, node_functions, opens_block, text_unit,
};
use crate::encoding::lossy;
use crate::extract::FileView;
use crate::laws::plain::{
    how_many, lemma_how_many_bounds, lemma_how_many_push, lemma_small_letters, small_letters,
};
use crate::laws::texts::{joined, lemma_extension, plain_names, without};
use crate::model::{lang_of, FnUnit, UnitView};
use crate::paths::path_depth;
use crate::rng::fnv;
use crate::sorting::{lemma_sorted_holds, lemma_sorted_len};
use crate::syntax::{Grammar, NodeView};
use crate::text::{is_blank, text_lines, trimmed};

verus! {

/// Whether a path is one of plain names whose last has the extension, in whatever case.
pub open spec fn has_extension(path: Seq<char>, ext: Seq<char>) -> bool {
    exists|names: Seq<Seq<char>>, stem: Seq<char>, e: Seq<char>| #[trigger]
        ends_in(path, names, stem, e) && small_letters(e) == ext
}

/// Whether a path is one of the plain names, the last of which is the stem, a dot and the
/// extension.
pub open spec fn ends_in(
    path: Seq<char>,
    names: Seq<Seq<char>>,
    stem: Seq<char>,
    e: Seq<char>,
) -> bool {
    &&& plain_names(names)
    &&& path == joined(names, '/')
    &&& names.last() == stem + seq!['.'] + e
    &&& stem.len() > 0
    &&& without(e, '.')
}

/// How many of the lines from `a` up to `b` hold more than white space.
pub open spec fn filled_rows(ls: Seq<Seq<char>>, a: int, b: int) -> int {
    how_many(ls.subrange(a, b), |l: Seq<char>| !is_blank(l))
}

/// Whether a line is indented by `w`: one for each space and four for each tab that it
/// starts with.
pub open spec fn indented_by(line: Seq<char>, w: int) -> bool {
    exists|n: int| #[trigger] white_front(line, n) && w == how_many(
        line.take(n),
        |c: char| c == ' ',
    ) + 4 * how_many(line.take(n), |c: char| c == '\t')
}

/// Whether a line starts with `n` spaces and tabs and no more.
pub open spec fn white_front(line: Seq<char>, n: int) -> bool {
    &&& 0 <= n <= line.len()
    &&& forall|i: int| 0 <= i < n ==> #[trigger] line[i] == ' ' || line[i] == '\t'
    &&& n < line.len() ==> line[n] != ' ' && line[n] != '\t'
}

/// Whether `w` is the largest indentation of the lines from `a` up to `b` that are not blank,
/// or 0 where there is none.
pub open spec fn widest(ls: Seq<Seq<char>>, a: int, b: int, w: int) -> bool {
    &&& w >= 0
    &&& forall|i: int|
        a <= i < b && !is_blank(#[trigger] ls[i]) ==> exists|v: int| #[trigger]
            indented_by(ls[i], v) && v <= w
    &&& w > 0 ==> exists|i: int|
        a <= i < b && !is_blank(#[trigger] ls[i]) && indented_by(ls[i], w)
}

/// Whether `u` is the step of the indentation: the smallest above zero of the lines that are
/// not blank, or 4 where none is indented.
pub open spec fn step(ls: Seq<Seq<char>>, u: int) -> bool {
    &&& u > 0
    &&& forall|i: int|
        0 <= i < ls.len() && !is_blank(#[trigger] ls[i]) ==> exists|v: int| #[trigger]
            indented_by(ls[i], v) && (v == 0 || v >= u)
    &&& (exists|i: int| 0 <= i < ls.len() && !is_blank(#[trigger] ls[i]) && indented_by(ls[i], u))
        || (u == 4 && forall|i: int|
        0 <= i < ls.len() && !is_blank(#[trigger] ls[i]) ==> indented_by(ls[i], 0))
}

/// Whether the lines from `a` up to `b` are nested `d` deep: their largest indentation in
/// steps, at most 255.
pub open spec fn nested(ls: Seq<Seq<char>>, a: int, b: int, d: int) -> bool {
    exists|w: int, u: int| #[trigger]
        widest(ls, a, b, w) && #[trigger] step(ls, u) && d == if w / u > 255 {
            255
        } else {
            w / u
        }
}

/// Whether a function is measured by the lines from `a` up to `b`: as many lines as are not
/// blank, one at least, and nested as deep as they are.
pub open spec fn measured(f: FnUnit, ls: Seq<Seq<char>>, a: int, b: int) -> bool {
    &&& f.lines == if filled_rows(ls, a, b) == 0 {
        1
    } else {
        filled_rows(ls, a, b)
    }
    &&& nested(ls, a, b, f.nesting as int)
}

/// Whether a function is that of a node of a syntax tree: hashed by its name, and measured by
/// its rows.
pub open spec fn function_at(f: FnUnit, ls: Seq<Seq<char>>, node: NodeView) -> bool {
    &&& f.name_hash == fnv(
        encode_utf8(
            match node.name {
                Some(name) => name,
                None => "anonymous"@,
            },
        ),
    )
    &&& node.start_row < ls.len() ==> measured(
        f,
        ls,
        node.start_row as int,
        if node.end_row < ls.len() {
            node.end_row + 1
        } else {
            ls.len() as int
        },
    )
}

/// Whether the functions of a unit are one for each of the nodes, in their order; or the
/// whole file where there is none.
pub open spec fn one_for_each(
    unit: UnitView,
    ls: Seq<Seq<char>>,
    nodes: Seq<NodeView>,
) -> bool {
    if nodes.len() > 0 {
        &&& unit.functions.len() == nodes.len()
        &&& forall|i: int|
            0 <= i < nodes.len() ==> function_at(#[trigger] unit.functions[i], ls, nodes[i])
    } else {
        &&& unit.functions.len() == 1
        &&& unit.functions[0].name_hash == fnv(encode_utf8(unit.path))
        &&& measured(unit.functions[0], ls, 0, ls.len() as int)
    }
}

proof fn lemma_filled(ls: Seq<Seq<char>>, a: int, b: int)
    requires
        0 <= a <= b <= ls.len(),
    ensures
        filled(ls, a, b) == filled_rows(ls, a, b),
        filled_rows(ls, a, b) <= b - a,
    decreases b - a,
{
    let meets = |l: Seq<char>| !is_blank(l);
    lemma_how_many_bounds(ls.subrange(a, b), meets);
    if a < b {
        lemma_filled(ls, a, b - 1);
        lemma_how_many_push(ls.subrange(a, b - 1), ls[b - 1], meets);
        assert(ls.subrange(a, b) =~= ls.subrange(a, b - 1).push(ls[b - 1]));
    } else {
        assert(ls.subrange(a, b).len() == 0);
    }
}

/// The indentation of a line is that of the spaces and tabs that it starts with.
pub proof fn lemma_indentation(line: Seq<char>)
    ensures
        indented_by(line, leading_width(line) as int),
        indent(line) == if is_blank(line) {
            None
        } else {
            Some(leading_width(line))
        },
    decreases line.len(),
{
    let space = |c: char| c == ' ';
    let tab = |c: char| c == '\t';
    if line.len() > 0 && (line[0] == ' ' || line[0] == '\t') {
        let rest = line.drop_first();
        lemma_indentation(rest);
        let w = leading_width(rest) as int;
        let n = choose|n: int| #[trigger] white_front(rest, n) && w == how_many(
            rest.take(n),
            |c: char| c == ' ',
        ) + 4 * how_many(rest.take(n), |c: char| c == '\t');
        assert(line.take(n + 1).drop_first() =~= rest.take(n));
        assert(line.take(n + 1)[0] == line[0]);
        assert forall|i: int| 0 <= i < n + 1 implies #[trigger] line[i] == ' ' || line[i]
            == '\t' by {
            if i > 0 {
                assert(rest[i - 1] == line[i]);
            }
        }
        if n < rest.len() {
            assert(line[n + 1] == rest[n]);
        }
        assert(white_front(line, n + 1));
    } else {
        assert(line.take(0).len() == 0);
        assert(white_front(line, 0));
    }
}

proof fn lemma_deepest(ls: Seq<Seq<char>>, a: int, b: int)
    requires
        0 <= a <= b <= ls.len(),
    ensures
        widest(ls, a, b, deepest(ls, a, b) as int),
    decreases b - a,
{
    if a < b {
        lemma_deepest(ls, a, b - 1);
        lemma_indentation(ls[b - 1]);
        let before = deepest(ls, a, b - 1) as int;
        let now = deepest(ls, a, b) as int;
        assert forall|i: int| a <= i < b && !is_blank(#[trigger] ls[i]) implies exists|v: int|
            #[trigger] indented_by(ls[i], v) && v <= now by {
            if i == b - 1 {
                assert(indented_by(ls[i], leading_width(ls[i]) as int));
            } else {
                let v = choose|v: int| #[trigger] indented_by(ls[i], v) && v <= before;
                assert(indented_by(ls[i], v) && v <= now);
            }
        }
        if now > 0 {
            if now == before {
                let i = choose|i: int|
                    a <= i < b - 1 && !is_blank(#[trigger] ls[i]) && indented_by(ls[i], before);
                assert(!is_blank(ls[i]) && indented_by(ls[i], now));
            } else {
                assert(!is_blank(ls[b - 1]) && indented_by(ls[b - 1], now));
            }
        }
    }
}

proof fn lemma_least(ls: Seq<Seq<char>>, k: int)
    requires
        0 <= k <= ls.len(),
    ensures
        ({
            let u = least_indent(ls, k) as int;
            &&& forall|i: int|
                0 <= i < k && !is_blank(#[trigger] ls[i]) ==> leading_width(ls[i]) == 0 || (u > 0
                    && leading_width(ls[i]) >= u)
            &&& u > 0 ==> exists|i: int|
                0 <= i < k && !is_blank(#[trigger] ls[i]) && leading_width(ls[i]) == u
        }),
    decreases k,
{
    if k > 0 {
        lemma_least(ls, k - 1);
        let before = least_indent(ls, k - 1) as int;
        let now = least_indent(ls, k) as int;
        if now > 0 {
            if now == before {
                let i = choose|i: int|
                    0 <= i < k - 1 && !is_blank(#[trigger] ls[i]) && leading_width(ls[i])
                        == before;
                assert(!is_blank(ls[i]) && leading_width(ls[i]) == now);
            } else {
                assert(!is_blank(ls[k - 1]) && leading_width(ls[k - 1]) == now);
            }
        }
    }
}

proof fn lemma_step(ls: Seq<Seq<char>>)
    ensures
        step(ls, indent_step(ls) as int),
{
    let n = ls.len() as int;
    let least = least_indent(ls, n) as int;
    let u = indent_step(ls) as int;
    lemma_least(ls, n);
    assert forall|i: int| 0 <= i < n && !is_blank(#[trigger] ls[i]) implies exists|v: int|
        #[trigger] indented_by(ls[i], v) && (v == 0 || v >= u) by {
        lemma_indentation(ls[i]);
        assert(indented_by(ls[i], leading_width(ls[i]) as int));
    }
    if least > 0 {
        let i = choose|i: int|
            0 <= i < n && !is_blank(#[trigger] ls[i]) && leading_width(ls[i]) == least;
        lemma_indentation(ls[i]);
        assert(!is_blank(ls[i]) && indented_by(ls[i], u));
    } else {
        assert forall|i: int| 0 <= i < n && !is_blank(#[trigger] ls[i]) implies indented_by(
            ls[i],
            0,
        ) by {
            lemma_indentation(ls[i]);
        }
    }
}

proof fn lemma_nested(ls: Seq<Seq<char>>, a: int, b: int)
    requires
        0 <= a <= b <= ls.len(),
    ensures
        nested(ls, a, b, nesting(ls, a, b) as int),
{
    lemma_deepest(ls, a, b);
    lemma_step(ls);
    let w = deepest(ls, a, b) as int;
    let u = indent_step(ls) as int;
    assert(widest(ls, a, b, w) && step(ls, u));
    assert(w / u >= 0) by (nonlinear_arith)
        requires
            w >= 0,
            u > 0,
    ;
}

proof fn lemma_measured(ls: Seq<Seq<char>>, a: int, b: int, h: u64)
    requires
        0 <= a <= b <= ls.len() <= 0xffff_ffff,
    ensures
        measured(block(ls, a, b, h), ls, a, b),
        block(ls, a, b, h).name_hash == h,
{
    lemma_filled(ls, a, b);
    lemma_nested(ls, a, b);
}

proof fn lemma_node_function(ls: Seq<Seq<char>>, node: NodeView)
    requires
        0 < ls.len() <= 0xffff_ffff,
        node.start_row <= node.end_row,
    ensures
        function_at(node_function(ls, node), ls, node),
{
    let a = if node.start_row < ls.len() - 1 {
        node.start_row as int
    } else {
        ls.len() - 1
    };
    let b = if node.end_row + 1 < ls.len() {
        node.end_row + 1
    } else {
        ls.len() as int
    };
    let name = match node.name {
        Some(n) => n,
        None => "anonymous"@,
    };
    lemma_measured(ls, a, b, fnv(encode_utf8(name)));
}

proof fn lemma_node_functions(
    g: Grammar,
    ls: Seq<Seq<char>>,
    nodes: Seq<NodeView>,
    k: int,
    meets: spec_fn(NodeView) -> bool,
)
    requires
        0 <= k <= nodes.len(),
        0 < ls.len() <= 0xffff_ffff,
        forall|i: int|
            0 <= i < nodes.len() ==> (#[trigger] nodes[i]).start_row <= nodes[i].end_row,
        forall|n: NodeView| #[trigger] meets(n) <==> is_function(g, n.kind),
    ensures
        ({
            let picked = nodes.take(k).filter(meets);
            let found = node_functions(g, ls, nodes, k);
            &&& found.len() == picked.len()
            &&& forall|i: int|
                0 <= i < picked.len() ==> function_at(#[trigger] found[i], ls, picked[i])
        }),
    decreases k,
{
    reveal(Seq::filter);
    if k > 0 {
        lemma_node_functions(g, ls, nodes, k - 1, meets);
        let before = nodes.take(k - 1).filter(meets);
        let picked = nodes.take(k).filter(meets);
        let found = node_functions(g, ls, nodes, k);
        let earlier = node_functions(g, ls, nodes, k - 1);
        assert(nodes.take(k).drop_last() =~= nodes.take(k - 1));
        assert(nodes.take(k).last() == nodes[k - 1]);
        lemma_node_function(ls, nodes[k - 1]);
        assert(meets(nodes[k - 1]) <==> is_function(g, nodes[k - 1].kind));
        assert forall|i: int| 0 <= i < picked.len() implies function_at(
            #[trigger] found[i],
            ls,
            picked[i],
        ) by {
            if i < before.len() {
                assert(found[i] == earlier[i]);
                assert(picked[i] == before[i]);
            }
        }
    }
}

proof fn lemma_tree_unit(
    path: Seq<char>,
    text: Seq<char>,
    nodes: Seq<NodeView>,
    g: Grammar,
    meets: spec_fn(NodeView) -> bool,
)
    requires
        grammar_of(path) == Some(g),
        text_lines(text).len() <= 0xffff_ffff,
        forall|i: int|
            0 <= i < nodes.len() ==> (#[trigger] nodes[i]).start_row <= nodes[i].end_row,
        forall|n: NodeView| #[trigger] meets(n) <==> is_function(g, n.kind),
        text_unit(path, text, Some(nodes)) is Some,
    ensures
        one_for_each(
            text_unit(path, text, Some(nodes))->0,
            text_lines(text),
            nodes.filter(meets),
        ),
{
    let ls = text_lines(text);
    let n = ls.len() as int;
    lemma_filled(ls, 0, n);
    if n == 0 {
        lemma_how_many_bounds(ls.subrange(0, n), |l: Seq<char>| !is_blank(l));
    }
    assert(nodes.take(nodes.len() as int) =~= nodes);
    lemma_node_functions(g, ls, nodes, nodes.len() as int, meets);
    lemma_nested(ls, 0, n);
}

proof fn lemma_extension_there(path: Seq<char>, ext: Seq<char>)
    requires
        has_extension(path, ext),
    ensures
        crate::paths::extension(path) is Some,
        crate::text::lowered(crate::paths::extension(path)->0) == ext,
{
    let (names, stem, e) = choose|names: Seq<Seq<char>>, stem: Seq<char>, e: Seq<char>|
        #[trigger] ends_in(path, names, stem, e) && small_letters(e) == ext;
    lemma_extension(names, stem, e);
    lemma_small_letters(e);
}

/// The functions of a Python file with a syntax tree are one for each `function_definition`,
/// in the order of the nodes, and none for a node of any other kind. Where there is none, the
/// file is one function, named by its path.
pub proof fn lemma_python_functions(path: Seq<char>, text: Seq<char>, nodes: Seq<NodeView>)
    requires
        has_extension(path, "py"@),
        text_lines(text).len() <= 0xffff_ffff,
        forall|i: int|
            0 <= i < nodes.len() ==> (#[trigger] nodes[i]).start_row <= nodes[i].end_row,
        text_unit(path, text, Some(nodes)) is Some,
    ensures
        one_for_each(
            text_unit(path, text, Some(nodes))->0,
            text_lines(text),
            nodes.filter(|n: NodeView| n.kind == "function_definition"@),
        ),
{
    lemma_extension_there(path, "py"@);
    reveal_strlit("rs");
    reveal_strlit("py");
    assert("py"@[0] != "rs"@[0]);
    lemma_tree_unit(
        path,
        text,
        nodes,
        Grammar::Python,
        |n: NodeView| n.kind == "function_definition"@,
    );
}

/// The functions of a Rust file with a syntax tree are one for each `function_item`, in the
/// order of the nodes, and none for a node of any other kind.
pub proof fn lemma_rust_functions(path: Seq<char>, text: Seq<char>, nodes: Seq<NodeView>)
    requires
        has_extension(path, "rs"@),
        text_lines(text).len() <= 0xffff_ffff,
        forall|i: int|
            0 <= i < nodes.len() ==> (#[trigger] nodes[i]).start_row <= nodes[i].end_row,
        text_unit(path, text, Some(nodes)) is Some,
    ensures
        one_for_each(
            text_unit(path, text, Some(nodes))->0,
            text_lines(text),
            nodes.filter(|n: NodeView| n.kind == "function_item"@),
        ),
{
    lemma_extension_there(path, "rs"@);
    lemma_tree_unit(
        path,
        text,
        nodes,
        Grammar::Rust,
        |n: NodeView| n.kind == "function_item"@,
    );
}

/// The functions of a JavaScript or TypeScript file with a syntax tree are one for each
/// declaration of a function or a generator and each method, in the order of the nodes, and
/// none for a node of any other kind.
pub proof fn lemma_javascript_functions(path: Seq<char>, text: Seq<char>, nodes: Seq<NodeView>)
    requires
        has_extension(path, "js"@) || has_extension(path, "jsx"@) || has_extension(path, "mjs"@)
            || has_extension(path, "cjs"@) || has_extension(path, "ts"@) || has_extension(
            path,
            "tsx"@,
        ),
        text_lines(text).len() <= 0xffff_ffff,
        forall|i: int|
            0 <= i < nodes.len() ==> (#[trigger] nodes[i]).start_row <= nodes[i].end_row,
        text_unit(path, text, Some(nodes)) is Some,
    ensures
        one_for_each(
            text_unit(path, text, Some(nodes))->0,
            text_lines(text),
            nodes.filter(
                |n: NodeView|
                    n.kind == "function_declaration"@ || n.kind == "method_definition"@ || n.kind
                        == "generator_function_declaration"@,
            ),
        ),
{
    lemma_javascript_grammar(path);
    lemma_tree_unit(
        path,
        text,
        nodes,
        Grammar::JavaScript,
        |n: NodeView|
            n.kind == "function_declaration"@ || n.kind == "method_definition"@ || n.kind
                == "generator_function_declaration"@,
    );
}

/// The files with the grammar of JavaScript.
pub proof fn lemma_javascript_grammar(path: Seq<char>)
    requires
        has_extension(path, "js"@) || has_extension(path, "jsx"@) || has_extension(path, "mjs"@)
            || has_extension(path, "cjs"@) || has_extension(path, "ts"@) || has_extension(
            path,
            "tsx"@,
        ),
    ensures
        grammar_of(path) == Some(Grammar::JavaScript),
{
    reveal_strlit("rs");
    reveal_strlit("py");
    reveal_strlit("js");
    reveal_strlit("ts");
    reveal_strlit("jsx");
    reveal_strlit("mjs");
    reveal_strlit("cjs");
    reveal_strlit("tsx");
    assert("py"@[0] == 'p' && "rs"@[0] == 'r' && "js"@[0] == 'j' && "ts"@[0] == 't');
    if has_extension(path, "js"@) {
        lemma_extension_there(path, "js"@);
    } else if has_extension(path, "jsx"@) {
        lemma_extension_there(path, "jsx"@);
    } else if has_extension(path, "mjs"@) {
        lemma_extension_there(path, "mjs"@);
    } else if has_extension(path, "cjs"@) {
        lemma_extension_there(path, "cjs"@);
    } else if has_extension(path, "ts"@) {
        lemma_extension_there(path, "ts"@);
    } else {
        lemma_extension_there(path, "tsx"@);
    }
}

/// What a unit says of its text, whatever its syntax tree: its path with its depth and family,
/// the hash of the identifiers, how many lines are not blank, and how deep they are nested. A
/// text without such a line has no unit.
pub proof fn lemma_unit_of_text(
    path: Seq<char>,
    text: Seq<char>,
    nodes: Option<Seq<NodeView>>,
)
    requires
        text_lines(text).len() <= 0xffff_ffff,
    ensures
        ({
            let ls = text_lines(text);
            let n = ls.len() as int;
            match text_unit(path, text, nodes) {
                Some(u) => {
                    &&& u.path == path
                    &&& u.depth == path_depth(path) as u8
                    &&& u.language == lang_of(path)
                    &&& u.ident_hash == identifiers(text).0
                    &&& u.loc == filled_rows(ls, 0, n)
                    &&& u.loc > 0
                    &&& nested(ls, 0, n, u.nesting_max as int)
                    &&& u.functions.len() > 0
                },
                None => forall|i: int| 0 <= i < n ==> is_blank(#[trigger] ls[i]),
            }
        }),
{
    let ls = text_lines(text);
    let n = ls.len() as int;
    lemma_filled(ls, 0, n);
    lemma_nested(ls, 0, n);
    if filled(ls, 0, n) == 0 {
        assert forall|i: int| 0 <= i < n implies is_blank(#[trigger] ls[i]) by {
            lemma_none_filled(ls, n, i);
        }
    }
}

proof fn lemma_none_filled(ls: Seq<Seq<char>>, n: int, i: int)
    requires
        0 <= i < n <= ls.len(),
        filled(ls, 0, n) == 0,
    ensures
        is_blank(ls[i]),
    decreases n,
{
    if i < n - 1 {
        lemma_none_filled(ls, n - 1, i);
    }
}

/// A file has no unit if it is over a million bytes long or has a zero byte among its first
/// eight thousand; else it has that of its text.
pub proof fn lemma_skipped_files(file: FileView, nodes: Option<Seq<NodeView>>)
    ensures
        file.content.len() > 1_000_000 ==> file_unit(file, nodes) is None,
        (exists|i: int| 0 <= i < file.content.len() && i < 8000 && #[trigger] file.content[i] == 0)
            ==> file_unit(file, nodes) is None,
        file.content.len() <= 1_000_000 && (forall|i: int|
            0 <= i < file.content.len() && i < 8000 ==> #[trigger] file.content[i] != 0)
            ==> file_unit(file, nodes) == text_unit(file.path, lossy(file.content), nodes),
{
}

/// A letter, digit or underscore goes into the hash of the identifiers, any other character
/// only ends an identifier: it turns the hash by seven bits if it follows one.
pub proof fn lemma_identifier_hash(text: Seq<char>, c: char)
    ensures
        ({
            let n = c as int;
            let letter = 97 <= n <= 122 || 65 <= n <= 90 || 48 <= n <= 57 || n == 95;
            let (h, inside) = identifiers(text);
            &&& letter ==> identifiers(text.push(c)) == (
                (h ^ (c as u64)).wrapping_mul(0x100_0000_01b3),
                true,
            )
            &&& !letter && inside ==> identifiers(text.push(c)) == ((h << 7) | (h >> 57), false)
            &&& !letter && !inside ==> identifiers(text.push(c)) == (h, false)
            &&& identifiers(seq![]) == (0xcbf2_9ce4_8422_2325u64, false)
        }),
{
    assert(text.push(c).drop_last() =~= text);
}

/// Whether a line stands at the margin and the next line that is not blank is indented.
pub open spec fn heads_block(ls: Seq<Seq<char>>, i: int) -> bool {
    &&& 0 <= i < ls.len()
    &&& !is_blank(ls[i])
    &&& indented_by(ls[i], 0)
    &&& exists|j: int|
        i < j < ls.len() && !is_blank(#[trigger] ls[j]) && !indented_by(ls[j], 0) && forall|k: int|
            i < k < j ==> is_blank(#[trigger] ls[k])
}

proof fn lemma_front_unique(line: Seq<char>, m: int, n: int)
    requires
        white_front(line, m),
        white_front(line, n),
    ensures
        m == n,
{
    if m < n {
        assert(line[m] == ' ' || line[m] == '\t');
    } else if n < m {
        assert(line[n] == ' ' || line[n] == '\t');
    }
}

/// A line has one indentation.
pub proof fn lemma_one_indentation(line: Seq<char>, v: int, w: int)
    requires
        indented_by(line, v),
        indented_by(line, w),
    ensures
        v == w,
{
    let m = choose|m: int| #[trigger] white_front(line, m) && v == how_many(
        line.take(m),
        |c: char| c == ' ',
    ) + 4 * how_many(line.take(m), |c: char| c == '\t');
    let n = choose|n: int| #[trigger] white_front(line, n) && w == how_many(
        line.take(n),
        |c: char| c == ' ',
    ) + 4 * how_many(line.take(n), |c: char| c == '\t');
    lemma_front_unique(line, m, n);
}

proof fn lemma_next_filled(ls: Seq<Seq<char>>, i: int)
    requires
        0 <= i <= ls.len(),
    ensures
        i <= next_filled(ls, i) <= ls.len(),
        forall|k: int| i <= k < next_filled(ls, i) ==> is_blank(#[trigger] ls[k]),
        next_filled(ls, i) < ls.len() ==> !is_blank(ls[next_filled(ls, i)]),
    decreases ls.len() - i,
{
    if i < ls.len() && is_blank(ls[i]) {
        lemma_next_filled(ls, i + 1);
    }
}

proof fn lemma_heads(ls: Seq<Seq<char>>, i: int)
    requires
        0 <= i < ls.len(),
    ensures
        opens_block(ls, i) <==> heads_block(ls, i),
{
    let next = next_filled(ls, i + 1);
    lemma_next_filled(ls, i + 1);
    lemma_indentation(ls[i]);
    if next < ls.len() {
        lemma_indentation(ls[next]);
    }
    if opens_block(ls, i) {
        if indented_by(ls[next], 0) {
            lemma_one_indentation(ls[next], 0, leading_width(ls[next]) as int);
        }
        assert(!is_blank(ls[next]) && !indented_by(ls[next], 0));
    }
    if heads_block(ls, i) {
        lemma_one_indentation(ls[i], 0, leading_width(ls[i]) as int);
        let j = choose|j: int|
            i < j < ls.len() && !is_blank(#[trigger] ls[j]) && !indented_by(ls[j], 0)
                && forall|k: int| i < k < j ==> is_blank(#[trigger] ls[k]);
        if next < j {
            assert(is_blank(ls[next]));
        } else if j < next {
            assert(is_blank(ls[j]));
        }
        lemma_indentation(ls[j]);
    }
}

proof fn lemma_next_opener(ls: Seq<Seq<char>>, i: int)
    requires
        0 <= i <= ls.len(),
    ensures
        i <= next_opener(ls, i) <= ls.len(),
        forall|k: int| i <= k < next_opener(ls, i) ==> !#[trigger] heads_block(ls, k),
        next_opener(ls, i) < ls.len() ==> heads_block(ls, next_opener(ls, i)),
    decreases ls.len() - i,
{
    if i < ls.len() {
        lemma_heads(ls, i);
        if !opens_block(ls, i) {
            lemma_next_opener(ls, i + 1);
        }
    }
}

/// Whether a function is the block that the line `a` heads: named by that line without the
/// white space around it, and measured by the lines up to the next head or the end.
pub open spec fn block_at(f: FnUnit, ls: Seq<Seq<char>>, a: int) -> bool {
    &&& heads_block(ls, a)
    &&& f.name_hash == fnv(encode_utf8(trimmed(ls[a])))
    &&& exists|b: int| #[trigger]
        measured(f, ls, a, b) && a < b <= ls.len() && (b == ls.len() || heads_block(ls, b))
            && forall|k: int| a < k < b ==> !#[trigger] heads_block(ls, k)
}

proof fn lemma_blocks(ls: Seq<Seq<char>>, k: int) -> (heads: Seq<int>)
    requires
        0 <= k <= ls.len() <= 0xffff_ffff,
    ensures
        heads.len() == indent_blocks(ls, k).len(),
        forall|i: int|
            0 <= i < heads.len() ==> block_at(#[trigger] indent_blocks(ls, k)[i], ls, heads[i]),
        forall|i: int| 0 <= i < heads.len() ==> 0 <= #[trigger] heads[i] < k,
        forall|i: int, j: int| 0 <= i < j < heads.len() ==> heads[i] < heads[j],
        forall|a: int| 0 <= a < k && #[trigger] heads_block(ls, a) ==> heads.contains(a),
    decreases k,
{
    if k <= 0 {
        seq![]
    } else {
        let before = lemma_blocks(ls, k - 1);
        let found = indent_blocks(ls, k);
        let earlier = indent_blocks(ls, k - 1);
        lemma_heads(ls, k - 1);
        if opens_block(ls, k - 1) {
            let heads = before.push(k - 1);
            let b = next_opener(ls, k);
            lemma_next_opener(ls, k);
            let h = fnv(encode_utf8(trimmed(ls[k - 1])));
            lemma_measured(ls, k - 1, b, h);
            assert(measured(found.last(), ls, k - 1, b));
            assert forall|i: int| 0 <= i < heads.len() implies block_at(
                #[trigger] found[i],
                ls,
                heads[i],
            ) by {
                if i < before.len() {
                    assert(found[i] == earlier[i]);
                }
            }
            assert forall|a: int| 0 <= a < k && #[trigger] heads_block(ls, a) implies
                heads.contains(a) by {
                if a < k - 1 {
                    let i = choose|i: int| 0 <= i < before.len() && before[i] == a;
                    assert(heads[i] == a);
                } else {
                    assert(heads[before.len() as int] == a);
                }
            }
            heads
        } else {
            before
        }
    }
}

/// A file without a syntax tree has a function for each line that heads a block: a line at
/// the margin whose next line that is not blank is indented. They come in the order of their
/// lines, and each runs to the next one or to the end of the file.
pub proof fn lemma_functions_by_indentation(path: Seq<char>, text: Seq<char>) -> (heads: Seq<int>)
    requires
        text_lines(text).len() <= 0xffff_ffff,
        text_unit(path, text, None) is Some,
    ensures
        ({
            let ls = text_lines(text);
            let u = text_unit(path, text, None)->0;
            &&& forall|a: int| #[trigger] heads_block(ls, a) ==> heads.contains(a)
            &&& forall|i: int, j: int| 0 <= i < j < heads.len() ==> heads[i] < heads[j]
            &&& heads.len() > 0 ==> u.functions.len() == heads.len() && forall|i: int|
                0 <= i < heads.len() ==> block_at(#[trigger] u.functions[i], ls, heads[i])
            &&& heads.len() == 0 ==> u.functions.len() == 1 && u.functions[0].name_hash == fnv(
                encode_utf8(path),
            ) && measured(u.functions[0], ls, 0, ls.len() as int)
        }),
{
    let ls = text_lines(text);
    let n = ls.len() as int;
    lemma_filled(ls, 0, n);
    lemma_nested(ls, 0, n);
    lemma_blocks(ls, n)
}

/// Every file that has a unit gives it once, and no other unit is there: there are as many
/// units as files that have one.
pub proof fn lemma_units_of_files(
    files: Seq<FileView>,
    trees: Seq<Option<Seq<NodeView>>>,
    units: Seq<UnitView>,
)
    requires
        all_analyzed(files, trees, units),
    ensures
        units.len() == how_many(
            Seq::new(files.len(), |i: int| file_unit(files[i], trees[i])),
            |u: Option<UnitView>| u is Some,
        ),
        forall|i: int|
            0 <= i < files.len() && (#[trigger] file_unit(files[i], trees[i])) is Some
                ==> units.contains(file_unit(files[i], trees[i])->0),
{
    let n = files.len() as int;
    let all = Seq::new(files.len(), |i: int| file_unit(files[i], trees[i]));
    let found = file_units(files, trees, n);
    lemma_sorted_len(found);
    lemma_units_counted(files, trees, n);
    assert(all.take(n) =~= all);
    assert forall|i: int|
        0 <= i < files.len() && (#[trigger] file_unit(files[i], trees[i])) is Some
            implies units.contains(file_unit(files[i], trees[i])->0) by {
        lemma_unit_there(files, trees, n, i);
        lemma_sorted_holds(found, file_unit(files[i], trees[i])->0);
    }
}

proof fn lemma_units_counted(files: Seq<FileView>, trees: Seq<Option<Seq<NodeView>>>, k: int)
    requires
        0 <= k <= files.len(),
    ensures
        file_units(files, trees, k).len() == how_many(
            Seq::new(files.len(), |i: int| file_unit(files[i], trees[i])).take(k),
            |u: Option<UnitView>| u is Some,
        ),
    decreases k,
{
    let all = Seq::new(files.len(), |i: int| file_unit(files[i], trees[i]));
    if k > 0 {
        lemma_units_counted(files, trees, k - 1);
        lemma_how_many_push(all.take(k - 1), all[k - 1], |u: Option<UnitView>| u is Some);
        assert(all.take(k) =~= all.take(k - 1).push(all[k - 1]));
    } else {
        assert(all.take(0).len() == 0);
    }
}

proof fn lemma_unit_there(
    files: Seq<FileView>,
    trees: Seq<Option<Seq<NodeView>>>,
    k: int,
    i: int,
)
    requires
        0 <= i < k <= files.len(),
        file_unit(files[i], trees[i]) is Some,
    ensures
        file_units(files, trees, k).contains(file_unit(files[i], trees[i])->0),
    decreases k,
{
    let u = file_unit(files[i], trees[i])->0;
    let now = file_units(files, trees, k);
    let before = file_units(files, trees, k - 1);
    if i < k - 1 {
        lemma_unit_there(files, trees, k - 1, i);
        let j = choose|j: int| 0 <= j < before.len() && before[j] == u;
        assert(now[j] == u);
    } else {
        assert(now[before.len() as int] == u);
    }
}

} // verus!
