use gitfugue::{analyze_text, build_units, fnv1a, parse_nodes, Grammar, Lang, RawFile, SyntaxNode};

fn raw(path: &str, content: &str) -> RawFile {
    RawFile {
        path: path.to_string(),
        content: content.as_bytes().to_vec(),
    }
}

#[test]
fn rust_functions_found() {
    let f = raw(
        "src/lib.rs",
        "fn alpha() {\n    let x = 1;\n}\n\nfn beta() {\n    if true {\n        loop {}\n    }\n}\n",
    );
    let units = build_units(&[f]);
    assert_eq!(units.len(), 1);
    assert_eq!(units[0].functions.len(), 2);
    assert_eq!(units[0].language, Lang::Systems);
}

#[test]
fn indent_fallback_finds_blocks() {
    let f = raw(
        "notes.zig",
        "block one:\n    inner\n    inner\nplain line\nblock two:\n    inner\n",
    );
    let units = build_units(&[f]);
    assert_eq!(units.len(), 1);
    assert_eq!(units[0].functions.len(), 2);
}

#[test]
fn binary_skipped_empty_skipped() {
    let bin = RawFile {
        path: "a.bin".to_string(),
        content: vec![0, 1, 2, 3],
    };
    let empty = raw("empty.txt", "\n\n");
    assert!(build_units(&[bin, empty]).is_empty());
}

#[test]
fn determinism() {
    let f = raw("src/main.py", "def f():\n    return 1\n\ndef g():\n    pass\n");
    let a = build_units(&[raw("src/main.py", "def f():\n    return 1\n\ndef g():\n    pass\n")]);
    let b = build_units(&[f]);
    assert_eq!(a[0].ident_hash, b[0].ident_hash);
    assert_eq!(a[0].functions.len(), b[0].functions.len());
}

#[test]
fn rust_functions_are_measured() {
    let units = build_units(&[raw(
        "src/lib.rs",
        "fn alpha() {\n    let x = 1;\n}\n\nfn beta() {\n    if true {\n        loop {}\n    }\n}\n",
    )]);
    let u = &units[0];
    assert_eq!(u.path, "src/lib.rs");
    assert_eq!((u.depth, u.loc, u.nesting_max), (1, 8, 2));
    let alpha = u.functions[0];
    assert_eq!((alpha.name_hash, alpha.lines, alpha.nesting), (0x8ac6_25bb_85ed_202b, 3, 1));
    let beta = u.functions[1];
    assert_eq!((beta.name_hash, beta.lines, beta.nesting), (0x7627_619b_9546_20a7, 5, 2));
}

#[test]
fn blocks_are_measured() {
    let units = build_units(&[raw(
        "notes.zig",
        "block one:\n    inner\n    inner\nplain line\nblock two:\n    inner\n",
    )]);
    let f = &units[0].functions;
    assert_eq!((f[0].name_hash, f[0].lines, f[0].nesting), (0x169f_31a9_a85e_869c, 4, 1));
    assert_eq!((f[1].name_hash, f[1].lines, f[1].nesting), (0xdff2_d0f1_f2d2_d14a, 2, 1));
}

#[test]
fn a_file_without_functions_sings_as_a_whole() {
    let units = build_units(&[raw("notes.md", "one\n\ntwo\n")]);
    let f = units[0].functions[0];
    assert_eq!(units[0].functions.len(), 1);
    assert_eq!((f.name_hash, f.lines, f.nesting), (0x399f_a531_17c9_1b35, 2, 0));
    let empty_rust = build_units(&[raw("src/a.rs", "// nothing here\n")]);
    assert_eq!(empty_rust[0].functions.len(), 1);
    assert_eq!(empty_rust[0].functions[0].name_hash, fnv1a(b"src/a.rs"));
}

#[test]
fn identifiers_are_hashed_in_their_order() {
    let u = build_units(&[raw("a.txt", "fn a_1() {}\n")]);
    assert_eq!(u[0].ident_hash, 0xac5d_194d_c8f4_41b1);
    let v = build_units(&[raw("a.txt", "let x = 1;")]);
    assert_eq!(v[0].ident_hash, 0xa2d9_c837_a28e_bf68);
}

#[test]
fn tabs_count_as_four_spaces() {
    let u = build_units(&[raw("a.go", "func a() {\n\tif b {\n\t\tc()\n\t}\n}\n")]);
    assert_eq!(u[0].nesting_max, 2);
    assert_eq!(u[0].language, Lang::Go);
}

#[test]
fn units_are_sorted_by_path() {
    let files = [
        raw("src/b.md", "b"),
        raw("src-x/a.md", "x"),
        raw("README.md", "r"),
        raw("src/a.md", "a"),
    ];
    let paths: Vec<String> = build_units(&files).into_iter().map(|u| u.path).collect();
    // A slash ends a component, so that `src` comes before `src-x`.
    assert_eq!(paths, ["README.md", "src/a.md", "src/b.md", "src-x/a.md"]);
}

#[test]
fn large_files_are_left_out() {
    let big = RawFile { path: "big.txt".to_string(), content: vec![b'a'; 1_000_001] };
    let just = RawFile { path: "just.txt".to_string(), content: vec![b'a'; 1_000_000] };
    let units = build_units(&[big, just]);
    assert_eq!(units.len(), 1);
    assert_eq!(units[0].path, "just.txt");
}

#[test]
fn a_zero_byte_behind_the_probe_is_text() {
    let mut content = vec![b'a'; 8_001];
    content[8_000] = 0;
    assert_eq!(build_units(&[RawFile { path: "t.txt".to_string(), content: content.clone() }]).len(), 1);
    content[7_999] = 0;
    assert!(build_units(&[RawFile { path: "t.txt".to_string(), content }]).is_empty());
}

#[test]
fn broken_utf8_is_read_as_replacements() {
    let f = RawFile { path: "t.txt".to_string(), content: vec![0xff, b'a', b'\n'] };
    let units = build_units(&[f]);
    assert_eq!(units[0].loc, 1);
    assert_eq!(units[0].ident_hash, build_units(&[raw("t.txt", "\u{fffd}a\n")])[0].ident_hash);
}

#[test]
fn trees_are_walked_in_document_order() {
    let nodes = parse_nodes(Grammar::Python, "def f():\n    def g():\n        pass\n").unwrap();
    assert_eq!(nodes[0].kind, "module");
    let names: Vec<&str> = nodes
        .iter()
        .filter(|n| n.kind == "function_definition")
        .map(|n| n.name.as_deref().unwrap())
        .collect();
    assert_eq!(names, ["f", "g"]);
    let f = nodes.iter().find(|n| n.kind == "function_definition").unwrap();
    assert_eq!((f.start_row, f.end_row), (0, 2));
}

#[test]
fn javascript_methods_and_generators_are_functions() {
    let text = "class A {\n  m() {\n    return 1;\n  }\n}\nfunction* g() {\n  yield 1;\n}\nfunction f() {}\n";
    let u = build_units(&[raw("a.ts", text)]);
    let hashes: Vec<u64> = u[0].functions.iter().map(|f| f.name_hash).collect();
    assert_eq!(hashes, [fnv1a(b"m"), fnv1a(b"g"), fnv1a(b"f")]);
}

#[test]
fn given_nodes_decide_the_functions() {
    let node = |kind: &str, name: Option<&str>, start_row: usize, end_row: usize| SyntaxNode {
        kind: kind.to_string(),
        start_row,
        end_row,
        name: name.map(|n| n.to_string()),
    };
    let text = "a\n  b\n\nc\n";
    let nodes = vec![
        node("function_item", Some("one"), 0, 1),
        node("struct_item", Some("two"), 2, 3),
        node("function_item", None, 3, 9),
    ];
    let u = analyze_text("x.rs", text, Some(nodes)).unwrap();
    assert_eq!(u.functions.len(), 2);
    assert_eq!((u.functions[0].name_hash, u.functions[0].lines, u.functions[0].nesting), (fnv1a(b"one"), 2, 1));
    assert_eq!((u.functions[1].name_hash, u.functions[1].lines, u.functions[1].nesting), (fnv1a(b"anonymous"), 1, 0));
    assert!(analyze_text("x.rs", " \n\n", None).is_none());
}

#[test]
fn a_block_runs_to_the_next_opener() {
    let lines = |text: &str| -> Vec<u32> {
        build_units(&[raw("notes.zig", text)])[0].functions.iter().map(|f| f.lines).collect()
    };
    // Plain lines behind a block belong to it, up to the end of the file.
    assert_eq!(lines("a:\n  x\nplain\nplain\n"), [4]);
    // Plain lines before the first block belong to none, and blank lines do not count.
    assert_eq!(lines("plain\na:\n\n  x\n\nb:\n  y\nplain\n"), [2, 3]);
}

#[test]
fn wide_characters_leave_all_but_the_functions_alone() {
    let text = "let a = 1\u{3000}\nfunction f() {}\n";
    let units = build_units(&[raw("src/a.js", text)]);
    let u = &units[0];
    assert_eq!((u.loc, u.depth, u.nesting_max, u.language), (2, 1, 0, Lang::JsTs));
    assert!(!u.functions.is_empty());
    let other = analyze_text("src/a.js", text, None).unwrap();
    assert_eq!((u.ident_hash, u.loc, u.nesting_max), (other.ident_hash, other.loc, other.nesting_max));
}
