//! The tables that a piece goes by, said of all paths and all keys.

use vstd::prelude::*;

use crate::laws::measures::{ends_in, has_extension};
use crate::laws::plain::{lemma_small_letters, small_letters};
use crate::laws::texts::{
    joined, lemma_extension, lemma_no_extension, lemma_path_of_names, plain_name, plain_names,
    without,
};
use crate::model::{key_name, lang_of, lang_of_extension, Lang};
use crate::paths::{component_key, component_kind, components_key, extension, path_key};
use crate::sorting::lex_before;
use crate::text::{codes, lowered};

verus! {

/// Whether an extension is one of a known family, with the family that it is of.
spec fn known(e: Seq<char>, lang: Lang) -> bool {
    match lang {
        Lang::Systems => e == "rs"@ || e == "c"@ || e == "h"@ || e == "cpp"@ || e == "cc"@
            || e == "hpp"@ || e == "cxx"@,
        Lang::Python => e == "py"@ || e == "pyi"@,
        Lang::JsTs => e == "js"@ || e == "jsx"@ || e == "ts"@ || e == "tsx"@ || e == "mjs"@
            || e == "cjs"@,
        Lang::Go => e == "go"@,
        Lang::Jvm => e == "java"@ || e == "kt"@ || e == "kts"@ || e == "cs"@ || e == "scala"@,
        Lang::Markup => e == "html"@ || e == "htm"@ || e == "css"@ || e == "scss"@ || e == "sass"@
            || e == "svelte"@ || e == "vue"@,
        Lang::Docs => e == "md"@ || e == "rst"@ || e == "txt"@ || e == "adoc"@,
        Lang::Config => e == "yml"@ || e == "yaml"@ || e == "toml"@ || e == "json"@ || e == "ini"@
            || e == "cfg"@ || e == "lock"@,
        Lang::Shell => e == "sh"@ || e == "bash"@ || e == "zsh"@ || e == "fish"@ || e == "ps1"@
            || e == "bat"@,
        Lang::Other => false,
    }
}

proof fn lemma_family_systems(e: Seq<char>)
    ensures
        known(e, Lang::Systems) ==> lang_of_extension(e) == Some(Lang::Systems),
{
    reveal_strlit("rs");
    reveal_strlit("c");
    reveal_strlit("h");
    reveal_strlit("cpp");
    reveal_strlit("cc");
    reveal_strlit("hpp");
    reveal_strlit("cxx");
    assert("rs"@.len() == 2 && "rs"@[0] == 'r' && "rs"@[1] == 's');
    assert("c"@.len() == 1 && "c"@[0] == 'c');
    assert("h"@.len() == 1 && "h"@[0] == 'h');
    assert("cpp"@.len() == 3 && "cpp"@[0] == 'c' && "cpp"@[1] == 'p' && "cpp"@[2] == 'p');
    assert("cc"@.len() == 2 && "cc"@[0] == 'c' && "cc"@[1] == 'c');
    assert("hpp"@.len() == 3 && "hpp"@[0] == 'h' && "hpp"@[1] == 'p' && "hpp"@[2] == 'p');
    assert("cxx"@.len() == 3 && "cxx"@[0] == 'c' && "cxx"@[1] == 'x' && "cxx"@[2] == 'x');
}

proof fn lemma_family_python(e: Seq<char>)
    ensures
        known(e, Lang::Python) ==> lang_of_extension(e) == Some(Lang::Python),
{
    reveal_strlit("rs");
    reveal_strlit("c");
    reveal_strlit("h");
    reveal_strlit("cpp");
    reveal_strlit("cc");
    reveal_strlit("hpp");
    reveal_strlit("cxx");
    reveal_strlit("py");
    reveal_strlit("pyi");
    assert("rs"@.len() == 2 && "rs"@[0] == 'r' && "rs"@[1] == 's');
    assert("c"@.len() == 1 && "c"@[0] == 'c');
    assert("h"@.len() == 1 && "h"@[0] == 'h');
    assert("cpp"@.len() == 3 && "cpp"@[0] == 'c' && "cpp"@[1] == 'p' && "cpp"@[2] == 'p');
    assert("cc"@.len() == 2 && "cc"@[0] == 'c' && "cc"@[1] == 'c');
    assert("hpp"@.len() == 3 && "hpp"@[0] == 'h' && "hpp"@[1] == 'p' && "hpp"@[2] == 'p');
    assert("cxx"@.len() == 3 && "cxx"@[0] == 'c' && "cxx"@[1] == 'x' && "cxx"@[2] == 'x');
    assert("py"@.len() == 2 && "py"@[0] == 'p' && "py"@[1] == 'y');
    assert("pyi"@.len() == 3 && "pyi"@[0] == 'p' && "pyi"@[1] == 'y' && "pyi"@[2] == 'i');
}

proof fn lemma_family_jsts(e: Seq<char>)
    ensures
        known(e, Lang::JsTs) ==> lang_of_extension(e) == Some(Lang::JsTs),
{
    reveal_strlit("rs");
    reveal_strlit("c");
    reveal_strlit("h");
    reveal_strlit("cpp");
    reveal_strlit("cc");
    reveal_strlit("hpp");
    reveal_strlit("cxx");
    reveal_strlit("py");
    reveal_strlit("pyi");
    reveal_strlit("js");
    reveal_strlit("jsx");
    reveal_strlit("ts");
    reveal_strlit("tsx");
    reveal_strlit("mjs");
    reveal_strlit("cjs");
    assert("rs"@.len() == 2 && "rs"@[0] == 'r' && "rs"@[1] == 's');
    assert("c"@.len() == 1 && "c"@[0] == 'c');
    assert("h"@.len() == 1 && "h"@[0] == 'h');
    assert("cpp"@.len() == 3 && "cpp"@[0] == 'c' && "cpp"@[1] == 'p' && "cpp"@[2] == 'p');
    assert("cc"@.len() == 2 && "cc"@[0] == 'c' && "cc"@[1] == 'c');
    assert("hpp"@.len() == 3 && "hpp"@[0] == 'h' && "hpp"@[1] == 'p' && "hpp"@[2] == 'p');
    assert("cxx"@.len() == 3 && "cxx"@[0] == 'c' && "cxx"@[1] == 'x' && "cxx"@[2] == 'x');
    assert("py"@.len() == 2 && "py"@[0] == 'p' && "py"@[1] == 'y');
    assert("pyi"@.len() == 3 && "pyi"@[0] == 'p' && "pyi"@[1] == 'y' && "pyi"@[2] == 'i');
    assert("js"@.len() == 2 && "js"@[0] == 'j' && "js"@[1] == 's');
    assert("jsx"@.len() == 3 && "jsx"@[0] == 'j' && "jsx"@[1] == 's' && "jsx"@[2] == 'x');
    assert("ts"@.len() == 2 && "ts"@[0] == 't' && "ts"@[1] == 's');
    assert("tsx"@.len() == 3 && "tsx"@[0] == 't' && "tsx"@[1] == 's' && "tsx"@[2] == 'x');
    assert("mjs"@.len() == 3 && "mjs"@[0] == 'm' && "mjs"@[1] == 'j' && "mjs"@[2] == 's');
    assert("cjs"@.len() == 3 && "cjs"@[0] == 'c' && "cjs"@[1] == 'j' && "cjs"@[2] == 's');
}

proof fn lemma_family_go(e: Seq<char>)
    ensures
        known(e, Lang::Go) ==> lang_of_extension(e) == Some(Lang::Go),
{
    reveal_strlit("rs");
    reveal_strlit("c");
    reveal_strlit("h");
    reveal_strlit("cpp");
    reveal_strlit("cc");
    reveal_strlit("hpp");
    reveal_strlit("cxx");
    reveal_strlit("py");
    reveal_strlit("pyi");
    reveal_strlit("js");
    reveal_strlit("jsx");
    reveal_strlit("ts");
    reveal_strlit("tsx");
    reveal_strlit("mjs");
    reveal_strlit("cjs");
    reveal_strlit("go");
    assert("rs"@.len() == 2 && "rs"@[0] == 'r' && "rs"@[1] == 's');
    assert("c"@.len() == 1 && "c"@[0] == 'c');
    assert("h"@.len() == 1 && "h"@[0] == 'h');
    assert("cpp"@.len() == 3 && "cpp"@[0] == 'c' && "cpp"@[1] == 'p' && "cpp"@[2] == 'p');
    assert("cc"@.len() == 2 && "cc"@[0] == 'c' && "cc"@[1] == 'c');
    assert("hpp"@.len() == 3 && "hpp"@[0] == 'h' && "hpp"@[1] == 'p' && "hpp"@[2] == 'p');
    assert("cxx"@.len() == 3 && "cxx"@[0] == 'c' && "cxx"@[1] == 'x' && "cxx"@[2] == 'x');
    assert("py"@.len() == 2 && "py"@[0] == 'p' && "py"@[1] == 'y');
    assert("pyi"@.len() == 3 && "pyi"@[0] == 'p' && "pyi"@[1] == 'y' && "pyi"@[2] == 'i');
    assert("js"@.len() == 2 && "js"@[0] == 'j' && "js"@[1] == 's');
    assert("jsx"@.len() == 3 && "jsx"@[0] == 'j' && "jsx"@[1] == 's' && "jsx"@[2] == 'x');
    assert("ts"@.len() == 2 && "ts"@[0] == 't' && "ts"@[1] == 's');
    assert("tsx"@.len() == 3 && "tsx"@[0] == 't' && "tsx"@[1] == 's' && "tsx"@[2] == 'x');
    assert("mjs"@.len() == 3 && "mjs"@[0] == 'm' && "mjs"@[1] == 'j' && "mjs"@[2] == 's');
    assert("cjs"@.len() == 3 && "cjs"@[0] == 'c' && "cjs"@[1] == 'j' && "cjs"@[2] == 's');
    assert("go"@.len() == 2 && "go"@[0] == 'g' && "go"@[1] == 'o');
}

proof fn lemma_family_jvm(e: Seq<char>)
    ensures
        known(e, Lang::Jvm) ==> lang_of_extension(e) == Some(Lang::Jvm),
{
    reveal_strlit("rs");
    reveal_strlit("c");
    reveal_strlit("h");
    reveal_strlit("cpp");
    reveal_strlit("cc");
    reveal_strlit("hpp");
    reveal_strlit("cxx");
    reveal_strlit("py");
    reveal_strlit("pyi");
    reveal_strlit("js");
    reveal_strlit("jsx");
    reveal_strlit("ts");
    reveal_strlit("tsx");
    reveal_strlit("mjs");
    reveal_strlit("cjs");
    reveal_strlit("go");
    reveal_strlit("java");
    reveal_strlit("kt");
    reveal_strlit("kts");
    reveal_strlit("cs");
    reveal_strlit("scala");
    assert("rs"@.len() == 2 && "rs"@[0] == 'r' && "rs"@[1] == 's');
    assert("c"@.len() == 1 && "c"@[0] == 'c');
    assert("h"@.len() == 1 && "h"@[0] == 'h');
    assert("cpp"@.len() == 3 && "cpp"@[0] == 'c' && "cpp"@[1] == 'p' && "cpp"@[2] == 'p');
    assert("cc"@.len() == 2 && "cc"@[0] == 'c' && "cc"@[1] == 'c');
    assert("hpp"@.len() == 3 && "hpp"@[0] == 'h' && "hpp"@[1] == 'p' && "hpp"@[2] == 'p');
    assert("cxx"@.len() == 3 && "cxx"@[0] == 'c' && "cxx"@[1] == 'x' && "cxx"@[2] == 'x');
    assert("py"@.len() == 2 && "py"@[0] == 'p' && "py"@[1] == 'y');
    assert("pyi"@.len() == 3 && "pyi"@[0] == 'p' && "pyi"@[1] == 'y' && "pyi"@[2] == 'i');
    assert("js"@.len() == 2 && "js"@[0] == 'j' && "js"@[1] == 's');
    assert("jsx"@.len() == 3 && "jsx"@[0] == 'j' && "jsx"@[1] == 's' && "jsx"@[2] == 'x');
    assert("ts"@.len() == 2 && "ts"@[0] == 't' && "ts"@[1] == 's');
    assert("tsx"@.len() == 3 && "tsx"@[0] == 't' && "tsx"@[1] == 's' && "tsx"@[2] == 'x');
    assert("mjs"@.len() == 3 && "mjs"@[0] == 'm' && "mjs"@[1] == 'j' && "mjs"@[2] == 's');
    assert("cjs"@.len() == 3 && "cjs"@[0] == 'c' && "cjs"@[1] == 'j' && "cjs"@[2] == 's');
    assert("go"@.len() == 2 && "go"@[0] == 'g' && "go"@[1] == 'o');
    assert("java"@.len() == 4 && "java"@[0] == 'j' && "java"@[1] == 'a' && "java"@[2] == 'v'
        && "java"@[3] == 'a');
    assert("kt"@.len() == 2 && "kt"@[0] == 'k' && "kt"@[1] == 't');
    assert("kts"@.len() == 3 && "kts"@[0] == 'k' && "kts"@[1] == 't' && "kts"@[2] == 's');
    assert("cs"@.len() == 2 && "cs"@[0] == 'c' && "cs"@[1] == 's');
    assert("scala"@.len() == 5 && "scala"@[0] == 's' && "scala"@[1] == 'c' && "scala"@[2] == 'a'
        && "scala"@[3] == 'l' && "scala"@[4] == 'a');
}

proof fn lemma_family_markup(e: Seq<char>)
    ensures
        known(e, Lang::Markup) ==> lang_of_extension(e) == Some(Lang::Markup),
{
    reveal_strlit("rs");
    reveal_strlit("c");
    reveal_strlit("h");
    reveal_strlit("cpp");
    reveal_strlit("cc");
    reveal_strlit("hpp");
    reveal_strlit("cxx");
    reveal_strlit("py");
    reveal_strlit("pyi");
    reveal_strlit("js");
    reveal_strlit("jsx");
    reveal_strlit("ts");
    reveal_strlit("tsx");
    reveal_strlit("mjs");
    reveal_strlit("cjs");
    reveal_strlit("go");
    reveal_strlit("java");
    reveal_strlit("kt");
    reveal_strlit("kts");
    reveal_strlit("cs");
    reveal_strlit("scala");
    reveal_strlit("html");
    reveal_strlit("htm");
    reveal_strlit("css");
    reveal_strlit("scss");
    reveal_strlit("sass");
    reveal_strlit("svelte");
    reveal_strlit("vue");
    assert("rs"@.len() == 2 && "rs"@[0] == 'r' && "rs"@[1] == 's');
    assert("c"@.len() == 1 && "c"@[0] == 'c');
    assert("h"@.len() == 1 && "h"@[0] == 'h');
    assert("cpp"@.len() == 3 && "cpp"@[0] == 'c' && "cpp"@[1] == 'p' && "cpp"@[2] == 'p');
    assert("cc"@.len() == 2 && "cc"@[0] == 'c' && "cc"@[1] == 'c');
    assert("hpp"@.len() == 3 && "hpp"@[0] == 'h' && "hpp"@[1] == 'p' && "hpp"@[2] == 'p');
    assert("cxx"@.len() == 3 && "cxx"@[0] == 'c' && "cxx"@[1] == 'x' && "cxx"@[2] == 'x');
    assert("py"@.len() == 2 && "py"@[0] == 'p' && "py"@[1] == 'y');
    assert("pyi"@.len() == 3 && "pyi"@[0] == 'p' && "pyi"@[1] == 'y' && "pyi"@[2] == 'i');
    assert("js"@.len() == 2 && "js"@[0] == 'j' && "js"@[1] == 's');
    assert("jsx"@.len() == 3 && "jsx"@[0] == 'j' && "jsx"@[1] == 's' && "jsx"@[2] == 'x');
    assert("ts"@.len() == 2 && "ts"@[0] == 't' && "ts"@[1] == 's');
    assert("tsx"@.len() == 3 && "tsx"@[0] == 't' && "tsx"@[1] == 's' && "tsx"@[2] == 'x');
    assert("mjs"@.len() == 3 && "mjs"@[0] == 'm' && "mjs"@[1] == 'j' && "mjs"@[2] == 's');
    assert("cjs"@.len() == 3 && "cjs"@[0] == 'c' && "cjs"@[1] == 'j' && "cjs"@[2] == 's');
    assert("go"@.len() == 2 && "go"@[0] == 'g' && "go"@[1] == 'o');
    assert("java"@.len() == 4 && "java"@[0] == 'j' && "java"@[1] == 'a' && "java"@[2] == 'v'
        && "java"@[3] == 'a');
    assert("kt"@.len() == 2 && "kt"@[0] == 'k' && "kt"@[1] == 't');
    assert("kts"@.len() == 3 && "kts"@[0] == 'k' && "kts"@[1] == 't' && "kts"@[2] == 's');
    assert("cs"@.len() == 2 && "cs"@[0] == 'c' && "cs"@[1] == 's');
    assert("scala"@.len() == 5 && "scala"@[0] == 's' && "scala"@[1] == 'c' && "scala"@[2] == 'a'
        && "scala"@[3] == 'l' && "scala"@[4] == 'a');
    assert("html"@.len() == 4 && "html"@[0] == 'h' && "html"@[1] == 't' && "html"@[2] == 'm'
        && "html"@[3] == 'l');
    assert("htm"@.len() == 3 && "htm"@[0] == 'h' && "htm"@[1] == 't' && "htm"@[2] == 'm');
    assert("css"@.len() == 3 && "css"@[0] == 'c' && "css"@[1] == 's' && "css"@[2] == 's');
    assert("scss"@.len() == 4 && "scss"@[0] == 's' && "scss"@[1] == 'c' && "scss"@[2] == 's'
        && "scss"@[3] == 's');
    assert("sass"@.len() == 4 && "sass"@[0] == 's' && "sass"@[1] == 'a' && "sass"@[2] == 's'
        && "sass"@[3] == 's');
    assert("svelte"@.len() == 6 && "svelte"@[0] == 's' && "svelte"@[1] == 'v' && "svelte"@[2] == 'e'
        && "svelte"@[3] == 'l' && "svelte"@[4] == 't' && "svelte"@[5] == 'e');
    assert("vue"@.len() == 3 && "vue"@[0] == 'v' && "vue"@[1] == 'u' && "vue"@[2] == 'e');
}

proof fn lemma_family_docs(e: Seq<char>)
    ensures
        known(e, Lang::Docs) ==> lang_of_extension(e) == Some(Lang::Docs),
{
    reveal_strlit("rs");
    reveal_strlit("c");
    reveal_strlit("h");
    reveal_strlit("cpp");
    reveal_strlit("cc");
    reveal_strlit("hpp");
    reveal_strlit("cxx");
    reveal_strlit("py");
    reveal_strlit("pyi");
    reveal_strlit("js");
    reveal_strlit("jsx");
    reveal_strlit("ts");
    reveal_strlit("tsx");
    reveal_strlit("mjs");
    reveal_strlit("cjs");
    reveal_strlit("go");
    reveal_strlit("java");
    reveal_strlit("kt");
    reveal_strlit("kts");
    reveal_strlit("cs");
    reveal_strlit("scala");
    reveal_strlit("html");
    reveal_strlit("htm");
    reveal_strlit("css");
    reveal_strlit("scss");
    reveal_strlit("sass");
    reveal_strlit("svelte");
    reveal_strlit("vue");
    reveal_strlit("md");
    reveal_strlit("rst");
    reveal_strlit("txt");
    reveal_strlit("adoc");
    assert("rs"@.len() == 2 && "rs"@[0] == 'r' && "rs"@[1] == 's');
    assert("c"@.len() == 1 && "c"@[0] == 'c');
    assert("h"@.len() == 1 && "h"@[0] == 'h');
    assert("cpp"@.len() == 3 && "cpp"@[0] == 'c' && "cpp"@[1] == 'p' && "cpp"@[2] == 'p');
    assert("cc"@.len() == 2 && "cc"@[0] == 'c' && "cc"@[1] == 'c');
    assert("hpp"@.len() == 3 && "hpp"@[0] == 'h' && "hpp"@[1] == 'p' && "hpp"@[2] == 'p');
    assert("cxx"@.len() == 3 && "cxx"@[0] == 'c' && "cxx"@[1] == 'x' && "cxx"@[2] == 'x');
    assert("py"@.len() == 2 && "py"@[0] == 'p' && "py"@[1] == 'y');
    assert("pyi"@.len() == 3 && "pyi"@[0] == 'p' && "pyi"@[1] == 'y' && "pyi"@[2] == 'i');
    assert("js"@.len() == 2 && "js"@[0] == 'j' && "js"@[1] == 's');
    assert("jsx"@.len() == 3 && "jsx"@[0] == 'j' && "jsx"@[1] == 's' && "jsx"@[2] == 'x');
    assert("ts"@.len() == 2 && "ts"@[0] == 't' && "ts"@[1] == 's');
    assert("tsx"@.len() == 3 && "tsx"@[0] == 't' && "tsx"@[1] == 's' && "tsx"@[2] == 'x');
    assert("mjs"@.len() == 3 && "mjs"@[0] == 'm' && "mjs"@[1] == 'j' && "mjs"@[2] == 's');
    assert("cjs"@.len() == 3 && "cjs"@[0] == 'c' && "cjs"@[1] == 'j' && "cjs"@[2] == 's');
    assert("go"@.len() == 2 && "go"@[0] == 'g' && "go"@[1] == 'o');
    assert("java"@.len() == 4 && "java"@[0] == 'j' && "java"@[1] == 'a' && "java"@[2] == 'v'
        && "java"@[3] == 'a');
    assert("kt"@.len() == 2 && "kt"@[0] == 'k' && "kt"@[1] == 't');
    assert("kts"@.len() == 3 && "kts"@[0] == 'k' && "kts"@[1] == 't' && "kts"@[2] == 's');
    assert("cs"@.len() == 2 && "cs"@[0] == 'c' && "cs"@[1] == 's');
    assert("scala"@.len() == 5 && "scala"@[0] == 's' && "scala"@[1] == 'c' && "scala"@[2] == 'a'
        && "scala"@[3] == 'l' && "scala"@[4] == 'a');
    assert("html"@.len() == 4 && "html"@[0] == 'h' && "html"@[1] == 't' && "html"@[2] == 'm'
        && "html"@[3] == 'l');
    assert("htm"@.len() == 3 && "htm"@[0] == 'h' && "htm"@[1] == 't' && "htm"@[2] == 'm');
    assert("css"@.len() == 3 && "css"@[0] == 'c' && "css"@[1] == 's' && "css"@[2] == 's');
    assert("scss"@.len() == 4 && "scss"@[0] == 's' && "scss"@[1] == 'c' && "scss"@[2] == 's'
        && "scss"@[3] == 's');
    assert("sass"@.len() == 4 && "sass"@[0] == 's' && "sass"@[1] == 'a' && "sass"@[2] == 's'
        && "sass"@[3] == 's');
    assert("svelte"@.len() == 6 && "svelte"@[0] == 's' && "svelte"@[1] == 'v' && "svelte"@[2] == 'e'
        && "svelte"@[3] == 'l' && "svelte"@[4] == 't' && "svelte"@[5] == 'e');
    assert("vue"@.len() == 3 && "vue"@[0] == 'v' && "vue"@[1] == 'u' && "vue"@[2] == 'e');
    assert("md"@.len() == 2 && "md"@[0] == 'm' && "md"@[1] == 'd');
    assert("rst"@.len() == 3 && "rst"@[0] == 'r' && "rst"@[1] == 's' && "rst"@[2] == 't');
    assert("txt"@.len() == 3 && "txt"@[0] == 't' && "txt"@[1] == 'x' && "txt"@[2] == 't');
    assert("adoc"@.len() == 4 && "adoc"@[0] == 'a' && "adoc"@[1] == 'd' && "adoc"@[2] == 'o'
        && "adoc"@[3] == 'c');
}

proof fn lemma_family_config(e: Seq<char>)
    ensures
        known(e, Lang::Config) ==> lang_of_extension(e) == Some(Lang::Config),
{
    reveal_strlit("rs");
    reveal_strlit("c");
    reveal_strlit("h");
    reveal_strlit("cpp");
    reveal_strlit("cc");
    reveal_strlit("hpp");
    reveal_strlit("cxx");
    reveal_strlit("py");
    reveal_strlit("pyi");
    reveal_strlit("js");
    reveal_strlit("jsx");
    reveal_strlit("ts");
    reveal_strlit("tsx");
    reveal_strlit("mjs");
    reveal_strlit("cjs");
    reveal_strlit("go");
    reveal_strlit("java");
    reveal_strlit("kt");
    reveal_strlit("kts");
    reveal_strlit("cs");
    reveal_strlit("scala");
    reveal_strlit("html");
    reveal_strlit("htm");
    reveal_strlit("css");
    reveal_strlit("scss");
    reveal_strlit("sass");
    reveal_strlit("svelte");
    reveal_strlit("vue");
    reveal_strlit("md");
    reveal_strlit("rst");
    reveal_strlit("txt");
    reveal_strlit("adoc");
    reveal_strlit("yml");
    reveal_strlit("yaml");
    reveal_strlit("toml");
    reveal_strlit("json");
    reveal_strlit("ini");
    reveal_strlit("cfg");
    reveal_strlit("lock");
    assert("rs"@.len() == 2 && "rs"@[0] == 'r' && "rs"@[1] == 's');
    assert("c"@.len() == 1 && "c"@[0] == 'c');
    assert("h"@.len() == 1 && "h"@[0] == 'h');
    assert("cpp"@.len() == 3 && "cpp"@[0] == 'c' && "cpp"@[1] == 'p' && "cpp"@[2] == 'p');
    assert("cc"@.len() == 2 && "cc"@[0] == 'c' && "cc"@[1] == 'c');
    assert("hpp"@.len() == 3 && "hpp"@[0] == 'h' && "hpp"@[1] == 'p' && "hpp"@[2] == 'p');
    assert("cxx"@.len() == 3 && "cxx"@[0] == 'c' && "cxx"@[1] == 'x' && "cxx"@[2] == 'x');
    assert("py"@.len() == 2 && "py"@[0] == 'p' && "py"@[1] == 'y');
    assert("pyi"@.len() == 3 && "pyi"@[0] == 'p' && "pyi"@[1] == 'y' && "pyi"@[2] == 'i');
    assert("js"@.len() == 2 && "js"@[0] == 'j' && "js"@[1] == 's');
    assert("jsx"@.len() == 3 && "jsx"@[0] == 'j' && "jsx"@[1] == 's' && "jsx"@[2] == 'x');
    assert("ts"@.len() == 2 && "ts"@[0] == 't' && "ts"@[1] == 's');
    assert("tsx"@.len() == 3 && "tsx"@[0] == 't' && "tsx"@[1] == 's' && "tsx"@[2] == 'x');
    assert("mjs"@.len() == 3 && "mjs"@[0] == 'm' && "mjs"@[1] == 'j' && "mjs"@[2] == 's');
    assert("cjs"@.len() == 3 && "cjs"@[0] == 'c' && "cjs"@[1] == 'j' && "cjs"@[2] == 's');
    assert("go"@.len() == 2 && "go"@[0] == 'g' && "go"@[1] == 'o');
    assert("java"@.len() == 4 && "java"@[0] == 'j' && "java"@[1] == 'a' && "java"@[2] == 'v'
        && "java"@[3] == 'a');
    assert("kt"@.len() == 2 && "kt"@[0] == 'k' && "kt"@[1] == 't');
    assert("kts"@.len() == 3 && "kts"@[0] == 'k' && "kts"@[1] == 't' && "kts"@[2] == 's');
    assert("cs"@.len() == 2 && "cs"@[0] == 'c' && "cs"@[1] == 's');
    assert("scala"@.len() == 5 && "scala"@[0] == 's' && "scala"@[1] == 'c' && "scala"@[2] == 'a'
        && "scala"@[3] == 'l' && "scala"@[4] == 'a');
    assert("html"@.len() == 4 && "html"@[0] == 'h' && "html"@[1] == 't' && "html"@[2] == 'm'
        && "html"@[3] == 'l');
    assert("htm"@.len() == 3 && "htm"@[0] == 'h' && "htm"@[1] == 't' && "htm"@[2] == 'm');
    assert("css"@.len() == 3 && "css"@[0] == 'c' && "css"@[1] == 's' && "css"@[2] == 's');
    assert("scss"@.len() == 4 && "scss"@[0] == 's' && "scss"@[1] == 'c' && "scss"@[2] == 's'
        && "scss"@[3] == 's');
    assert("sass"@.len() == 4 && "sass"@[0] == 's' && "sass"@[1] == 'a' && "sass"@[2] == 's'
        && "sass"@[3] == 's');
    assert("svelte"@.len() == 6 && "svelte"@[0] == 's' && "svelte"@[1] == 'v' && "svelte"@[2] == 'e'
        && "svelte"@[3] == 'l' && "svelte"@[4] == 't' && "svelte"@[5] == 'e');
    assert("vue"@.len() == 3 && "vue"@[0] == 'v' && "vue"@[1] == 'u' && "vue"@[2] == 'e');
    assert("md"@.len() == 2 && "md"@[0] == 'm' && "md"@[1] == 'd');
    assert("rst"@.len() == 3 && "rst"@[0] == 'r' && "rst"@[1] == 's' && "rst"@[2] == 't');
    assert("txt"@.len() == 3 && "txt"@[0] == 't' && "txt"@[1] == 'x' && "txt"@[2] == 't');
    assert("adoc"@.len() == 4 && "adoc"@[0] == 'a' && "adoc"@[1] == 'd' && "adoc"@[2] == 'o'
        && "adoc"@[3] == 'c');
    assert("yml"@.len() == 3 && "yml"@[0] == 'y' && "yml"@[1] == 'm' && "yml"@[2] == 'l');
    assert("yaml"@.len() == 4 && "yaml"@[0] == 'y' && "yaml"@[1] == 'a' && "yaml"@[2] == 'm'
        && "yaml"@[3] == 'l');
    assert("toml"@.len() == 4 && "toml"@[0] == 't' && "toml"@[1] == 'o' && "toml"@[2] == 'm'
        && "toml"@[3] == 'l');
    assert("json"@.len() == 4 && "json"@[0] == 'j' && "json"@[1] == 's' && "json"@[2] == 'o'
        && "json"@[3] == 'n');
    assert("ini"@.len() == 3 && "ini"@[0] == 'i' && "ini"@[1] == 'n' && "ini"@[2] == 'i');
    assert("cfg"@.len() == 3 && "cfg"@[0] == 'c' && "cfg"@[1] == 'f' && "cfg"@[2] == 'g');
    assert("lock"@.len() == 4 && "lock"@[0] == 'l' && "lock"@[1] == 'o' && "lock"@[2] == 'c'
        && "lock"@[3] == 'k');
}

proof fn lemma_family_shell(e: Seq<char>)
    ensures
        known(e, Lang::Shell) ==> lang_of_extension(e) == Some(Lang::Shell),
{
    reveal_strlit("rs");
    reveal_strlit("c");
    reveal_strlit("h");
    reveal_strlit("cpp");
    reveal_strlit("cc");
    reveal_strlit("hpp");
    reveal_strlit("cxx");
    reveal_strlit("py");
    reveal_strlit("pyi");
    reveal_strlit("js");
    reveal_strlit("jsx");
    reveal_strlit("ts");
    reveal_strlit("tsx");
    reveal_strlit("mjs");
    reveal_strlit("cjs");
    reveal_strlit("go");
    reveal_strlit("java");
    reveal_strlit("kt");
    reveal_strlit("kts");
    reveal_strlit("cs");
    reveal_strlit("scala");
    reveal_strlit("html");
    reveal_strlit("htm");
    reveal_strlit("css");
    reveal_strlit("scss");
    reveal_strlit("sass");
    reveal_strlit("svelte");
    reveal_strlit("vue");
    reveal_strlit("md");
    reveal_strlit("rst");
    reveal_strlit("txt");
    reveal_strlit("adoc");
    reveal_strlit("yml");
    reveal_strlit("yaml");
    reveal_strlit("toml");
    reveal_strlit("json");
    reveal_strlit("ini");
    reveal_strlit("cfg");
    reveal_strlit("lock");
    reveal_strlit("sh");
    reveal_strlit("bash");
    reveal_strlit("zsh");
    reveal_strlit("fish");
    reveal_strlit("ps1");
    reveal_strlit("bat");
    assert("rs"@.len() == 2 && "rs"@[0] == 'r' && "rs"@[1] == 's');
    assert("c"@.len() == 1 && "c"@[0] == 'c');
    assert("h"@.len() == 1 && "h"@[0] == 'h');
    assert("cpp"@.len() == 3 && "cpp"@[0] == 'c' && "cpp"@[1] == 'p' && "cpp"@[2] == 'p');
    assert("cc"@.len() == 2 && "cc"@[0] == 'c' && "cc"@[1] == 'c');
    assert("hpp"@.len() == 3 && "hpp"@[0] == 'h' && "hpp"@[1] == 'p' && "hpp"@[2] == 'p');
    assert("cxx"@.len() == 3 && "cxx"@[0] == 'c' && "cxx"@[1] == 'x' && "cxx"@[2] == 'x');
    assert("py"@.len() == 2 && "py"@[0] == 'p' && "py"@[1] == 'y');
    assert("pyi"@.len() == 3 && "pyi"@[0] == 'p' && "pyi"@[1] == 'y' && "pyi"@[2] == 'i');
    assert("js"@.len() == 2 && "js"@[0] == 'j' && "js"@[1] == 's');
    assert("jsx"@.len() == 3 && "jsx"@[0] == 'j' && "jsx"@[1] == 's' && "jsx"@[2] == 'x');
    assert("ts"@.len() == 2 && "ts"@[0] == 't' && "ts"@[1] == 's');
    assert("tsx"@.len() == 3 && "tsx"@[0] == 't' && "tsx"@[1] == 's' && "tsx"@[2] == 'x');
    assert("mjs"@.len() == 3 && "mjs"@[0] == 'm' && "mjs"@[1] == 'j' && "mjs"@[2] == 's');
    assert("cjs"@.len() == 3 && "cjs"@[0] == 'c' && "cjs"@[1] == 'j' && "cjs"@[2] == 's');
    assert("go"@.len() == 2 && "go"@[0] == 'g' && "go"@[1] == 'o');
    assert("java"@.len() == 4 && "java"@[0] == 'j' && "java"@[1] == 'a' && "java"@[2] == 'v'
        && "java"@[3] == 'a');
    assert("kt"@.len() == 2 && "kt"@[0] == 'k' && "kt"@[1] == 't');
    assert("kts"@.len() == 3 && "kts"@[0] == 'k' && "kts"@[1] == 't' && "kts"@[2] == 's');
    assert("cs"@.len() == 2 && "cs"@[0] == 'c' && "cs"@[1] == 's');
    assert("scala"@.len() == 5 && "scala"@[0] == 's' && "scala"@[1] == 'c' && "scala"@[2] == 'a'
        && "scala"@[3] == 'l' && "scala"@[4] == 'a');
    assert("html"@.len() == 4 && "html"@[0] == 'h' && "html"@[1] == 't' && "html"@[2] == 'm'
        && "html"@[3] == 'l');
    assert("htm"@.len() == 3 && "htm"@[0] == 'h' && "htm"@[1] == 't' && "htm"@[2] == 'm');
    assert("css"@.len() == 3 && "css"@[0] == 'c' && "css"@[1] == 's' && "css"@[2] == 's');
    assert("scss"@.len() == 4 && "scss"@[0] == 's' && "scss"@[1] == 'c' && "scss"@[2] == 's'
        && "scss"@[3] == 's');
    assert("sass"@.len() == 4 && "sass"@[0] == 's' && "sass"@[1] == 'a' && "sass"@[2] == 's'
        && "sass"@[3] == 's');
    assert("svelte"@.len() == 6 && "svelte"@[0] == 's' && "svelte"@[1] == 'v' && "svelte"@[2] == 'e'
        && "svelte"@[3] == 'l' && "svelte"@[4] == 't' && "svelte"@[5] == 'e');
    assert("vue"@.len() == 3 && "vue"@[0] == 'v' && "vue"@[1] == 'u' && "vue"@[2] == 'e');
    assert("md"@.len() == 2 && "md"@[0] == 'm' && "md"@[1] == 'd');
    assert("rst"@.len() == 3 && "rst"@[0] == 'r' && "rst"@[1] == 's' && "rst"@[2] == 't');
    assert("txt"@.len() == 3 && "txt"@[0] == 't' && "txt"@[1] == 'x' && "txt"@[2] == 't');
    assert("adoc"@.len() == 4 && "adoc"@[0] == 'a' && "adoc"@[1] == 'd' && "adoc"@[2] == 'o'
        && "adoc"@[3] == 'c');
    assert("yml"@.len() == 3 && "yml"@[0] == 'y' && "yml"@[1] == 'm' && "yml"@[2] == 'l');
    assert("yaml"@.len() == 4 && "yaml"@[0] == 'y' && "yaml"@[1] == 'a' && "yaml"@[2] == 'm'
        && "yaml"@[3] == 'l');
    assert("toml"@.len() == 4 && "toml"@[0] == 't' && "toml"@[1] == 'o' && "toml"@[2] == 'm'
        && "toml"@[3] == 'l');
    assert("json"@.len() == 4 && "json"@[0] == 'j' && "json"@[1] == 's' && "json"@[2] == 'o'
        && "json"@[3] == 'n');
    assert("ini"@.len() == 3 && "ini"@[0] == 'i' && "ini"@[1] == 'n' && "ini"@[2] == 'i');
    assert("cfg"@.len() == 3 && "cfg"@[0] == 'c' && "cfg"@[1] == 'f' && "cfg"@[2] == 'g');
    assert("lock"@.len() == 4 && "lock"@[0] == 'l' && "lock"@[1] == 'o' && "lock"@[2] == 'c'
        && "lock"@[3] == 'k');
    assert("sh"@.len() == 2 && "sh"@[0] == 's' && "sh"@[1] == 'h');
    assert("bash"@.len() == 4 && "bash"@[0] == 'b' && "bash"@[1] == 'a' && "bash"@[2] == 's'
        && "bash"@[3] == 'h');
    assert("zsh"@.len() == 3 && "zsh"@[0] == 'z' && "zsh"@[1] == 's' && "zsh"@[2] == 'h');
    assert("fish"@.len() == 4 && "fish"@[0] == 'f' && "fish"@[1] == 'i' && "fish"@[2] == 's'
        && "fish"@[3] == 'h');
    assert("ps1"@.len() == 3 && "ps1"@[0] == 'p' && "ps1"@[1] == 's' && "ps1"@[2] == '1');
    assert("bat"@.len() == 3 && "bat"@[0] == 'b' && "bat"@[1] == 'a' && "bat"@[2] == 't');
}

/// The family of a file by its extension, in whatever case.
pub proof fn lemma_family_of_file(path: Seq<char>, e: Seq<char>)
    requires
        has_extension(path, e),
    ensures
        e == "rs"@ || e == "c"@ || e == "h"@ || e == "cpp"@ || e == "cc"@ || e == "hpp"@
            || e == "cxx"@ ==> lang_of(path) == Lang::Systems,
        e == "py"@ || e == "pyi"@ ==> lang_of(path) == Lang::Python,
        e == "js"@ || e == "jsx"@ || e == "ts"@ || e == "tsx"@ || e == "mjs"@ || e == "cjs"@
            ==> lang_of(path) == Lang::JsTs,
        e == "go"@ ==> lang_of(path) == Lang::Go,
        e == "java"@ || e == "kt"@ || e == "kts"@ || e == "cs"@ || e == "scala"@
            ==> lang_of(path) == Lang::Jvm,
        e == "html"@ || e == "htm"@ || e == "css"@ || e == "scss"@ || e == "sass"@ || e == "svelte"@
            || e == "vue"@ ==> lang_of(path) == Lang::Markup,
        e == "md"@ || e == "rst"@ || e == "txt"@ || e == "adoc"@ ==> lang_of(path) == Lang::Docs,
        e == "yml"@ || e == "yaml"@ || e == "toml"@ || e == "json"@ || e == "ini"@ || e == "cfg"@
            || e == "lock"@ ==> lang_of(path) == Lang::Config,
        e == "sh"@ || e == "bash"@ || e == "zsh"@ || e == "fish"@ || e == "ps1"@ || e == "bat"@
            ==> lang_of(path) == Lang::Shell,
{
    let (names, stem, x) = choose|names: Seq<Seq<char>>, stem: Seq<char>, x: Seq<char>| #[trigger]
        ends_in(path, names, stem, x) && small_letters(x) == e;
    lemma_extension(names, stem, x);
    lemma_small_letters(x);
    lemma_family_systems(e);
    lemma_family_python(e);
    lemma_family_jsts(e);
    lemma_family_go(e);
    lemma_family_jvm(e);
    lemma_family_markup(e);
    lemma_family_docs(e);
    lemma_family_config(e);
    lemma_family_shell(e);
}

/// A file with an extension that no family has is of none.
pub proof fn lemma_family_unknown(path: Seq<char>, e: Seq<char>)
    requires
        has_extension(path, e),
        e != "rs"@ && e != "c"@ && e != "h"@ && e != "cpp"@,
        e != "cc"@ && e != "hpp"@ && e != "cxx"@,
        e != "py"@ && e != "pyi"@,
        e != "js"@ && e != "jsx"@ && e != "ts"@ && e != "tsx"@,
        e != "mjs"@ && e != "cjs"@,
        e != "go"@,
        e != "java"@ && e != "kt"@ && e != "kts"@ && e != "cs"@,
        e != "scala"@,
        e != "html"@ && e != "htm"@ && e != "css"@ && e != "scss"@,
        e != "sass"@ && e != "svelte"@ && e != "vue"@,
        e != "md"@ && e != "rst"@ && e != "txt"@ && e != "adoc"@,
        e != "yml"@ && e != "yaml"@ && e != "toml"@ && e != "json"@,
        e != "ini"@ && e != "cfg"@ && e != "lock"@,
        e != "sh"@ && e != "bash"@ && e != "zsh"@ && e != "fish"@,
        e != "ps1"@ && e != "bat"@,
    ensures
        lang_of(path) == Lang::Other,
{
    let (names, stem, x) = choose|names: Seq<Seq<char>>, stem: Seq<char>, x: Seq<char>| #[trigger]
        ends_in(path, names, stem, x) && small_letters(x) == e;
    lemma_extension(names, stem, x);
    lemma_small_letters(x);
    lemma_path_of_names(names);
    let name = names.last();
    lemma_small_letters(name);
    let dot = stem.len() as int;
    assert(name[dot] == '.');
    assert(lowered(name)[dot] == '.');
    reveal_strlit("makefile");
    reveal_strlit("dockerfile");
    reveal_strlit("justfile");
    assert(without("makefile"@, '.')) by {
        reveal_strlit("makefile");
    }
    assert(without("dockerfile"@, '.')) by {
        reveal_strlit("dockerfile");
    }
    assert(without("justfile"@, '.')) by {
        reveal_strlit("justfile");
    }
}

/// A file without an extension is a script if it is a build file by its name, in whatever
/// case, and of no family else.
pub proof fn lemma_family_by_name(names: Seq<Seq<char>>)
    requires
        plain_names(names),
        without(names.last(), '.'),
    ensures
        ({
            let name = small_letters(names.last());
            lang_of(joined(names, '/')) == if name == "makefile"@ || name == "dockerfile"@ || name
                == "justfile"@ {
                Lang::Shell
            } else {
                Lang::Other
            }
        }),
{
    lemma_no_extension(names);
    lemma_path_of_names(names);
    lemma_small_letters(names.last());
    let none = Seq::<char>::empty();
    reveal_strlit("rs");
    reveal_strlit("c");
    reveal_strlit("h");
    reveal_strlit("cpp");
    reveal_strlit("cc");
    reveal_strlit("hpp");
    reveal_strlit("cxx");
    reveal_strlit("py");
    reveal_strlit("pyi");
    reveal_strlit("js");
    reveal_strlit("jsx");
    reveal_strlit("ts");
    reveal_strlit("tsx");
    reveal_strlit("mjs");
    reveal_strlit("cjs");
    reveal_strlit("go");
    reveal_strlit("java");
    reveal_strlit("kt");
    reveal_strlit("kts");
    reveal_strlit("cs");
    reveal_strlit("scala");
    reveal_strlit("html");
    reveal_strlit("htm");
    reveal_strlit("css");
    reveal_strlit("scss");
    reveal_strlit("sass");
    reveal_strlit("svelte");
    reveal_strlit("vue");
    reveal_strlit("md");
    reveal_strlit("rst");
    reveal_strlit("txt");
    reveal_strlit("adoc");
    reveal_strlit("yml");
    reveal_strlit("yaml");
    reveal_strlit("toml");
    reveal_strlit("json");
    reveal_strlit("ini");
    reveal_strlit("cfg");
    reveal_strlit("lock");
    reveal_strlit("sh");
    reveal_strlit("bash");
    reveal_strlit("zsh");
    reveal_strlit("fish");
    reveal_strlit("ps1");
    reveal_strlit("bat");
    assert("rs"@.len() > 0 && "c"@.len() > 0 && "h"@.len() > 0 && "cpp"@.len() > 0
        && "cc"@.len() > 0 && "hpp"@.len() > 0 && "cxx"@.len() > 0 && "py"@.len() > 0
        && "pyi"@.len() > 0 && "js"@.len() > 0 && "jsx"@.len() > 0 && "ts"@.len() > 0
        && "tsx"@.len() > 0 && "mjs"@.len() > 0 && "cjs"@.len() > 0 && "go"@.len() > 0
        && "java"@.len() > 0 && "kt"@.len() > 0 && "kts"@.len() > 0 && "cs"@.len() > 0
        && "scala"@.len() > 0 && "html"@.len() > 0 && "htm"@.len() > 0 && "css"@.len() > 0
        && "scss"@.len() > 0 && "sass"@.len() > 0 && "svelte"@.len() > 0 && "vue"@.len() > 0
        && "md"@.len() > 0 && "rst"@.len() > 0 && "txt"@.len() > 0 && "adoc"@.len() > 0
        && "yml"@.len() > 0 && "yaml"@.len() > 0 && "toml"@.len() > 0 && "json"@.len() > 0
        && "ini"@.len() > 0 && "cfg"@.len() > 0 && "lock"@.len() > 0 && "sh"@.len() > 0
        && "bash"@.len() > 0 && "zsh"@.len() > 0 && "fish"@.len() > 0 && "ps1"@.len() > 0
        && "bat"@.len() > 0);
    assert(lang_of_extension(none) is None);
}

/// The names of the keys, from C up by semitones, over and over.
pub proof fn lemma_names_of_keys(root: u8)
    ensures
        root >= 12 ==> key_name(root) == key_name((root - 12) as u8),
        root == 0 ==> key_name(root) == "C"@,
        root == 1 ==> key_name(root) == "Db"@,
        root == 2 ==> key_name(root) == "D"@,
        root == 3 ==> key_name(root) == "Eb"@,
        root == 4 ==> key_name(root) == "E"@,
        root == 5 ==> key_name(root) == "F"@,
        root == 6 ==> key_name(root) == "Gb"@,
        root == 7 ==> key_name(root) == "G"@,
        root == 8 ==> key_name(root) == "Ab"@,
        root == 9 ==> key_name(root) == "A"@,
        root == 10 ==> key_name(root) == "Bb"@,
        root == 11 ==> key_name(root) == "B"@,
{
}

proof fn lemma_common_front(front: Seq<u32>, a: Seq<u32>, b: Seq<u32>)
    ensures
        lex_before(front + a, front + b) == lex_before(a, b),
    decreases front.len(),
{
    if front.len() == 0 {
        assert(front + a =~= a);
        assert(front + b =~= b);
    } else {
        lemma_common_front(front.drop_first(), a, b);
        assert((front + a).drop_first() =~= front.drop_first() + a);
        assert((front + b).drop_first() =~= front.drop_first() + b);
    }
}

proof fn lemma_key_of_front(front: Seq<Seq<char>>, rest: Seq<Seq<char>>)
    ensures
        components_key(front + rest) == components_key(front) + components_key(rest),
    decreases rest.len(),
{
    if rest.len() == 0 {
        assert(front + rest =~= front);
        assert(components_key(front) + components_key(rest) =~= components_key(front));
    } else {
        let r = rest.drop_last();
        lemma_key_of_front(front, r);
        assert((front + rest).drop_last() =~= front + r);
        assert((front + rest).last() == rest.last());
        assert(components_key(front) + (components_key(r) + component_key(rest.last()))
            =~= components_key(front) + components_key(r) + component_key(rest.last()));
    }
}

spec fn letters(x: Seq<char>) -> Seq<u32> {
    x.map_values(|c: char| (c as u32 + 1) as u32)
}

proof fn lemma_letters(x: Seq<char>, y: Seq<char>, p: Seq<u32>, q: Seq<u32>)
    requires
        x != y,
    ensures
        lex_before(letters(x).push(0) + p, letters(y).push(0) + q) == lex_before(
            codes(x),
            codes(y),
        ),
    decreases x.len(),
{
    let a = letters(x).push(0) + p;
    let b = letters(y).push(0) + q;
    if x.len() > 0 {
        vstd::utf8::char_is_scalar(x[0]);
    }
    if y.len() > 0 {
        vstd::utf8::char_is_scalar(y[0]);
    }
    if x.len() == 0 {
        assert(a[0] == 0);
        assert(y.len() > 0) by {
            if y.len() == 0 {
                assert(x =~= y);
            }
        }
        assert(b[0] == letters(y)[0]);
        assert(letters(y)[0] == y[0] as u32 + 1);
    } else if y.len() == 0 {
        assert(b[0] == 0);
        assert(a[0] == letters(x)[0]);
        assert(letters(x)[0] == x[0] as u32 + 1);
    } else {
        assert(a[0] == letters(x)[0] && letters(x)[0] == x[0] as u32 + 1);
        assert(b[0] == letters(y)[0] && letters(y)[0] == y[0] as u32 + 1);
        assert(codes(x)[0] == x[0] as u32 && codes(y)[0] == y[0] as u32);
        if x[0] == y[0] {
            let u = x.drop_first();
            let v = y.drop_first();
            assert(u != v) by {
                if u == v {
                    assert(x =~= seq![x[0]] + u);
                    assert(y =~= seq![y[0]] + v);
                }
            }
            lemma_letters(u, v, p, q);
            assert(a.drop_first() =~= letters(u).push(0) + p);
            assert(b.drop_first() =~= letters(v).push(0) + q);
            assert(codes(x).drop_first() =~= codes(u));
            assert(codes(y).drop_first() =~= codes(v));
        } else {
            vstd::utf8::char_u32_cast(x[0], x[0] as u32);
            vstd::utf8::char_u32_cast(y[0], y[0] as u32);
        }
    }
}

proof fn lemma_key_of_name(x: Seq<char>)
    requires
        plain_name(x),
    ensures
        component_key(x) == seq![3u32] + letters(x).push(0),
{
    if x == crate::paths::root_part() {
        assert(x[0] == '/');
    }
    assert(component_kind(x) == 3);
    assert(component_key(x) =~= seq![3u32] + letters(x).push(0));
}

/// Paths stand component by component: what counts is the first name in which two differ, by
/// its code points, however they go on. A path stands before those that go on from it.
pub proof fn lemma_order_of_paths(
    front: Seq<Seq<char>>,
    x: Seq<char>,
    a: Seq<Seq<char>>,
    y: Seq<char>,
    b: Seq<Seq<char>>,
)
    requires
        x != y,
        plain_names(front + (seq![x] + a)),
        plain_names(front + (seq![y] + b)),
    ensures
        lex_before(
            path_key(joined(front + (seq![x] + a), '/')),
            path_key(joined(front + (seq![y] + b), '/')),
        ) == lex_before(codes(x), codes(y)),
        front.len() > 0 ==> lex_before(
            path_key(joined(front, '/')),
            path_key(joined(front + (seq![x] + a), '/')),
        ),
{
    let m = front + (seq![x] + a);
    let n = front + (seq![y] + b);
    let k = front.len() as int;
    lemma_path_of_names(m);
    lemma_path_of_names(n);
    lemma_key_of_front(front, seq![x] + a);
    lemma_key_of_front(front, seq![y] + b);
    lemma_key_of_front(seq![x], a);
    lemma_key_of_front(seq![y], b);
    assert(m[k] == x && n[k] == y);
    assert(plain_name(m[k]) && plain_name(n[k]));
    lemma_key_of_name(x);
    lemma_key_of_name(y);
    lemma_single(x);
    lemma_single(y);
    let p = letters(x).push(0) + components_key(a);
    let q = letters(y).push(0) + components_key(b);
    assert(components_key(seq![x] + a) =~= seq![3u32] + p);
    assert(components_key(seq![y] + b) =~= seq![3u32] + q);
    lemma_common_front(components_key(front), seq![3u32] + p, seq![3u32] + q);
    lemma_common_front(seq![3u32], p, q);
    lemma_letters(x, y, components_key(a), components_key(b));
    if front.len() > 0 {
        assert forall|i: int| 0 <= i < front.len() implies plain_name(#[trigger] front[i]) by {
            assert(m[i] == front[i]);
        }
        lemma_path_of_names(front);
        let none = Seq::<u32>::empty();
        lemma_common_front(components_key(front), none, seq![3u32] + p);
        assert(components_key(front) + none =~= components_key(front));
    }
}

proof fn lemma_single(x: Seq<char>)
    ensures
        components_key(seq![x]) == component_key(x),
{
    let none = Seq::<Seq<char>>::empty();
    assert(seq![x].drop_last() =~= none);
    assert(components_key(none) =~= seq![]);
    assert(components_key(seq![x]) =~= component_key(x));
}

} // verus!
