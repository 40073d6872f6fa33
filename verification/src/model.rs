//! The representations that the stages of the pipeline hand on to one another.

use vstd::prelude::*;

use crate::paths::{extension, extension_of, file_name, key_of_path, name_of, path_key};
use crate::sorting::{
    comes_before, lemma_lex_le_transitive, lemma_lex_total, lex_before, Ranked, Sortable,
};
use crate::text::{chars_of, lower_chars, lowered, spells};

verus! {

/// Language families, used to choose instruments.
#[derive(Debug, Clone, Copy, PartialEq, Eq, PartialOrd, Ord, Hash, Structural)]
pub enum Lang {
    /// Rust, C and C++.
    Systems,
    Python,
    JsTs,
    Go,
    /// Java, Kotlin, C# and Scala.
    Jvm,
    /// HTML and CSS.
    Markup,
    /// Markdown and plain text.
    Docs,
    /// YAML, TOML and JSON.
    Config,
    Shell,
    Other,
}

/// The family that a lower-case file extension belongs to, if it is a known one.
pub open spec fn lang_of_extension(ext: Seq<char>) -> Option<Lang> {
    if ext == "rs"@ || ext == "c"@ || ext == "h"@ || ext == "cpp"@ || ext == "cc"@ || ext == "hpp"@
        || ext == "cxx"@ {
        Some(Lang::Systems)
    } else if ext == "py"@ || ext == "pyi"@ {
        Some(Lang::Python)
    } else if ext == "js"@ || ext == "jsx"@ || ext == "ts"@ || ext == "tsx"@ || ext == "mjs"@ || ext
        == "cjs"@ {
        Some(Lang::JsTs)
    } else if ext == "go"@ {
        Some(Lang::Go)
    } else if ext == "java"@ || ext == "kt"@ || ext == "kts"@ || ext == "cs"@ || ext == "scala"@ {
        Some(Lang::Jvm)
    } else if ext == "html"@ || ext == "htm"@ || ext == "css"@ || ext == "scss"@ || ext == "sass"@
        || ext == "svelte"@ || ext == "vue"@ {
        Some(Lang::Markup)
    } else if ext == "md"@ || ext == "rst"@ || ext == "txt"@ || ext == "adoc"@ {
        Some(Lang::Docs)
    } else if ext == "yml"@ || ext == "yaml"@ || ext == "toml"@ || ext == "json"@ || ext == "ini"@
        || ext == "cfg"@ || ext == "lock"@ {
        Some(Lang::Config)
    } else if ext == "sh"@ || ext == "bash"@ || ext == "zsh"@ || ext == "fish"@ || ext == "ps1"@
        || ext == "bat"@ {
        Some(Lang::Shell)
    } else {
        None
    }
}

/// The family of the file at a path: by its extension, or by its name for build files
/// that have none.
pub open spec fn lang_of(path: Seq<char>) -> Lang {
    let ext = match extension(path) {
        Some(e) => lowered(e),
        None => seq![],
    };
    let name = match file_name(path) {
        Some(n) => lowered(n),
        None => seq![],
    };
    match lang_of_extension(ext) {
        Some(lang) => lang,
        None => if name == "makefile"@ || name == "dockerfile"@ || name == "justfile"@ {
            Lang::Shell
        } else {
            Lang::Other
        },
    }
}

/// The General MIDI program of a family.
pub open spec fn program_of(lang: Lang) -> u8 {
    match lang {
        Lang::Systems => 42,
        Lang::Python => 0,
        Lang::JsTs => 4,
        Lang::Go => 12,
        Lang::Jvm => 60,
        Lang::Markup => 89,
        Lang::Docs => 88,
        Lang::Config => 45,
        Lang::Shell => 115,
        Lang::Other => 24,
    }
}

/// The name of the instrument of a family.
pub open spec fn instrument_of(lang: Lang) -> Seq<char> {
    match lang {
        Lang::Systems => "cello"@,
        Lang::Python => "piano"@,
        Lang::JsTs => "electric piano"@,
        Lang::Go => "marimba"@,
        Lang::Jvm => "french horn"@,
        Lang::Markup => "warm pad"@,
        Lang::Docs => "ambient pad"@,
        Lang::Config => "pizzicato strings"@,
        Lang::Shell => "woodblock"@,
        Lang::Other => "nylon guitar"@,
    }
}

impl Lang {
    /// The family of the file at a path.
    pub fn from_path(path: &str) -> (r: Lang)
        ensures
            r == lang_of(path@),
    {
        let chars: Vec<char> = chars_of(path);
        let ext: Vec<char> = match extension_of(chars.as_slice()) {
            Some(e) => lower_chars(e.as_slice()),
            None => Vec::new(),
        };
        let name: Vec<char> = match name_of(chars.as_slice()) {
            Some(n) => lower_chars(n.as_slice()),
            None => Vec::new(),
        };
        match Lang::from_extension(ext.as_slice()) {
            Some(lang) => lang,
            None => {
                if spells(name.as_slice(), "makefile") || spells(name.as_slice(), "dockerfile")
                    || spells(name.as_slice(), "justfile") {
                    Lang::Shell
                } else {
                    Lang::Other
                }
            },
        }
    }

    /// The family that a lower-case file extension belongs to, if it is a known one.
    fn from_extension(ext: &[char]) -> (r: Option<Lang>)
        ensures
            r == lang_of_extension(ext@),
    {
        if spells(ext, "rs") || spells(ext, "c") || spells(ext, "h") || spells(ext, "cpp")
            || spells(ext, "cc") || spells(ext, "hpp") || spells(ext, "cxx") {
            Some(Lang::Systems)
        } else if spells(ext, "py") || spells(ext, "pyi") {
            Some(Lang::Python)
        } else if spells(ext, "js") || spells(ext, "jsx") || spells(ext, "ts") || spells(ext, "tsx")
            || spells(ext, "mjs") || spells(ext, "cjs") {
            Some(Lang::JsTs)
        } else if spells(ext, "go") {
            Some(Lang::Go)
        } else if spells(ext, "java") || spells(ext, "kt") || spells(ext, "kts") || spells(
            ext,
            "cs",
        ) || spells(ext, "scala") {
            Some(Lang::Jvm)
        } else if spells(ext, "html") || spells(ext, "htm") || spells(ext, "css") || spells(
            ext,
            "scss",
        ) || spells(ext, "sass") || spells(ext, "svelte") || spells(ext, "vue") {
            Some(Lang::Markup)
        } else if spells(ext, "md") || spells(ext, "rst") || spells(ext, "txt") || spells(
            ext,
            "adoc",
        ) {
            Some(Lang::Docs)
        } else if spells(ext, "yml") || spells(ext, "yaml") || spells(ext, "toml") || spells(
            ext,
            "json",
        ) || spells(ext, "ini") || spells(ext, "cfg") || spells(ext, "lock") {
            Some(Lang::Config)
        } else if spells(ext, "sh") || spells(ext, "bash") || spells(ext, "zsh") || spells(
            ext,
            "fish",
        ) || spells(ext, "ps1") || spells(ext, "bat") {
            Some(Lang::Shell)
        } else {
            None
        }
    }

    /// The General MIDI program of this family.
    pub fn gm_program(self) -> (r: u8)
        ensures
            r == program_of(self),
            r < 128,
    {
        match self {
            Lang::Systems => 42,
            Lang::Python => 0,
            Lang::JsTs => 4,
            Lang::Go => 12,
            Lang::Jvm => 60,
            Lang::Markup => 89,
            Lang::Docs => 88,
            Lang::Config => 45,
            Lang::Shell => 115,
            Lang::Other => 24,
        }
    }

    /// The name of this family's instrument.
    pub fn instrument_name(self) -> (r: &'static str)
        ensures
            r@ == instrument_of(self),
    {
        match self {
            Lang::Systems => "cello",
            Lang::Python => "piano",
            Lang::JsTs => "electric piano",
            Lang::Go => "marimba",
            Lang::Jvm => "french horn",
            Lang::Markup => "warm pad",
            Lang::Docs => "ambient pad",
            Lang::Config => "pizzicato strings",
            Lang::Shell => "woodblock",
            Lang::Other => "nylon guitar",
        }
    }
}

/// A function of a file: what becomes a motif.
#[derive(Debug, Clone, Copy, PartialEq, Eq, Structural)]
pub struct FnUnit {
    pub name_hash: u64,
    pub lines: u32,
    pub nesting: u8,
}

/// A file of the repository, with its metrics.
#[derive(Debug, Clone)]
pub struct CodeUnit {
    pub path: String,
    pub depth: u8,
    pub language: Lang,
    pub loc: u32,
    pub nesting_max: u8,
    pub ident_hash: u64,
    pub functions: Vec<FnUnit>,
}

/// What a `CodeUnit` says.
#[verifier::ext_equal]
pub struct UnitView {
    pub path: Seq<char>,
    pub depth: u8,
    pub language: Lang,
    pub loc: u32,
    pub nesting_max: u8,
    pub ident_hash: u64,
    pub functions: Seq<FnUnit>,
}

impl View for CodeUnit {
    type V = UnitView;

    open spec fn view(&self) -> UnitView {
        UnitView {
            path: self.path@,
            depth: self.depth,
            language: self.language,
            loc: self.loc,
            nesting_max: self.nesting_max,
            ident_hash: self.ident_hash,
            functions: self.functions@,
        }
    }
}

/// Units rank by their paths, component by component.
impl Ranked for UnitView {
    open spec fn le(self, other: Self) -> bool {
        !lex_before(path_key(other.path), path_key(self.path))
    }

    proof fn le_total(a: Self, b: Self) {
        lemma_lex_total(path_key(a.path), path_key(b.path));
    }

    proof fn le_transitive(a: Self, b: Self, c: Self) {
        lemma_lex_le_transitive(path_key(a.path), path_key(b.path), path_key(c.path));
    }
}

impl Sortable for CodeUnit {
    fn no_higher(&self, other: &Self) -> (r: bool) {
        let mine: Vec<u32> = key_of_path(chars_of(self.path.as_str()).as_slice());
        let theirs: Vec<u32> = key_of_path(chars_of(other.path.as_str()).as_slice());
        !comes_before(theirs.as_slice(), mine.as_slice())
    }
}

/// An author of commits.
#[derive(Debug, Clone)]
pub struct Author {
    pub email: String,
    pub name: String,
    pub commits: u32,
    pub is_bot: bool,
}

/// What an `Author` says.
#[verifier::ext_equal]
pub struct AuthorView {
    pub email: Seq<char>,
    pub name: Seq<char>,
    pub commits: u32,
    pub is_bot: bool,
}

impl View for Author {
    type V = AuthorView;

    open spec fn view(&self) -> AuthorView {
        AuthorView {
            email: self.email@,
            name: self.name@,
            commits: self.commits,
            is_bot: self.is_bot,
        }
    }
}

/// A commit, or a run of commits folded into one, that becomes a bar.
#[derive(Debug, Clone)]
pub struct CommitNode {
    pub hash: u64,
    /// The first characters of the hash, as people write it.
    pub short: String,
    pub author_id: usize,
    pub timestamp: i64,
    /// Insertions and deletions.
    pub diff_magnitude: u32,
    pub is_merge: bool,
    /// How many commits this one stands for.
    pub folded: u32,
}

/// What a `CommitNode` says.
#[verifier::ext_equal]
pub struct CommitView {
    pub hash: u64,
    pub short: Seq<char>,
    pub author_id: usize,
    pub timestamp: i64,
    pub diff_magnitude: u32,
    pub is_merge: bool,
    pub folded: u32,
}

impl View for CommitNode {
    type V = CommitView;

    open spec fn view(&self) -> CommitView {
        CommitView {
            hash: self.hash,
            short: self.short@,
            author_id: self.author_id,
            timestamp: self.timestamp,
            diff_magnitude: self.diff_magnitude,
            is_merge: self.is_merge,
            folded: self.folded,
        }
    }
}

/// What the composer works from.
pub enum RepoModel {
    /// The code at HEAD is the score.
    Static { seed: u64, units: Vec<CodeUnit> },
    /// The commit history is the score.
    History {
        identity_seed: u64,
        branch: String,
        commits: Vec<CommitNode>,
        authors: Vec<Author>,
        total_commits: u32,
    },
}

/// A point in time, in ticks.
pub type Tick = u32;

/// The scales that a piece can be in.
#[derive(Debug, Clone, Copy, PartialEq, Eq, PartialOrd, Ord, Structural)]
pub enum Scale {
    MajorPentatonic,
    MinorPentatonic,
    Dorian,
    Aeolian,
}

/// The pitch classes of a scale above its tonic, in rising order.
pub open spec fn scale_degrees(scale: Scale) -> Seq<u8> {
    match scale {
        Scale::MajorPentatonic => seq![0u8, 2, 4, 7, 9],
        Scale::MinorPentatonic => seq![0u8, 3, 5, 7, 10],
        Scale::Dorian => seq![0u8, 2, 3, 5, 7, 9, 10],
        Scale::Aeolian => seq![0u8, 2, 3, 5, 7, 8, 10],
    }
}

/// The name of a scale.
pub open spec fn scale_name(scale: Scale) -> Seq<char> {
    match scale {
        Scale::MajorPentatonic => "major pentatonic"@,
        Scale::MinorPentatonic => "minor pentatonic"@,
        Scale::Dorian => "dorian"@,
        Scale::Aeolian => "aeolian"@,
    }
}

/// The scale that a name in a flag or a configuration stands for.
pub open spec fn scale_of(s: Seq<char>) -> Option<Scale> {
    if s == "pentatonic"@ || s == "major-pentatonic"@ {
        Some(Scale::MajorPentatonic)
    } else if s == "minor-pentatonic"@ {
        Some(Scale::MinorPentatonic)
    } else if s == "dorian"@ {
        Some(Scale::Dorian)
    } else if s == "aeolian"@ {
        Some(Scale::Aeolian)
    } else {
        None
    }
}

impl Scale {
    /// The pitch classes of this scale above its tonic, in rising order.
    pub fn degrees(self) -> (r: &'static [u8])
        ensures
            r@ == scale_degrees(self),
    {
        match self {
            Scale::MajorPentatonic => &[0, 2, 4, 7, 9],
            Scale::MinorPentatonic => &[0, 3, 5, 7, 10],
            Scale::Dorian => &[0, 2, 3, 5, 7, 9, 10],
            Scale::Aeolian => &[0, 2, 3, 5, 7, 8, 10],
        }
    }

    /// The name of this scale.
    pub fn name(self) -> (r: &'static str)
        ensures
            r@ == scale_name(self),
    {
        match self {
            Scale::MajorPentatonic => "major pentatonic",
            Scale::MinorPentatonic => "minor pentatonic",
            Scale::Dorian => "dorian",
            Scale::Aeolian => "aeolian",
        }
    }

    /// The scale that a name in a flag or a configuration stands for.
    pub fn parse(s: &str) -> (r: Option<Scale>)
        ensures
            r == scale_of(s@),
    {
        let chars: Vec<char> = chars_of(s);
        if spells(chars.as_slice(), "pentatonic") || spells(chars.as_slice(), "major-pentatonic") {
            Some(Scale::MajorPentatonic)
        } else if spells(chars.as_slice(), "minor-pentatonic") {
            Some(Scale::MinorPentatonic)
        } else if spells(chars.as_slice(), "dorian") {
            Some(Scale::Dorian)
        } else if spells(chars.as_slice(), "aeolian") {
            Some(Scale::Aeolian)
        } else {
            None
        }
    }
}

/// The key of a piece.
#[derive(Debug, Clone, Copy, PartialEq, Eq, Structural)]
pub struct Key {
    /// Pitch class of the tonic, 0 = C.
    pub root: u8,
}

/// The name of the pitch class of a tonic.
pub open spec fn key_name(root: u8) -> Seq<char> {
    let pc = root % 12;
    if pc == 0 {
        "C"@
    } else if pc == 1 {
        "Db"@
    } else if pc == 2 {
        "D"@
    } else if pc == 3 {
        "Eb"@
    } else if pc == 4 {
        "E"@
    } else if pc == 5 {
        "F"@
    } else if pc == 6 {
        "Gb"@
    } else if pc == 7 {
        "G"@
    } else if pc == 8 {
        "Ab"@
    } else if pc == 9 {
        "A"@
    } else if pc == 10 {
        "Bb"@
    } else {
        "B"@
    }
}

impl Key {
    /// The name of the tonic.
    pub fn name(self) -> (r: &'static str)
        ensures
            r@ == key_name(self.root),
    {
        let pc: u8 = self.root % 12;
        match pc {
            0 => "C",
            1 => "Db",
            2 => "D",
            3 => "Eb",
            4 => "E",
            5 => "F",
            6 => "Gb",
            7 => "G",
            8 => "Ab",
            9 => "A",
            10 => "Bb",
            _ => "B",
        }
    }
}

/// A voice: an instrument on a MIDI channel.
#[derive(Debug, Clone)]
pub struct Voice {
    pub name: String,
    pub channel: u8,
    pub program: u8,
}

/// What a `Voice` says.
#[verifier::ext_equal]
pub struct VoiceView {
    pub name: Seq<char>,
    pub channel: u8,
    pub program: u8,
}

impl View for Voice {
    type V = VoiceView;

    open spec fn view(&self) -> VoiceView {
        VoiceView { name: self.name@, channel: self.channel, program: self.program }
    }
}

/// A note.
#[derive(Debug, Clone, Copy, PartialEq, Eq, Structural)]
pub struct NoteEvent {
    pub voice: usize,
    pub pitch: u8,
    pub start: Tick,
    pub dur: Tick,
    pub velocity: u8,
}

impl View for NoteEvent {
    type V = NoteEvent;

    open spec fn view(&self) -> NoteEvent {
        *self
    }
}

/// Notes rank by start, then by voice, then by pitch.
impl Ranked for NoteEvent {
    open spec fn le(self, other: Self) -> bool {
        self.start < other.start || (self.start == other.start && (self.voice < other.voice || (
        self.voice == other.voice && self.pitch <= other.pitch)))
    }

    proof fn le_total(a: Self, b: Self) {
    }

    proof fn le_transitive(a: Self, b: Self, c: Self) {
    }
}

impl Sortable for NoteEvent {
    fn no_higher(&self, other: &Self) -> (r: bool) {
        self.start < other.start || (self.start == other.start && (self.voice < other.voice || (
        self.voice == other.voice && self.pitch <= other.pitch)))
    }
}

/// A composed piece.
pub struct Score {
    pub bpm_base: u16,
    pub key: Key,
    pub scale: Scale,
    pub voices: Vec<Voice>,
    pub events: Vec<NoteEvent>,
    pub tempo_map: Vec<(Tick, u16)>,
    /// Changes of timbre: when, in which voice, to which program.
    pub program_changes: Vec<(Tick, usize, u8)>,
    /// The decisions of the composer, in words.
    pub liner_notes: Vec<String>,
    pub seed: u64,
}

/// What a `Score` says.
#[verifier::ext_equal]
pub struct ScoreView {
    pub bpm_base: u16,
    pub key: Key,
    pub scale: Scale,
    pub voices: Seq<VoiceView>,
    pub events: Seq<NoteEvent>,
    pub tempo_map: Seq<(Tick, u16)>,
    pub program_changes: Seq<(Tick, usize, u8)>,
    pub liner_notes: Seq<Seq<char>>,
    pub seed: u64,
}

impl View for Score {
    type V = ScoreView;

    open spec fn view(&self) -> ScoreView {
        ScoreView {
            bpm_base: self.bpm_base,
            key: self.key,
            scale: self.scale,
            voices: crate::sorting::views(self.voices@),
            events: self.events@,
            tempo_map: self.tempo_map@,
            program_changes: self.program_changes@,
            liner_notes: crate::text::texts(self.liner_notes@),
            seed: self.seed,
        }
    }
}

} // verus!
