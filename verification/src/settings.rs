//! The decisions between the command line and the stages of the pipeline.

use vstd::prelude::*;
use vstd::string::StringExecFns;

use crate::compose::{ComposeParams, BAR};
use crate::config::RepoConfig;
use crate::model::{
    key_name, scale_name, scale_of, CodeUnit, NoteEvent, RepoModel, Scale, Score, ScoreView,
};
use crate::paths::{extension, extension_of, file_name, last_dot, lemma_plain_name, name_of};
use crate::text::{
    chars_of, decimal, hex, lemma_hex_digits, lemma_hex_roundtrip, parse_unsigned, part,
    push_decimal, push_hex, spells, string_of, unsigned_number,
};

verus! {

/// How many commits the history mode plays unless it is told otherwise.
pub const DEFAULT_COMMITS: usize = 300;

/// What a text that may be missing says.
pub open spec fn text_view(s: Option<&str>) -> Option<Seq<char>> {
    match s {
        Some(s) => Some(s@),
        None => None,
    }
}

/// What a result with a message says.
pub open spec fn told<T>(r: Result<T, String>) -> Result<T, Seq<char>> {
    match r {
        Ok(v) => Ok(v),
        Err(e) => Err(e@),
    }
}

/// The scale that a flag names, if there is one.
pub open spec fn flag_scale(flag: Option<Seq<char>>) -> Result<Option<Scale>, Seq<char>> {
    match flag {
        None => Ok(None),
        Some(s) => match scale_of(s) {
            Some(scale) => Ok(Some(scale)),
            None => Err(
                "unknown scale '"@ + s + "' (pentatonic | minor-pentatonic | dorian | aeolian)"@,
            ),
        },
    }
}

/// The scale that the flag names, if there is one.
pub fn scale_flag(flag: Option<&str>) -> (r: Result<Option<Scale>, String>)
    ensures
        told(r) == flag_scale(text_view(flag)),
{
    match flag {
        None => Ok(None),
        Some(s) => match Scale::parse(s) {
            Some(scale) => Ok(Some(scale)),
            None => {
                let mut message = String::from_str("unknown scale '");
                message.append(s);
                message.append("' (pentatonic | minor-pentatonic | dorian | aeolian)");
                Err(message)
            },
        },
    }
}

/// A text without the marks of hexadecimal numbers at its start.
pub open spec fn without_marks(s: Seq<char>) -> Seq<char>
    decreases s.len(),
{
    if s.len() >= 2 && s[0] == '0' && s[1] == 'x' {
        without_marks(s.skip(2))
    } else {
        s
    }
}

/// The first sixteen characters of a text, or all of them.
pub open spec fn first_sixteen(s: Seq<char>) -> Seq<char> {
    if s.len() > 16 {
        s.take(16)
    } else {
        s
    }
}

/// The number that a text writes in hexadecimal, or a message.
pub open spec fn hex_or(s: Seq<char>, message: Seq<char>) -> Result<u64, Seq<char>> {
    match unsigned_number(s, 16, u64::MAX as int) {
        Some(n) => Ok(n as u64),
        None => Err(message),
    }
}

/// The seed of a piece: the one that the flag gives, or else the first sixteen digits of a
/// hash.
pub open spec fn seed_from(flag: Option<Seq<char>>, hash: Seq<char>) -> Result<u64, Seq<char>> {
    match flag {
        Some(s) => hex_or(without_marks(s), "--seed must be hex"@),
        None => hex_or(first_sixteen(hash), "unexpected tree hash format"@),
    }
}

/// The seed of a piece.
pub fn choose_seed(flag: Option<&str>, hash: &str) -> (r: Result<u64, String>)
    ensures
        told(r) == seed_from(text_view(flag), hash@),
{
    match flag {
        Some(s) => {
            let chars: Vec<char> = chars_of(s);
            let mut at: usize = 0;
            assert(chars@.skip(0) =~= chars@);
            while at < chars.len() && chars.len() - at >= 2 && chars[at] == '0' && chars[at + 1]
                == 'x'
                invariant
                    at <= chars@.len(),
                    without_marks(chars@.skip(at as int)) == without_marks(chars@),
                decreases chars@.len() - at,
            {
                assert(chars@.skip(at as int).skip(2) =~= chars@.skip(at + 2));
                at = at + 2;
            }
            let rest: Vec<char> = part(chars.as_slice(), at, chars.len());
            assert(rest@ =~= chars@.skip(at as int));
            match parse_unsigned(rest.as_slice(), 16, u64::MAX) {
                Some(n) => Ok(n),
                None => Err(String::from_str("--seed must be hex")),
            }
        },
        None => {
            let chars: Vec<char> = chars_of(hash);
            let end: usize = if chars.len() > 16 {
                16
            } else {
                chars.len()
            };
            let head: Vec<char> = part(chars.as_slice(), 0, end);
            assert(head@ =~= first_sixteen(chars@));
            match parse_unsigned(head.as_slice(), 16, u64::MAX) {
                Some(n) => Ok(n),
                None => Err(String::from_str("unexpected tree hash format")),
            }
        },
    }
}

/// The seed that a file or a summary tells makes the same piece again, given by the flag;
/// and it is the seed of every hash that begins with it.
pub proof fn lemma_seed_roundtrip(seed: u64, rest: Seq<char>)
    ensures
        seed_from(Some(hex(seed as nat, 16)), rest) == Ok::<u64, Seq<char>>(seed),
        seed_from(None, hex(seed as nat, 16) + rest) == Ok::<u64, Seq<char>>(seed),
{
    let s = hex(seed as nat, 16);
    lemma_hex_digits(seed as nat, 16);
    lemma_hex_roundtrip(seed);
    assert(s[1] != 'x');
    assert(without_marks(s) == s);
    assert((s + rest).take(16) =~= s);
    assert(first_sixteen(s + rest) =~= s);
}

/// What a piece is composed with: a flag wins over the configuration of the repository.
pub open spec fn params_from(
    scale: Option<Scale>,
    bpm: Option<u16>,
    duration: Option<u32>,
    config: RepoConfig,
) -> ComposeParams {
    ComposeParams {
        scale: if scale is Some {
            scale
        } else {
            config.scale
        },
        bpm: if bpm is Some {
            bpm
        } else {
            config.bpm
        },
        duration_secs: duration,
    }
}

/// What a piece is composed with.
pub fn choose_params(
    scale: Option<Scale>,
    bpm: Option<u16>,
    duration: Option<u32>,
    config: RepoConfig,
) -> (r: ComposeParams)
    ensures
        r == params_from(scale, bpm, duration, config),
{
    ComposeParams {
        scale: if scale.is_some() {
            scale
        } else {
            config.scale
        },
        bpm: if bpm.is_some() {
            bpm
        } else {
            config.bpm
        },
        duration_secs: duration,
    }
}

/// The model of the static mode, unless there is nothing to compose from.
pub fn static_model(seed: u64, units: Vec<CodeUnit>) -> (r: Result<RepoModel, String>)
    ensures
        match r {
            Ok(m) => units@.len() > 0 && m == (RepoModel::Static { seed, units }),
            Err(e) => units@.len() == 0 && e@ == "no analyzable text files at HEAD"@,
        },
{
    if units.len() == 0 {
        Err(String::from_str("no analyzable text files at HEAD"))
    } else {
        Ok(RepoModel::Static { seed, units })
    }
}

/// How many of the newest commits the history mode asks for: all of them where a range is
/// given or the whole history is wanted.
pub fn commit_limit(ranged: bool, full: bool) -> (r: Option<usize>)
    ensures
        r == (if ranged || full {
            None
        } else {
            Some(DEFAULT_COMMITS)
        }),
{
    if ranged || full {
        None
    } else {
        Some(DEFAULT_COMMITS)
    }
}

/// How many commits a bar stands for: one, but as many as keep the piece to the default
/// number of bars where the whole history is wanted.
pub open spec fn compression(commits: int, full: bool) -> int {
    if full && commits > DEFAULT_COMMITS {
        (commits + DEFAULT_COMMITS - 1) / DEFAULT_COMMITS as int
    } else {
        1
    }
}

/// How many commits a bar stands for.
pub fn choose_compression(commits: u32, full: bool) -> (r: u32)
    ensures
        r == compression(commits as int, full),
        r >= 1,
{
    if full && commits > 300 {
        ((commits as u64 + 299) / 300) as u32
    } else {
        1
    }
}

/// The whole history, folded, takes no more than the default number of bars.
pub proof fn lemma_compression(commits: int)
    requires
        commits >= 0,
    ensures
        (commits + compression(commits, true) - 1) / compression(commits, true)
            <= DEFAULT_COMMITS,
{
    let k = compression(commits, true);
    if commits > DEFAULT_COMMITS {
        assert(k * 300 >= commits);
        assert((commits + k - 1) / k <= 300) by (nonlinear_arith)
            requires
                k * 300 >= commits,
                commits > 300,
                k >= 1,
        ;
    }
}

/// The formats that a piece can be written in.
#[derive(Debug, Clone, Copy, PartialEq, Eq, Structural)]
pub enum OutputKind {
    Midi,
    Wav,
}

/// A path without the separators and the `.` components at its end.
pub open spec fn bare_path(path: Seq<char>) -> Seq<char>
    decreases path.len(),
{
    if path.len() > 0 && path.last() == '/' {
        bare_path(path.drop_last())
    } else if path.len() > 1 && path.last() == '.' && path[path.len() - 2] == '/' {
        bare_path(path.drop_last())
    } else {
        path
    }
}

/// A path without an extension, given one; one that ends in no name stays as it is.
pub open spec fn extended(path: Seq<char>, ext: Seq<char>) -> Seq<char> {
    if file_name(path) is None {
        path
    } else if ext.len() == 0 {
        bare_path(path)
    } else {
        bare_path(path).push('.') + ext
    }
}

/// Where a piece is written to: the path that is asked for, with the format as its extension
/// if it has none; or else a file of the repository's name.
pub open spec fn output_at(
    out: Option<Seq<char>>,
    format: Seq<char>,
    repo_name: Option<Seq<char>>,
) -> Result<Seq<char>, Seq<char>> {
    match out {
        Some(path) => if extension(path) is None {
            Ok(extended(path, format))
        } else {
            Ok(path)
        },
        None => {
            let name = match repo_name {
                Some(n) => n,
                None => "gitfugue"@,
            };
            if format == "mid"@ {
                Ok(name + ".mid"@)
            } else if format == "wav"@ {
                Ok(name + ".wav"@)
            } else {
                Err("unknown format '"@ + format + "' (mid | wav)"@)
            }
        },
    }
}

/// A path without an extension, given one.
fn extend_path(path: &str, ext: &str) -> (r: String)
    ensures
        r@ == extended(path@, ext@),
{
    let chars: Vec<char> = chars_of(path);
    if name_of(chars.as_slice()).is_none() {
        return String::from_str(path);
    }
    let mut n: usize = chars.len();
    assert(chars@.take(n as int) =~= chars@);
    while n > 0 && (chars[n - 1] == '/' || (n > 1 && chars[n - 1] == '.' && chars[n - 2] == '/'))
        invariant
            n <= chars@.len(),
            bare_path(chars@.take(n as int)) == bare_path(chars@),
        decreases n,
    {
        assert(chars@.take(n as int).drop_last() =~= chars@.take(n - 1));
        n = n - 1;
    }
    let head: Vec<char> = part(chars.as_slice(), 0, n);
    assert(head@ =~= chars@.take(n as int));
    let mut text: String = string_of(head.as_slice());
    if ext.unicode_len() > 0 {
        text.push('.');
        text.append(ext);
    }
    text
}

/// What a result of two texts says.
pub open spec fn both_told(r: Result<String, String>) -> Result<Seq<char>, Seq<char>> {
    match r {
        Ok(v) => Ok(v@),
        Err(e) => Err(e@),
    }
}

/// Where a piece is written to.
pub fn output_path(out: Option<&str>, format: &str, repo_name: Option<&str>) -> (r: Result<
    String,
    String,
>)
    ensures
        both_told(r) == output_at(text_view(out), format@, text_view(repo_name)),
{
    match out {
        Some(path) => {
            let chars: Vec<char> = chars_of(path);
            if extension_of(chars.as_slice()).is_none() {
                Ok(extend_path(path, format))
            } else {
                Ok(String::from_str(path))
            }
        },
        None => {
            let mut name: String = match repo_name {
                Some(n) => String::from_str(n),
                None => String::from_str("gitfugue"),
            };
            let chars: Vec<char> = chars_of(format);
            if spells(chars.as_slice(), "mid") {
                name.append(".mid");
                Ok(name)
            } else if spells(chars.as_slice(), "wav") {
                name.append(".wav");
                Ok(name)
            } else {
                let mut message = String::from_str("unknown format '");
                message.append(format);
                message.append("' (mid | wav)");
                Err(message)
            }
        },
    }
}

/// The format that a path asks for by its extension.
pub open spec fn kind_of(path: Seq<char>) -> Result<OutputKind, Seq<char>> {
    if extension(path) == Some("mid"@) || extension(path) == Some("midi"@) {
        Ok(OutputKind::Midi)
    } else if extension(path) == Some("wav"@) {
        Ok(OutputKind::Wav)
    } else {
        Err("unsupported output extension (use .mid)"@)
    }
}

/// The format that a path asks for by its extension.
pub fn output_kind(path: &str) -> (r: Result<OutputKind, String>)
    ensures
        told(r) == kind_of(path@),
{
    let chars: Vec<char> = chars_of(path);
    let ext: Option<Vec<char>> = extension_of(chars.as_slice());
    match ext {
        Some(e) => {
            if spells(e.as_slice(), "mid") || spells(e.as_slice(), "midi") {
                Ok(OutputKind::Midi)
            } else if spells(e.as_slice(), "wav") {
                Ok(OutputKind::Wav)
            } else {
                Err(String::from_str("unsupported output extension (use .mid)"))
            }
        },
        None => Err(String::from_str("unsupported output extension (use .mid)")),
    }
}

/// A piece that is named after the repository is written in the format that was asked for.
pub proof fn lemma_default_output(name: Seq<char>)
    requires
        name.len() > 0,
        forall|i: int| 0 <= i < name.len() ==> #[trigger] name[i] != '/',
    ensures
        output_at(None, "mid"@, Some(name)) matches Ok(path) && kind_of(path) == Ok::<_, Seq<char>>(
            OutputKind::Midi,
        ),
        output_at(None, "wav"@, Some(name)) matches Ok(path) && kind_of(path) == Ok::<_, Seq<char>>(
            OutputKind::Wav,
        ),
{
    reveal_strlit("mid");
    reveal_strlit("midi");
    reveal_strlit("wav");
    reveal_strlit(".mid");
    reveal_strlit(".wav");
    assert("mid"@[0] != "wav"@[0]);
    assert(".mid"@ =~= seq!['.'] + "mid"@);
    assert(".wav"@ =~= seq!['.'] + "wav"@);
    lemma_extension(name, "mid"@);
    lemma_extension(name, "wav"@);
    assert("wav"@ != "midi"@) by {
        assert("wav"@.len() != "midi"@.len());
    }
}

proof fn lemma_extension(name: Seq<char>, ext: Seq<char>)
    requires
        name.len() > 0,
        ext.len() == 3,
        forall|i: int| 0 <= i < name.len() ==> #[trigger] name[i] != '/',
        forall|i: int| 0 <= i < ext.len() ==> #[trigger] ext[i] != '/' && ext[i] != '.',
    ensures
        extension(name + (seq!['.'] + ext)) == Some(ext),
{
    let s = name + (seq!['.'] + ext);
    assert forall|i: int| 0 <= i < s.len() implies #[trigger] s[i] != '/' by {
        if i > name.len() {
            assert(s[i] == ext[i - name.len() - 1]);
        }
    }
    lemma_plain_name(s);
    let n = name.len() as int;
    assert(s[n] == '.' && s[n + 1] == ext[0] && s[n + 2] == ext[1] && s[n + 3] == ext[2]);
    reveal_with_fuel(last_dot, 5);
    assert(last_dot(s, s.len() as int) == n);
    assert(s.skip(n + 1) =~= ext);
}

/// The tick at which the last of the first `k` notes to end does.
pub open spec fn last_end(events: Seq<NoteEvent>, k: int) -> int
    decreases k,
{
    if k <= 0 {
        0
    } else {
        let before = last_end(events, k - 1);
        let end = events[k - 1].start + events[k - 1].dur;
        if end > before {
            end
        } else {
            before
        }
    }
}

/// How many bars a score takes: as many as hold all of its notes.
pub open spec fn bars_of(score: ScoreView) -> int {
    (last_end(score.events, score.events.len() as int) + BAR - 1) / BAR as int
}

/// How many bars a score takes.
pub fn bar_count(score: &Score) -> (r: u32)
    ensures
        r == bars_of(score@),
{
    let mut last: u64 = 0;
    for i in 0..score.events.len()
        invariant
            last == last_end(score.events@, i as int),
            last <= 0x2_0000_0000,
    {
        let e: NoteEvent = score.events[i];
        let end: u64 = e.start as u64 + e.dur as u64;
        if end > last {
            last = end;
        }
    }
    ((last + 1919) / 1920) as u32
}

/// The bars that a score takes hold all of its notes, and one bar fewer does not.
pub proof fn lemma_bars(score: ScoreView)
    ensures
        forall|i: int|
            0 <= i < score.events.len() ==> (#[trigger] score.events[i]).start
                + score.events[i].dur <= bars_of(score) * BAR,
        bars_of(score) > 0 ==> exists|i: int|
            0 <= i < score.events.len() && (#[trigger] score.events[i]).start
                + score.events[i].dur > (bars_of(score) - 1) * BAR,
{
    lemma_last_end(score.events, score.events.len() as int);
}

proof fn lemma_last_end(events: Seq<NoteEvent>, k: int)
    requires
        0 <= k <= events.len(),
    ensures
        last_end(events, k) >= 0,
        forall|i: int|
            0 <= i < k ==> (#[trigger] events[i]).start + events[i].dur <= last_end(events, k),
        last_end(events, k) > 0 ==> exists|i: int|
            0 <= i < k && (#[trigger] events[i]).start + events[i].dur == last_end(events, k),
    decreases k,
{
    if k > 0 {
        lemma_last_end(events, k - 1);
        let e = events[k - 1];
    }
}

/// The line that tells what was written.
pub open spec fn summary_of(score: ScoreView, path: Seq<char>) -> Seq<char> {
    "wrote "@ + path + " ("@ + decimal(bars_of(score) as nat) + " bars, "@ + key_name(
        score.key.root,
    ) + " "@ + scale_name(score.scale) + ", "@ + decimal(score.bpm_base as nat) + " bpm, "@
        + decimal(score.voices.len()) + " voices, seed "@ + hex(score.seed as nat, 16) + ")"@
}

/// The line that tells what was written.
pub fn summary(score: &Score, path: &str) -> (r: String)
    ensures
        r@ == summary_of(score@, path@),
{
    let mut line = String::from_str("wrote ");
    line.append(path);
    line.append(" (");
    push_decimal(&mut line, bar_count(score) as u64);
    line.append(" bars, ");
    line.append(score.key.name());
    line.append(" ");
    line.append(score.scale.name());
    line.append(", ");
    push_decimal(&mut line, score.bpm_base as u64);
    line.append(" bpm, ");
    push_decimal(&mut line, score.voices.len() as u64);
    line.append(" voices, seed ");
    push_hex(&mut line, score.seed, 16);
    line.append(")");
    line
}

} // verus!
