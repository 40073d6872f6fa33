//! What flags, the configuration and paths choose.

use vstd::prelude::*;

use crate::config::{choice, ConfigFault, EntryView, RepoConfig};
use crate::laws::texts::{
    joined, lemma_extension, lemma_no_extension, lemma_path_of_names, plain_name, plain_names,
    without,
};
use crate::model::{scale_degrees, scale_name, scale_of, Scale};
use crate::paths::extension;
use crate::settings::{
    bare_path, compression, flag_scale, kind_of, output_at, params_from, seed_from, without_marks,
    OutputKind,
};
use crate::text::{digit, hex, lemma_hex_digits, lemma_hex_roundtrip};

verus! {

/// A seed given by a flag is the number that it writes in hexadecimal, with or without the
/// mark `0x`; without a flag it is the one that the first sixteen digits of the hash write.
pub proof fn lemma_seed(n: u64, rest: Seq<char>, hash: Seq<char>)
    ensures
        seed_from(Some(hex(n as nat, 16)), hash) == Ok::<u64, Seq<char>>(n),
        seed_from(Some("0x"@ + hex(n as nat, 16)), hash) == Ok::<u64, Seq<char>>(n),
        seed_from(None, hex(n as nat, 16) + rest) == Ok::<u64, Seq<char>>(n),
{
    let s = hex(n as nat, 16);
    lemma_hex_digits(n as nat, 16);
    lemma_hex_roundtrip(n);
    reveal_strlit("0x");
    assert(s[1] != 'x');
    let marked = "0x"@ + s;
    assert(marked[0] == '0' && marked[1] == 'x');
    assert(marked.skip(2) =~= s);
    assert(without_marks(s) == s);
    assert(without_marks(marked) == without_marks(s));
    assert((s + rest).take(16) =~= s);
    if rest.len() == 0 {
        assert(s + rest =~= s);
    }
}

/// A text with a character that is no hexadecimal digit is refused as a seed, and so is an
/// empty one.
pub proof fn lemma_seed_refused(flag: Seq<char>, hash: Seq<char>, i: int)
    requires
        without_marks(flag).len() == 0 || (0 < i < without_marks(flag).len() && {
            let n = without_marks(flag)[i] as int;
            !(48 <= n <= 57) && !(97 <= n <= 102) && !(65 <= n <= 70)
        }),
    ensures
        seed_from(Some(flag), hash) == Err::<u64, Seq<char>>("--seed must be hex"@),
{
    let s = without_marks(flag);
    if s.len() > 0 {
        assert(digit(s[i]) >= 16);
        if s[0] == '+' {
            assert(s.skip(1)[i - 1] == s[i]);
        }
    }
}

/// What a flag gives wins over the configuration, and the length comes from its flag alone.
pub proof fn lemma_flags_win(
    scale: Option<Scale>,
    bpm: Option<u16>,
    duration: Option<u32>,
    config: RepoConfig,
)
    ensures
        ({
            let p = params_from(scale, bpm, duration, config);
            &&& scale matches Some(s) ==> p.scale == Some(s)
            &&& scale is None ==> p.scale == config.scale
            &&& bpm matches Some(b) ==> p.bpm == Some(b)
            &&& bpm is None ==> p.bpm == config.bpm
            &&& p.duration_secs == duration
        }),
{
}

/// A whole history is folded no more than it must be: into at most three hundred bars, and
/// with one commit less to the bar it would take more. Nothing else is folded.
pub proof fn lemma_least_compression(commits: int)
    requires
        commits >= 0,
    ensures
        ({
            let k = compression(commits, true);
            &&& k >= 1
            &&& k * 300 >= commits
            &&& k > 1 ==> (k - 1) * 300 < commits
            &&& compression(commits, false) == 1
        }),
{
}

/// The names of scales, and no others.
pub proof fn lemma_names_of_scales(s: Seq<char>)
    ensures
        scale_of(s) == Some(Scale::MajorPentatonic) <==> s == "pentatonic"@ || s
            == "major-pentatonic"@,
        scale_of(s) == Some(Scale::MinorPentatonic) <==> s == "minor-pentatonic"@,
        scale_of(s) == Some(Scale::Dorian) <==> s == "dorian"@,
        scale_of(s) == Some(Scale::Aeolian) <==> s == "aeolian"@,
        flag_scale(None) == Ok::<Option<Scale>, Seq<char>>(None),
        scale_of(s) matches Some(scale) ==> flag_scale(Some(s)) == Ok::<
            Option<Scale>,
            Seq<char>,
        >(Some(scale)),
        scale_of(s) is None ==> flag_scale(Some(s)) == Err::<Option<Scale>, Seq<char>>(
            "unknown scale '"@ + s + "' (pentatonic | minor-pentatonic | dorian | aeolian)"@,
        ),
{
    reveal_strlit("pentatonic");
    reveal_strlit("major-pentatonic");
    reveal_strlit("minor-pentatonic");
    reveal_strlit("dorian");
    reveal_strlit("aeolian");
    assert("major-pentatonic"@[1] == 'a' && "minor-pentatonic"@[1] == 'i');
    assert("aeolian"@.len() == 7 && "dorian"@.len() == 6 && "pentatonic"@.len() == 10);
    assert("major-pentatonic"@.len() == 16 && "minor-pentatonic"@.len() == 16);
}

/// The pitches of the scales above their tonic, in semitones, and their names.
pub proof fn lemma_scales(scale: Scale, i: int)
    ensures
        ({
            let d = scale_degrees(scale);
            match scale {
                Scale::MajorPentatonic => d.len() == 5 && d[0] == 0 && d[1] == 2 && d[2] == 4
                    && d[3] == 7 && d[4] == 9 && scale_name(scale) == "major pentatonic"@,
                Scale::MinorPentatonic => d.len() == 5 && d[0] == 0 && d[1] == 3 && d[2] == 5
                    && d[3] == 7 && d[4] == 10 && scale_name(scale) == "minor pentatonic"@,
                Scale::Dorian => d.len() == 7 && d[0] == 0 && d[1] == 2 && d[2] == 3 && d[3] == 5
                    && d[4] == 7 && d[5] == 9 && d[6] == 10 && scale_name(scale) == "dorian"@,
                Scale::Aeolian => d.len() == 7 && d[0] == 0 && d[1] == 2 && d[2] == 3 && d[3] == 5
                    && d[4] == 7 && d[5] == 8 && d[6] == 10 && scale_name(scale) == "aeolian"@,
            }
        }),
        0 <= i < scale_degrees(scale).len() - 1 ==> scale_degrees(scale)[i] < scale_degrees(
            scale,
        )[i + 1],
{
}

/// What the entries of a configuration choose: a scale only by a name, a tempo only by a
/// number from 30 to 240. What is missing chooses nothing; the scale is looked at first.
pub proof fn lemma_entries(scale: Option<EntryView>, bpm: Option<EntryView>)
    ensures
        ({
            let fine = scale is None || (scale->0 matches EntryView::Text(s) && scale_of(s)
                is Some);
            let chosen = match scale {
                Some(EntryView::Text(s)) => scale_of(s),
                _ => None,
            };
            let r = choice(scale, bpm);
            &&& scale matches Some(EntryView::Text(s)) ==> scale_of(s) is None ==> r == Err::<
                RepoConfig,
                ConfigFault,
            >(ConfigFault::UnknownScale(s))
            &&& scale is Some && !(scale->0 is Text) ==> r == Err::<RepoConfig, ConfigFault>(
                ConfigFault::ScaleNotText,
            )
            &&& fine && bpm is None ==> r == Ok::<RepoConfig, ConfigFault>(
                RepoConfig { scale: chosen, bpm: None },
            )
            &&& fine && bpm is Some && !(bpm->0 is Integer) ==> r == Err::<RepoConfig, ConfigFault>(
                ConfigFault::BpmNotInteger,
            )
            &&& fine ==> (bpm matches Some(EntryView::Integer(n)) ==> if n < 30 || n > 240 {
                r == Err::<RepoConfig, ConfigFault>(ConfigFault::BpmOutOfRange)
            } else {
                r is Ok && r->Ok_0.scale == chosen && r->Ok_0.bpm is Some && r->Ok_0.bpm->0 == n
            })
        }),
{
}

proof fn lemma_bare(names: Seq<Seq<char>>)
    requires
        plain_names(names),
    ensures
        bare_path(joined(names, '/')) == joined(names, '/'),
        joined(names, '/').len() > 0,
{
    let path = joined(names, '/');
    lemma_end_of_join(names);
    let last = names.last();
    assert(plain_name(last));
    assert(path.last() == last.last());
    assert(last[last.len() - 1] != '/');
    if path.len() > 1 && path.last() == '.' && path[path.len() - 2] == '/' {
        if last.len() > 1 {
            assert(path[path.len() - 2] == last[last.len() - 2]);
        } else {
            assert(last =~= seq!['.']);
        }
    }
}

proof fn lemma_end_of_join(names: Seq<Seq<char>>)
    requires
        names.len() > 0,
    ensures
        ({
            let path = joined(names, '/');
            let last = names.last();
            &&& path.len() >= last.len()
            &&& forall|i: int|
                0 <= i < last.len() ==> path[path.len() - last.len() + i] == #[trigger] last[i]
        }),
    decreases names.len(),
{
    if names.len() > 1 {
        let rest = names.drop_first();
        lemma_end_of_join(rest);
        let tail = joined(rest, '/');
        let path = joined(names, '/');
        let last = names.last();
        assert(rest.last() == last);
        assert forall|i: int| 0 <= i < last.len() implies path[path.len() - last.len() + i]
            == #[trigger] last[i] by {
            assert(tail[tail.len() - last.len() + i] == last[i]);
        }
    }
}

/// A path to write to that has no extension gets the format as one.
pub proof fn lemma_output_extended(
    names: Seq<Seq<char>>,
    format: Seq<char>,
    repo: Option<Seq<char>>,
)
    requires
        plain_names(names),
        without(names.last(), '.'),
        format.len() > 0,
    ensures
        output_at(Some(joined(names, '/')), format, repo) == Ok::<Seq<char>, Seq<char>>(
            joined(names, '/') + seq!['.'] + format,
        ),
{
    lemma_no_extension(names);
    lemma_path_of_names(names);
    lemma_bare(names);
    assert(joined(names, '/').push('.') + format =~= joined(names, '/') + seq!['.'] + format);
}

/// A path to write to that has an extension stays as it is, and asks by it for MIDI or for
/// sound; with any other extension, or none, there is no format.
pub proof fn lemma_output_kept(
    names: Seq<Seq<char>>,
    stem: Seq<char>,
    ext: Seq<char>,
    format: Seq<char>,
    repo: Option<Seq<char>>,
)
    requires
        plain_names(names),
        names.last() == stem + seq!['.'] + ext,
        stem.len() > 0,
        without(ext, '.'),
    ensures
        ({
            let path = joined(names, '/');
            &&& output_at(Some(path), format, repo) == Ok::<Seq<char>, Seq<char>>(path)
            &&& ext == "mid"@ || ext == "midi"@ ==> kind_of(path) == Ok::<OutputKind, Seq<char>>(
                OutputKind::Midi,
            )
            &&& ext == "wav"@ ==> kind_of(path) == Ok::<OutputKind, Seq<char>>(OutputKind::Wav)
            &&& ext != "mid"@ && ext != "midi"@ && ext != "wav"@ ==> kind_of(path) == Err::<
                OutputKind,
                Seq<char>,
            >("unsupported output extension (use .mid)"@)
        }),
{
    lemma_extension(names, stem, ext);
    reveal_strlit("mid");
    reveal_strlit("midi");
    reveal_strlit("wav");
    assert("wav"@[0] == 'w' && "mid"@[0] == 'm' && "midi"@[0] == 'm');
}

/// Without a path the piece is written under the name of the repository, or of the program
/// where there is none, with the format as its extension; a format that is neither is refused.
pub proof fn lemma_output_made_up(format: Seq<char>, repo: Option<Seq<char>>)
    ensures
        ({
            let name = match repo {
                Some(n) => n,
                None => "gitfugue"@,
            };
            if format == "mid"@ || format == "wav"@ {
                output_at(None, format, repo) == Ok::<Seq<char>, Seq<char>>(
                    name + seq!['.'] + format,
                )
            } else {
                output_at(None, format, repo) == Err::<Seq<char>, Seq<char>>(
                    "unknown format '"@ + format + "' (mid | wav)"@,
                )
            }
        }),
{
    reveal_strlit("mid");
    reveal_strlit(".mid");
    reveal_strlit("wav");
    reveal_strlit(".wav");
    assert("wav"@[0] == 'w' && "mid"@[0] == 'm');
    assert(".mid"@ =~= seq!['.'] + "mid"@);
    assert(".wav"@ =~= seq!['.'] + "wav"@);
    let name = match repo {
        Some(n) => n,
        None => "gitfugue"@,
    };
    assert(name + (seq!['.'] + "mid"@) =~= name + seq!['.'] + "mid"@);
    assert(name + (seq!['.'] + "wav"@) =~= name + seq!['.'] + "wav"@);
}

} // verus!
