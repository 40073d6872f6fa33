//! What a static piece makes of its code: its length, its voices, its phrases and its drone.

use vstd::prelude::*;

use crate::compose::{
    duration_of, globals, lang_at, lang_in, lang_used, lemma_phrases_played, lemma_sections_played,
    phrases_played, sections_played, static_fits, static_frame, static_score, target_bars,
    transition_made, used_langs, voice_of_lang, ComposeParams, StaticFrame, StaticPiece,
};
use crate::drone::{drone_from, hold, hold_within};
use crate::laws::phrasing::{lemma_run_length, run_length};
use crate::laws::sectioning::{lemma_all_lines, lines_where};
use crate::model::{FnUnit, Key, Lang, NoteEvent, Scale, UnitView};
use crate::motif::{bar_density, phrase_center, phrase_notes};
use crate::phrases::{bars_sum, section_phrases, PhraseSpec};
use crate::rng::{child_key_seed, child_seed, lemma_draw_below};
use crate::sorting::lemma_sorted_holds;
use crate::text::decimal;

verus! {

/// A static piece aims at its length in bars of four beats, eight at least. A length that is
/// not pinned is one and a half to three minutes.
pub proof fn lemma_target(seed: u64, params: ComposeParams)
    ensures
        ({
            let bpm = globals(seed, params).bpm as int;
            let secs = duration_of(seed, params);
            let bars = target_bars(seed, params);
            &&& params.duration_secs matches Some(d) ==> secs == d
            &&& params.duration_secs is None ==> 90 <= secs <= 180
            &&& bars >= 8
            &&& secs * bpm < 9 * 240 ==> bars == 8
            &&& secs * bpm >= 9 * 240 ==> bars * 240 <= secs * bpm < (bars + 1) * 240
        }),
{
    let bpm = globals(seed, params).bpm as int;
    let secs = duration_of(seed, params);
    lemma_draw_below(globals(seed, params).state, 91);
    let x = secs * bpm;
    assert(x >= 0) by (nonlinear_arith)
        requires
            x == secs * bpm,
            secs >= 0,
            bpm >= 0,
    ;
}

/// The General MIDI program and the name of the instrument of a family.
pub open spec fn family_instrument(lang: Lang) -> (u8, Seq<char>) {
    match lang {
        Lang::Systems => (42, "cello"@),
        Lang::Python => (0, "piano"@),
        Lang::JsTs => (4, "electric piano"@),
        Lang::Go => (12, "marimba"@),
        Lang::Jvm => (60, "french horn"@),
        Lang::Markup => (89, "warm pad"@),
        Lang::Docs => (88, "ambient pad"@),
        Lang::Config => (45, "pizzicato strings"@),
        Lang::Shell => (115, "woodblock"@),
        Lang::Other => (24, "nylon guitar"@),
    }
}

/// Whether one of the phrases of a piece is that of a function of a file of the family.
pub open spec fn family_heard(
    plans: Seq<Seq<PhraseSpec>>,
    units: Seq<UnitView>,
    lang: Lang,
) -> bool {
    exists|s: int, k: int|
        0 <= s < plans.len() && 0 <= k < plans[s].len() && units[(
        #[trigger] plans[s][k]).unit as int].language == lang
}

proof fn lemma_heard(plans: Seq<Seq<PhraseSpec>>, units: Seq<UnitView>, lang: Lang)
    ensures
        lang_used(plans, units, lang) <==> family_heard(plans, units, lang),
{
    if lang_used(plans, units, lang) {
        let s = choose|s: int| 0 <= s < plans.len() && #[trigger] lang_in(plans[s], units, lang);
        let k = choose|k: int|
            0 <= k < plans[s].len() && units[(#[trigger] plans[s][k]).unit as int].language
                == lang;
        assert(units[plans[s][k].unit as int].language == lang);
    }
    if family_heard(plans, units, lang) {
        let (s, k) = choose|s: int, k: int|
            0 <= s < plans.len() && 0 <= k < plans[s].len() && units[(
            #[trigger] plans[s][k]).unit as int].language == lang;
        assert(units[plans[s][k].unit as int].language == lang);
        assert(lang_in(plans[s], units, lang));
    }
}

/// The rank of a family.
spec fn family_rank(lang: Lang) -> int {
    match lang {
        Lang::Systems => 0,
        Lang::Python => 1,
        Lang::JsTs => 2,
        Lang::Go => 3,
        Lang::Jvm => 4,
        Lang::Markup => 5,
        Lang::Docs => 6,
        Lang::Config => 7,
        Lang::Shell => 8,
        Lang::Other => 9,
    }
}

proof fn lemma_langs(plans: Seq<Seq<PhraseSpec>>, units: Seq<UnitView>, k: int)
    requires
        0 <= k <= 10,
    ensures
        ({
            let langs = used_langs(plans, units, k);
            &&& langs.len() <= k
            &&& forall|i: int|
                0 <= i < langs.len() ==> family_heard(plans, units, #[trigger] langs[i])
                    && family_rank(langs[i]) < k
            &&& forall|i: int, j: int|
                0 <= i < j < langs.len() ==> family_rank(#[trigger] langs[i]) < family_rank(
                    #[trigger] langs[j],
                )
            &&& forall|lang: Lang|
                family_rank(lang) < k && #[trigger] family_heard(plans, units, lang)
                    ==> langs.contains(lang)
        }),
    decreases k,
{
    if k > 0 {
        lemma_langs(plans, units, k - 1);
        let before = used_langs(plans, units, k - 1);
        let langs = used_langs(plans, units, k);
        let lang = lang_at(k - 1);
        lemma_heard(plans, units, lang);
        assert(family_rank(lang) == k - 1);
        assert forall|l: Lang|
            family_rank(l) < k && #[trigger] family_heard(plans, units, l) implies langs.contains(
            l,
        ) by {
            if family_rank(l) < k - 1 {
                let i = choose|i: int| 0 <= i < before.len() && before[i] == l;
                assert(langs[i] == l);
            } else {
                assert(l == lang);
                assert(langs[before.len() as int] == l);
            }
        }
    }
}

proof fn lemma_voice_found(langs: Seq<Lang>, lang: Lang, from: int, at: int)
    requires
        0 <= from <= at < langs.len(),
        langs[at] == lang,
    ensures
        from <= voice_of_lang(langs, lang, from) <= at,
        langs[voice_of_lang(langs, lang, from)] == lang,
    decreases langs.len() - from,
{
    if langs[from] != lang {
        lemma_voice_found(langs, lang, from + 1, at);
    }
}

/// The voices of a static piece: one for each family that has a phrase, with its instrument,
/// and the drone. Each has a channel of its own, in order, and none that of the percussion.
pub proof fn lemma_voices_of_code(seed: u64, units: Seq<UnitView>, params: ComposeParams) -> (
    langs: Seq<Lang>)
    ensures
        ({
            let voices = static_score(seed, units, params).voices;
            let f = static_frame(seed, units, params);
            let n = langs.len() as int;
            &&& voices.len() == n + 1
            &&& n <= 10
            &&& forall|i: int|
                0 <= i < n ==> (voices[i].program, voices[i].name) == family_instrument(
                    #[trigger] langs[i],
                ) && family_heard(f.plans, units, langs[i])
            &&& forall|lang: Lang| #[trigger]
                family_heard(f.plans, units, lang) ==> langs.contains(lang)
            &&& forall|i: int, j: int|
                0 <= i < j < n ==> #[trigger] langs[i] != #[trigger] langs[j]
            &&& forall|i: int|
                0 <= i < voices.len() ==> (#[trigger] voices[i]).channel == (if i < 9 {
                    i
                } else {
                    i + 1
                })
            &&& voices[n].program == 89 && voices[n].name == "drone"@
        }),
{
    let f = static_frame(seed, units, params);
    let langs = f.langs;
    lemma_langs(f.plans, units, 10);
    assert forall|lang: Lang| #[trigger]
        family_heard(f.plans, units, lang) implies langs.contains(lang) by {
        assert(family_rank(lang) < 10);
    }
    assert forall|i: int, j: int| 0 <= i < j < langs.len() implies #[trigger] langs[i]
        != #[trigger] langs[j] by {
        assert(family_rank(langs[i]) < family_rank(langs[j]));
    }
    langs
}

/// A phrase is played by the voice of its family.
pub proof fn lemma_voice_of_phrase(
    seed: u64,
    units: Seq<UnitView>,
    params: ComposeParams,
    s: int,
    k: int,
)
    requires
        ({
            let f = static_frame(seed, units, params);
            0 <= s < f.plans.len() && 0 <= k < f.plans[s].len()
        }),
    ensures
        ({
            let f = static_frame(seed, units, params);
            let lang = units[f.plans[s][k].unit as int].language;
            let v = voice_of_lang(f.langs, lang, 0);
            let voice = static_score(seed, units, params).voices[v];
            &&& 0 <= v < f.langs.len()
            &&& (voice.program, voice.name) == family_instrument(lang)
        }),
{
    let f = static_frame(seed, units, params);
    let lang = units[f.plans[s][k].unit as int].language;
    lemma_langs(f.plans, units, 10);
    assert(family_heard(f.plans, units, lang));
    assert(family_rank(lang) < 10);
    let i = choose|i: int| 0 <= i < f.langs.len() && f.langs[i] == lang;
    lemma_voice_found(f.langs, lang, 0, i);
}

/// Functions nested eight deep or deeper all sound alike.
pub proof fn lemma_deep_functions(
    state: u64,
    key: Key,
    scale: Scale,
    unit: UnitView,
    f: FnUnit,
    g: FnUnit,
    bars: int,
    start: int,
    voice: usize,
)
    requires
        f.name_hash % 5 == g.name_hash % 5,
        f.nesting == g.nesting || (f.nesting >= 8 && g.nesting >= 8),
    ensures
        phrase_notes(state, key, scale, unit, f, bars, start, voice) == phrase_notes(
            state,
            key,
            scale,
            unit,
            g,
            bars,
            start,
            voice,
        ),
{
}

/// Functions nested seven deep or deeper borrow the minor pentatonic where the piece is in
/// the major one; the other scales, and shallower functions, stay as they are.
pub proof fn lemma_borrowed_scale(
    state: u64,
    key: Key,
    unit: UnitView,
    f: FnUnit,
    bars: int,
    start: int,
    voice: usize,
)
    requires
        f.nesting >= 7,
    ensures
        phrase_notes(state, key, Scale::MajorPentatonic, unit, f, bars, start, voice)
            == phrase_notes(state, key, Scale::MinorPentatonic, unit, f, bars, start, voice),
{
}

/// Of a unit a phrase takes its family and its depth alone, and of the depth the octave: three
/// directories further down sounds the same.
pub proof fn lemma_octave_by_depth(
    state: u64,
    key: Key,
    scale: Scale,
    unit: UnitView,
    other: UnitView,
    f: FnUnit,
    bars: int,
    start: int,
    voice: usize,
)
    requires
        unit.language == other.language,
        unit.depth % 3 == other.depth % 3,
    ensures
        phrase_notes(state, key, scale, unit, f, bars, start, voice) == phrase_notes(
            state,
            key,
            scale,
            other,
            f,
            bars,
            start,
            voice,
        ),
{
}

/// The register of a unit: that of its family, an octave lower at depths 0, 3 and so on, and
/// an octave higher at 2, 5 and so on.
pub proof fn lemma_register_of_unit(unit: UnitView)
    ensures
        ({
            let center: int = match unit.language {
                Lang::Systems => 48,
                Lang::Python => 64,
                Lang::JsTs => 64,
                Lang::Go => 67,
                Lang::Jvm => 55,
                Lang::Markup => 60,
                Lang::Docs => 57,
                Lang::Config => 62,
                Lang::Shell => 72,
                Lang::Other => 60,
            };
            &&& unit.depth % 3 == 0 ==> phrase_center(unit) == center - 12
            &&& unit.depth % 3 == 1 ==> phrase_center(unit) == center
            &&& unit.depth % 3 == 2 ==> phrase_center(unit) == center + 12
        }),
{
}

/// A bar of a phrase has four notes, three more for each four levels of nesting, up to ten;
/// and one less where it is the last.
pub proof fn lemma_density(t: int)
    requires
        0 <= t <= 8,
    ensures
        -2 <= 4 * (bar_density(t, false) - 4) - 3 * t <= 2,
        bar_density(0, false) == 4,
        bar_density(8, false) == 10,
        bar_density(t, true) == bar_density(t, false) - 1,
{
}

proof fn lemma_hold(transitions: Seq<u32>, at: int, k: int)
    requires
        0 <= k <= transitions.len(),
    ensures
        ({
            let h = hold(transitions, at, k);
            &&& 0 < h <= 3840
            &&& forall|i: int|
                0 <= i < k ==> (#[trigger] transitions[i]) <= at || transitions[i] >= at + h
            &&& h == 3840 || exists|i: int| 0 <= i < k && #[trigger] transitions[i] == at + h
        }),
    decreases k,
{
    if k > 0 {
        lemma_hold(transitions, at, k - 1);
        let h = hold(transitions, at, k);
        if h != 3840 {
            let before = hold(transitions, at, k - 1);
            if h == before {
                let i = choose|i: int|
                    0 <= i < k - 1 && #[trigger] transitions[i] == at + before;
                assert(transitions[i] == at + h);
            } else {
                assert(transitions[k - 1] == at + h);
            }
        }
    }
}

/// The drone: in a transition bar the fifth, then the root, half a bar each; elsewhere the
/// root and the fifth above it together, for two bars, or up to the next transition or the end
/// if that comes first; and then it goes on from there.
pub proof fn lemma_drone_goes_on(
    key: Key,
    end: int,
    transitions: Seq<u32>,
    voice: usize,
    at: int,
) -> (dur: int)
    requires
        key.root < 12,
        0 <= at < end,
        end + 1920 <= u32::MAX,
    ensures
        ({
            let all = drone_from(key, end, transitions, voice, at);
            &&& 0 < dur <= 3840
            &&& all.len() >= 2
            &&& all.skip(2) == drone_from(key, end, transitions, voice, at + dur)
            &&& all[0].voice == voice && all[1].voice == voice && all[0].start == at
            &&& if transitions.contains(at as u32) {
                &&& dur == 1920
                &&& all[0].pitch == 43 + key.root && all[0].dur == 960 && all[0].velocity == 52
                &&& all[1].pitch == 36 + key.root && all[1].dur == 960 && all[1].velocity == 56
                &&& all[1].start == at + 960
            } else {
                &&& all[0].pitch == 36 + key.root && all[0].dur == dur && all[0].velocity == 44
                &&& all[1].pitch == 43 + key.root && all[1].dur == dur && all[1].velocity == 38
                &&& all[1].start == at
                &&& at + dur <= end
                &&& forall|i: int|
                    0 <= i < transitions.len() ==> (#[trigger] transitions[i]) <= at
                        || transitions[i] >= at + dur
                &&& dur == 3840 || at + dur == end || exists|i: int|
                    0 <= i < transitions.len() && #[trigger] transitions[i] == at + dur
            }
        }),
{
    let all = drone_from(key, end, transitions, voice, at);
    lemma_hold(transitions, at, transitions.len() as int);
    let dur = if transitions.contains(at as u32) {
        1920
    } else {
        hold_within(transitions, at, end)
    };
    assert(all.skip(2) =~= drone_from(key, end, transitions, voice, at + dur));
    dur
}

/// The tick at which the phrase `k` of the section `s` starts: behind the phrases before it,
/// with a bar between each two sections.
pub open spec fn phrase_start(plans: Seq<Seq<PhraseSpec>>, s: int, k: int) -> int
    decreases s,
{
    if s <= 0 {
        1920 * run_length(plans[0].take(k))
    } else {
        phrase_start(plans, s - 1, plans[s - 1].len() as int) + 1920 + 1920 * run_length(
            plans[s].take(k),
        )
    }
}

proof fn lemma_starts(f: StaticFrame, s: int, k: int)
    requires
        0 <= s < f.plans.len(),
        0 <= k <= f.plans[s].len(),
    ensures
        ({
            let p = transition_made(sections_played(f, s), s);
            &&& phrases_played(f, p, s, k).tick == phrase_start(f.plans, s, k)
            &&& sections_played(f, s + 1).tick == phrase_start(
                f.plans,
                s,
                f.plans[s].len() as int,
            )
        }),
    decreases s,
{
    let n = f.plans[s].len() as int;
    let p = transition_made(sections_played(f, s), s);
    if s > 0 {
        lemma_starts(f, s - 1, f.plans[s - 1].len() as int);
    }
    lemma_phrases_played(f, p, s, k);
    lemma_phrases_played(f, p, s, n);
    lemma_run_length(f.plans[s].take(k));
    lemma_run_length(f.plans[s].take(n));
}

proof fn lemma_phrases_kept(f: StaticFrame, p: StaticPiece, s: int, k: int, e: NoteEvent)
    requires
        p.notes.contains(e),
    ensures
        phrases_played(f, p, s, k).notes.contains(e),
    decreases k,
{
    if k > 0 {
        lemma_phrases_kept(f, p, s, k - 1, e);
        let before = phrases_played(f, p, s, k - 1).notes;
        let now = phrases_played(f, p, s, k).notes;
        let i = choose|i: int| 0 <= i < before.len() && before[i] == e;
        assert(now[i] == e);
    }
}

proof fn lemma_later_phrases(
    f: StaticFrame,
    p: StaticPiece,
    s: int,
    k: int,
    n: int,
    e: NoteEvent,
)
    requires
        0 <= k <= n,
        phrases_played(f, p, s, k).notes.contains(e),
    ensures
        phrases_played(f, p, s, n).notes.contains(e),
    decreases n - k,
{
    if k < n {
        let before = phrases_played(f, p, s, k).notes;
        let now = phrases_played(f, p, s, k + 1).notes;
        let i = choose|i: int| 0 <= i < before.len() && before[i] == e;
        assert(now[i] == e);
        lemma_later_phrases(f, p, s, k + 1, n, e);
    }
}

proof fn lemma_sections_kept(f: StaticFrame, s: int, n: int, e: NoteEvent)
    requires
        0 <= s <= n,
        sections_played(f, s).notes.contains(e),
    ensures
        sections_played(f, n).notes.contains(e),
    decreases n - s,
{
    if s < n {
        let p = transition_made(sections_played(f, s), s);
        lemma_phrases_kept(f, p, s, f.plans[s].len() as int, e);
        lemma_sections_kept(f, s + 1, n, e);
    }
}

/// The notes of the phrase `k` of the section `s`, in its place: made from the seed, the name
/// of its section and the hashes of its unit and its function.
pub open spec fn phrase_in_place(f: StaticFrame, s: int, k: int) -> Seq<NoteEvent> {
    let phrase = f.plans[s][k];
    let unit = f.units[phrase.unit as int];
    let func = unit.functions[phrase.func as int];
    phrase_notes(
        child_key_seed(
            child_seed(f.seed, "section:"@ + f.sections[s].name),
            unit.ident_hash ^ func.name_hash,
        ),
        f.key,
        f.scale,
        unit,
        func,
        phrase.bars as int,
        phrase_start(f.plans, s, k),
        voice_of_lang(f.langs, unit.language, 0) as usize,
    )
}

proof fn lemma_phrase_added(f: StaticFrame, s: int, k: int)
    requires
        0 <= s < f.plans.len(),
        0 <= k < f.plans[s].len(),
    ensures
        ({
            let p = transition_made(sections_played(f, s), s);
            phrases_played(f, p, s, k + 1).notes == phrases_played(f, p, s, k).notes
                + phrase_in_place(f, s, k)
        }),
{
    lemma_starts(f, s, k);
}

proof fn lemma_in_score(seed: u64, units: Seq<UnitView>, params: ComposeParams, e: NoteEvent)
    requires
        ({
            let f = static_frame(seed, units, params);
            sections_played(f, f.sections.len() as int).notes.contains(e)
        }),
    ensures
        static_score(seed, units, params).events.contains(e),
{
    let f = static_frame(seed, units, params);
    let last = sections_played(f, f.sections.len() as int);
    let all = last.notes + drone_from(
        f.key,
        last.tick,
        last.transitions,
        f.langs.len() as usize,
        0,
    );
    let j = choose|j: int| 0 <= j < last.notes.len() && last.notes[j] == e;
    assert(all[j] == e);
    lemma_sorted_holds(all, e);
}

proof fn lemma_phrase_in_piece(f: StaticFrame, s: int, k: int, e: NoteEvent)
    requires
        0 <= s < f.plans.len(),
        0 <= k < f.plans[s].len(),
        phrase_in_place(f, s, k).contains(e),
    ensures
        sections_played(f, f.plans.len() as int).notes.contains(e),
{
    let p = transition_made(sections_played(f, s), s);
    let before = phrases_played(f, p, s, k).notes;
    let now = phrases_played(f, p, s, k + 1).notes;
    let own = phrase_in_place(f, s, k);
    lemma_phrase_added(f, s, k);
    let i = choose|i: int| 0 <= i < own.len() && own[i] == e;
    assert(now[before.len() + i] == e);
    lemma_later_phrases(f, p, s, k + 1, f.plans[s].len() as int, e);
    lemma_sections_kept(f, s + 1, f.plans.len() as int, e);
}

/// A phrase is heard in its place, behind the phrases before it.
pub proof fn lemma_phrase_heard(
    seed: u64,
    units: Seq<UnitView>,
    params: ComposeParams,
    s: int,
    k: int,
    e: NoteEvent,
)
    requires
        ({
            let f = static_frame(seed, units, params);
            &&& 0 <= s < f.plans.len()
            &&& 0 <= k < f.plans[s].len()
            &&& phrase_in_place(f, s, k).contains(e)
        }),
    ensures
        static_score(seed, units, params).events.contains(e),
{
    let f = static_frame(seed, units, params);
    lemma_phrase_in_piece(f, s, k, e);
    lemma_in_score(seed, units, params, e);
}

/// The liner notes of a static piece begin with its choices and a line for each section.
pub proof fn lemma_liner_of_code(seed: u64, units: Seq<UnitView>, params: ComposeParams, i: int)
    requires
        0 <= i < static_frame(seed, units, params).sections.len(),
    ensures
        ({
            let s = static_score(seed, units, params);
            let sec = static_frame(seed, units, params).sections[i];
            &&& s.liner_notes[0] == "key: "@ + crate::model::key_name(s.key.root) + " "@
                + crate::model::scale_name(s.scale) + "  bpm: "@ + decimal(s.bpm_base as nat)
                + "  target: "@ + decimal(duration_of(seed, params) as nat) + "s ("@ + decimal(
                target_bars(seed, params) as nat,
            ) + " bars)"@
            &&& s.liner_notes[1 + i] == "section "@ + sec.name + ": "@ + decimal(sec.bars as nat)
                + " bars ("@ + decimal(sec.loc as nat) + " loc, "@ + decimal(
                sec.unit_indices.len(),
            ) + " files)"@
        }),
{
}

/// The tick at which a static piece ends.
pub open spec fn piece_end(plans: Seq<Seq<PhraseSpec>>) -> int {
    if plans.len() == 0 {
        0
    } else {
        phrase_start(plans, plans.len() - 1, plans[plans.len() - 1].len() as int)
    }
}

/// Code can be composed if and only if the beats that it aims at, the lines of its files, the
/// bars that each section needs, and the ticks up to the end fit into the integers for them.
pub proof fn lemma_code_can_be_composed(seed: u64, units: Seq<UnitView>, params: ComposeParams)
    requires
        duration_of(seed, params) * globals(seed, params).bpm <= u32::MAX,
    ensures
        ({
            let f = static_frame(seed, units, params);
            static_fits(seed, units, params) <==> {
                &&& lines_where(units, |u: UnitView| true) <= u64::MAX
                &&& forall|i: int|
                    0 <= i < f.sections.len() ==> run_length(
                        section_phrases(#[trigger] f.sections[i], units),
                    ) <= 0xffff_ffff
                &&& piece_end(f.plans) <= 0xffff_ffff
            }
        }),
{
    let f = static_frame(seed, units, params);
    let n = f.plans.len() as int;
    lemma_all_lines(units);
    lemma_sections_played(f, n);
    if n > 0 {
        lemma_starts(f, n - 1, f.plans[n - 1].len() as int);
    }
    assert forall|i: int| 0 <= i < f.sections.len() implies run_length(
        section_phrases(#[trigger] f.sections[i], units),
    ) == bars_sum(section_phrases(f.sections[i], units)) by {
        lemma_run_length(section_phrases(f.sections[i], units));
    }
}

/// What a static score tells of its choices: the seed, the tempo and the scale that were
/// pinned, one tempo from the start, and no change of program.
pub proof fn lemma_particulars_of_code(seed: u64, units: Seq<UnitView>, params: ComposeParams)
    ensures
        ({
            let s = static_score(seed, units, params);
            &&& s.seed == seed
            &&& s.key.root < 12
            &&& params.bpm matches Some(b) ==> s.bpm_base == b
            &&& params.bpm is None ==> 70 <= s.bpm_base <= 110
            &&& params.scale matches Some(scale) ==> s.scale == scale
            &&& s.tempo_map.len() == 1 && s.tempo_map[0] == (0u32, s.bpm_base)
            &&& s.program_changes.len() == 0
        }),
{
    crate::compose::lemma_globals(seed, params);
}

} // verus!
