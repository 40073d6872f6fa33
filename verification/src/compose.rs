//! The composer: from the model of a repository to a score. All musical decisions are
//! made here.

use vstd::prelude::*;
use vstd::string::StringExecFns;

use crate::compose_history::{compose_history, history_fits, history_score};
use crate::drone::{drone_from, gen_drone};
use crate::model::{
    instrument_of, key_name, program_of, scale_name, CodeUnit, Key, Lang, NoteEvent, RepoModel,
    Scale, Score, ScoreView, Tick, UnitView, Voice, VoiceView,
};
use crate::motif::{gen_phrase, phrase_notes};
use crate::phrases::{
    bars_sum, lemma_planned, phrases_countable, phrases_wf, plan_phrases, planned, sample_lines,
    section_phrases, section_wf, PhraseSpec,
};
use crate::rng::{
    advance, child_key_seed, child_seed, draw_below, draw_range, draw_weighted, lemma_draw_below,
    weight_sum, Rng,
};
use crate::sections::{
    lemma_section_bars, lemma_units_under, loc_sum, plan_sections, section_names, sections, Section,
    SectionView,
};
use crate::sorting::{sort, sorted, views};
use crate::text::{decimal, push_decimal, texts};

verus! {

/// Ticks per quarter note.
pub const TPQ: u32 = 480;

/// Ticks per sixteenth, the grid that notes stand on.
pub const SLOT: u32 = 120;

/// Ticks per bar of four quarters.
pub const BAR: u32 = 1920;

/// Whether a note begins and ends on the grid of sixteenths that starts at a tick.
#[verifier::opaque]
pub open spec fn on_grid(e: NoteEvent, from: int) -> bool {
    (e.start - from) % SLOT as int == 0 && e.dur % SLOT == 0
}

/// Whether a bar can begin at a tick.
#[verifier::opaque]
pub open spec fn on_bar(tick: int) -> bool {
    tick % BAR as int == 0
}

/// A note that is placed and held by sixteenths is on the grid.
pub proof fn lemma_placed_on_grid(e: NoteEvent, from: int, place: int, length: int)
    requires
        e.start == from + place * SLOT,
        e.dur == length * SLOT,
    ensures
        on_grid(e, from),
{
    reveal(on_grid);
}

/// A grid that starts with a bar is that of the whole piece.
pub proof fn lemma_whole_grid(e: NoteEvent, from: int)
    requires
        on_grid(e, from),
        on_bar(from),
    ensures
        on_grid(e, 0),
{
    reveal(on_grid);
    reveal(on_bar);
}

/// A note that begins with a bar is on the grid.
pub proof fn lemma_bar_note(e: NoteEvent, length: int)
    requires
        on_bar(e.start as int),
        e.dur == length * SLOT,
    ensures
        on_grid(e, 0),
{
    reveal(on_grid);
    reveal(on_bar);
}

/// Some bars behind a tick where a bar can begin, another can.
pub proof fn lemma_bars_on(tick: int, bars: int)
    requires
        on_bar(tick),
    ensures
        on_bar(tick + bars * BAR),
{
    reveal(on_bar);
}

/// What the caller pins; the rest is chosen from the seed.
#[derive(Debug, Clone, Copy)]
pub struct ComposeParams {
    pub scale: Option<Scale>,
    pub bpm: Option<u16>,
    pub duration_secs: Option<u32>,
}

/// The global choices of a piece, and the generator's state behind them.
pub struct Globals {
    pub key: Key,
    pub scale: Scale,
    pub bpm: u16,
    pub state: u64,
}

/// The key, the scale and the tempo that a seed gives. A pinned scale or tempo is not
/// drawn, so that the draws behind it move up.
pub open spec fn globals(seed: u64, params: ComposeParams) -> Globals {
    let s0 = child_seed(seed, "global"@);
    let s1 = advance(s0);
    let (scale, s2) = match params.scale {
        Some(scale) => (scale, s1),
        None => (
            if draw_weighted(s1, seq![60u32, 40]) == 0 {
                Scale::MajorPentatonic
            } else {
                Scale::MinorPentatonic
            },
            advance(s1),
        ),
    };
    let (bpm, s3) = match params.bpm {
        Some(bpm) => (bpm, s2),
        None => (draw_range(s2, 70, 110) as u16, advance(s2)),
    };
    Globals { key: Key { root: draw_below(s0, 12) as u8 }, scale, bpm, state: s3 }
}

/// The key and, if they are not pinned, the scale and the tempo come from the seed alone:
/// the tonic is a pitch class, the scale a pentatonic one, the tempo 70 to 110.
pub proof fn lemma_globals(seed: u64, params: ComposeParams)
    ensures
        globals(seed, params).key.root < 12,
        params.scale is Some ==> globals(seed, params).scale == params.scale->0,
        params.scale is None ==> globals(seed, params).scale == Scale::MajorPentatonic || globals(
            seed,
            params,
        ).scale == Scale::MinorPentatonic,
        params.bpm is Some ==> globals(seed, params).bpm == params.bpm->0,
        params.bpm is None ==> 70 <= globals(seed, params).bpm <= 110,
{
    let s0 = child_seed(seed, "global"@);
    lemma_draw_below(s0, 12);
    let s1 = advance(s0);
    let s2 = match params.scale {
        Some(_) => s1,
        None => advance(s1),
    };
    lemma_draw_below(s2, 41);
}

/// Chooses the key, the scale and the tempo, and gives the generator for what follows.
pub fn choose_globals(seed: u64, params: &ComposeParams) -> (r: (Key, Scale, u16, Rng))
    ensures
        ({
            let g = globals(seed, *params);
            r.0 == g.key && r.1 == g.scale && r.2 == g.bpm && r.3@ == g.state
        }),
        r.0.root < 12,
{
    proof {
        lemma_globals(seed, *params);
        reveal_with_fuel(weight_sum, 3);
        assert([60u32, 40]@ =~= seq![60u32, 40]);
    }
    let mut rng = Rng::new(seed).child("global");
    let key = Key { root: rng.below(12) as u8 };
    let scale: Scale = match params.scale {
        Some(scale) => scale,
        None => {
            if rng.weighted(&[60, 40]) == 0 {
                Scale::MajorPentatonic
            } else {
                Scale::MinorPentatonic
            }
        },
    };
    let bpm: u16 = match params.bpm {
        Some(bpm) => bpm,
        None => rng.range(70, 110) as u16,
    };
    (key, scale, bpm, rng)
}

/// The target length of a static piece in seconds: the pinned one, or 90 to 180 by the
/// seed.
pub open spec fn duration_of(seed: u64, params: ComposeParams) -> int {
    match params.duration_secs {
        Some(d) => d as int,
        None => draw_range(globals(seed, params).state, 90, 180),
    }
}

/// The bars that a static piece aims at: those of its length in 4/4, at least eight.
pub open spec fn target_bars(seed: u64, params: ComposeParams) -> int {
    let bars = (duration_of(seed, params) * globals(seed, params).bpm) / 240;
    if bars < 8 {
        8
    } else {
        bars
    }
}

/// The sections of a static piece.
pub open spec fn static_sections(
    seed: u64,
    units: Seq<UnitView>,
    params: ComposeParams,
) -> Seq<SectionView> {
    sections(units, target_bars(seed, params))
}

/// The phrases of the sections.
pub open spec fn plans(secs: Seq<SectionView>, units: Seq<UnitView>) -> Seq<Seq<PhraseSpec>> {
    secs.map_values(|s: SectionView| planned(s, units))
}

/// The language families in their order.
pub open spec fn lang_at(r: int) -> Lang {
    if r == 0 {
        Lang::Systems
    } else if r == 1 {
        Lang::Python
    } else if r == 2 {
        Lang::JsTs
    } else if r == 3 {
        Lang::Go
    } else if r == 4 {
        Lang::Jvm
    } else if r == 5 {
        Lang::Markup
    } else if r == 6 {
        Lang::Docs
    } else if r == 7 {
        Lang::Config
    } else if r == 8 {
        Lang::Shell
    } else {
        Lang::Other
    }
}

/// Whether one of the phrases is of a family.
pub open spec fn lang_in(phrases: Seq<PhraseSpec>, units: Seq<UnitView>, lang: Lang) -> bool {
    exists|j: int|
        0 <= j < phrases.len() && units[(#[trigger] phrases[j]).unit as int].language == lang
}

/// Whether one of the sections has a phrase of a family.
pub open spec fn lang_used(plans: Seq<Seq<PhraseSpec>>, units: Seq<UnitView>, lang: Lang) -> bool {
    exists|i: int| 0 <= i < plans.len() && #[trigger] lang_in(plans[i], units, lang)
}

/// The families among the first `k` that have phrases.
pub open spec fn used_langs(
    plans: Seq<Seq<PhraseSpec>>,
    units: Seq<UnitView>,
    k: int,
) -> Seq<Lang>
    decreases k,
{
    if k <= 0 {
        seq![]
    } else if lang_used(plans, units, lang_at(k - 1)) {
        used_langs(plans, units, k - 1).push(lang_at(k - 1))
    } else {
        used_langs(plans, units, k - 1)
    }
}

/// The channel of a voice: its number, but for channel 9, which is kept for percussion.
pub open spec fn channel_of(voice: int) -> int {
    if voice < 9 {
        voice
    } else {
        voice + 1
    }
}

/// The voices of a static piece: one for each family, and the drone.
pub open spec fn static_voices(langs: Seq<Lang>) -> Seq<VoiceView> {
    Seq::new(
        langs.len(),
        |i: int|
            VoiceView {
                name: instrument_of(langs[i]),
                channel: channel_of(i) as u8,
                program: program_of(langs[i]),
            },
    ).push(
        VoiceView {
            name: "drone"@,
            channel: channel_of(langs.len() as int) as u8,
            program: 89,
        },
    )
}

/// The voice of a family, looked for from `from` on.
pub open spec fn voice_of_lang(langs: Seq<Lang>, lang: Lang, from: int) -> int
    decreases langs.len() - from,
{
    if from >= langs.len() || langs[from] == lang {
        from
    } else {
        voice_of_lang(langs, lang, from + 1)
    }
}

/// What a static piece is made of.
#[verifier::ext_equal]
pub struct StaticFrame {
    pub seed: u64,
    pub key: Key,
    pub scale: Scale,
    pub units: Seq<UnitView>,
    pub sections: Seq<SectionView>,
    pub plans: Seq<Seq<PhraseSpec>>,
    pub langs: Seq<Lang>,
}

/// A static piece as far as it has been composed.
#[verifier::ext_equal]
pub struct StaticPiece {
    pub notes: Seq<NoteEvent>,
    pub tick: int,
    pub transitions: Seq<Tick>,
}

/// The seed of a section.
pub open spec fn section_seed(seed: u64, name: Seq<char>) -> u64 {
    child_seed(seed, "section:"@ + name)
}

/// The piece with the first `k` phrases of the section `s`.
pub open spec fn phrases_played(f: StaticFrame, p: StaticPiece, s: int, k: int) -> StaticPiece
    decreases k,
{
    if k <= 0 {
        p
    } else {
        let before = phrases_played(f, p, s, k - 1);
        let phrase = f.plans[s][k - 1];
        let unit = f.units[phrase.unit as int];
        let func = unit.functions[phrase.func as int];
        StaticPiece {
            notes: before.notes + phrase_notes(
                child_key_seed(
                    section_seed(f.seed, f.sections[s].name),
                    unit.ident_hash ^ func.name_hash,
                ),
                f.key,
                f.scale,
                unit,
                func,
                phrase.bars as int,
                before.tick,
                voice_of_lang(f.langs, unit.language, 0) as usize,
            ),
            tick: before.tick + phrase.bars * BAR,
            ..before
        }
    }
}

/// The piece with a transition bar in front of every section but the first.
pub open spec fn transition_made(p: StaticPiece, s: int) -> StaticPiece {
    if s > 0 {
        StaticPiece {
            tick: p.tick + BAR,
            transitions: p.transitions.push(p.tick as u32),
            ..p
        }
    } else {
        p
    }
}

/// The piece with its first `s` sections.
pub open spec fn sections_played(f: StaticFrame, s: int) -> StaticPiece
    decreases s,
{
    if s <= 0 {
        StaticPiece { notes: seq![], tick: 0, transitions: seq![] }
    } else {
        phrases_played(
            f,
            transition_made(sections_played(f, s - 1), s - 1),
            s - 1,
            f.plans[s - 1].len() as int,
        )
    }
}

/// The bars of the first `s` sections, with the transitions between them.
pub open spec fn played_bars(plans: Seq<Seq<PhraseSpec>>, s: int) -> int
    decreases s,
{
    if s <= 0 {
        0
    } else {
        played_bars(plans, s - 1) + bars_sum(plans[s - 1]) + if s > 1 {
            1int
        } else {
            0
        }
    }
}

/// The line about the global choices of a static piece.
pub open spec fn target_line(
    key: Key,
    scale: Scale,
    bpm: u16,
    duration: int,
    bars: int,
) -> Seq<char> {
    "key: "@ + key_name(key.root) + " "@ + scale_name(scale) + "  bpm: "@ + decimal(bpm as nat)
        + "  target: "@ + decimal(duration as nat) + "s ("@ + decimal(bars as nat) + " bars)"@
}

/// The line about a section.
pub open spec fn section_line(s: SectionView) -> Seq<char> {
    "section "@ + s.name + ": "@ + decimal(s.bars as nat) + " bars ("@ + decimal(s.loc as nat)
        + " loc, "@ + decimal(s.unit_indices.len()) + " files)"@
}

/// The line about a voice.
pub open spec fn voice_line(i: int, lang: Lang) -> Seq<char> {
    "voice "@ + decimal(i as nat) + ": "@ + instrument_of(lang)
}

/// The lines about the sections whose functions were sampled, among the first `s`.
pub open spec fn all_sample_lines(
    secs: Seq<SectionView>,
    units: Seq<UnitView>,
    s: int,
) -> Seq<Seq<char>>
    decreases s,
{
    if s <= 0 {
        seq![]
    } else {
        all_sample_lines(secs, units, s - 1) + sample_lines(secs[s - 1], units)
    }
}

/// What a static piece is made of.
pub open spec fn static_frame(
    seed: u64,
    units: Seq<UnitView>,
    params: ComposeParams,
) -> StaticFrame {
    let g = globals(seed, params);
    let secs = static_sections(seed, units, params);
    let p = plans(secs, units);
    StaticFrame {
        seed,
        key: g.key,
        scale: g.scale,
        units,
        sections: secs,
        plans: p,
        langs: used_langs(p, units, 10),
    }
}

/// The liner notes of a static piece.
pub open spec fn static_lines(
    seed: u64,
    units: Seq<UnitView>,
    params: ComposeParams,
) -> Seq<Seq<char>> {
    let g = globals(seed, params);
    let f = static_frame(seed, units, params);
    seq![
        target_line(
            g.key,
            g.scale,
            g.bpm,
            duration_of(seed, params),
            target_bars(seed, params),
        ),
    ] + f.sections.map_values(|s: SectionView| section_line(s)) + all_sample_lines(
        f.sections,
        units,
        f.sections.len() as int,
    ) + Seq::new(f.langs.len(), |i: int| voice_line(i, f.langs[i]))
}

/// The score of the code at HEAD.
pub open spec fn static_score(
    seed: u64,
    units: Seq<UnitView>,
    params: ComposeParams,
) -> ScoreView {
    let g = globals(seed, params);
    let f = static_frame(seed, units, params);
    let p = sections_played(f, f.sections.len() as int);
    ScoreView {
        bpm_base: g.bpm,
        key: g.key,
        scale: g.scale,
        voices: static_voices(f.langs),
        events: sorted(
            p.notes + drone_from(
                g.key,
                p.tick,
                p.transitions,
                f.langs.len() as usize,
                0,
            ),
        ),
        tempo_map: seq![(0u32, g.bpm)],
        program_changes: seq![],
        liner_notes: static_lines(seed, units, params),
        seed,
    }
}

/// What the code must meet to be composed: the lengths, sums and ticks fit into the
/// integers that hold them.
pub open spec fn static_fits(seed: u64, units: Seq<UnitView>, params: ComposeParams) -> bool {
    let secs = static_sections(seed, units, params);
    &&& duration_of(seed, params) * globals(seed, params).bpm <= u32::MAX
    &&& loc_sum(units, units.len() as int) <= u64::MAX
    &&& forall|i: int|
        0 <= i < secs.len() ==> bars_sum(section_phrases(#[trigger] secs[i], units)) <= u32::MAX
    &&& played_bars(plans(secs, units), secs.len() as int) * BAR <= u32::MAX
}

/// The phrases of a section follow one another without a gap.
pub proof fn lemma_phrases_played(f: StaticFrame, p: StaticPiece, s: int, k: int)
    requires
        0 <= k <= f.plans[s].len(),
    ensures
        phrases_played(f, p, s, k).tick == p.tick + bars_sum(f.plans[s].take(k)) * BAR,
        phrases_played(f, p, s, k).transitions == p.transitions,
    decreases k,
{
    assert(f.plans[s].take(0) =~= Seq::<PhraseSpec>::empty());
    if k > 0 {
        lemma_phrases_played(f, p, s, k - 1);
        assert(f.plans[s].take(k).drop_last() =~= f.plans[s].take(k - 1));
    }
}

/// The sections follow one another with a transition bar in between, so that a static piece
/// lasts as many bars as its phrases and transitions have together.
pub proof fn lemma_sections_played(f: StaticFrame, s: int)
    requires
        0 <= s <= f.plans.len(),
    ensures
        sections_played(f, s).tick == played_bars(f.plans, s) * BAR,
        sections_played(f, s).transitions.len() == (if s > 1 {
            s - 1
        } else {
            0
        }),
    decreases s,
{
    if s > 0 {
        lemma_sections_played(f, s - 1);
        let p = transition_made(sections_played(f, s - 1), s - 1);
        let n = f.plans[s - 1].len() as int;
        lemma_phrases_played(f, p, s - 1, n);
        assert(f.plans[s - 1].take(n) =~= f.plans[s - 1]);
    }
}

/// The first phrases take no more bars than all of them.
pub proof fn lemma_bars_nonneg(phrases: Seq<PhraseSpec>, k: int)
    requires
        0 <= k <= phrases.len(),
    ensures
        0 <= bars_sum(phrases.take(k)) <= bars_sum(phrases),
    decreases phrases.len(),
{
    if k < phrases.len() {
        lemma_bars_nonneg(phrases.drop_last(), k);
        assert(phrases.drop_last().take(k) =~= phrases.take(k));
    } else {
        assert(phrases.take(k) =~= phrases);
        if phrases.len() > 0 {
            lemma_bars_nonneg(phrases.drop_last(), 0);
            lemma_bars_nonneg(phrases.drop_last(), phrases.len() - 1);
        }
    }
}

/// The first sections take no more bars than more of them.
pub proof fn lemma_played_bars(plans: Seq<Seq<PhraseSpec>>, a: int, b: int)
    requires
        0 <= a <= b <= plans.len(),
    ensures
        0 <= played_bars(plans, a) <= played_bars(plans, b),
    decreases b,
{
    if a < b {
        lemma_played_bars(plans, a, b - 1);
        lemma_bars_nonneg(plans[b - 1], 0);
    } else if b > 0 {
        lemma_played_bars(plans, b - 1, b - 1);
        lemma_bars_nonneg(plans[b - 1], 0);
    }
}

/// Every family that has a phrase is among the families of a piece.
pub proof fn lemma_used_langs(plans: Seq<Seq<PhraseSpec>>, units: Seq<UnitView>, k: int)
    requires
        0 <= k <= 10,
    ensures
        used_langs(plans, units, k).len() <= k,
        forall|r: int|
            0 <= r < k && #[trigger] lang_used(plans, units, lang_at(r)) ==> used_langs(
                plans,
                units,
                k,
            ).contains(lang_at(r)),
    decreases k,
{
    if k > 0 {
        lemma_used_langs(plans, units, k - 1);
        let before = used_langs(plans, units, k - 1);
        let now = used_langs(plans, units, k);
        assert forall|r: int|
            0 <= r < k && #[trigger] lang_used(plans, units, lang_at(r)) implies now.contains(
            lang_at(r),
        ) by {
            if r < k - 1 {
                let i = choose|i: int| 0 <= i < before.len() && before[i] == lang_at(r);
                assert(now[i] == lang_at(r));
            } else {
                assert(now[before.len() as int] == lang_at(r));
            }
        }
    }
}

/// Every section of the plan names units that are there and has a bar.
pub proof fn lemma_sections_wf(units: Seq<UnitView>, total_bars: int, i: int)
    requires
        0 <= total_bars <= u32::MAX,
        units.len() <= usize::MAX,
        0 <= i < sections(units, total_bars).len(),
    ensures
        section_wf(sections(units, total_bars)[i], units),
{
    let n = units.len() as int;
    let name = section_names(units, n)[i];
    lemma_section_bars(units, total_bars);
    lemma_units_under(units, name, n);
}

/// The phrases in a list of phrase lists.
pub open spec fn phrase_lists(v: Seq<Vec<PhraseSpec>>) -> Seq<Seq<PhraseSpec>> {
    v.map_values(|p: Vec<PhraseSpec>| p@)
}

/// The line about a section.
fn section_text(s: &Section) -> (r: String)
    ensures
        r@ == section_line(s@),
{
    let mut line = String::from_str("section ");
    line.append(s.name.as_str());
    line.append(": ");
    push_decimal(&mut line, s.bars as u64);
    line.append(" bars (");
    push_decimal(&mut line, s.loc);
    line.append(" loc, ");
    push_decimal(&mut line, s.unit_indices.len() as u64);
    line.append(" files)");
    line
}

/// The language family with the given number.
fn nth_lang(r: u32) -> (lang: Lang)
    ensures
        lang == lang_at(r as int),
{
    match r {
        0 => Lang::Systems,
        1 => Lang::Python,
        2 => Lang::JsTs,
        3 => Lang::Go,
        4 => Lang::Jvm,
        5 => Lang::Markup,
        6 => Lang::Docs,
        7 => Lang::Config,
        8 => Lang::Shell,
        _ => Lang::Other,
    }
}

/// Whether one of the phrases is of a family.
fn has_lang(phrases: &Vec<PhraseSpec>, units: &[CodeUnit], lang: Lang) -> (r: bool)
    requires
        phrases_wf(phrases@, views(units@)),
    ensures
        r == lang_in(phrases@, views(units@), lang),
{
    let ghost all = views(units@);
    for j in 0..phrases.len()
        invariant
            all == views(units@),
            phrases_wf(phrases@, all),
            forall|i: int|
                0 <= i < j ==> all[(#[trigger] phrases@[i]).unit as int].language != lang,
    {
        assert(crate::phrases::phrase_wf(phrases@[j as int], all));
        assert(all[phrases@[j as int].unit as int] == units@[phrases@[j as int].unit as int]@);
        if units[phrases[j].unit].language == lang {
            return true;
        }
    }
    false
}

/// The language families that have phrases, in their order.
fn langs_of(planned: &Vec<Vec<PhraseSpec>>, units: &[CodeUnit]) -> (r: Vec<Lang>)
    requires
        forall|i: int|
            0 <= i < planned@.len() ==> phrases_wf((#[trigger] planned@[i])@, views(units@)),
    ensures
        r@ == used_langs(phrase_lists(planned@), views(units@), 10),
{
    let ghost all = views(units@);
    let ghost lists = phrase_lists(planned@);
    let mut langs: Vec<Lang> = Vec::new();
    for r in 0..10u32
        invariant
            all == views(units@),
            lists == phrase_lists(planned@),
            forall|i: int| 0 <= i < planned@.len() ==> phrases_wf((#[trigger] planned@[i])@, all),
            langs@ == used_langs(lists, all, r as int),
    {
        let lang: Lang = nth_lang(r);
        let mut used: bool = false;
        for i in 0..planned.len()
            invariant
                all == views(units@),
                lists == phrase_lists(planned@),
                forall|i: int|
                    0 <= i < planned@.len() ==> phrases_wf((#[trigger] planned@[i])@, all),
                used == exists|j: int| 0 <= j < i && #[trigger] lang_in(lists[j], all, lang),
        {
            assert(lists[i as int] == planned@[i as int]@);
            if has_lang(&planned[i], units, lang) {
                used = true;
                assert(lang_in(lists[i as int], all, lang));
            }
        }
        assert(used == lang_used(lists, all, lang));
        if used {
            langs.push(lang);
        }
    }
    langs
}

/// The voice of a family.
fn find_voice(langs: &Vec<Lang>, lang: Lang) -> (r: usize)
    ensures
        r == voice_of_lang(langs@, lang, 0),
        r <= langs@.len(),
{
    let mut i: usize = 0;
    while i < langs.len() && langs[i] != lang
        invariant
            i <= langs@.len(),
            voice_of_lang(langs@, lang, 0) == voice_of_lang(langs@, lang, i as int),
        decreases langs@.len() - i,
    {
        i = i + 1;
    }
    i
}

/// Gives every family a voice, adds the drone, and writes the voices down.
fn static_voices_of(langs: &Vec<Lang>, liner: &mut Vec<String>) -> (r: Vec<Voice>)
    requires
        langs@.len() <= 10,
    ensures
        views(r@) == static_voices(langs@),
        texts(final(liner)@) == texts(old(liner)@) + Seq::new(
            langs@.len(),
            |i: int| voice_line(i, langs@[i]),
        ),
{
    let ghost said = texts(liner@);
    let ghost lines = Seq::new(langs@.len(), |i: int| voice_line(i, langs@[i]));
    let ghost all = static_voices(langs@);
    let mut voices: Vec<Voice> = Vec::new();
    assert(said + lines.take(0) =~= said);
    assert(views(voices@) =~= all.take(0));
    for i in 0..langs.len()
        invariant
            langs@.len() <= 10,
            lines == Seq::new(langs@.len(), |i: int| voice_line(i, langs@[i])),
            all == static_voices(langs@),
            texts(liner@) == said + lines.take(i as int),
            views(voices@) == all.take(i as int),
    {
        let name: &str = langs[i].instrument_name();
        let mut line = String::from_str("voice ");
        push_decimal(&mut line, i as u64);
        line.append(": ");
        line.append(name);
        let ghost before = texts(liner@);
        liner.push(line);
        assert(texts(liner@) =~= before.push(lines[i as int]));
        assert(lines.take(i + 1) =~= lines.take(i as int).push(lines[i as int]));
        assert(texts(liner@) =~= said + lines.take(i + 1));
        let channel: u8 = if i < 9 {
            i as u8
        } else {
            i as u8 + 1
        };
        let voice = Voice {
            name: String::from_str(name),
            channel,
            program: langs[i].gm_program(),
        };
        let ghost sofar = views(voices@);
        voices.push(voice);
        assert(views(voices@) =~= sofar.push(all[i as int]));
        assert(all.take(i + 1) =~= all.take(i as int).push(all[i as int]));
    }
    let n: usize = langs.len();
    let channel: u8 = if n < 9 {
        n as u8
    } else {
        n as u8 + 1
    };
    let ghost sofar = views(voices@);
    let drone = Voice { name: String::from_str("drone"), channel, program: 89 };
    assert(drone@ == all[n as int]);
    voices.push(drone);
    assert(views(voices@) =~= sofar.push(all[n as int]));
    assert(views(voices@) =~= all);
    assert(lines.take(lines.len() as int) =~= lines);
    voices
}

/// Composes the phrases of all sections. The result holds the notes, the end, and the
/// transitions.
fn play_sections(
    secs: &Vec<Section>,
    planned: &Vec<Vec<PhraseSpec>>,
    langs: &Vec<Lang>,
    units: &[CodeUnit],
    seed: u64,
    key: Key,
    scale: Scale,
    Ghost(f): Ghost<StaticFrame>,
) -> (r: (Vec<NoteEvent>, Tick, Vec<Tick>))
    requires
        f.seed == seed,
        f.key == key,
        f.scale == scale,
        f.units == views(units@),
        f.sections == views(secs@),
        f.plans == phrase_lists(planned@),
        f.langs == langs@,
        secs@.len() == planned@.len(),
        forall|i: int|
            0 <= i < planned@.len() ==> phrases_wf((#[trigger] planned@[i])@, views(units@)),
        played_bars(f.plans, secs@.len() as int) * BAR <= u32::MAX,
    ensures
        (StaticPiece { notes: r.0@, tick: r.1 as int, transitions: r.2@ }) == sections_played(
            f,
            secs@.len() as int,
        ),
        forall|i: int| 0 <= i < r.2@.len() ==> #[trigger] r.2@[i] + BAR <= u32::MAX,
{
    let root = Rng::new(seed);
    let mut notes: Vec<NoteEvent> = Vec::new();
    let mut tick: Tick = 0;
    let mut transitions: Vec<Tick> = Vec::new();
    assert((StaticPiece { notes: notes@, tick: tick as int, transitions: transitions@ })
        =~= sections_played(f, 0));
    for s in 0..secs.len()
        invariant
            root@ == seed,
            f.seed == seed,
            f.key == key,
            f.scale == scale,
            f.units == views(units@),
            f.sections == views(secs@),
            f.plans == phrase_lists(planned@),
            f.langs == langs@,
            secs@.len() == planned@.len(),
            forall|i: int|
                0 <= i < planned@.len() ==> phrases_wf((#[trigger] planned@[i])@, views(units@)),
            played_bars(f.plans, secs@.len() as int) * BAR <= u32::MAX,
            (StaticPiece { notes: notes@, tick: tick as int, transitions: transitions@ })
                == sections_played(f, s as int),
            forall|i: int|
                0 <= i < transitions@.len() ==> #[trigger] transitions@[i] + BAR <= u32::MAX,
    {
        let ghost before = sections_played(f, s as int);
        proof {
            assert(f.plans.len() == planned@.len());
            lemma_sections_played(f, s as int);
            lemma_played_bars(f.plans, s + 1, secs@.len() as int);
            lemma_bars_nonneg(f.plans[s as int], 0);
            assert(f.sections[s as int] == secs@[s as int]@);
            assert(f.plans[s as int] == planned@[s as int]@);
        }
        if s > 0 {
            transitions.push(tick);
            tick = tick + BAR;
        }
        let ghost opened = transition_made(before, s as int);
        assert((StaticPiece { notes: notes@, tick: tick as int, transitions: transitions@ })
            =~= opened);
        let mut label = String::from_str("section:");
        label.append(secs[s].name.as_str());
        let section_rng = root.child(label.as_str());
        let count: usize = planned[s].len();
        for k in 0..count
            invariant
                s < secs@.len(),
                count == planned@[s as int]@.len(),
                section_rng@ == section_seed(f.seed, f.sections[s as int].name),
                f.seed == seed,
                f.key == key,
                f.scale == scale,
                f.units == views(units@),
                f.plans == phrase_lists(planned@),
                f.langs == langs@,
                secs@.len() == planned@.len(),
                f.plans[s as int] == planned@[s as int]@,
                phrases_wf(planned@[s as int]@, views(units@)),
                opened.tick + bars_sum(f.plans[s as int]) * BAR <= u32::MAX,
                (StaticPiece { notes: notes@, tick: tick as int, transitions: transitions@ })
                    == phrases_played(f, opened, s as int, k as int),
        {
            let phrase: PhraseSpec = planned[s][k];
            proof {
                assert(crate::phrases::phrase_wf(f.plans[s as int][k as int], f.units));
                assert(f.units[phrase.unit as int] == units@[phrase.unit as int]@);
                lemma_phrases_played(f, opened, s as int, k as int);
                lemma_bars_nonneg(f.plans[s as int], k + 1);
                assert(f.plans[s as int].take(k + 1).drop_last() =~= f.plans[s as int].take(
                    k as int,
                ));
            }
            let unit: &CodeUnit = &units[phrase.unit];
            let mut rng = section_rng.child_u64(
                unit.ident_hash ^ unit.functions[phrase.func].name_hash,
            );
            let voice: usize = find_voice(langs, unit.language);
            gen_phrase(
                &mut notes,
                &mut rng,
                key,
                scale,
                unit,
                &unit.functions[phrase.func],
                phrase.bars,
                tick,
                voice,
            );
            tick = tick + phrase.bars * BAR;
        }
        assert((StaticPiece { notes: notes@, tick: tick as int, transitions: transitions@ })
            == sections_played(f, s + 1));
    }
    (notes, tick, transitions)
}

/// The bars of the phrases.
fn sum_bars(phrases: &Vec<PhraseSpec>) -> (r: u32)
    requires
        bars_sum(phrases@) <= u32::MAX,
    ensures
        r == bars_sum(phrases@),
{
    let mut sum: u32 = 0;
    assert(phrases@.take(0) =~= Seq::<PhraseSpec>::empty());
    for i in 0..phrases.len()
        invariant
            bars_sum(phrases@) <= u32::MAX,
            sum == bars_sum(phrases@.take(i as int)),
    {
        proof {
            lemma_bars_nonneg(phrases@, i + 1);
            assert(phrases@.take(i + 1).drop_last() =~= phrases@.take(i as int));
        }
        sum = sum + phrases[i].bars;
    }
    assert(phrases@.take(phrases@.len() as int) =~= phrases@);
    sum
}

/// Whether the lines of all units can be counted in 64 bits.
fn lines_countable(units: &[CodeUnit]) -> (r: bool)
    ensures
        r == (loc_sum(views(units@), units@.len() as int) <= u64::MAX),
{
    let ghost all = views(units@);
    let mut sum: u128 = 0;
    for i in 0..units.len()
        invariant
            all == views(units@),
            units@.len() <= usize::MAX,
            sum == loc_sum(all, i as int),
            sum <= i * 0xffff_ffff,
    {
        assert(all[i as int] == units@[i as int]@);
        assert((i + 1) * 0xffff_ffff == i * 0xffff_ffff + 0xffff_ffff) by (nonlinear_arith);
        assert(i * 0xffff_ffff <= usize::MAX * 0xffff_ffff) by (nonlinear_arith)
            requires
                i <= usize::MAX,
        ;
        sum = sum + units[i].loc as u128;
    }
    sum <= 0xffff_ffff_ffff_ffff
}

/// Whether the code at HEAD can be composed.
pub fn static_composable(seed: u64, units: &[CodeUnit], params: &ComposeParams) -> (r: bool)
    ensures
        r == static_fits(seed, views(units@), *params),
{
    let ghost all = views(units@);
    let (_, _, bpm, mut rng) = choose_globals(seed, params);
    let duration: u32 = match params.duration_secs {
        Some(d) => d,
        None => rng.range(90, 180) as u32,
    };
    assert(duration == duration_of(seed, *params));
    assert(duration * bpm <= 0xffff_ffff * 0xffff) by (nonlinear_arith)
        requires
            duration <= 0xffff_ffff,
            bpm <= 0xffff,
    ;
    let beats: u64 = duration as u64 * bpm as u64;
    if beats > 0xffff_ffff || !lines_countable(units) {
        return false;
    }
    let bars: u32 = (beats / 240) as u32;
    let total_bars: u32 = if bars < 8 {
        8
    } else {
        bars
    };
    let ghost wanted = static_sections(seed, all, *params);
    let ghost lists = plans(wanted, all);
    assert(total_bars == target_bars(seed, *params));
    let secs: Vec<Section> = plan_sections(units, total_bars);
    proof {
        assert forall|i: int| 0 <= i < all.len() implies (#[trigger] all[i]).functions.len()
            <= usize::MAX by {
            assert(all[i] == units@[i]@);
            assert(units@[i].functions@.len() == units@[i].functions.len());
        }
        assert(all.len() == units@.len() == units.len());
    }
    let mut played: u64 = 0;
    for i in 0..secs.len()
        invariant
            all == views(units@),
            all.len() <= usize::MAX,
            total_bars == target_bars(seed, *params),
            wanted == static_sections(seed, all, *params),
            lists == plans(wanted, all),
            forall|i: int|
                0 <= i < all.len() ==> (#[trigger] all[i]).functions.len() <= usize::MAX,
            views(secs@) == wanted,
            played == played_bars(lists, i as int),
            played * BAR <= u32::MAX,
            forall|j: int|
                0 <= j < i ==> bars_sum(section_phrases(#[trigger] wanted[j], all)) <= u32::MAX,
    {
        assert(wanted[i as int] == secs@[i as int]@);
        proof {
            lemma_sections_wf(all, total_bars as int, i as int);
            lemma_planned(wanted[i as int], all);
            lemma_played_bars(lists, i + 1, lists.len() as int);
        }
        if !phrases_countable(&secs[i], units) {
            return false;
        }
        let mut lines: Vec<String> = Vec::new();
        let list: Vec<PhraseSpec> = plan_phrases(&secs[i], units, &mut lines);
        assert(list@ == lists[i as int]);
        proof {
            if list@.len() == 1 {
                reveal_with_fuel(bars_sum, 2);
                assert(crate::phrases::phrase_wf(list@[0], all));
            }
        }
        played = played + sum_bars(&list) as u64 + if i > 0 {
            1
        } else {
            0
        };
        if played > 0xffff_ffff / BAR as u64 {
            return false;
        }
    }
    true
}

/// Composes the code at HEAD.
#[verifier::rlimit(30)]
pub fn compose_static(seed: u64, units: &[CodeUnit], params: &ComposeParams) -> (r: Score)
    requires
        static_fits(seed, views(units@), *params),
    ensures
        r@ == static_score(seed, views(units@), *params),
{
    let ghost all = views(units@);
    let ghost f = static_frame(seed, all, *params);
    let ghost secs_wanted = static_sections(seed, all, *params);
    let (key, scale, bpm, mut rng) = choose_globals(seed, params);
    let duration: u32 = match params.duration_secs {
        Some(d) => d,
        None => rng.range(90, 180) as u32,
    };
    assert(duration == duration_of(seed, *params));
    let beats: u32 = (duration * bpm as u32) / 240;
    let total_bars: u32 = if beats < 8 {
        8
    } else {
        beats
    };
    assert(total_bars == target_bars(seed, *params));
    let mut line = String::from_str("key: ");
    line.append(key.name());
    line.append(" ");
    line.append(scale.name());
    line.append("  bpm: ");
    push_decimal(&mut line, bpm as u64);
    line.append("  target: ");
    push_decimal(&mut line, duration as u64);
    line.append("s (");
    push_decimal(&mut line, total_bars as u64);
    line.append(" bars)");
    let ghost head = target_line(key, scale, bpm, duration as int, total_bars as int);
    assert(line@ == head);
    let mut liner: Vec<String> = Vec::new();
    liner.push(line);
    let secs: Vec<Section> = plan_sections(units, total_bars);
    assert(views(secs@) == f.sections);
    let ghost section_lines = f.sections.map_values(|s: SectionView| section_line(s));
    assert(texts(liner@) =~= seq![head] + section_lines.take(0));
    for i in 0..secs.len()
        invariant
            views(secs@) == f.sections,
            section_lines == f.sections.map_values(|s: SectionView| section_line(s)),
            texts(liner@) == seq![head] + section_lines.take(i as int),
    {
        assert(f.sections[i as int] == secs@[i as int]@);
        let ghost before = texts(liner@);
        liner.push(section_text(&secs[i]));
        assert(texts(liner@) =~= before.push(section_lines[i as int]));
        assert(section_lines.take(i + 1) =~= section_lines.take(i as int).push(
            section_lines[i as int],
        ));
        assert(texts(liner@) =~= seq![head] + section_lines.take(i + 1));
    }
    assert(section_lines.take(section_lines.len() as int) =~= section_lines);
    let ghost planned_from = texts(liner@);
    proof {
        assert forall|i: int| 0 <= i < all.len() implies (#[trigger] all[i]).functions.len()
            <= usize::MAX by {
            assert(all[i] == units@[i]@);
            assert(units@[i].functions@.len() == units@[i].functions.len());
        }
        assert(all.len() == units@.len() == units.len());
    }
    let mut planned_lists: Vec<Vec<PhraseSpec>> = Vec::new();
    assert(planned_from + all_sample_lines(f.sections, all, 0) =~= planned_from);
    for i in 0..secs.len()
        invariant
            all == views(units@),
            f == static_frame(seed, all, *params),
            static_fits(seed, all, *params),
            all.len() <= usize::MAX,
            total_bars == target_bars(seed, *params),
            forall|i: int|
                0 <= i < all.len() ==> (#[trigger] all[i]).functions.len() <= usize::MAX,
            views(secs@) == f.sections,
            planned_lists@.len() == i,
            forall|j: int| 0 <= j < i ==> (#[trigger] planned_lists@[j])@ == f.plans[j],
            forall|j: int|
                0 <= j < i ==> phrases_wf((#[trigger] planned_lists@[j])@, all),
            texts(liner@) == planned_from + all_sample_lines(f.sections, all, i as int),
    {
        assert(f.sections[i as int] == secs@[i as int]@);
        proof {
            lemma_sections_wf(all, total_bars as int, i as int);
            lemma_planned(f.sections[i as int], all);
            assert(bars_sum(section_phrases(f.sections[i as int], all)) <= u32::MAX);
        }
        let list: Vec<PhraseSpec> = plan_phrases(&secs[i], units, &mut liner);
        planned_lists.push(list);
        assert(texts(liner@) =~= planned_from + all_sample_lines(f.sections, all, i + 1));
    }
    assert(phrase_lists(planned_lists@) =~= f.plans);
    let langs: Vec<Lang> = langs_of(&planned_lists, units);
    assert(langs@ == f.langs);
    proof {
        lemma_used_langs(f.plans, all, 10);
    }
    let voices: Vec<Voice> = static_voices_of(&langs, &mut liner);
    assert(texts(liner@) =~= static_lines(seed, all, *params));
    let (mut notes, end, transitions) = play_sections(
        &secs,
        &planned_lists,
        &langs,
        units,
        seed,
        key,
        scale,
        Ghost(f),
    );
    gen_drone(&mut notes, key, end, &transitions, langs.len());
    assert(views(notes@) =~= notes@);
    sort(&mut notes);
    assert(views(notes@) =~= notes@);
    let mut tempo_map: Vec<(Tick, u16)> = Vec::new();
    tempo_map.push((0, bpm));
    let score = Score {
        bpm_base: bpm,
        key,
        scale,
        voices,
        events: notes,
        tempo_map,
        program_changes: Vec::new(),
        liner_notes: liner,
        seed,
    };
    assert(score@.tempo_map =~= seq![(0u32, bpm)]);
    assert(score@.program_changes =~= Seq::<(Tick, usize, u8)>::empty());
    score
}

/// The score of a repository.
pub open spec fn score_of(model: RepoModel, params: ComposeParams) -> ScoreView {
    match model {
        RepoModel::Static { seed, units } => static_score(seed, views(units@), params),
        RepoModel::History { identity_seed, branch, commits, authors, total_commits } => {
            history_score(
                identity_seed,
                branch@,
                views(commits@),
                views(authors@),
                total_commits,
                params,
            )
        },
    }
}

/// What a model must meet to be composed.
pub open spec fn model_fits(model: RepoModel, params: ComposeParams) -> bool {
    match model {
        RepoModel::Static { seed, units } => static_fits(seed, views(units@), params),
        RepoModel::History { identity_seed, branch, commits, authors, total_commits } => {
            history_fits(identity_seed, views(commits@), views(authors@))
        },
    }
}

/// Composes a repository.
pub fn compose(model: &RepoModel, params: &ComposeParams) -> (r: Score)
    requires
        model_fits(*model, *params),
    ensures
        r@ == score_of(*model, *params),
{
    match model {
        RepoModel::Static { seed, units } => compose_static(*seed, units.as_slice(), params),
        RepoModel::History { identity_seed, branch, commits, authors, total_commits } => {
            compose_history(
                *identity_seed,
                branch.as_str(),
                commits.as_slice(),
                authors.as_slice(),
                *total_commits,
                params,
            )
        },
    }
}

} // verus!
