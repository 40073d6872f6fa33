//! Who plays what in the history mode: the anchor, the leads of the authors with the most
//! commits, an ensemble for the others, and percussion for bots.

use vstd::prelude::*;
use vstd::string::StringExecFns;

use crate::model::{Author, AuthorView, Voice, VoiceView};
use crate::rng::{fnv, fnv1a, utf8};
use crate::sorting::{
    comes_before, lemma_lex_le_transitive, lemma_lex_total, lemma_sorted_holds, lemma_sorted_len,
    lex_before, placed, sort, sorted, views, Ranked, Sortable,
};
use crate::text::{chars_of, code_points, codes, decimal, push_decimal, texts};

verus! {

/// How many authors get an instrument of their own.
pub const MAX_LEADS: usize = 4;

/// How many lead instruments there are to choose from.
pub const PALETTE: usize = 10;

/// The General MIDI program of a lead instrument.
pub open spec fn palette_program(slot: int) -> u8 {
    if slot == 0 {
        0
    } else if slot == 1 {
        12
    } else if slot == 2 {
        4
    } else if slot == 3 {
        40
    } else if slot == 4 {
        73
    } else if slot == 5 {
        60
    } else if slot == 6 {
        11
    } else if slot == 7 {
        68
    } else if slot == 8 {
        24
    } else {
        46
    }
}

/// The name of a lead instrument.
pub open spec fn palette_name(slot: int) -> Seq<char> {
    if slot == 0 {
        "piano"@
    } else if slot == 1 {
        "marimba"@
    } else if slot == 2 {
        "electric piano"@
    } else if slot == 3 {
        "violin"@
    } else if slot == 4 {
        "flute"@
    } else if slot == 5 {
        "french horn"@
    } else if slot == 6 {
        "vibraphone"@
    } else if slot == 7 {
        "oboe"@
    } else if slot == 8 {
        "nylon guitar"@
    } else {
        "harp"@
    }
}

/// The program and the name of a lead instrument.
fn palette(slot: usize) -> (r: (u8, &'static str))
    ensures
        r.0 == palette_program(slot as int),
        r.1@ == palette_name(slot as int),
{
    match slot {
        0 => (0, "piano"),
        1 => (12, "marimba"),
        2 => (4, "electric piano"),
        3 => (40, "violin"),
        4 => (73, "flute"),
        5 => (60, "french horn"),
        6 => (11, "vibraphone"),
        7 => (68, "oboe"),
        8 => (24, "nylon guitar"),
        _ => (46, "harp"),
    }
}

/// An author in the ranking for the leads.
struct Contender {
    id: usize,
    key: Vec<u32>,
}

/// What a `Contender` says.
pub struct ContenderView {
    /// The number of the author.
    pub id: int,
    /// What the author is ranked by.
    pub key: Seq<u32>,
}

impl View for Contender {
    type V = ContenderView;

    closed spec fn view(&self) -> ContenderView {
        ContenderView { id: self.id as int, key: self.key@ }
    }
}

/// Authors rank by the lexicographic order of their keys.
impl Ranked for ContenderView {
    open spec fn le(self, other: Self) -> bool {
        !lex_before(other.key, self.key)
    }

    proof fn le_total(a: Self, b: Self) {
        lemma_lex_total(a.key, b.key);
    }

    proof fn le_transitive(a: Self, b: Self, c: Self) {
        lemma_lex_le_transitive(a.key, b.key, c.key);
    }
}

impl Sortable for Contender {
    fn no_higher(&self, other: &Self) -> (r: bool) {
        !comes_before(other.key.as_slice(), self.key.as_slice())
    }
}

/// What an author is ranked by: many commits come first, then the email.
pub open spec fn author_key(a: AuthorView) -> Seq<u32> {
    seq![(u32::MAX - a.commits) as u32] + codes(a.email)
}

/// The authors among the first `k` that are no bots.
pub open spec fn humans(authors: Seq<AuthorView>, k: int) -> Seq<ContenderView>
    decreases k,
{
    if k <= 0 {
        seq![]
    } else if authors[k - 1].is_bot {
        humans(authors, k - 1)
    } else {
        humans(authors, k - 1).push(
            ContenderView { id: k - 1, key: author_key(authors[k - 1]) },
        )
    }
}

/// The authors that are no bots, those with the most commits first.
pub open spec fn ranking(authors: Seq<AuthorView>) -> Seq<ContenderView> {
    sorted(humans(authors, authors.len() as int))
}

/// How many authors have a lead.
pub open spec fn lead_count(authors: Seq<AuthorView>) -> int {
    if ranking(authors).len() < MAX_LEADS {
        ranking(authors).len() as int
    } else {
        MAX_LEADS as int
    }
}

/// The first lead instrument from `slot` on that is not in use, after at most `tries` that
/// are.
pub open spec fn free_slot(used: Seq<int>, slot: int, tries: nat) -> int
    decreases tries,
{
    if tries == 0 || !used.contains(slot) {
        slot
    } else {
        free_slot(used, (slot + 1) % PALETTE as int, (tries - 1) as nat)
    }
}

/// The lead instruments of the first `k` in the ranking: each the one that the email's
/// hash picks, or the next that is free.
pub open spec fn lead_slots(authors: Seq<AuthorView>, k: int) -> Seq<int>
    decreases k,
{
    if k <= 0 {
        seq![]
    } else {
        let used = lead_slots(authors, k - 1);
        let email = authors[ranking(authors)[k - 1].id].email;
        used.push(free_slot(used, (fnv(utf8(email)) % 10) as int, 10))
    }
}

/// Whether one of the first `k` authors is a bot.
pub open spec fn any_bot(authors: Seq<AuthorView>, k: int) -> bool {
    exists|i: int| 0 <= i < k && (#[trigger] authors[i]).is_bot
}

/// The voices of a history piece: the anchor, the leads, the ensemble if more authors are
/// left, and the hi-hat if there are bots.
pub open spec fn history_voices(authors: Seq<AuthorView>) -> Seq<VoiceView> {
    let anchor = VoiceView { name: "anchor (cello)"@, channel: 0, program: 42 };
    let n = lead_count(authors);
    let slots = lead_slots(authors, n);
    let leads = Seq::new(
        n as nat,
        |k: int|
            VoiceView {
                name: palette_name(slots[k]),
                channel: (k + 1) as u8,
                program: palette_program(slots[k]),
            },
    );
    let ensemble = if ranking(authors).len() > MAX_LEADS {
        seq![VoiceView { name: "string ensemble"@, channel: 5, program: 48 }]
    } else {
        seq![]
    };
    let hats = if any_bot(authors, authors.len() as int) {
        seq![VoiceView { name: "hi-hat"@, channel: 9, program: 0 }]
    } else {
        seq![]
    };
    seq![anchor] + leads + ensemble + hats
}

/// The place of an author in the ranking, looked for from `from` on.
pub open spec fn rank_of(ranked: Seq<ContenderView>, id: int, from: int) -> int
    decreases ranked.len() - from,
{
    if from >= ranked.len() || ranked[from].id == id {
        from
    } else {
        rank_of(ranked, id, from + 1)
    }
}

/// The voice of the bots, behind all others.
pub open spec fn bot_voice(authors: Seq<AuthorView>) -> int {
    1 + lead_count(authors) + if ranking(authors).len() > MAX_LEADS {
        1int
    } else {
        0
    }
}

/// The voice that an author plays: a bot the hi-hat, a lead its own, the others the
/// ensemble.
pub open spec fn author_voice(authors: Seq<AuthorView>, id: int) -> int {
    let rank = rank_of(ranking(authors), id, 0);
    if authors[id].is_bot {
        bot_voice(authors)
    } else if rank < MAX_LEADS {
        1 + rank
    } else {
        1 + MAX_LEADS
    }
}

/// The commits of the authors from rank `from` on.
pub open spec fn commits_from(
    authors: Seq<AuthorView>,
    ranked: Seq<ContenderView>,
    from: int,
) -> int
    decreases ranked.len() - from,
{
    if from >= ranked.len() {
        0
    } else {
        authors[ranked[from].id].commits + commits_from(authors, ranked, from + 1)
    }
}

/// The commits of the authors that share the ensemble.
pub open spec fn tail_commits(authors: Seq<AuthorView>) -> int {
    commits_from(authors, ranking(authors), MAX_LEADS as int)
}

/// A line that tells who plays what.
pub open spec fn player_line(who: Seq<char>, instrument: Seq<char>, commits: nat) -> Seq<char> {
    who + " -> "@ + instrument + " ("@ + decimal(commits) + " commits)"@
}

/// The lines about the bots among the first `k` authors.
pub open spec fn bot_lines(authors: Seq<AuthorView>, k: int) -> Seq<Seq<char>>
    decreases k,
{
    if k <= 0 {
        seq![]
    } else if authors[k - 1].is_bot {
        bot_lines(authors, k - 1).push(
            player_line(authors[k - 1].name, "hi-hat"@, authors[k - 1].commits as nat),
        )
    } else {
        bot_lines(authors, k - 1)
    }
}

/// The lines about the leads.
pub open spec fn lead_lines(authors: Seq<AuthorView>) -> Seq<Seq<char>> {
    let n = lead_count(authors);
    let slots = lead_slots(authors, n);
    Seq::new(
        n as nat,
        |k: int|
            {
                let a = authors[ranking(authors)[k].id];
                player_line(a.email, palette_name(slots[k]), a.commits as nat)
            },
    )
}

/// The line about the authors that share the ensemble.
pub open spec fn tail_line(authors: Seq<AuthorView>) -> Seq<char> {
    player_line(
        decimal((ranking(authors).len() - MAX_LEADS) as nat) + " more authors"@,
        "string ensemble"@,
        tail_commits(authors) as nat,
    )
}

/// The lines about who plays what.
pub open spec fn voice_lines(authors: Seq<AuthorView>) -> Seq<Seq<char>> {
    let tail = if ranking(authors).len() > MAX_LEADS {
        seq![tail_line(authors)]
    } else {
        seq![]
    };
    lead_lines(authors) + tail + bot_lines(authors, authors.len() as int)
}

proof fn lemma_humans(authors: Seq<AuthorView>, k: int)
    requires
        0 <= k <= authors.len(),
    ensures
        humans(authors, k).len() <= k,
        forall|i: int|
            0 <= i < humans(authors, k).len() ==> {
                let c = #[trigger] humans(authors, k)[i];
                0 <= c.id < k && !authors[c.id].is_bot && c.key == author_key(authors[c.id])
            },
        forall|id: int|
            0 <= id < k && !(#[trigger] authors[id]).is_bot ==> humans(authors, k).contains(
                ContenderView { id, key: author_key(authors[id]) },
            ),
    decreases k,
{
    if k > 0 {
        lemma_humans(authors, k - 1);
        let before = humans(authors, k - 1);
        let now = humans(authors, k);
        assert forall|id: int| 0 <= id < k && !(
        #[trigger] authors[id]).is_bot implies now.contains(
            ContenderView { id, key: author_key(authors[id]) },
        ) by {
            let c = ContenderView { id, key: author_key(authors[id]) };
            if id < k - 1 {
                let i = choose|i: int| 0 <= i < before.len() && before[i] == c;
                assert(now[i] == c);
            } else {
                assert(now[before.len() as int] == c);
            }
        }
    }
}

/// The ranking holds exactly the authors that are no bots.
pub proof fn lemma_ranking(authors: Seq<AuthorView>)
    ensures
        ranking(authors).len() <= authors.len(),
        forall|i: int|
            0 <= i < ranking(authors).len() ==> 0 <= (#[trigger] ranking(authors)[i]).id
                < authors.len() && !authors[ranking(authors)[i].id].is_bot,
        forall|id: int|
            0 <= id < authors.len() && !(#[trigger] authors[id]).is_bot ==> exists|i: int|
                0 <= i < ranking(authors).len() && (#[trigger] ranking(authors)[i]).id == id,
{
    let h = humans(authors, authors.len() as int);
    let r = ranking(authors);
    lemma_humans(authors, authors.len() as int);
    lemma_sorted_len(h);
    assert forall|i: int| 0 <= i < r.len() implies 0 <= (#[trigger] r[i]).id < authors.len()
        && !authors[r[i].id].is_bot by {
        lemma_sorted_holds(h, r[i]);
        assert(r.contains(r[i]));
        let k = choose|k: int| 0 <= k < h.len() && h[k] == r[i];
        assert(0 <= h[k].id < authors.len());
    }
    assert forall|id: int| 0 <= id < authors.len() && !(
    #[trigger] authors[id]).is_bot implies exists|i: int|
        0 <= i < r.len() && (#[trigger] r[i]).id == id by {
        let c = ContenderView { id, key: author_key(authors[id]) };
        lemma_sorted_holds(h, c);
        let i = choose|i: int| 0 <= i < r.len() && r[i] == c;
        assert(r[i].id == id);
    }
}

proof fn lemma_rank_of(ranked: Seq<ContenderView>, id: int, from: int, at: int)
    requires
        0 <= from <= at < ranked.len(),
        ranked[at].id == id,
    ensures
        from <= rank_of(ranked, id, from) <= at,
    decreases ranked.len() - from,
{
    if ranked[from].id != id {
        lemma_rank_of(ranked, id, from + 1, at);
    }
}

/// There are seven voices at most. The anchor is the first, on the first channel. Every
/// author plays one of the voices and never the anchor. Percussion sounds on channel 9, and
/// nothing else does.
pub proof fn lemma_voices(authors: Seq<AuthorView>)
    ensures
        history_voices(authors).len() == bot_voice(authors) + if any_bot(
            authors,
            authors.len() as int,
        ) {
            1int
        } else {
            0
        },
        history_voices(authors).len() <= 7,
        history_voices(authors)[0].name == "anchor (cello)"@,
        history_voices(authors)[0].channel == 0,
        forall|v: int|
            0 <= v < history_voices(authors).len() ==> (#[trigger] history_voices(
                authors,
            )[v]).channel < 16,
        forall|id: int|
            0 <= id < authors.len() ==> 1 <= #[trigger] author_voice(authors, id)
                < history_voices(authors).len(),
        forall|id: int|
            0 <= id < authors.len() ==> (history_voices(authors)[#[trigger] author_voice(
                authors,
                id,
            )].channel == 9 <==> authors[id].is_bot),
{
    lemma_ranking(authors);
    let r = ranking(authors);
    assert forall|id: int| 0 <= id < authors.len() implies 1 <= #[trigger] author_voice(authors, id)
        < history_voices(authors).len() && (history_voices(authors)[author_voice(
        authors,
        id,
    )].channel == 9 <==> authors[id].is_bot) by {
        if authors[id].is_bot {
            assert(any_bot(authors, authors.len() as int));
        } else {
            let i = choose|i: int| 0 <= i < r.len() && (#[trigger] r[i]).id == id;
            lemma_rank_of(r, id, 0, i);
        }
    }
}

proof fn lemma_free_slot(used: Seq<int>, slot: int, tries: nat)
    requires
        0 <= slot < 10,
    ensures
        0 <= free_slot(used, slot, tries) < 10,
    decreases tries,
{
    if tries > 0 && used.contains(slot) {
        lemma_free_slot(used, (slot + 1) % 10, (tries - 1) as nat);
    }
}

/// If an instrument within reach is free, a free one is found.
proof fn lemma_free_slot_within(used: Seq<int>, slot: int, ahead: int, tries: nat)
    requires
        0 <= slot < 10,
        0 <= ahead < tries,
        !used.contains((slot + ahead) % 10),
    ensures
        !used.contains(free_slot(used, slot, tries)),
    decreases tries,
{
    if used.contains(slot) {
        let next = (slot + 1) % 10;
        assert((next + (ahead - 1)) % 10 == (slot + ahead) % 10);
        lemma_free_slot_within(used, next, ahead - 1, (tries - 1) as nat);
    }
}

/// If one of the ten instruments is free, a free one is found.
proof fn lemma_free_slot_found(used: Seq<int>, slot: int, free: int)
    requires
        0 <= slot < 10,
        0 <= free < 10,
        !used.contains(free),
    ensures
        !used.contains(free_slot(used, slot, 10)),
{
    let ahead = (free - slot) % 10;
    assert((slot + ahead) % 10 == free);
    lemma_free_slot_within(used, slot, ahead, 10);
}

proof fn lemma_slot_left(used: Seq<int>) -> (free: int)
    requires
        used.len() < 4,
    ensures
        0 <= free < 4,
        !used.contains(free),
{
    if !used.contains(0) {
        0
    } else if !used.contains(1) {
        1
    } else if !used.contains(2) {
        2
    } else {
        if used.contains(3) {
            let a = choose|a: int| 0 <= a < used.len() && used[a] == 0;
            let b = choose|b: int| 0 <= b < used.len() && used[b] == 1;
            let c = choose|c: int| 0 <= c < used.len() && used[c] == 2;
            let d = choose|d: int| 0 <= d < used.len() && used[d] == 3;
            assert(a != b && a != c && a != d && b != c && b != d && c != d);
        }
        3
    }
}

/// The leads have instruments of their own: no two share one.
pub proof fn lemma_leads_distinct(authors: Seq<AuthorView>, k: int)
    requires
        0 <= k <= lead_count(authors),
    ensures
        lead_slots(authors, k).len() == k,
        forall|i: int|
            0 <= i < k ==> 0 <= #[trigger] lead_slots(authors, k)[i] < PALETTE,
        forall|i: int, j: int|
            0 <= i < j < k ==> #[trigger] lead_slots(authors, k)[i] != #[trigger] lead_slots(
                authors,
                k,
            )[j],
    decreases k,
{
    if k > 0 {
        lemma_leads_distinct(authors, k - 1);
        let used = lead_slots(authors, k - 1);
        let email = authors[ranking(authors)[k - 1].id].email;
        let want = (fnv(utf8(email)) % 10) as int;
        lemma_free_slot(used, want, 10);
        let free = lemma_slot_left(used);
        lemma_free_slot_found(used, want, free);
        let slots = lead_slots(authors, k);
        assert forall|i: int, j: int| 0 <= i < j < k implies #[trigger] slots[i]
            != #[trigger] slots[j] by {
            assert(used.contains(used[i]));
        }
    }
}

/// An author's instrument is the one that the email's hash picks, unless an author with a
/// higher rank plays it already.
pub proof fn lemma_lead_by_email(authors: Seq<AuthorView>, k: int)
    requires
        0 < k <= lead_count(authors),
    ensures
        ({
            let want = (fnv(utf8(authors[ranking(authors)[k - 1].id].email)) % 10) as int;
            !lead_slots(authors, k - 1).contains(want) ==> lead_slots(authors, k)[k - 1] == want
        }),
{
    lemma_leads_distinct(authors, k - 1);
}

/// The commits of all the first `k` authors.
pub open spec fn commits_of(authors: Seq<AuthorView>, k: int) -> int
    decreases k,
{
    if k <= 0 {
        0
    } else {
        commits_of(authors, k - 1) + authors[k - 1].commits
    }
}

/// The commits of the authors in a list.
spec fn listed_commits(authors: Seq<AuthorView>, list: Seq<ContenderView>) -> int
    decreases list.len(),
{
    if list.len() == 0 {
        0
    } else {
        listed_commits(authors, list.drop_last()) + authors[list.last().id].commits
    }
}

proof fn lemma_listed_placed(authors: Seq<AuthorView>, s: Seq<ContenderView>, x: ContenderView)
    ensures
        listed_commits(authors, placed(s, x)) == listed_commits(authors, s) + authors[x.id].commits,
    decreases s.len(),
{
    if s.len() == 0 || s.last().le(x) {
        assert(s.push(x).drop_last() =~= s);
    } else {
        lemma_listed_placed(authors, s.drop_last(), x);
        let u = placed(s.drop_last(), x);
        assert(u.push(s.last()).drop_last() =~= u);
    }
}

proof fn lemma_listed_sorted(authors: Seq<AuthorView>, s: Seq<ContenderView>)
    ensures
        listed_commits(authors, sorted(s)) == listed_commits(authors, s),
    decreases s.len(),
{
    if s.len() > 0 {
        lemma_listed_sorted(authors, s.drop_last());
        lemma_listed_placed(authors, sorted(s.drop_last()), s.last());
    }
}

proof fn lemma_listed_humans(authors: Seq<AuthorView>, k: int)
    requires
        0 <= k <= authors.len(),
    ensures
        0 <= listed_commits(authors, humans(authors, k)) <= commits_of(authors, k),
    decreases k,
{
    if k > 0 {
        lemma_listed_humans(authors, k - 1);
        let h = humans(authors, k - 1);
        let c = ContenderView { id: k - 1, key: author_key(authors[k - 1]) };
        assert(h.push(c).drop_last() =~= h);
    }
}

proof fn lemma_listed_from(authors: Seq<AuthorView>, list: Seq<ContenderView>, from: int)
    requires
        0 <= from <= list.len(),
    ensures
        0 <= listed_commits(authors, list.take(from)),
        listed_commits(authors, list) == listed_commits(authors, list.take(from)) + commits_from(
            authors,
            list,
            from,
        ),
    decreases list.len() - from,
{
    lemma_listed_nonneg(authors, list.take(from));
    if from < list.len() {
        lemma_listed_from(authors, list, from + 1);
        assert(list.take(from + 1).drop_last() =~= list.take(from));
    } else {
        assert(list.take(from) =~= list);
    }
}

proof fn lemma_listed_nonneg(authors: Seq<AuthorView>, list: Seq<ContenderView>)
    ensures
        0 <= listed_commits(authors, list),
    decreases list.len(),
{
    if list.len() > 0 {
        lemma_listed_nonneg(authors, list.drop_last());
    }
}

/// The authors that share the ensemble have no more commits than all authors together.
pub proof fn lemma_tail_commits(authors: Seq<AuthorView>)
    ensures
        0 <= tail_commits(authors) <= commits_of(authors, authors.len() as int),
{
    let r = ranking(authors);
    let n = authors.len() as int;
    lemma_listed_humans(authors, n);
    lemma_listed_sorted(authors, humans(authors, n));
    lemma_commits_from(authors, r, MAX_LEADS as int, MAX_LEADS as int);
    if MAX_LEADS <= r.len() {
        lemma_listed_from(authors, r, MAX_LEADS as int);
    }
}

proof fn lemma_commits_from(authors: Seq<AuthorView>, ranked: Seq<ContenderView>, a: int, b: int)
    requires
        0 <= a <= b,
    ensures
        0 <= commits_from(authors, ranked, b) <= commits_from(authors, ranked, a),
    decreases ranked.len() - a,
{
    if a < ranked.len() {
        if a < b {
            lemma_commits_from(authors, ranked, a + 1, b);
        } else {
            lemma_commits_from(authors, ranked, a + 1, a + 1);
        }
    }
}

/// A line that tells who plays what.
fn line_of(who: &str, instrument: &str, commits: u32) -> (r: String)
    ensures
        r@ == player_line(who@, instrument@, commits as nat),
{
    let mut line = String::from_str(who);
    line.append(" -> ");
    line.append(instrument);
    line.append(" (");
    push_decimal(&mut line, commits as u64);
    line.append(" commits)");
    line
}

/// Ranks the authors that are no bots.
fn rank_authors(authors: &[Author]) -> (r: Vec<Contender>)
    ensures
        views(r@) == ranking(views(authors@)),
{
    let ghost all = views(authors@);
    let mut list: Vec<Contender> = Vec::new();
    for i in 0..authors.len()
        invariant
            all == views(authors@),
            views(list@) == humans(all, i as int),
    {
        assert(all[i as int] == authors@[i as int]@);
        if !authors[i].is_bot {
            let mut key: Vec<u32> = Vec::new();
            key.push(u32::MAX - authors[i].commits);
            let mut email: Vec<u32> = code_points(chars_of(authors[i].email.as_str()).as_slice());
            key.append(&mut email);
            assert(key@ =~= author_key(all[i as int]));
            let ghost before = views(list@);
            list.push(Contender { id: i, key });
            assert(views(list@) =~= before.push(
                ContenderView { id: i as int, key: author_key(all[i as int]) },
            ));
        }
    }
    sort(&mut list);
    list
}

/// Whether the commits of the authors that share the ensemble can be counted in 32 bits.
pub fn tail_countable(authors: &[Author]) -> (r: bool)
    ensures
        r == (tail_commits(views(authors@)) <= u32::MAX),
{
    let ghost all = views(authors@);
    let ghost order = ranking(all);
    let ranked: Vec<Contender> = rank_authors(authors);
    proof {
        lemma_ranking(all);
        assert(order.len() == ranked@.len());
    }
    let mut commits: u64 = 0;
    let mut i: usize = MAX_LEADS;
    while i < ranked.len()
        invariant
            all == views(authors@),
            order == ranking(all),
            views(ranked@) == order,
            order.len() == ranked@.len(),
            MAX_LEADS <= i,
            forall|i: int| 0 <= i < order.len() ==> 0 <= (#[trigger] order[i]).id < all.len(),
            commits + commits_from(all, order, i as int) == tail_commits(all),
            commits <= u32::MAX,
        decreases ranked@.len() - i,
    {
        assert(order[i as int] == ranked@[i as int]@);
        let id: usize = ranked[i].id;
        assert(all[id as int] == authors@[id as int]@);
        proof {
            lemma_commits_from(all, order, i as int, i + 1);
        }
        commits = commits + authors[id].commits as u64;
        if commits > 0xffff_ffff {
            return false;
        }
        i = i + 1;
    }
    true
}

/// The first lead instrument from `want` on that is not in use.
fn find_slot(used: &Vec<usize>, want: usize) -> (r: usize)
    requires
        want < 10,
    ensures
        r == free_slot(used@.map_values(|u: usize| u as int), want as int, 10),
        r < 10,
{
    let ghost taken = used@.map_values(|u: usize| u as int);
    let mut slot: usize = want;
    let mut tries: u32 = 10;
    loop
        invariant_except_break
            slot < 10,
            taken == used@.map_values(|u: usize| u as int),
            free_slot(taken, want as int, 10) == free_slot(taken, slot as int, tries as nat),
        ensures
            slot < 10,
            slot == free_slot(taken, want as int, 10),
        decreases tries,
    {
        let mut found: bool = false;
        for i in 0..used.len()
            invariant
                taken == used@.map_values(|u: usize| u as int),
                found == exists|j: int| 0 <= j < i && #[trigger] taken[j] == slot,
        {
            if used[i] == slot {
                found = true;
                assert(taken[i as int] == slot);
            }
        }
        assert(found == taken.contains(slot as int));
        if tries == 0 || !found {
            break ;
        }
        slot = (slot + 1) % 10;
        tries = tries - 1;
    }
    slot
}

/// Gives every author a voice and writes down who plays what. The result holds the voices
/// and, for each author, the voice's number.
#[verifier::rlimit(30)]
pub fn assign_voices(authors: &[Author], liner: &mut Vec<String>) -> (r: (Vec<Voice>, Vec<usize>))
    requires
        tail_commits(views(authors@)) <= u32::MAX,
    ensures
        views(r.0@) == history_voices(views(authors@)),
        r.1@.len() == authors@.len(),
        forall|i: int|
            0 <= i < authors@.len() ==> #[trigger] r.1@[i] == author_voice(views(authors@), i),
        texts(final(liner)@) == texts(old(liner)@) + voice_lines(views(authors@)),
{
    let ghost all = views(authors@);
    let ghost said = texts(liner@);
    let ranked: Vec<Contender> = rank_authors(authors);
    let ghost order = ranking(all);
    proof {
        lemma_ranking(all);
        lemma_voices(all);
        assert(order.len() == ranked@.len());
    }
    let mut voices: Vec<Voice> = Vec::new();
    voices.push(Voice { name: String::from_str("anchor (cello)"), channel: 0, program: 42 });
    let n: usize = if ranked.len() < MAX_LEADS {
        ranked.len()
    } else {
        MAX_LEADS
    };
    let mut used: Vec<usize> = Vec::new();
    let ghost anchor = VoiceView { name: "anchor (cello)"@, channel: 0, program: 42 };
    let ghost slots = lead_slots(all, n as int);
    let ghost leads = Seq::new(
        n as nat,
        |k: int|
            VoiceView {
                name: palette_name(slots[k]),
                channel: (k + 1) as u8,
                program: palette_program(slots[k]),
            },
    );
    proof {
        assert(views(voices@) =~= seq![anchor] + leads.take(0));
        assert(texts(liner@) =~= said + lead_lines(all).take(0));
        assert(used@.map_values(|u: usize| u as int) =~= lead_slots(all, 0));
    }
    for k in 0..n
        invariant
            n == lead_count(all),
            n <= 4,
            all == views(authors@),
            order == ranking(all),
            views(ranked@) == order,
            n <= ranked@.len(),
            forall|i: int| 0 <= i < order.len() ==> 0 <= (#[trigger] order[i]).id < all.len(),
            slots == lead_slots(all, n as int),
            used@.map_values(|u: usize| u as int) == lead_slots(all, k as int),
            leads == Seq::new(
                n as nat,
                |k: int|
                    VoiceView {
                        name: palette_name(slots[k]),
                        channel: (k + 1) as u8,
                        program: palette_program(slots[k]),
                    },
            ),
            views(voices@) == seq![anchor] + leads.take(k as int),
            texts(liner@) == said + lead_lines(all).take(k as int),
    {
        assert(order[k as int] == ranked@[k as int]@);
        let id: usize = ranked[k].id;
        assert(all[id as int] == authors@[id as int]@);
        let email: &str = authors[id].email.as_str();
        let want: usize = (fnv1a(email.as_bytes()) % 10) as usize;
        let ghost taken = used@;
        let slot: usize = find_slot(&used, want);
        let (program, name) = palette(slot);
        let ghost lines = texts(liner@);
        let ghost before = views(voices@);
        liner.push(line_of(email, name, authors[id].commits));
        voices.push(Voice { name: String::from_str(name), channel: k as u8 + 1, program });
        used.push(slot);
        proof {
            assert(used@.map_values(|u: usize| u as int) =~= taken.map_values(
                |u: usize| u as int,
            ).push(slot as int));
            lemma_slots_prefix(all, k + 1, n as int);
            assert(lead_slots(all, k + 1)[k as int] == slot);
            assert(slots.take(k + 1)[k as int] == slots[k as int]);
            assert(texts(liner@) =~= lines.push(lead_lines(all)[k as int]));
            assert(lead_lines(all).take(k + 1) =~= lead_lines(all).take(k as int).push(
                lead_lines(all)[k as int],
            ));
            assert(texts(liner@) =~= said + lead_lines(all).take(k + 1));
            assert(views(voices@) =~= before.push(leads[k as int]));
            assert(leads.take(k + 1) =~= leads.take(k as int).push(leads[k as int]));
            assert(views(voices@) =~= seq![anchor] + leads.take(k + 1));
        }
    }
    proof {
        assert(leads.take(n as int) =~= leads);
        assert(lead_lines(all).take(n as int) =~= lead_lines(all));
    }
    let ghost ensemble = if order.len() > MAX_LEADS {
        seq![VoiceView { name: "string ensemble"@, channel: 5, program: 48 }]
    } else {
        seq![]
    };
    let ghost tail = if order.len() > MAX_LEADS {
        seq![tail_line(all)]
    } else {
        seq![]
    };
    if ranked.len() > MAX_LEADS {
        let mut commits: u32 = 0;
        for i in MAX_LEADS..ranked.len()
            invariant
                all == views(authors@),
                order == ranking(all),
                views(ranked@) == order,
                forall|i: int| 0 <= i < order.len() ==> 0 <= (#[trigger] order[i]).id < all.len(),
                commits + commits_from(all, order, i as int) == tail_commits(all),
                tail_commits(all) <= u32::MAX,
        {
            assert(order[i as int] == ranked@[i as int]@);
            let id: usize = ranked[i].id;
            assert(all[id as int] == authors@[id as int]@);
            proof {
                lemma_commits_from(all, order, i as int, i + 1);
            }
            commits = commits + authors[id].commits;
        }
        let mut who = String::new();
        push_decimal(&mut who, (ranked.len() - MAX_LEADS) as u64);
        who.append(" more authors");
        let ghost lines = texts(liner@);
        let ghost before = views(voices@);
        assert(who@ =~= decimal((order.len() - MAX_LEADS) as nat) + " more authors"@);
        liner.push(line_of(who.as_str(), "string ensemble", commits));
        voices.push(
            Voice { name: String::from_str("string ensemble"), channel: 5, program: 48 },
        );
        assert(texts(liner@) =~= lines + tail);
        assert(views(voices@) =~= before + ensemble);
    } else {
        assert(texts(liner@) =~= texts(liner@) + tail);
        assert(views(voices@) =~= views(voices@) + ensemble);
    }
    let hats: usize = voices.len();
    assert(hats == bot_voice(all));
    let ghost melodic = views(voices@);
    let ghost lines = texts(liner@);
    let mut bots: bool = false;
    assert(lines =~= lines + bot_lines(all, 0));
    for i in 0..authors.len()
        invariant
            all == views(authors@),
            bots == any_bot(all, i as int),
            texts(liner@) == lines + bot_lines(all, i as int),
    {
        assert(all[i as int] == authors@[i as int]@);
        if authors[i].is_bot {
            assert(all[i as int].is_bot);
            bots = true;
            let ghost before = texts(liner@);
            liner.push(line_of(authors[i].name.as_str(), "hi-hat", authors[i].commits));
            assert(texts(liner@) =~= before.push(
                player_line(all[i as int].name, "hi-hat"@, all[i as int].commits as nat),
            ));
            assert(texts(liner@) =~= lines + bot_lines(all, i + 1));
        }
    }
    if bots {
        voices.push(Voice { name: String::from_str("hi-hat"), channel: 9, program: 0 });
        assert(views(voices@) =~= melodic.push(
            VoiceView { name: "hi-hat"@, channel: 9, program: 0 },
        ));
    }
    assert(views(voices@) =~= history_voices(all));
    assert(texts(liner@) =~= said + voice_lines(all));
    let mut voice_of: Vec<usize> = Vec::new();
    for id in 0..authors.len()
        invariant
            all == views(authors@),
            order == ranking(all),
            views(ranked@) == order,
            hats == bot_voice(all),
            voice_of@.len() == id,
            forall|i: int| 0 <= i < id ==> #[trigger] voice_of@[i] == author_voice(all, i),
    {
        assert(all[id as int] == authors@[id as int]@);
        let mut rank: usize = 0;
        while rank < ranked.len() && ranked[rank].id != id
            invariant
                rank <= ranked@.len(),
                views(ranked@) == order,
                rank_of(order, id as int, 0) == rank_of(order, id as int, rank as int),
            decreases ranked@.len() - rank,
        {
            assert(order[rank as int] == ranked@[rank as int]@);
            rank = rank + 1;
        }
        proof {
            if rank < ranked@.len() {
                assert(order[rank as int] == ranked@[rank as int]@);
            }
        }
        let voice: usize = if authors[id].is_bot {
            hats
        } else if rank < MAX_LEADS {
            1 + rank
        } else {
            1 + MAX_LEADS
        };
        voice_of.push(voice);
    }
    (voices, voice_of)
}

/// The instruments of the first leads do not depend on how many follow.
proof fn lemma_slots_prefix(authors: Seq<AuthorView>, k: int, n: int)
    requires
        0 <= k <= n,
    ensures
        lead_slots(authors, k).len() == k,
        lead_slots(authors, n).len() == n,
        lead_slots(authors, k) == lead_slots(authors, n).take(k),
    decreases n,
{
    if k < n {
        lemma_slots_prefix(authors, k, n - 1);
        assert(lead_slots(authors, n).take(k) =~= lead_slots(authors, n - 1).take(k));
    } else if n > 0 {
        lemma_slots_prefix(authors, n - 1, n - 1);
        assert(lead_slots(authors, n).take(n) =~= lead_slots(authors, n));
    } else {
        assert(lead_slots(authors, 0).take(0) =~= lead_slots(authors, 0));
    }
}

} // verus!
