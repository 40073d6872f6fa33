//! Who plays what in a history, said of the authors.

use vstd::prelude::*;
use vstd::utf8::encode_utf8;

use crate::laws::plain::{how_many, lemma_how_many_push};
use crate::laws::rhythm::lemma_sorted_count;
use crate::model::{AuthorView, VoiceView};
use crate::rng::fnv;
use crate::sorting::{
    lemma_lex_total, lemma_sorted_holds, lemma_sorted_in_order, lemma_sorted_len, lex_before,
    placed, sorted, Ranked,
};
use crate::text::{codes, decimal};
use crate::voices::{
    any_bot, author_key, author_voice, bot_lines, commits_from, free_slot, history_voices, humans,
    lead_count, lead_lines, lead_slots, lemma_leads_distinct, lemma_ranking, palette_name,
    player_line, rank_of, ranking, tail_commits, voice_lines, ContenderView,
};

verus! {

/// Whether an author comes before another: by more commits, or by the email where they have
/// as many.
pub open spec fn outranks(a: AuthorView, b: AuthorView) -> bool {
    a.commits > b.commits || (a.commits == b.commits && lex_before(codes(a.email), codes(b.email)))
}

/// How many people come before an author; bots do not count.
pub open spec fn people_before(authors: Seq<AuthorView>, id: int) -> int {
    how_many(authors, |a: AuthorView| !a.is_bot && outranks(a, authors[id]))
}

/// How many people there are.
pub open spec fn people(authors: Seq<AuthorView>) -> int {
    how_many(authors, |a: AuthorView| !a.is_bot)
}

/// Whether no two people have the same email.
pub open spec fn emails_differ(authors: Seq<AuthorView>) -> bool {
    forall|i: int, j: int|
        0 <= i < j < authors.len() ==> (#[trigger] authors[i]).email != (
        #[trigger] authors[j]).email
}

/// The lead instruments: their programs and names.
pub open spec fn lead_instrument(slot: int) -> (u8, Seq<char>) {
    if slot == 0 {
        (0, "piano"@)
    } else if slot == 1 {
        (12, "marimba"@)
    } else if slot == 2 {
        (4, "electric piano"@)
    } else if slot == 3 {
        (40, "violin"@)
    } else if slot == 4 {
        (73, "flute"@)
    } else if slot == 5 {
        (60, "french horn"@)
    } else if slot == 6 {
        (11, "vibraphone"@)
    } else if slot == 7 {
        (68, "oboe"@)
    } else if slot == 8 {
        (24, "nylon guitar"@)
    } else {
        (46, "harp"@)
    }
}

proof fn lemma_email_codes(a: Seq<char>, b: Seq<char>)
    requires
        codes(a) == codes(b),
    ensures
        a == b,
{
    assert(a.len() == codes(a).len() && b.len() == codes(b).len());
    assert forall|i: int| 0 <= i < a.len() implies a[i] == b[i] by {
        assert(codes(a)[i] == a[i] as u32 && codes(b)[i] == b[i] as u32);
        vstd::utf8::char_u32_cast(a[i], codes(a)[i]);
        vstd::utf8::char_u32_cast(b[i], codes(b)[i]);
    }
    assert(a =~= b);
}

proof fn lemma_key_order(a: AuthorView, b: AuthorView)
    ensures
        lex_before(author_key(a), author_key(b)) <==> outranks(a, b),
        author_key(a) == author_key(b) ==> a.email == b.email,
{
    let x = author_key(a);
    let y = author_key(b);
    assert(x[0] == (u32::MAX - a.commits) as u32 && y[0] == (u32::MAX - b.commits) as u32);
    assert(x.drop_first() =~= codes(a.email));
    assert(y.drop_first() =~= codes(b.email));
    if x == y {
        lemma_email_codes(a.email, b.email);
    }
}

proof fn lemma_humans_count(
    authors: Seq<AuthorView>,
    k: int,
    of: spec_fn(AuthorView) -> bool,
    listed: spec_fn(ContenderView) -> bool,
)
    requires
        0 <= k <= authors.len(),
        forall|id: int|
            0 <= id < authors.len() ==> (listed(
                ContenderView { id, key: author_key(#[trigger] authors[id]) },
            ) <==> of(authors[id])),
    ensures
        how_many(humans(authors, k), listed) == how_many(
            authors.take(k),
            |a: AuthorView| !a.is_bot && of(a),
        ),
    decreases k,
{
    let both = |a: AuthorView| !a.is_bot && of(a);
    if k > 0 {
        lemma_humans_count(authors, k - 1, of, listed);
        lemma_how_many_push(authors.take(k - 1), authors[k - 1], both);
        assert(authors.take(k) =~= authors.take(k - 1).push(authors[k - 1]));
        let c = ContenderView { id: k - 1, key: author_key(authors[k - 1]) };
        if !authors[k - 1].is_bot {
            lemma_how_many_push(humans(authors, k - 1), c, listed);
        }
    } else {
        assert(authors.take(0).len() == 0);
    }
}

proof fn lemma_human_of(authors: Seq<AuthorView>, k: int, j: int)
    requires
        0 <= k <= authors.len(),
        0 <= j < humans(authors, k).len(),
    ensures
        ({
            let c = humans(authors, k)[j];
            0 <= c.id < k && !authors[c.id].is_bot && c.key == author_key(authors[c.id])
        }),
    decreases k,
{
    if j < humans(authors, k - 1).len() {
        lemma_human_of(authors, k - 1, j);
    }
}

proof fn lemma_ranked_of(authors: Seq<AuthorView>, j: int)
    requires
        0 <= j < ranking(authors).len(),
    ensures
        ({
            let c = ranking(authors)[j];
            0 <= c.id < authors.len() && !authors[c.id].is_bot && c.key == author_key(
                authors[c.id],
            )
        }),
{
    let h = humans(authors, authors.len() as int);
    let r = ranking(authors);
    lemma_sorted_holds(h, r[j]);
    assert(r.contains(r[j]));
    let k = choose|k: int| 0 <= k < h.len() && h[k] == r[j];
    lemma_human_of(authors, authors.len() as int, k);
}

proof fn lemma_rank_found(ranked: Seq<ContenderView>, id: int, from: int, at: int)
    requires
        0 <= from <= at < ranked.len(),
        ranked[at].id == id,
    ensures
        from <= rank_of(ranked, id, from) <= at,
        ranked[rank_of(ranked, id, from)].id == id,
    decreases ranked.len() - from,
{
    if ranked[from].id != id {
        lemma_rank_found(ranked, id, from + 1, at);
    }
}

proof fn lemma_front_count(
    s: Seq<ContenderView>,
    n: int,
    meets: spec_fn(ContenderView) -> bool,
)
    requires
        0 <= n <= s.len(),
        forall|j: int| 0 <= j < s.len() ==> (meets(#[trigger] s[j]) <==> j < n),
    ensures
        how_many(s, meets) == n,
    decreases s.len(),
{
    if s.len() > 0 {
        let t = s.drop_first();
        assert(meets(s[0]) <==> 0 < n);
        assert forall|j: int| 0 <= j < t.len() implies (meets(#[trigger] t[j]) <==> j < (if n > 0 {
            n - 1
        } else {
            0
        })) by {
            assert(meets(s[j + 1]) <==> j + 1 < n);
        }
        lemma_front_count(
            t,
            if n > 0 {
                n - 1
            } else {
                0
            },
            meets,
        );
    }
}

/// The place of an author in the ranking is the number of people who come before.
proof fn lemma_place(authors: Seq<AuthorView>, id: int)
    requires
        emails_differ(authors),
        0 <= id < authors.len(),
        !authors[id].is_bot,
    ensures
        ({
            let r = ranking(authors);
            let p = people_before(authors, id);
            &&& rank_of(r, id, 0) == p
            &&& 0 <= p < r.len()
            &&& r[p].id == id
        }),
{
    let n = authors.len() as int;
    let r = ranking(authors);
    let h = humans(authors, n);
    lemma_ranking(authors);
    let at = choose|i: int| 0 <= i < r.len() && (#[trigger] r[i]).id == id;
    lemma_rank_found(r, id, 0, at);
    let p = rank_of(r, id, 0);
    let key = author_key(authors[id]);
    lemma_ranked_of(authors, p);
    lemma_sorted_in_order(h);
    let before = |c: ContenderView| lex_before(c.key, key);
    assert forall|j: int| 0 <= j < r.len() implies (before(#[trigger] r[j]) <==> j < p) by {
        lemma_ranked_of(authors, j);
        lemma_lex_total(r[j].key, key);
        if j < p {
            assert(r[j].le(r[p]));
            if r[j].key == key {
                lemma_key_order(authors[r[j].id], authors[id]);
                let i = r[j].id;
                if i < id {
                    assert(authors[i].email != authors[id].email);
                } else if id < i {
                    assert(authors[id].email != authors[i].email);
                } else {
                    lemma_rank_found(r, id, 0, j);
                }
            }
        } else {
            assert(r[p].le(r[j]));
        }
    }
    lemma_front_count(r, p, before);
    lemma_sorted_count(h, before);
    let of = |a: AuthorView| outranks(a, authors[id]);
    assert forall|i: int| 0 <= i < n implies (before(
        ContenderView { id: i, key: author_key(#[trigger] authors[i]) },
    ) <==> of(authors[i])) by {
        lemma_key_order(authors[i], authors[id]);
    }
    lemma_humans_count(authors, n, of, before);
    assert(authors.take(n) =~= authors);
    assert((|a: AuthorView| !a.is_bot && of(a)) =~= (|a: AuthorView|
        !a.is_bot && outranks(a, authors[id])));
}

proof fn lemma_people(authors: Seq<AuthorView>)
    ensures
        ranking(authors).len() == people(authors),
{
    let n = authors.len() as int;
    let h = humans(authors, n);
    lemma_sorted_len(h);
    let of = |a: AuthorView| true;
    let any = |c: ContenderView| true;
    lemma_humans_count(authors, n, of, any);
    assert(authors.take(n) =~= authors);
    assert((|a: AuthorView| !a.is_bot && of(a)) =~= (|a: AuthorView| !a.is_bot));
    lemma_front_count(h, h.len() as int, any);
}

/// The voice of an author: one of the four people with the most commits has a voice of its
/// own, by rank behind the anchor; the other people share the ensemble, and the bots the
/// hi-hat behind all others.
pub proof fn lemma_voice_of_author(authors: Seq<AuthorView>, id: int)
    requires
        emails_differ(authors),
        0 <= id < authors.len(),
    ensures
        ({
            let p = people_before(authors, id);
            let voices = history_voices(authors);
            let v = author_voice(authors, id);
            let voice = voices[v];
            &&& 0 < v < voices.len()
            &&& !authors[id].is_bot && p < 4 ==> v == 1 + p && voice.channel == 1 + p
            &&& !authors[id].is_bot && p >= 4 ==> v == 5 && voice.channel == 5 && voice.program
                == 48 && voice.name == "string ensemble"@
            &&& authors[id].is_bot ==> v == voices.len() - 1 && voice.channel == 9
                && voice.program == 0 && voice.name == "hi-hat"@
        }),
{
    lemma_people(authors);
    if authors[id].is_bot {
        assert(any_bot(authors, authors.len() as int));
    } else {
        lemma_place(authors, id);
    }
}

/// The voices of a history: the anchor, a cello; one for each of at most four people; the
/// ensemble if there are more; and the hi-hat if there is a bot.
pub proof fn lemma_voices_of_history(authors: Seq<AuthorView>)
    ensures
        ({
            let voices = history_voices(authors);
            let leads: int = if people(authors) < 4 {
                people(authors)
            } else {
                4
            };
            let more: int = if people(authors) > 4 {
                1
            } else {
                0
            };
            let bots: int = if exists|i: int|
                0 <= i < authors.len() && (#[trigger] authors[i]).is_bot {
                1
            } else {
                0
            };
            &&& voices.len() == 1 + leads + more + bots
            &&& voices[0] == (VoiceView { name: "anchor (cello)"@, channel: 0, program: 42 })
            &&& more == 1 ==> voices[5] == (VoiceView {
                name: "string ensemble"@,
                channel: 5,
                program: 48,
            })
            &&& bots == 1 ==> voices.last() == (VoiceView {
                name: "hi-hat"@,
                channel: 9,
                program: 0,
            })
        }),
{
    lemma_people(authors);
    assert(any_bot(authors, authors.len() as int) <==> exists|i: int|
        0 <= i < authors.len() && (#[trigger] authors[i]).is_bot);
}

proof fn lemma_free(used: Seq<int>, slot: int, tries: nat) -> (d: int)
    requires
        0 <= slot < 10,
    ensures
        0 <= d <= tries,
        free_slot(used, slot, tries) == (slot + d) % 10,
        forall|e: int| 0 <= e < d ==> used.contains(#[trigger] ((slot + e) % 10)),
        d < tries ==> !used.contains(free_slot(used, slot, tries)),
    decreases tries,
{
    if tries == 0 || !used.contains(slot) {
        0
    } else {
        let next = (slot + 1) % 10;
        let d = lemma_free(used, next, (tries - 1) as nat);
        assert forall|e: int| 0 <= e < d + 1 implies used.contains(
            #[trigger] ((slot + e) % 10),
        ) by {
            if e > 0 {
                assert((slot + e) % 10 == (next + (e - 1)) % 10);
                assert(used.contains((next + (e - 1)) % 10));
            } else {
                assert(slot % 10 == slot);
            }
        }
        assert((slot + (d + 1)) % 10 == (next + d) % 10);
        d + 1
    }
}

proof fn lemma_slots_front(authors: Seq<AuthorView>, a: int, b: int)
    requires
        0 <= a <= b,
    ensures
        lead_slots(authors, a).len() == a,
        lead_slots(authors, b).len() == b,
        lead_slots(authors, b).take(a) == lead_slots(authors, a),
    decreases b,
{
    if a < b {
        lemma_slots_front(authors, a, b - 1);
        assert(lead_slots(authors, b).take(a) =~= lead_slots(authors, b - 1).take(a));
    } else {
        if b > 0 {
            lemma_slots_front(authors, b - 1, b - 1);
        }
        assert(lead_slots(authors, b).take(a) =~= lead_slots(authors, b));
    }
}

/// The instrument of a lead: the one that the hash of the email picks of the ten, or else the
/// next one that no lead before plays. No two leads play the same. The liner notes tell who
/// plays what.
#[verifier::rlimit(30)]
pub proof fn lemma_instrument_of_lead(authors: Seq<AuthorView>, id: int) -> (slots: Seq<int>)
    requires
        emails_differ(authors),
        0 <= id < authors.len(),
        !authors[id].is_bot,
        people_before(authors, id) < 4,
    ensures
        ({
            let p = people_before(authors, id);
            let pick = (fnv(encode_utf8(authors[id].email)) % 10) as int;
            let voice = history_voices(authors)[1 + p];
            &&& slots.len() == p + 1
            &&& (voice.program, voice.name) == lead_instrument(slots[p])
            &&& forall|i: int|
                0 <= i < p ==> #[trigger] slots[i] != slots[p] && lead_instrument(slots[i]) == (
                    history_voices(authors)[1 + i].program,
                    history_voices(authors)[1 + i].name,
                )
            &&& exists|d: int|
                0 <= d < 10 && slots[p] == #[trigger] ((pick + d) % 10) && forall|e: int|
                    0 <= e < d ==> slots.take(p).contains(#[trigger] ((pick + e) % 10))
            &&& voice_lines(authors)[p] == authors[id].email + " -> "@ + voice.name + " ("@
                + decimal(authors[id].commits as nat) + " commits)"@
        }),
{
    let p = people_before(authors, id);
    let pick = (fnv(encode_utf8(authors[id].email)) % 10) as int;
    lemma_place(authors, id);
    let n = lead_count(authors);
    let all = lead_slots(authors, n);
    let slots = lead_slots(authors, p + 1);
    let used = lead_slots(authors, p);
    lemma_leads_distinct(authors, n);
    lemma_leads_distinct(authors, p + 1);
    lemma_slots_front(authors, p + 1, n);
    lemma_slots_front(authors, p, p + 1);
    assert(slots == used.push(free_slot(used, pick, 10)));
    let d = lemma_free(used, pick, 10);
    assert(slots.take(p) =~= used);
    assert forall|i: int| 0 <= i <= p implies #[trigger] slots[i] == all[i] by {
        assert(all.take(p + 1)[i] == all[i]);
    }
    if d == 10 {
        assert((pick + 10) % 10 == pick);
        assert(used.contains((pick + 0) % 10));
        let i = choose|i: int| 0 <= i < used.len() && used[i] == (pick + 0) % 10;
        assert(slots[i] == used[i]);
        assert(slots[i] != slots[p]);
    }
    assert forall|i: int| 0 <= i < p implies #[trigger] slots[i] != slots[p] && lead_instrument(
        slots[i],
    ) == (history_voices(authors)[1 + i].program, history_voices(authors)[1 + i].name) by {
        assert(all[i] == slots[i]);
        assert(history_voices(authors)[1 + i].name == palette_name(all[i]));
    }
    assert(history_voices(authors)[1 + p].name == palette_name(all[p]));
    assert(voice_lines(authors)[p] == lead_lines(authors)[p]);
    slots
}

proof fn lemma_bot_count(authors: Seq<AuthorView>, k: int)
    requires
        0 <= k <= authors.len(),
    ensures
        bot_lines(authors, k).len() == how_many(authors.take(k), |a: AuthorView| a.is_bot),
    decreases k,
{
    let bots = |a: AuthorView| a.is_bot;
    if k > 0 {
        lemma_bot_count(authors, k - 1);
        lemma_how_many_push(authors.take(k - 1), authors[k - 1], bots);
        assert(authors.take(k) =~= authors.take(k - 1).push(authors[k - 1]));
    } else {
        assert(authors.take(0).len() == 0);
    }
}

proof fn lemma_bot_line(authors: Seq<AuthorView>, k: int, id: int)
    requires
        0 <= id < k <= authors.len(),
        authors[id].is_bot,
    ensures
        ({
            let at = how_many(authors.take(id), |a: AuthorView| a.is_bot);
            &&& 0 <= at < bot_lines(authors, k).len()
            &&& bot_lines(authors, k)[at] == player_line(
                authors[id].name,
                "hi-hat"@,
                authors[id].commits as nat,
            )
        }),
    decreases k,
{
    lemma_bot_count(authors, id);
    if id < k - 1 {
        lemma_bot_line(authors, k - 1, id);
    }
}

/// The lines about the players: one for each lead, one for the others if there are more than
/// four people, and one for each bot, by its name, in the order of the authors.
pub proof fn lemma_lines_of_players(authors: Seq<AuthorView>, id: int)
    requires
        0 <= id < authors.len(),
    ensures
        ({
            let lines = voice_lines(authors);
            let people = people(authors);
            let first: int = if people > 4 {
                5
            } else {
                people
            };
            let bots_before = how_many(authors.take(id), |a: AuthorView| a.is_bot);
            &&& lines.len() == first + how_many(authors, |a: AuthorView| a.is_bot)
            &&& authors[id].is_bot ==> lines[first + bots_before] == authors[id].name + " -> "@
                + "hi-hat"@ + " ("@ + decimal(authors[id].commits as nat) + " commits)"@
            &&& people > 4 ==> lines[4] == decimal((people - 4) as nat) + " more authors"@ + " -> "@
                + "string ensemble"@ + " ("@ + decimal(tail_commits(authors) as nat)
                + " commits)"@
        }),
{
    let n = authors.len() as int;
    lemma_people(authors);
    lemma_bot_count(authors, n);
    assert(authors.take(n) =~= authors);
    if authors[id].is_bot {
        lemma_bot_line(authors, n, id);
    }
}

/// The commits of the authors that meet a condition.
pub open spec fn commits_where(
    authors: Seq<AuthorView>,
    meets: spec_fn(AuthorView) -> bool,
) -> int
    decreases authors.len(),
{
    if authors.len() == 0 {
        0
    } else {
        commits_where(authors.drop_first(), meets) + if meets(authors[0]) {
            authors[0].commits as int
        } else {
            0
        }
    }
}

proof fn lemma_commits_push(
    authors: Seq<AuthorView>,
    a: AuthorView,
    meets: spec_fn(AuthorView) -> bool,
)
    ensures
        commits_where(authors.push(a), meets) == commits_where(authors, meets) + if meets(a) {
            a.commits as int
        } else {
            0
        },
    decreases authors.len(),
{
    let t = authors.push(a);
    if authors.len() == 0 {
        assert(t.drop_first() =~= authors);
    } else {
        lemma_commits_push(authors.drop_first(), a, meets);
        assert(t.drop_first() =~= authors.drop_first().push(a));
    }
}

/// The commits of the authors in a list.
spec fn listed(authors: Seq<AuthorView>, list: Seq<ContenderView>) -> int
    decreases list.len(),
{
    if list.len() == 0 {
        0
    } else {
        listed(authors, list.drop_last()) + authors[list.last().id].commits
    }
}

proof fn lemma_listed_placed(authors: Seq<AuthorView>, s: Seq<ContenderView>, x: ContenderView)
    ensures
        listed(authors, placed(s, x)) == listed(authors, s) + authors[x.id].commits,
    decreases s.len(),
{
    if s.len() == 0 || s.last().le(x) {
        assert(s.push(x).drop_last() =~= s);
    } else {
        lemma_listed_placed(authors, s.drop_last(), x);
        assert(placed(s, x).drop_last() =~= placed(s.drop_last(), x));
    }
}

proof fn lemma_listed_sorted(authors: Seq<AuthorView>, s: Seq<ContenderView>)
    ensures
        listed(authors, sorted(s)) == listed(authors, s),
    decreases s.len(),
{
    if s.len() > 0 {
        lemma_listed_sorted(authors, s.drop_last());
        lemma_listed_placed(authors, sorted(s.drop_last()), s.last());
    }
}

proof fn lemma_listed_humans(authors: Seq<AuthorView>, k: int)
    requires
        0 <= k <= authors.len(),
    ensures
        listed(authors, humans(authors, k)) == commits_where(
            authors.take(k),
            |a: AuthorView| !a.is_bot,
        ),
    decreases k,
{
    let human = |a: AuthorView| !a.is_bot;
    if k > 0 {
        lemma_listed_humans(authors, k - 1);
        lemma_commits_push(authors.take(k - 1), authors[k - 1], human);
        assert(authors.take(k) =~= authors.take(k - 1).push(authors[k - 1]));
        if !authors[k - 1].is_bot {
            assert(humans(authors, k).drop_last() =~= humans(authors, k - 1));
        }
    } else {
        assert(authors.take(0).len() == 0);
    }
}

proof fn lemma_listed_split(authors: Seq<AuthorView>, r: Seq<ContenderView>, from: int)
    requires
        0 <= from <= r.len(),
    ensures
        listed(authors, r) == listed(authors, r.take(from)) + commits_from(authors, r, from),
    decreases r.len() - from,
{
    if from < r.len() {
        lemma_listed_split(authors, r, from + 1);
        assert(r.take(from + 1).drop_last() =~= r.take(from));
    } else {
        assert(r.take(from) =~= r);
    }
}

/// The commits that the line about the ensemble counts are those of all people but the four
/// leads.
pub proof fn lemma_commits_of_ensemble(authors: Seq<AuthorView>, leads: Seq<int>)
    requires
        emails_differ(authors),
        people(authors) > 4,
        leads.len() == 4,
        forall|k: int|
            0 <= k < 4 ==> 0 <= #[trigger] leads[k] < authors.len() && !authors[leads[k]].is_bot
                && people_before(authors, leads[k]) == k,
    ensures
        tail_commits(authors) == commits_where(authors, |a: AuthorView| !a.is_bot)
            - authors[leads[0]].commits - authors[leads[1]].commits - authors[leads[2]].commits
            - authors[leads[3]].commits,
{
    let n = authors.len() as int;
    let r = ranking(authors);
    lemma_people(authors);
    lemma_listed_humans(authors, n);
    lemma_listed_sorted(authors, humans(authors, n));
    lemma_listed_split(authors, r, 4);
    assert(authors.take(n) =~= authors);
    assert(0 <= leads[0] < n && 0 <= leads[1] < n && 0 <= leads[2] < n && 0 <= leads[3] < n);
    lemma_place(authors, leads[0]);
    lemma_place(authors, leads[1]);
    lemma_place(authors, leads[2]);
    lemma_place(authors, leads[3]);
    assert(r.take(4).drop_last() =~= r.take(3));
    assert(r.take(3).drop_last() =~= r.take(2));
    assert(r.take(2).drop_last() =~= r.take(1));
    assert(r.take(1).drop_last() =~= r.take(0));
    assert(listed(authors, r.take(0)) == 0);
    assert(listed(authors, r.take(1)) == authors[r[0].id].commits);
    assert(listed(authors, r.take(2)) == listed(authors, r.take(1)) + authors[r[1].id].commits);
    assert(listed(authors, r.take(3)) == listed(authors, r.take(2)) + authors[r[2].id].commits);
    assert(listed(authors, r.take(4)) == listed(authors, r.take(3)) + authors[r[3].id].commits);
}

} // verus!
