//! What holds of the marketplace whatever happens on it, stated over the
//! plain-value model the operations' contracts use.

use vstd::prelude::*;
use crate::hub::{
    Hub, MAX_HISTORY, agent_index, capability_list, hay, by_creation, candidates, capped, discovered, earlier_first,
    find_agent, has_agent, ids_unique, overlap, ranked, roster_put, roster_without,
};
use crate::brain::{ask_of, before_stop, cut, mock_text, speaker_of};
use crate::coordinator::{
    NeedView, RunView, Stage, StepView, advanced, by_score, cap_score, caps_between, chosen_caps, decomposition,
    delegated, finished, logged, market_needs, planned, positive_caps, ranked_caps, reply_needs,
    same_inboxes, scored_caps, searched,
};
use crate::json::{Json, text_of};
use crate::models::{
    AgentView, EventDataView, EventView, cap_of, caps_from_items, caps_from_pieces, is_short_id,
    normalized_caps, persona_for, role_for,
};
use crate::text::{
    all_ascii, ascii_lower, lemma_ascii_lowered_trimmed, lemma_folded_ignores_case, lowercase,
    lemma_trim_fixed, lemma_trimmed_ends, join, split_on_state, trim_seq, lemma_token_set_finite, lemma_token_set_joined, split_on,
    token_set, utf8_len,
};
use crate::rank::{lemma_rank_by_key_props, rank_by_key};

verus! {

broadcast use vstd::multiset::group_multiset_axioms;

/// Each candidate of a discovery carries its overlap, shares a word with the
/// query, is not the asker, and is on the roster; every agent that shares a
/// word and is not the asker is a candidate.
proof fn lemma_candidates(r: Seq<AgentView>, q: Seq<char>, ex: Option<Seq<char>>)
    ensures
        forall|i: int|
            0 <= i < candidates(r, q, ex).len() ==> {
                let p = #[trigger] candidates(r, q, ex)[i];
                &&& p.0 == overlap(q, p.1)
                &&& p.0 > 0
                &&& ex != Some(p.1.id)
                &&& r.contains(p.1)
            },
        forall|k: int|
            0 <= k < r.len() && ex != Some(r[k].id) && overlap(q, r[k]) > 0 ==> #[trigger] candidates(
                r,
                q,
                ex,
            ).contains((overlap(q, r[k]) as int, r[k])),
    decreases r.len(),
{
    if r.len() > 0 {
        let t = r.drop_last();
        lemma_candidates(t, q, ex);
        let c = candidates(r, q, ex);
        let ct = candidates(t, q, ex);
        assert forall|i: int| 0 <= i < c.len() implies {
            let p = #[trigger] c[i];
            &&& p.0 == overlap(q, p.1)
            &&& p.0 > 0
            &&& ex != Some(p.1.id)
            &&& r.contains(p.1)
        } by {
            if i < ct.len() {
                assert(c[i] == ct[i]);
                let p = ct[i];
                let j = choose|j: int| 0 <= j < t.len() && t[j] == p.1;
                assert(r[j] == t[j]);
            } else {
                assert(r[r.len() - 1] == r.last());
            }
        }
        assert forall|k: int|
            0 <= k < r.len() && ex != Some(r[k].id) && overlap(q, r[k]) > 0 implies #[trigger] c.contains(
            (overlap(q, r[k]) as int, r[k]),
        ) by {
            if k < t.len() {
                assert(t[k] == r[k]);
                assert(ct.contains((overlap(q, t[k]) as int, t[k])));
                let j = choose|j: int| 0 <= j < ct.len() && ct[j] == (overlap(q, t[k]) as int, t[k]);
                assert(c[j] == ct[j]);
            } else {
                assert(c[c.len() - 1] == (overlap(q, r[k]) as int, r[k]));
            }
        }
    }
}

/// Discovery never finds the asker; everything it finds shares a word with
/// the query, is on the roster, and comes no later than anything with less
/// overlap; and everything that shares a word with the query and is not the
/// asker is found.
pub proof fn law_discovery(r: Seq<AgentView>, q: Seq<char>, ex: Option<Seq<char>>)
    ensures
        forall|i: int|
            0 <= i < discovered(r, q, ex).len() ==> ex != Some(
                (#[trigger] discovered(r, q, ex)[i]).id,
            ) && overlap(q, discovered(r, q, ex)[i]) > 0 && r.contains(discovered(r, q, ex)[i]),
        forall|i: int, j: int|
            0 <= i < j < discovered(r, q, ex).len() ==> overlap(q, #[trigger] discovered(r, q, ex)[i])
                >= overlap(q, #[trigger] discovered(r, q, ex)[j]),
        forall|k: int|
            0 <= k < r.len() && ex != Some(r[k].id) && overlap(q, r[k]) > 0 ==> #[trigger] discovered(
                r,
                q,
                ex,
            ).contains(r[k]),
{
    let c = candidates(r, q, ex);
    let key = |p: (int, AgentView)| crate::hub::by_overlap(p);
    let rk = rank_by_key(c, key);
    let d = discovered(r, q, ex);
    lemma_candidates(r, q, ex);
    lemma_rank_by_key_props(c, key);
    rk.to_multiset_ensures();
    c.to_multiset_ensures();
    assert(rk == ranked(r, q, ex));
    assert forall|i: int| 0 <= i < rk.len() implies c.contains(#[trigger] rk[i]) by {
        assert(rk.contains(rk[i]));
        assert(rk.to_multiset().count(rk[i]) > 0);
        assert(c.to_multiset().count(rk[i]) > 0);
    }
    assert forall|i: int|
        0 <= i < d.len() implies ex != Some((#[trigger] d[i]).id) && overlap(q, d[i]) > 0
        && r.contains(d[i]) by {
        assert(d[i] == rk[i].1);
        assert(c.contains(rk[i]));
        let j = choose|j: int| 0 <= j < c.len() && c[j] == rk[i];
    }
    assert forall|i: int, j: int| 0 <= i < j < d.len() implies overlap(q, #[trigger] d[i])
        >= overlap(q, #[trigger] d[j]) by {
        assert(d[i] == rk[i].1 && d[j] == rk[j].1);
        assert(key(rk[i]) >= key(rk[j]));
        assert(c.contains(rk[i]) && c.contains(rk[j]));
        let a = choose|a: int| 0 <= a < c.len() && c[a] == rk[i];
        let b = choose|b: int| 0 <= b < c.len() && c[b] == rk[j];
    }
    assert forall|k: int|
        0 <= k < r.len() && ex != Some(r[k].id) && overlap(q, r[k]) > 0 implies #[trigger] d.contains(
        r[k],
    ) by {
        let p = (overlap(q, r[k]) as int, r[k]);
        assert(c.contains(p));
        let j = choose|j: int| 0 <= j < c.len() && c[j] == p;
        assert(c.to_multiset().count(p) > 0);
        assert(rk.to_multiset().count(p) > 0);
        assert(rk.contains(p));
        let m = choose|m: int| 0 <= m < rk.len() && rk[m] == p;
        assert(d[m] == r[k]);
    }
}

/// An announcement is the newest event on the feed and in the outbox.
pub proof fn law_announcement_is_newest(after: Hub, before: Hub, kind: Seq<char>, data: EventDataView)
    requires
        after.announced(before, kind, data),
    ensures
        after.feed().len() > 0,
        after.feed().last().event_type == kind,
        after.feed().last().data == data,
        after.outbox().last().event_type == kind,
        after.outbox().last().data == data,
{
    let e = choose|e: EventView|
        #![trigger before.feed().push(e)]
        e.event_type == kind && e.data == data && crate::models::is_short_id(e.id, "evt"@)
            && after.feed() == capped(before.feed().push(e)) && after.outbox() == before.outbox().push(e);
    let s = before.feed().push(e);
    assert(s.last() == e);
    if s.len() > MAX_HISTORY {
        assert(capped(s).last() == s.last());
    }
}

/// Routing a message puts it last in its addressee's inbox: the next drain of
/// that inbox hands out what was already waiting and then the message, and a
/// drain right after hands out nothing.
pub proof fn law_route_then_drain(
    before: Hub,
    routed: Hub,
    m: crate::models::MessageView,
    drained: Hub,
    first: Seq<crate::models::MessageView>,
    second: Seq<crate::models::MessageView>,
)
    requires
        routed.inbox(m.to_id) == before.inbox(m.to_id).push(m),
        first == routed.inbox(m.to_id),
        drained.inbox(m.to_id) == Seq::<crate::models::MessageView>::empty(),
        second == drained.inbox(m.to_id),
    ensures
        first.len() == before.inbox(m.to_id).len() + 1,
        first.last() == m,
        first.drop_last() == before.inbox(m.to_id),
        second.len() == 0,
{
    assert(first.drop_last() =~= before.inbox(m.to_id));
}

/// The feed of a hub that only the marketplace's operations changed never
/// holds more than `MAX_HISTORY` events, and no two agents share an id.
pub proof fn law_hub_invariant(h: Hub)
    requires
        h.wf(),
    ensures
        h.feed().len() <= MAX_HISTORY,
        ids_unique(h.roster()),
{
    h.lemma_feed_bounded();
    h.lemma_ids_unique();
}

/// An agent that joins is found under its id afterwards, and the roster
/// still has unique ids.
pub proof fn law_join_then_find(r: Seq<AgentView>, a: AgentView)
    requires
        ids_unique(r),
    ensures
        find_agent(roster_put(r, a), a.id) == Some(a),
        ids_unique(roster_put(r, a)),
        forall|id: Seq<char>| id != a.id ==> #[trigger] find_agent(roster_put(r, a), id) == find_agent(r, id),
{
    let r2 = roster_put(r, a);
    if has_agent(r, a.id) {
        let i = agent_index(r, a.id);
        assert(r2[i] == a);
        assert forall|x: int, y: int| 0 <= x < r2.len() && 0 <= y < r2.len() && x != y implies r2[x].id
            != r2[y].id by {
            assert(r[x].id != r[y].id || x == y);
        }
        crate::hub::lemma_agent_index(r2, i);
        assert forall|id: Seq<char>| id != a.id implies #[trigger] find_agent(r2, id) == find_agent(r, id) by {
            if has_agent(r, id) {
                let j = agent_index(r, id);
                assert(r2[j] == r[j]);
                crate::hub::lemma_agent_index(r2, j);
            } else {
                if has_agent(r2, id) {
                    let j = agent_index(r2, id);
                    assert(r[j].id == id);
                }
            }
        }
    } else {
        assert forall|x: int, y: int| 0 <= x < r2.len() && 0 <= y < r2.len() && x != y implies r2[x].id
            != r2[y].id by {
            if x < r.len() && y < r.len() {
                assert(r[x].id != r[y].id);
            } else if x < r.len() {
                assert(r2[x] == r[x]);
            } else {
                assert(r2[y] == r[y]);
            }
        }
        crate::hub::lemma_agent_index(r2, r.len() as int);
        assert forall|id: Seq<char>| id != a.id implies #[trigger] find_agent(r2, id) == find_agent(r, id) by {
            if has_agent(r, id) {
                let j = agent_index(r, id);
                assert(r2[j] == r[j]);
                crate::hub::lemma_agent_index(r2, j);
            } else {
                if has_agent(r2, id) {
                    let j = agent_index(r2, id);
                    assert(r[j].id == id);
                }
            }
        }
    }
}

/// An agent that leaves is not found afterwards; everyone else still is.
pub proof fn law_leave_then_gone(r: Seq<AgentView>, id: Seq<char>)
    requires
        ids_unique(r),
    ensures
        find_agent(roster_without(r, id), id) is None,
        ids_unique(roster_without(r, id)),
        forall|other: Seq<char>| other != id ==> #[trigger] find_agent(roster_without(r, id), other) == find_agent(r, other),
{
    let r2 = roster_without(r, id);
    if has_agent(r, id) {
        let i = agent_index(r, id);
        assert forall|x: int, y: int| 0 <= x < r2.len() && 0 <= y < r2.len() && x != y implies r2[x].id
            != r2[y].id by {
            let x0 = if x < i { x } else { x + 1 };
            let y0 = if y < i { y } else { y + 1 };
            assert(r2[x] == r[x0] && r2[y] == r[y0]);
        }
        assert(!has_agent(r2, id)) by {
            if has_agent(r2, id) {
                let j = agent_index(r2, id);
                let j0 = if j < i { j } else { j + 1 };
                assert(r2[j] == r[j0]);
            }
        }
        assert forall|other: Seq<char>| other != id implies #[trigger] find_agent(r2, other) == find_agent(r, other) by {
            if has_agent(r, other) {
                let j = agent_index(r, other);
                assert(j != i);
                let j2 = if j < i { j } else { j - 1 };
                assert(r2[j2] == r[j]);
                crate::hub::lemma_agent_index(r2, j2);
            } else {
                if has_agent(r2, other) {
                    let j = agent_index(r2, other);
                    let j0 = if j < i { j } else { j + 1 };
                    assert(r2[j] == r[j0]);
                }
            }
        }
    }
}

/// The agents listing orders the roster by creation time and lists each agent once.
pub proof fn law_listing_by_creation(r: Seq<AgentView>)
    ensures
        forall|i: int, j: int|
            0 <= i < j < by_creation(r).len() ==> (#[trigger] by_creation(r)[i]).created_at
                <= (#[trigger] by_creation(r)[j]).created_at,
        by_creation(r).to_multiset() == r.to_multiset(),
{
    let key = |a: AgentView| earlier_first(a);
    lemma_rank_by_key_props(r, key);
    assert forall|i: int, j: int| 0 <= i < j < by_creation(r).len() implies (#[trigger] by_creation(
        r,
    )[i]).created_at <= (#[trigger] by_creation(r)[j]).created_at by {
        assert(key(by_creation(r)[i]) >= key(by_creation(r)[j]));
    }
}

/// The coordinator never recruits itself: whoever a search hires is not the coordinator.
pub proof fn law_coordinator_never_hires_itself(
    r0: RunView,
    h0: Hub,
    r1: RunView,
    h1: Hub,
    step: StepView,
)
    requires
        advanced(r0, h0, r1, h1, step),
        r1.hiring is Some,
        r1.stage is Delegating,
    ensures
        (r1.hiring->0).0.id != r0.coordinator,
        (r1.hiring->0).0.id != r1.coordinator,
{
    let (searches, h_mid) = choose|searches: Seq<EventView>, h_mid: Hub|
        #![trigger searched(r0, h0, r1.next, searches, h_mid)]
        {
            &&& searched(r0, h0, r1.next, searches, h_mid)
            &&& delegated(r0, h_mid, r1, h1, step)
        };
    let n = r0.needs[r1.next - 1];
    let d = discovered(h_mid.roster(), n.capability, Some(r0.coordinator));
    law_discovery(h_mid.roster(), n.capability, Some(r0.coordinator));
    assert(d[0] == (r1.hiring->0).0);
}

/// Decomposing from the marketplace gives one to four needs; when the
/// marketplace offers capabilities, every need is one of them.
pub proof fn law_market_needs(goal: Seq<char>, caps: Seq<Seq<char>>)
    ensures
        1 <= market_needs(goal, caps).len() <= 4,
        caps.len() > 0 ==> forall|i: int|
            0 <= i < market_needs(goal, caps).len() ==> caps.contains(
                (#[trigger] market_needs(goal, caps)[i]).capability,
            ),
{
    if caps.len() > 0 {
        let key = |p: (int, Seq<char>)| by_score(p);
        let sc = scored_caps(goal, caps);
        let rk = ranked_caps(goal, caps);
        lemma_rank_by_key_props(sc, key);
        rk.to_multiset_ensures();
        sc.to_multiset_ensures();
        assert(rk.len() == caps.len());
        lemma_positive_from(rk);
        let ch = chosen_caps(goal, caps);
        assert forall|i: int| 0 <= i < ch.len() implies caps.contains(#[trigger] ch[i]) by {
            let k: int = if positive_caps(rk).len() == 0 {
                i
            } else {
                choose|k: int| 0 <= k < rk.len() && rk[k].1 == ch[i]
            };
            assert(rk[k].1 == ch[i]);
            assert(rk.contains(rk[k]));
            assert(sc.to_multiset().count(rk[k]) > 0);
            let j = choose|j: int| 0 <= j < sc.len() && sc[j] == rk[k];
            assert(caps[j] == ch[i]);
        }
        assert(ch.len() >= 1) by {
            if positive_caps(rk).len() == 0 {
                assert(ch.len() == rk.len());
            }
        }
    }
}

/// Every capability with a positive score comes from the ranked list.
proof fn lemma_positive_from(s: Seq<(int, Seq<char>)>)
    ensures
        forall|i: int|
            0 <= i < positive_caps(s).len() ==> exists|k: int|
                0 <= k < s.len() && s[k].1 == #[trigger] positive_caps(s)[i],
    decreases s.len(),
{
    if s.len() > 0 {
        let t = s.drop_last();
        lemma_positive_from(t);
        assert forall|i: int| 0 <= i < positive_caps(s).len() implies exists|k: int|
            0 <= k < s.len() && s[k].1 == #[trigger] positive_caps(s)[i] by {
            if i < positive_caps(t).len() {
                assert(positive_caps(s)[i] == positive_caps(t)[i]);
                let k = choose|k: int| 0 <= k < t.len() && t[k].1 == positive_caps(t)[i];
                assert(s[k] == t[k]);
            } else {
                assert(s[s.len() - 1].1 == positive_caps(s)[i]);
            }
        }
    }
}

/// Every capability an agent is given is non-empty.
pub proof fn law_capabilities_nonempty(v: Json)
    ensures
        forall|i: int|
            0 <= i < normalized_caps(v).len() ==> (#[trigger] normalized_caps(v)[i]).len() > 0,
{
    match v {
        Json::Array(items) => lemma_items_nonempty(items@),
        Json::Str(s) => lemma_pieces_nonempty(split_on(s@, ',')),
        _ => {},
    }
}

proof fn lemma_items_nonempty(items: Seq<Json>)
    ensures
        forall|i: int| 0 <= i < caps_from_items(items).len() ==> (#[trigger] caps_from_items(items)[i]).len() > 0,
    decreases items.len(),
{
    if items.len() > 0 {
        let t = items.drop_last();
        lemma_items_nonempty(t);
        let c = caps_from_items(items);
        let ct = caps_from_items(t);
        assert forall|i: int| 0 <= i < c.len() implies (#[trigger] c[i]).len() > 0 by {
            if i < ct.len() {
                assert(c[i] == ct[i]);
            }
        }
    }
}

proof fn lemma_pieces_nonempty(pieces: Seq<Seq<char>>)
    ensures
        forall|i: int| 0 <= i < caps_from_pieces(pieces).len() ==> (#[trigger] caps_from_pieces(pieces)[i]).len() > 0,
    decreases pieces.len(),
{
    if pieces.len() > 0 {
        let t = pieces.drop_last();
        lemma_pieces_nonempty(t);
        let c = caps_from_pieces(pieces);
        let ct = caps_from_pieces(t);
        assert forall|i: int| 0 <= i < c.len() implies (#[trigger] c[i]).len() > 0 by {
            if i < ct.len() {
                assert(c[i] == ct[i]);
            }
        }
    }
}

/// The stand-in reply names its speaker: it starts with `[`, the speaker, and `]`.
pub proof fn law_mock_reply_names_speaker(system: Seq<char>, prompt: Seq<char>)
    ensures
        mock_text(system, prompt).len() > speaker_of(system).len() + 1,
        mock_text(system, prompt)[0] == '[',
        mock_text(system, prompt).subrange(1, speaker_of(system).len() + 1 as int) == speaker_of(system),
        mock_text(system, prompt)[speaker_of(system).len() + 1 as int] == ']',
{
    reveal_strlit("[");
    reveal_strlit("] On it: ");
    let sp = speaker_of(system);
    let t = mock_text(system, prompt);
    assert(t == "["@ + sp + "] On it: "@ + cut(ask_of(prompt)) + " (demo mode — set GEMINI_API_KEY for real answers)"@);
    assert(t.subrange(1, sp.len() + 1 as int) =~= sp);
}

/// Queries with the same words give the same candidates.
proof fn lemma_candidates_same_words(r: Seq<AgentView>, q1: Seq<char>, q2: Seq<char>, ex: Option<Seq<char>>)
    requires
        token_set(q1, 1) == token_set(q2, 1),
    ensures
        candidates(r, q1, ex) == candidates(r, q2, ex),
    decreases r.len(),
{
    if r.len() > 0 {
        lemma_candidates_same_words(r.drop_last(), q1, q2, ex);
        assert(overlap(q1, r.last()) == overlap(q2, r.last()));
    }
}

/// A query without words gives no candidates.
proof fn lemma_candidates_without_words(r: Seq<AgentView>, q: Seq<char>, ex: Option<Seq<char>>)
    requires
        token_set(q, 1) == Set::<Seq<char>>::empty(),
    ensures
        candidates(r, q, ex).len() == 0,
    decreases r.len(),
{
    if r.len() > 0 {
        lemma_candidates_without_words(r.drop_last(), q, ex);
        let a = r.last();
        assert(token_set(q, 1).intersect(token_set(hay(a), 1)) =~= Set::<Seq<char>>::empty());
        assert(overlap(q, a) == 0);
    }
}

/// Discovery ignores ASCII letter case: queries that differ only in the case
/// of ASCII letters find the same agents in the same order.
pub proof fn law_discovery_ignores_case(r: Seq<AgentView>, q1: Seq<char>, q2: Seq<char>, ex: Option<Seq<char>>)
    requires
        q1.len() == q2.len(),
        forall|i: int| 0 <= i < q1.len() ==> ascii_lower(#[trigger] q1[i]) == ascii_lower(q2[i]),
    ensures
        discovered(r, q1, ex) == discovered(r, q2, ex),
{
    lemma_folded_ignores_case(q1, q2);
    assert(token_set(q1, 1) =~= token_set(q2, 1));
    lemma_candidates_same_words(r, q1, q2, ex);
}

/// A query with no word of two bytes or more finds nobody.
pub proof fn law_discovery_without_words(r: Seq<AgentView>, q: Seq<char>, ex: Option<Seq<char>>)
    requires
        token_set(q, 1) == Set::<Seq<char>>::empty(),
    ensures
        discovered(r, q, ex).len() == 0,
{
    lemma_candidates_without_words(r, q, ex);
    let c = candidates(r, q, ex);
    assert(c =~= Seq::<(int, AgentView)>::empty());
    assert(ranked(r, q, ex) == rank_by_key(c, |p: (int, AgentView)| crate::hub::by_overlap(p)));
}

/// The words of two texts joined by a space are the words of either; so
/// are those `tokenize` and `words` keep. The words `words` keeps are the
/// tokens longer than two bytes.
pub proof fn law_words_of_joined_text(a: Seq<char>, b: Seq<char>, min_bytes: nat)
    ensures
        token_set(a + seq![' '] + b, min_bytes) == token_set(a, min_bytes).union(token_set(b, min_bytes)),
        token_set(a, 2) == token_set(a, 1).filter(|w: Seq<char>| utf8_len(w) > 2),
{
    lemma_token_set_joined(a, b, min_bytes);
    assert(token_set(a, 2) =~= token_set(a, 1).filter(|w: Seq<char>| utf8_len(w) > 2));
}

/// Adding words to a query loses no agent: whoever a query finds, the query
/// followed by a space and more text finds too.
pub proof fn law_discovery_longer_query(r: Seq<AgentView>, q: Seq<char>, more: Seq<char>, ex: Option<Seq<char>>)
    ensures
        forall|a: AgentView| #[trigger] discovered(r, q, ex).contains(a) ==> discovered(r, q + seq![' '] + more, ex).contains(a),
{
    let q2 = q + seq![' '] + more;
    law_discovery(r, q, ex);
    law_discovery(r, q2, ex);
    lemma_token_set_joined(q, more, 1);
    assert forall|a: AgentView| #[trigger] discovered(r, q, ex).contains(a) implies discovered(r, q2, ex).contains(a) by {
        let d = discovered(r, q, ex);
        let i = choose|i: int| 0 <= i < d.len() && d[i] == a;
        assert(ex != Some(d[i].id) && overlap(q, d[i]) > 0 && r.contains(d[i]));
        let k = choose|k: int| 0 <= k < r.len() && r[k] == a;
        let s1 = token_set(q, 1).intersect(token_set(hay(a), 1));
        let s2 = token_set(q2, 1).intersect(token_set(hay(a), 1));
        lemma_token_set_finite(hay(a), 1);
        vstd::set::axiom_set_intersect_finite(token_set(q, 1), token_set(hay(a), 1));
        vstd::set::axiom_set_intersect_finite(token_set(q2, 1), token_set(hay(a), 1));
        vstd::set::axiom_set_choose_len(s1);
        let w = s1.choose();
        assert(s2.contains(w));
        vstd::set::axiom_set_contains_len(s2, w);
        assert(overlap(q2, r[k]) > 0);
    }
}

/// After a run of routings, an inbox holds what it held before and then the
/// messages routed to it, in the order they were routed.
pub proof fn law_routes_fill_inbox_in_order(
    hubs: Seq<Hub>,
    msgs: Seq<crate::models::MessageView>,
    id: Seq<char>,
)
    requires
        hubs.len() == msgs.len() + 1,
        forall|i: int|
            0 <= i < msgs.len() ==> #[trigger] hubs[i + 1].inbox(msgs[i].to_id) == hubs[i].inbox(
                msgs[i].to_id,
            ).push(msgs[i]),
        forall|i: int, other: Seq<char>|
            0 <= i < msgs.len() && other != msgs[i].to_id ==> #[trigger] hubs[i + 1].inbox(other)
                == hubs[i].inbox(other),
    ensures
        hubs.last().inbox(id) == hubs[0].inbox(id) + msgs.filter(
            |m: crate::models::MessageView| m.to_id == id,
        ),
    decreases msgs.len(),
{
    let to_id = |m: crate::models::MessageView| m.to_id == id;
    if msgs.len() == 0 {
        assert(msgs.filter(to_id) =~= Seq::<crate::models::MessageView>::empty());
        assert(hubs[0].inbox(id) + msgs.filter(to_id) =~= hubs[0].inbox(id));
    } else {
        let n = msgs.len() - 1;
        law_routes_fill_inbox_in_order(hubs.drop_last(), msgs.drop_last(), id);
        assert(hubs.drop_last().last() == hubs[n]);
        assert(hubs.drop_last()[0] == hubs[0]);
        msgs.drop_last().lemma_filter_push(msgs[n], to_id);
        assert(msgs.drop_last().push(msgs[n]) =~= msgs);
        if msgs[n].to_id == id {
            assert(hubs[n + 1].inbox(id) == hubs[n].inbox(id).push(msgs[n]));
            assert(hubs[0].inbox(id) + msgs.drop_last().filter(to_id).push(msgs[n]) =~= (hubs[0].inbox(
                id,
            ) + msgs.drop_last().filter(to_id)).push(msgs[n]));
        } else {
            assert(hubs[n + 1].inbox(id) == hubs[n].inbox(id));
        }
    }
}

/// Whether every text that `v` could name capabilities with is ASCII.
pub open spec fn texts_ascii(v: Json) -> bool {
    match v {
        Json::Array(items) => forall|i: int|
            0 <= i < items@.len() ==> match text_of(#[trigger] items@[i]) {
                Some(s) => all_ascii(s),
                None => true,
            },
        Json::Str(s) => all_ascii(s@),
        _ => true,
    }
}

/// A capability given in ASCII comes out trimmed and lower-cased: trimming
/// it, lower-casing it or normalizing it again gives it back.
pub proof fn law_ascii_capability_is_normal(p: Seq<char>)
    requires
        all_ascii(p),
    ensures
        all_ascii(cap_of(p)),
        trim_seq(cap_of(p)) == cap_of(p),
        lowercase(cap_of(p)) == cap_of(p),
        cap_of(cap_of(p)) == cap_of(p),
{
    lemma_ascii_lowered_trimmed(p);
}

/// Capabilities that are their own normal form are kept as they are.
proof fn lemma_pieces_fixed(xs: Seq<Seq<char>>)
    requires
        forall|i: int| 0 <= i < xs.len() ==> (#[trigger] xs[i]).len() > 0 && cap_of(xs[i]) == xs[i],
    ensures
        caps_from_pieces(xs) == xs,
    decreases xs.len(),
{
    if xs.len() > 0 {
        lemma_pieces_fixed(xs.drop_last());
        assert(xs.last() == xs[xs.len() - 1]);
        assert(xs.drop_last().push(xs.last()) =~= xs);
    }
}

/// The capabilities named by ASCII list items are their own normal form.
proof fn lemma_items_normal(items: Seq<Json>)
    requires
        forall|i: int| 0 <= i < items.len() ==> match text_of(#[trigger] items[i]) {
            Some(s) => all_ascii(s),
            None => true,
        },
    ensures
        forall|i: int|
            0 <= i < caps_from_items(items).len() ==> (#[trigger] caps_from_items(items)[i]).len() > 0
                && cap_of(caps_from_items(items)[i]) == caps_from_items(items)[i],
    decreases items.len(),
{
    if items.len() > 0 {
        let t = items.drop_last();
        assert forall|i: int| 0 <= i < t.len() implies match text_of(#[trigger] t[i]) {
            Some(s) => all_ascii(s),
            None => true,
        } by {
            assert(t[i] == items[i]);
        }
        lemma_items_normal(t);
        assert(items.last() == items[items.len() - 1]);
        match text_of(items.last()) {
            Some(s) => lemma_ascii_lowered_trimmed(s),
            None => {},
        }
        let c = caps_from_items(items);
        let ct = caps_from_items(t);
        assert forall|i: int| 0 <= i < c.len() implies (#[trigger] c[i]).len() > 0 && cap_of(c[i]) == c[i] by {
            if i < ct.len() {
                assert(c[i] == ct[i]);
            }
        }
    }
}

/// The capabilities named by ASCII pieces are their own normal form.
proof fn lemma_pieces_normal(pieces: Seq<Seq<char>>)
    requires
        forall|i: int| 0 <= i < pieces.len() ==> all_ascii(#[trigger] pieces[i]),
    ensures
        forall|i: int|
            0 <= i < caps_from_pieces(pieces).len() ==> (#[trigger] caps_from_pieces(pieces)[i]).len() > 0
                && cap_of(caps_from_pieces(pieces)[i]) == caps_from_pieces(pieces)[i],
    decreases pieces.len(),
{
    if pieces.len() > 0 {
        let t = pieces.drop_last();
        assert forall|i: int| 0 <= i < t.len() implies all_ascii(#[trigger] t[i]) by {
            assert(t[i] == pieces[i]);
        }
        lemma_pieces_normal(t);
        assert(pieces.last() == pieces[pieces.len() - 1]);
        lemma_ascii_lowered_trimmed(pieces.last());
        let c = caps_from_pieces(pieces);
        let ct = caps_from_pieces(t);
        assert forall|i: int| 0 <= i < c.len() implies (#[trigger] c[i]).len() > 0 && cap_of(c[i]) == c[i] by {
            if i < ct.len() {
                assert(c[i] == ct[i]);
            }
        }
    }
}

/// The pieces of ASCII text are ASCII.
proof fn lemma_split_on_ascii(s: Seq<char>, sep: char)
    requires
        all_ascii(s),
    ensures
        forall|i: int| 0 <= i < split_on_state(s, sep).0.len() ==> all_ascii(#[trigger] split_on_state(s, sep).0[i]),
        all_ascii(split_on_state(s, sep).1),
    decreases s.len(),
{
    if s.len() > 0 {
        let d = s.drop_last();
        assert forall|i: int| 0 <= i < d.len() implies (#[trigger] d[i] as u32) < 0x80 by {
            assert(d[i] == s[i]);
        }
        lemma_split_on_ascii(d, sep);
        let st = split_on_state(d, sep);
        assert(s.last() == s[s.len() - 1]);
        if s.last() == sep {
            assert forall|i: int| 0 <= i < st.0.push(st.1).len() implies all_ascii(#[trigger] st.0.push(st.1)[i]) by {
                if i < st.0.len() {
                    assert(st.0.push(st.1)[i] == st.0[i]);
                }
            }
        } else {
            assert forall|i: int| 0 <= i < st.1.push(s.last()).len() implies (#[trigger] st.1.push(s.last())[i] as u32) < 0x80 by {
                if i < st.1.len() {
                    assert(st.1.push(s.last())[i] == st.1[i]);
                }
            }
        }
    }
}

/// Normalizing capabilities given in ASCII is idempotent: normalizing the
/// result again, piece by piece, gives it back. Anything but a list or a
/// string names no capability.
pub proof fn law_normalize_caps_idempotent(v: Json)
    requires
        texts_ascii(v),
    ensures
        caps_from_pieces(normalized_caps(v)) == normalized_caps(v),
        !(v is Array || v is Str) ==> normalized_caps(v).len() == 0,
{
    match v {
        Json::Array(items) => {
            lemma_items_normal(items@);
            lemma_pieces_fixed(normalized_caps(v));
        },
        Json::Str(s) => {
            lemma_split_on_ascii(s@, ',');
            let pieces = split_on(s@, ',');
            let st = split_on_state(s@, ',');
            assert forall|i: int| 0 <= i < pieces.len() implies all_ascii(#[trigger] pieces[i]) by {
                if i < st.0.len() {
                    assert(pieces[i] == st.0[i]);
                }
            }
            lemma_pieces_normal(pieces);
            lemma_pieces_fixed(normalized_caps(v));
        },
        _ => {},
    }
}

/// Word sets ignore ASCII letter case: texts that differ only in the case
/// of ASCII letters have the same words.
pub proof fn law_words_ignore_case(a: Seq<char>, b: Seq<char>, min_bytes: nat)
    requires
        a.len() == b.len(),
        forall|i: int| 0 <= i < a.len() ==> ascii_lower(#[trigger] a[i]) == ascii_lower(b[i]),
    ensures
        token_set(a, min_bytes) == token_set(b, min_bytes),
{
    lemma_folded_ignores_case(a, b);
    assert(token_set(a, min_bytes) =~= token_set(b, min_bytes));
}

/// Text with no `','` or `'.'`, followed by text starting with `','`, is cut
/// right after it.
proof fn lemma_before_stop_prefix(x: Seq<char>, y: Seq<char>)
    requires
        forall|i: int| 0 <= i < x.len() ==> #[trigger] x[i] != ',' && x[i] != '.',
        y.len() > 0,
        y[0] == ',',
    ensures
        before_stop(x + y) == x,
    decreases x.len(),
{
    if x.len() == 0 {
        assert(x + y =~= y);
    } else {
        let t = x.drop_first();
        assert forall|i: int| 0 <= i < t.len() implies #[trigger] t[i] != ',' && t[i] != '.' by {
            assert(t[i] == x[i + 1]);
        }
        lemma_before_stop_prefix(t, y);
        assert((x + y).drop_first() =~= t + y);
        assert((x + y)[0] == x[0]);
        assert(seq![x[0]] + t =~= x);
    }
}

/// An agent created without a persona speaks, in the stand-in reply to any
/// prompt, under its trimmed name, when that name holds no `','` or `'.'`.
pub proof fn law_created_agent_speaks_by_name(
    name: Seq<char>,
    role: Seq<char>,
    persona: Seq<char>,
    caps: Seq<Seq<char>>,
    prompt: Seq<char>,
)
    requires
        trim_seq(persona).len() == 0,
        forall|i: int|
            0 <= i < trim_seq(name).len() ==> #[trigger] trim_seq(name)[i] != ',' && trim_seq(name)[i]
                != '.',
    ensures
        speaker_of(persona_for(name, role, persona, caps)) == trim_seq(name),
        mock_text(persona_for(name, role, persona, caps), prompt)[0] == '[',
        mock_text(persona_for(name, role, persona, caps), prompt).subrange(1, trim_seq(name).len() + 1 as int)
            == trim_seq(name),
        mock_text(persona_for(name, role, persona, caps), prompt)[trim_seq(name).len() + 1 as int] == ']',
{
    reveal_strlit("You are ");
    reveal_strlit(", an agent on an open marketplace. Your role: ");
    reveal_strlit(
        ". When a peer asks you something in your specialty, give a concrete, useful answer in 1-3 sentences.",
    );
    let n = trim_seq(name);
    let lead = "You are "@;
    let rest = ", an agent on an open marketplace. Your role: "@ + role + ". You specialize in: "@
        + join(caps, ", "@)
        + ". When a peer asks you something in your specialty, give a concrete, useful answer in 1-3 sentences."@;
    let p = persona_for(name, role, persona, caps);
    assert(p =~= lead + (n + rest));
    assert(p[0] == 'Y');
    assert(p.last() == '.');
    lemma_trim_fixed(p);
    assert(p.take(lead.len() as int) =~= lead);
    assert(p.skip(lead.len() as int) =~= n + rest);
    assert(rest[0] == ',');
    lemma_before_stop_prefix(n, rest);
    lemma_trimmed_ends(name);
    lemma_trim_fixed(n);
    law_mock_reply_names_speaker(p, prompt);
}

/// The coordinator hires the best match for a need: the agent it hires
/// shares a word with the need and overlaps it at least as much as every
/// other agent on the marketplace except the coordinator itself.
pub proof fn law_coordinator_hires_best_match(
    r0: RunView,
    h0: Hub,
    r1: RunView,
    h1: Hub,
    step: StepView,
)
    requires
        advanced(r0, h0, r1, h1, step),
        r1.hiring is Some,
        r1.stage is Delegating,
    ensures
        h0.roster().contains((r1.hiring->0).0),
        overlap(r0.needs[r1.next - 1].capability, (r1.hiring->0).0) > 0,
        forall|b: AgentView|
            #![trigger h0.roster().contains(b)]
            h0.roster().contains(b) && b.id != r0.coordinator ==> overlap(
                r0.needs[r1.next - 1].capability,
                (r1.hiring->0).0,
            ) >= overlap(r0.needs[r1.next - 1].capability, b),
{
    let (searches, h_mid) = choose|searches: Seq<EventView>, h_mid: Hub|
        #![trigger searched(r0, h0, r1.next, searches, h_mid)]
        {
            &&& searched(r0, h0, r1.next, searches, h_mid)
            &&& delegated(r0, h_mid, r1, h1, step)
        };
    let q = r0.needs[r1.next - 1].capability;
    let c = r0.coordinator;
    let ro = h0.roster();
    let d = discovered(ro, q, Some(c));
    law_discovery(ro, q, Some(c));
    let a = (r1.hiring->0).0;
    assert(d[0] == a);
    assert forall|b: AgentView|
        #![trigger h0.roster().contains(b)]
        h0.roster().contains(b) && b.id != c implies overlap(q, a) >= overlap(q, b) by {
        if overlap(q, b) > 0 {
            let k = choose|k: int| 0 <= k < ro.len() && ro[k] == b;
            assert(d.contains(ro[k]));
            let j = choose|j: int| 0 <= j < d.len() && d[j] == b;
            if j > 0 {
                assert(overlap(q, d[0]) >= overlap(q, d[j]));
            }
        }
    }
}

/// Whether `a` and `b` share a word longer than one byte.
pub open spec fn shares_word(a: Seq<char>, b: Seq<char>) -> bool {
    exists|w: Seq<char>| #[trigger] token_set(a, 1).contains(w) && token_set(b, 1).contains(w)
}

/// The words of each part are words of the parts joined by spaces.
proof fn lemma_join_words(parts: Seq<Seq<char>>, w: Seq<char>, i: int)
    requires
        0 <= i < parts.len(),
        token_set(parts[i], 1).contains(w),
    ensures
        token_set(join(parts, " "@), 1).contains(w),
    decreases parts.len(),
{
    reveal_strlit(" ");
    if parts.len() > 1 {
        let t = parts.drop_last();
        assert(join(parts, " "@) =~= join(t, " "@) + seq![' '] + parts.last());
        lemma_token_set_joined(join(t, " "@), parts.last(), 1);
        if i < parts.len() - 1 {
            assert(t[i] == parts[i]);
            lemma_join_words(t, w, i);
        }
    }
}

/// What an agent is matched on holds the words of its capabilities, its
/// name and its role.
proof fn lemma_hay_words(a: AgentView, w: Seq<char>)
    requires
        token_set(a.name, 1).contains(w) || token_set(a.role, 1).contains(w) || exists|i: int|
            0 <= i < a.capabilities.len() && #[trigger] token_set(a.capabilities[i], 1).contains(w),
    ensures
        token_set(hay(a), 1).contains(w),
{
    let j = join(a.capabilities, " "@);
    let x = j + seq![' '] + a.name;
    assert(hay(a) =~= x + seq![' '] + a.role);
    lemma_token_set_joined(x, a.role, 1);
    lemma_token_set_joined(j, a.name, 1);
    if !token_set(a.name, 1).contains(w) && !token_set(a.role, 1).contains(w) {
        let i = choose|i: int|
            0 <= i < a.capabilities.len() && #[trigger] token_set(a.capabilities[i], 1).contains(w);
        lemma_join_words(a.capabilities, w, i);
    }
}

/// Discovery matches an agent on its capabilities, its name and its role:
/// every agent other than the asker that shares a word with the query in
/// any of them is found.
pub proof fn law_discovery_matches_capabilities_name_and_role(
    r: Seq<AgentView>,
    q: Seq<char>,
    ex: Option<Seq<char>>,
)
    ensures
        forall|k: int|
            0 <= k < r.len() && ex != Some(r[k].id) && (shares_word(q, r[k].role) || shares_word(
                q,
                r[k].name,
            ) || exists|i: int|
                0 <= i < r[k].capabilities.len() && #[trigger] shares_word(q, r[k].capabilities[i]))
                ==> #[trigger] discovered(r, q, ex).contains(r[k]),
{
    law_discovery(r, q, ex);
    assert forall|k: int|
        0 <= k < r.len() && ex != Some(r[k].id) && (shares_word(q, r[k].role) || shares_word(
            q,
            r[k].name,
        ) || exists|i: int|
            0 <= i < r[k].capabilities.len() && #[trigger] shares_word(q, r[k].capabilities[i]))
            implies #[trigger] discovered(r, q, ex).contains(r[k]) by {
        let a = r[k];
        let w = if shares_word(q, a.role) {
            choose|w: Seq<char>| #[trigger] token_set(q, 1).contains(w) && token_set(a.role, 1).contains(w)
        } else if shares_word(q, a.name) {
            choose|w: Seq<char>| #[trigger] token_set(q, 1).contains(w) && token_set(a.name, 1).contains(w)
        } else {
            let i = choose|i: int| 0 <= i < a.capabilities.len() && #[trigger] shares_word(q, a.capabilities[i]);
            choose|w: Seq<char>|
                #[trigger] token_set(q, 1).contains(w) && token_set(a.capabilities[i], 1).contains(w)
        };
        lemma_hay_words(a, w);
        let s = token_set(q, 1).intersect(token_set(hay(a), 1));
        lemma_token_set_finite(q, 1);
        vstd::set::axiom_set_intersect_finite(token_set(q, 1), token_set(hay(a), 1));
        assert(s.contains(w));
        vstd::set::axiom_set_contains_len(s, w);
        assert(overlap(q, a) > 0);
    }
}

/// A planned run holds the needs it was planned with.
proof fn lemma_planned_needs(r0: RunView, h0: Hub, needs: Seq<NeedView>, r1: RunView, h1: Hub, step: StepView)
    requires
        planned(r0, h0, needs, r1, h1, step),
    ensures
        r1.needs == needs,
        r1.goal == r0.goal,
        r1.coordinator == r0.coordinator,
{
    let (e, h_mid) = choose|e: EventView, h_mid: Hub|
        #![trigger logged(h0, h_mid, seq![e])]
        {
            &&& logged(h0, h_mid, seq![e])
            &&& e.event_type == "plan"@
            &&& is_short_id(e.id, "evt"@)
            &&& e.data == EventDataView::Plan {
                by: r0.coord_name,
                goal: r0.goal,
                needs: needs.map_values(|n: NeedView| n.capability),
            }
            &&& h_mid.roster() == h0.roster()
            &&& same_inboxes(h0, h_mid)
            &&& advanced(
                RunView { stage: Stage::Delegating, needs, next: 0, ..r0 },
                h_mid,
                r1,
                h1,
                step,
            )
        };
    let rp = RunView { stage: Stage::Delegating, needs, next: 0, ..r0 };
    if r1.hiring is Some && r1.stage is Delegating {
        let (searches, h2) = choose|searches: Seq<EventView>, h2: Hub|
            #![trigger searched(rp, h_mid, r1.next, searches, h2)]
            {
                &&& searched(rp, h_mid, r1.next, searches, h2)
                &&& delegated(rp, h2, r1, h1, step)
            };
    } else {
        let (searches, h2) = choose|searches: Seq<EventView>, h2: Hub|
            #![trigger searched(rp, h_mid, r1.next, searches, h2)]
            {
                &&& searched(rp, h_mid, r1.next, searches, h2)
                &&& finished(
                    RunView { next: r1.next, unmet: rp.unmet + caps_between(rp.needs, rp.next, r1.next), ..rp },
                    h2,
                    r1,
                    h1,
                    step,
                )
            };
    }
}

/// Planning from the language model's reply: when the reply proposes needs
/// (the JSON array in it, parsed), the run plans exactly those needs, all of
/// them, in the order proposed; when it proposes none, it plans what the
/// marketplace suggests.
pub proof fn law_reply_needs_are_planned(
    r0: RunView,
    h0: Hub,
    reply: Seq<char>,
    r1: RunView,
    h1: Hub,
    step: StepView,
)
    requires
        planned(r0, h0, decomposition(r0.goal, capability_list(h0.roster()), reply), r1, h1, step),
    ensures
        match reply_needs(reply) {
            Some(ns) => if ns.len() > 0 {
                r1.needs == ns
            } else {
                r1.needs == market_needs(r0.goal, capability_list(h0.roster()))
            },
            None => r1.needs == market_needs(r0.goal, capability_list(h0.roster())),
        },
{
    lemma_planned_needs(r0, h0, decomposition(r0.goal, capability_list(h0.roster()), reply), r1, h1, step);
}

/// Among scored capabilities sorted best first, the positive ones are the
/// leading ones, in order.
proof fn lemma_positive_prefix(s: Seq<(int, Seq<char>)>)
    requires
        forall|i: int, j: int| 0 <= i < j < s.len() ==> (#[trigger] s[i]).0 >= (#[trigger] s[j]).0,
    ensures
        positive_caps(s).len() <= s.len(),
        forall|i: int|
            0 <= i < positive_caps(s).len() ==> (#[trigger] s[i]).0 > 0 && positive_caps(s)[i]
                == s[i].1,
        forall|k: int| 0 <= k < s.len() && (#[trigger] s[k]).0 > 0 ==> k < positive_caps(s).len(),
    decreases s.len(),
{
    if s.len() > 0 {
        let t = s.drop_last();
        assert forall|i: int, j: int| 0 <= i < j < t.len() implies (#[trigger] t[i]).0 >= (
        #[trigger] t[j]).0 by {
            assert(t[i] == s[i] && t[j] == s[j]);
        }
        lemma_positive_prefix(t);
        let x = s.last();
        assert(x == s[s.len() - 1]);
        if x.0 > 0 {
            if t.len() > 0 {
                assert(s[t.len() - 1] == t[t.len() - 1]);
                assert(t[t.len() - 1].0 > 0);
            }
            assert(positive_caps(t).len() == t.len());
            assert forall|i: int| 0 <= i < positive_caps(s).len() implies (#[trigger] s[i]).0 > 0
                && positive_caps(s)[i] == s[i].1 by {
                if i < t.len() {
                    assert(t[i] == s[i]);
                }
            }
        } else {
            assert forall|i: int| 0 <= i < positive_caps(s).len() implies (#[trigger] s[i]).0 > 0
                && positive_caps(s)[i] == s[i].1 by {
                assert(t[i] == s[i]);
            }
            assert forall|k: int| 0 <= k < s.len() && (#[trigger] s[k]).0 > 0 implies k
                < positive_caps(s).len() by {
                if k < t.len() {
                    assert(t[k] == s[k]);
                }
            }
        }
    }
}

/// Decomposing from the marketplace when some capability on offer shares a
/// word with the goal: every need is such a capability; the needs come best
/// score first; and a capability that shares a word with the goal is left
/// out only when four needs were chosen, each scoring at least as well.
pub proof fn law_market_needs_keep_overlapping(goal: Seq<char>, caps: Seq<Seq<char>>)
    requires
        exists|j: int| 0 <= j < caps.len() && cap_score(goal, #[trigger] caps[j]) > 0,
    ensures
        forall|i: int|
            0 <= i < market_needs(goal, caps).len() ==> cap_score(
                goal,
                (#[trigger] market_needs(goal, caps)[i]).capability,
            ) > 0,
        forall|i: int, j: int|
            0 <= i < j < market_needs(goal, caps).len() ==> cap_score(
                goal,
                (#[trigger] market_needs(goal, caps)[i]).capability,
            ) >= cap_score(goal, (#[trigger] market_needs(goal, caps)[j]).capability),
        forall|j: int|
            0 <= j < caps.len() && cap_score(goal, #[trigger] caps[j]) > 0 ==> (exists|i: int|
                0 <= i < market_needs(goal, caps).len() && market_needs(goal, caps)[i].capability
                    == caps[j]) || (market_needs(goal, caps).len() == 4 && forall|i: int|
                0 <= i < 4 ==> cap_score(goal, #[trigger] market_needs(goal, caps)[i].capability)
                    >= cap_score(goal, caps[j])),
{
    let key = |p: (int, Seq<char>)| by_score(p);
    let sc = scored_caps(goal, caps);
    let rk = ranked_caps(goal, caps);
    lemma_rank_by_key_props(sc, key);
    rk.to_multiset_ensures();
    sc.to_multiset_ensures();
    assert(rk.len() == caps.len());
    assert forall|i: int, j: int| 0 <= i < j < rk.len() implies (#[trigger] rk[i]).0 >= (
    #[trigger] rk[j]).0 by {
        assert(key(rk[i]) >= key(rk[j]));
    }
    lemma_positive_prefix(rk);
    // Every ranked entry is a capability on offer with its score.
    assert forall|k: int| 0 <= k < rk.len() implies (#[trigger] rk[k]).0 == cap_score(goal, rk[k].1)
        && caps.contains(rk[k].1) by {
        assert(rk.contains(rk[k]));
        assert(sc.to_multiset().count(rk[k]) > 0);
        let m = choose|m: int| 0 <= m < sc.len() && sc[m] == rk[k];
        assert(sc[m] == (cap_score(goal, caps[m]), caps[m]));
    }
    // Some ranked entry is positive, so the chosen capabilities are the positive ones.
    let j0 = choose|j: int| 0 <= j < caps.len() && cap_score(goal, #[trigger] caps[j]) > 0;
    assert(sc[j0] == (cap_score(goal, caps[j0]), caps[j0]));
    assert(sc.contains(sc[j0]));
    assert(rk.to_multiset().count(sc[j0]) > 0);
    assert(rk.contains(sc[j0]));
    let k0 = choose|k: int| 0 <= k < rk.len() && rk[k] == sc[j0];
    assert(rk[k0].0 > 0);
    let pos = positive_caps(rk);
    assert(pos.len() > 0);
    let ch = chosen_caps(goal, caps);
    assert(ch == pos);
    let needs = market_needs(goal, caps);
    assert(caps.len() > 0);
    let n = if ch.len() < 4 { ch.len() as int } else { 4 };
    assert(needs.len() == n);
    assert forall|i: int| 0 <= i < needs.len() implies (#[trigger] needs[i]).capability == rk[i].1
        && rk[i].0 > 0 by {
        assert(needs[i].capability == ch[i]);
    }
    assert forall|j: int|
        0 <= j < caps.len() && cap_score(goal, #[trigger] caps[j]) > 0 implies (exists|i: int|
            0 <= i < needs.len() && needs[i].capability == caps[j]) || (needs.len() == 4
            && forall|i: int| 0 <= i < 4 ==> cap_score(goal, #[trigger] needs[i].capability)
            >= cap_score(goal, caps[j])) by {
        assert(sc[j] == (cap_score(goal, caps[j]), caps[j]));
        assert(sc.contains(sc[j]));
        assert(rk.to_multiset().count(sc[j]) > 0);
        assert(rk.contains(sc[j]));
        let k = choose|k: int| 0 <= k < rk.len() && rk[k] == sc[j];
        assert(rk[k].0 > 0);
        assert(k < pos.len());
        if k < n {
            assert(needs[k].capability == caps[j]);
        } else {
            assert(needs.len() == 4);
            assert forall|i: int| 0 <= i < 4 implies cap_score(goal, #[trigger] needs[i].capability)
                >= cap_score(goal, caps[j]) by {
                assert(needs[i].capability == rk[i].1);
                assert(rk[i].0 >= rk[k].0);
            }
        }
    }
}

/// The role and persona of a created agent: a role given (not blank) is
/// kept, trimmed; a blank one becomes "Specializes in" and the
/// capabilities. A persona given (not blank) is kept, trimmed; a blank one
/// is generated, and it introduces the agent by its name and then states
/// its role, whichever it is.
pub proof fn law_created_agent_role_and_persona(
    name: Seq<char>,
    role: Seq<char>,
    persona: Seq<char>,
    a: AgentView,
)
    requires
        a.name == trim_seq(name),
        a.role == role_for(role, a.capabilities),
        a.persona == persona_for(name, a.role, persona, a.capabilities),
    ensures
        trim_seq(role).len() > 0 ==> a.role == trim_seq(role),
        trim_seq(role).len() == 0 ==> a.role == "Specializes in "@ + join(a.capabilities, ", "@),
        trim_seq(persona).len() > 0 ==> a.persona == trim_seq(persona),
        trim_seq(persona).len() == 0 ==> {
            let intro = "You are "@ + a.name + ", an agent on an open marketplace. Your role: "@;
            &&& a.persona.len() >= intro.len() + a.role.len()
            &&& a.persona.take(intro.len() as int) == intro
            &&& a.persona.subrange(intro.len() as int, (intro.len() + a.role.len()) as int) == a.role
        },
{
    if trim_seq(persona).len() == 0 {
        let intro = "You are "@ + a.name + ", an agent on an open marketplace. Your role: "@;
        let rest = ". You specialize in: "@ + join(a.capabilities, ", "@)
            + ". When a peer asks you something in your specialty, give a concrete, useful answer in 1-3 sentences."@;
        assert(a.persona =~= intro + a.role + rest);
        assert(a.persona.take(intro.len() as int) =~= intro);
        assert(a.persona.subrange(intro.len() as int, (intro.len() + a.role.len()) as int) =~= a.role);
    }
}

} // verus!
