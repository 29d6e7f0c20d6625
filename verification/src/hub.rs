//! The marketplace itself: who is on it, discovery by capability, message
//! routing into per-agent inboxes, and the feed of everything that happens.
//! Agents are kept in the order they joined; the feed keeps the most recent
//! `MAX_HISTORY` events, and every event also waits in an outbox until the
//! server hands it to its live subscribers.

use vstd::prelude::*;
use crate::models::{
    Agent, AgentView, Event, EventData, EventDataView, EventView, Message, MessageView,
    agent_views, event_views, is_short_id, message_views, owned, copy_agents,
};
use crate::rank::{rank_by_key, lemma_insert_by_key_at};
use crate::text::{
    append_str, char_seq_less, insert_sorted_unique, join, join_strings, lemma_less_irreflexive,
    lemma_less_transitive, str_eq, string_views, strictly_sorted, token_set, word_set,
};

verus! {

/// How many feed events the marketplace keeps for visitors who arrive later.
pub const MAX_HISTORY: usize = 500;

/// The last `MAX_HISTORY` entries of `s`.
pub open spec fn capped<T>(s: Seq<T>) -> Seq<T> {
    if s.len() > MAX_HISTORY {
        s.skip(s.len() - MAX_HISTORY)
    } else {
        s
    }
}

// ------------------------------------------------------------------------
// The roster as plain values
// ------------------------------------------------------------------------

/// Whether an agent with id `id` is on the roster.
pub open spec fn has_agent(r: Seq<AgentView>, id: Seq<char>) -> bool {
    exists|i: int| 0 <= i < r.len() && r[i].id == id
}

/// The position of the agent with id `id` on the roster.
pub open spec fn agent_index(r: Seq<AgentView>, id: Seq<char>) -> int {
    choose|i: int| 0 <= i < r.len() && r[i].id == id
}

/// The agent with id `id`, if it is on the roster.
pub open spec fn find_agent(r: Seq<AgentView>, id: Seq<char>) -> Option<AgentView> {
    if has_agent(r, id) {
        Some(r[agent_index(r, id)])
    } else {
        None
    }
}

/// No two agents share an id.
pub open spec fn ids_unique(r: Seq<AgentView>) -> bool {
    forall|i: int, j: int| 0 <= i < r.len() && 0 <= j < r.len() && i != j ==> r[i].id != r[j].id
}

/// The roster after `a` joins: it takes the place of an agent with its id,
/// or comes last.
pub open spec fn roster_put(r: Seq<AgentView>, a: AgentView) -> Seq<AgentView> {
    if has_agent(r, a.id) {
        r.update(agent_index(r, a.id), a)
    } else {
        r.push(a)
    }
}

/// The roster after the agent with id `id` leaves.
pub open spec fn roster_without(r: Seq<AgentView>, id: Seq<char>) -> Seq<AgentView> {
    if has_agent(r, id) {
        r.remove(agent_index(r, id))
    } else {
        r
    }
}

/// The roster after the agent with id `id` was seen at time `t`.
pub open spec fn roster_touched(r: Seq<AgentView>, id: Seq<char>, t: u64) -> Seq<AgentView> {
    if has_agent(r, id) {
        let i = agent_index(r, id);
        r.update(i, AgentView { last_seen: t, ..r[i] })
    } else {
        r
    }
}

/// The name shown for `id`: the agent's name, or the id itself when no such agent is on.
pub open spec fn display_name(r: Seq<AgentView>, id: Seq<char>) -> Seq<char> {
    match find_agent(r, id) {
        Some(a) => a.name,
        None => id,
    }
}

/// The view of an optional agent.
pub open spec fn opt_agent_view(a: Option<Agent>) -> Option<AgentView> {
    match a {
        Some(x) => Some(x@),
        None => None,
    }
}

/// An agent's creation time as a ranking key: earlier ranks first.
pub open spec fn earlier_first(a: AgentView) -> int {
    -(a.created_at as int)
}

/// The roster ordered by creation time, agents created at the same time in
/// roster order.
pub open spec fn by_creation(r: Seq<AgentView>) -> Seq<AgentView> {
    rank_by_key(r, |a: AgentView| earlier_first(a))
}

/// Proof that the position of an agent found by a scan is the one `agent_index` names.
pub proof fn lemma_agent_index(r: Seq<AgentView>, i: int)
    requires
        ids_unique(r),
        0 <= i < r.len(),
    ensures
        has_agent(r, r[i].id),
        agent_index(r, r[i].id) == i,
        find_agent(r, r[i].id) == Some(r[i]),
{
    assert(r[i].id == r[i].id);
    let j = agent_index(r, r[i].id);
    assert(0 <= j < r.len() && r[j].id == r[i].id);
}

// ------------------------------------------------------------------------
// Discovery as plain values
// ------------------------------------------------------------------------

/// The text an agent is matched on: its capabilities, name and role.
pub open spec fn hay(a: AgentView) -> Seq<char> {
    join(a.capabilities, " "@) + seq![' '] + a.name + seq![' '] + a.role
}

/// How many words of `query` (longer than one byte) also occur in what `a` is matched on.
pub open spec fn overlap(query: Seq<char>, a: AgentView) -> nat {
    token_set(query, 1).intersect(token_set(hay(a), 1)).len()
}

/// The view of an optional string slice.
pub open spec fn opt_str(o: Option<&str>) -> Option<Seq<char>> {
    match o {
        Some(s) => Some(s@),
        None => None,
    }
}

/// The agents of `r` that share a word with `query` and are not `exclude`,
/// each with its overlap, in roster order.
pub open spec fn candidates(r: Seq<AgentView>, query: Seq<char>, exclude: Option<Seq<char>>) -> Seq<(int, AgentView)>
    decreases r.len(),
{
    if r.len() == 0 {
        Seq::empty()
    } else {
        let before = candidates(r.drop_last(), query, exclude);
        let a = r.last();
        if exclude != Some(a.id) && overlap(query, a) > 0 {
            before.push((overlap(query, a) as int, a))
        } else {
            before
        }
    }
}

/// The ranking key of a candidate: its overlap.
pub open spec fn by_overlap(p: (int, AgentView)) -> int {
    p.0
}

/// The candidates ranked by overlap, best first, ties in roster order.
pub open spec fn ranked(r: Seq<AgentView>, query: Seq<char>, exclude: Option<Seq<char>>) -> Seq<(int, AgentView)> {
    rank_by_key(candidates(r, query, exclude), |p: (int, AgentView)| by_overlap(p))
}

/// What a discovery for `query` by `exclude` finds among `r`.
pub open spec fn discovered(r: Seq<AgentView>, query: Seq<char>, exclude: Option<Seq<char>>) -> Seq<AgentView> {
    ranked(r, query, exclude).map_values(|p: (int, AgentView)| p.1)
}

/// The view of a scored agent.
pub open spec fn scored_views(v: Seq<(usize, Agent)>) -> Seq<(int, AgentView)> {
    v.map_values(|p: (usize, Agent)| (p.0 as int, p.1@))
}

/// Every capability some agent of `r` offers.
pub open spec fn all_caps(r: Seq<AgentView>) -> Set<Seq<char>> {
    Set::new(
        |c: Seq<char>|
            exists|i: int, j: int|
                0 <= i < r.len() && 0 <= j < r[i].capabilities.len() && #[trigger] r[i].capabilities[j]
                    == c,
    )
}

/// The capabilities the first `i` agents offer, and the first `j` of agent `i`.
spec fn caps_seen(r: Seq<AgentView>, i: int, j: int) -> Set<Seq<char>> {
    Set::new(
        |c: Seq<char>|
            (exists|a: int, b: int|
                0 <= a < i && 0 <= b < r[a].capabilities.len() && #[trigger] r[a].capabilities[b]
                    == c) || (exists|b: int| 0 <= b < j && #[trigger] r[i].capabilities[b] == c),
    )
}

/// The set of words of `text` longer than one byte.
pub fn tokenize(text: &str) -> (r: Vec<String>)
    ensures
        string_views(r@).no_duplicates(),
        string_views(r@).to_set() == token_set(text@, 1),
{
    word_set(text, 1)
}

// ------------------------------------------------------------------------
// Facts about the plain-value model
// ------------------------------------------------------------------------

/// Keeping the last `MAX_HISTORY` entries before appending more changes nothing
/// about the last `MAX_HISTORY` entries after.
pub proof fn lemma_capped_append<T>(s: Seq<T>, t: Seq<T>)
    ensures
        capped(capped(s) + t) == capped(s + t),
{
    if s.len() > MAX_HISTORY {
        let c = capped(s);
        assert(c.len() == MAX_HISTORY);
        let u = c + t;
        let v = s + t;
        if u.len() > MAX_HISTORY {
            assert(capped(u) =~= capped(v)) by {
                assert forall|i: int| 0 <= i < MAX_HISTORY implies #[trigger] capped(u)[i] == capped(v)[i] by {
                    let k = s.len() - MAX_HISTORY;
                    let iu = i + u.len() - MAX_HISTORY;
                    let iv = i + v.len() - MAX_HISTORY;
                    assert(capped(u)[i] == u[iu]);
                    assert(capped(v)[i] == v[iv]);
                    if iu < c.len() {
                        assert(u[iu] == s[iu + k]);
                        assert(v[iv] == s[iv]);
                    } else {
                        assert(u[iu] == t[iu - c.len()]);
                        assert(v[iv] == t[iv - s.len()]);
                    }
                }
            }
        } else {
            assert(t.len() == 0);
            assert(u =~= c);
            assert(v =~= s);
        }
    }
}

/// Seeing an agent changes no name.
pub proof fn lemma_display_name_touched(r: Seq<AgentView>, id: Seq<char>, t: u64, x: Seq<char>)
    requires
        ids_unique(r),
    ensures
        display_name(roster_touched(r, id, t), x) == display_name(r, x),
        ids_unique(roster_touched(r, id, t)),
{
    let r2 = roster_touched(r, id, t);
    if has_agent(r, id) {
        let i = agent_index(r, id);
        assert forall|k: int| 0 <= k < r.len() implies #[trigger] r2[k].id == r[k].id && r2[k].name
            == r[k].name by {}
        if has_agent(r, x) {
            let j = agent_index(r, x);
            assert(r2[j].id == x);
            let j2 = agent_index(r2, x);
            assert(r[j2].id == x);
        } else {
            assert(!has_agent(r2, x)) by {
                if has_agent(r2, x) {
                    let j2 = agent_index(r2, x);
                    assert(r[j2].id == x);
                }
            }
        }
    }
}

/// Seeing an agent twice leaves the later time.
pub proof fn lemma_touched_twice(r: Seq<AgentView>, id: Seq<char>, t1: u64, t2: u64)
    requires
        ids_unique(r),
    ensures
        roster_touched(roster_touched(r, id, t1), id, t2) == roster_touched(r, id, t2),
{
    let r1 = roster_touched(r, id, t1);
    if has_agent(r, id) {
        let i = agent_index(r, id);
        assert(r1[i].id == id);
        let i1 = agent_index(r1, id);
        assert(r1[i1].id == id);
        assert(r[i1].id == id) by {
            if i1 != i {
                assert(r1[i1] == r[i1]);
            }
        }
        assert(roster_touched(r1, id, t2) =~= roster_touched(r, id, t2));
    }
}

// ------------------------------------------------------------------------
// The capability index is determined by the roster
// ------------------------------------------------------------------------

/// Two strictly sorted lists with the same elements are the same list.
pub proof fn lemma_sorted_unique(a: Seq<Seq<char>>, b: Seq<Seq<char>>)
    requires
        strictly_sorted(a),
        strictly_sorted(b),
        a.to_set() == b.to_set(),
    ensures
        a == b,
    decreases a.len(),
{
    if a.len() == 0 {
        if b.len() > 0 {
            assert(b.to_set().contains(b[0]));
        }
        assert(a =~= b);
    } else {
        assert(a.to_set().contains(a[0]));
        assert(b.len() > 0);
        assert(b.to_set().contains(b[0]));
        let i = choose|i: int| 0 <= i < a.len() && a[i] == b[0];
        let j = choose|j: int| 0 <= j < b.len() && b[j] == a[0];
        if a[0] != b[0] {
            assert(i > 0 && j > 0);
            assert(char_seq_less(a[0], a[i]));
            assert(char_seq_less(b[0], b[j]));
            lemma_less_transitive(a[0], b[0], a[0]);
            lemma_less_irreflexive(a[0]);
        }
        let a1 = a.drop_first();
        let b1 = b.drop_first();
        assert(strictly_sorted(a1)) by {
            assert forall|x: int, y: int| 0 <= x < y < a1.len() implies char_seq_less(
                #[trigger] a1[x],
                #[trigger] a1[y],
            ) by {
                assert(a1[x] == a[x + 1] && a1[y] == a[y + 1]);
            }
        }
        assert(strictly_sorted(b1)) by {
            assert forall|x: int, y: int| 0 <= x < y < b1.len() implies char_seq_less(
                #[trigger] b1[x],
                #[trigger] b1[y],
            ) by {
                assert(b1[x] == b[x + 1] && b1[y] == b[y + 1]);
            }
        }
        assert(a1.to_set() =~= b1.to_set()) by {
            assert forall|w: Seq<char>| #[trigger] a1.to_set().contains(w) <==> b1.to_set().contains(
                w,
            ) by {
                if a1.contains(w) {
                    let x = choose|x: int| 0 <= x < a1.len() && a1[x] == w;
                    assert(a.to_set().contains(w)) by {
                        assert(a[x + 1] == w);
                    }
                    let y = choose|y: int| 0 <= y < b.len() && b[y] == w;
                    if y == 0 {
                        assert(char_seq_less(a[0], a[x + 1]));
                        lemma_less_irreflexive(a[0]);
                    }
                    assert(b1[y - 1] == w);
                }
                if b1.contains(w) {
                    let x = choose|x: int| 0 <= x < b1.len() && b1[x] == w;
                    assert(b.to_set().contains(w)) by {
                        assert(b[x + 1] == w);
                    }
                    let y = choose|y: int| 0 <= y < a.len() && a[y] == w;
                    if y == 0 {
                        assert(char_seq_less(b[0], b[x + 1]));
                        lemma_less_irreflexive(b[0]);
                    }
                    assert(a1[y - 1] == w);
                }
            }
        }
        lemma_sorted_unique(a1, b1);
        assert(a =~= seq![a[0]] + a1);
        assert(b =~= seq![b[0]] + b1);
    }
}

/// The capabilities of the roster `r`, each once, in lexicographic order.
pub open spec fn capability_list(r: Seq<AgentView>) -> Seq<Seq<char>> {
    choose|s: Seq<Seq<char>>| strictly_sorted(s) && s.to_set() == all_caps(r)
}

/// Any strictly sorted list of the roster's capabilities is `capability_list`.
pub proof fn lemma_capability_list(r: Seq<AgentView>, s: Seq<Seq<char>>)
    requires
        strictly_sorted(s),
        s.to_set() == all_caps(r),
    ensures
        capability_list(r) == s,
{
    let c = capability_list(r);
    assert(strictly_sorted(c) && c.to_set() == all_caps(r));
    lemma_sorted_unique(c, s);
}

// ------------------------------------------------------------------------
// The hub
// ------------------------------------------------------------------------

struct Inbox {
    owner: String,
    messages: Vec<Message>,
}

/// The pending messages of `id` among `inboxes`.
spec fn inbox_of(inboxes: Seq<Inbox>, id: Seq<char>) -> Seq<MessageView> {
    if exists|i: int| 0 <= i < inboxes.len() && inboxes[i].owner@ == id {
        let i = choose|i: int| 0 <= i < inboxes.len() && inboxes[i].owner@ == id;
        message_views(inboxes[i].messages@)
    } else {
        Seq::empty()
    }
}

/// The marketplace state.
pub struct Hub {
    agents: Vec<Agent>,
    inboxes: Vec<Inbox>,
    history: Vec<Event>,
    outbox: Vec<Event>,
}

impl Hub {
    /// The agents on the marketplace, in the order they joined.
    pub closed spec fn roster(self) -> Seq<AgentView> {
        agent_views(self.agents@)
    }

    /// The messages waiting for `id`.
    pub closed spec fn inbox(self, id: Seq<char>) -> Seq<MessageView> {
        inbox_of(self.inboxes@, id)
    }

    /// The recent feed, oldest first.
    pub closed spec fn feed(self) -> Seq<EventView> {
        event_views(self.history@)
    }

    /// The events not yet handed to live subscribers, oldest first.
    pub closed spec fn outbox(self) -> Seq<EventView> {
        event_views(self.outbox@)
    }

    /// The hub's invariant: ids are unique, each agent has at most one inbox,
    /// and the feed holds at most `MAX_HISTORY` events.
    pub closed spec fn wf(self) -> bool {
        &&& ids_unique(self.roster())
        &&& forall|i: int, j: int|
            0 <= i < self.inboxes@.len() && 0 <= j < self.inboxes@.len() && i != j
                ==> self.inboxes@[i].owner@ != self.inboxes@[j].owner@
        &&& self.history@.len() <= MAX_HISTORY
    }

    /// `self` differs from `before` by one event of type `kind` saying `data`,
    /// with a fresh `evt_` id, appended to the feed and to the outbox.
    pub open spec fn announced(
        self,
        before: Hub,
        kind: Seq<char>,
        data: EventDataView,
    ) -> bool {
        exists|e: EventView|
            #![trigger before.feed().push(e)]
            e.event_type == kind && e.data == data && is_short_id(e.id, "evt"@) && self.feed()
                == capped(before.feed().push(e)) && self.outbox() == before.outbox().push(e)
    }

    /// The feed and the outbox are those of `before`.
    pub open spec fn same_feed(self, before: Hub) -> bool {
        self.feed() == before.feed() && self.outbox() == before.outbox()
    }

    /// Every inbox is that of `before`.
    pub open spec fn same_inboxes(self, before: Hub) -> bool {
        forall|id: Seq<char>| #[trigger] self.inbox(id) == before.inbox(id)
    }

    /// The feed of a well-formed hub holds at most `MAX_HISTORY` events.
    pub proof fn lemma_feed_bounded(self)
        requires
            self.wf(),
        ensures
            self.feed().len() <= MAX_HISTORY,
    {
    }

    /// No two agents of a well-formed hub share an id.
    pub proof fn lemma_ids_unique(self)
        requires
            self.wf(),
        ensures
            ids_unique(self.roster()),
    {
    }

    /// An empty marketplace.
    pub fn new() -> (h: Hub)
        ensures
            h.wf(),
            h.roster() == Seq::<AgentView>::empty(),
            forall|id: Seq<char>| #[trigger] h.inbox(id) == Seq::<MessageView>::empty(),
            h.feed() == Seq::<EventView>::empty(),
            h.outbox() == Seq::<EventView>::empty(),
    {
        let h = Hub { agents: Vec::new(), inboxes: Vec::new(), history: Vec::new(), outbox: Vec::new() };
        assert(h.roster() =~= Seq::<AgentView>::empty());
        assert(h.feed() =~= Seq::<EventView>::empty());
        assert(h.outbox() =~= Seq::<EventView>::empty());
        h
    }

    /// Appends `ev` to the feed, keeping the most recent `MAX_HISTORY`
    /// events, and to the outbox.
    pub fn emit(&mut self, ev: Event)
        requires
            old(self).wf(),
        ensures
            final(self).wf(),
            final(self).feed() == capped(old(self).feed().push(ev@)),
            final(self).outbox() == old(self).outbox().push(ev@),
            final(self).roster() == old(self).roster(),
            final(self).same_inboxes(*old(self)),
    {
        let copy = ev.clone();
        let ghost h0 = event_views(self.history@);
        self.history.push(ev);
        assert(event_views(self.history@) =~= h0.push(copy@));
        if self.history.len() > MAX_HISTORY {
            let ghost h1 = self.history@;
            self.history.remove(0);
            assert(event_views(self.history@) =~= capped(h0.push(copy@)));
        }
        let ghost o0 = event_views(self.outbox@);
        self.outbox.push(copy);
        assert(event_views(self.outbox@) =~= o0.push(ev@));
    }

    /// The recent feed, oldest first.
    pub fn history(&self) -> (r: Vec<Event>)
        ensures
            event_views(r@) == self.feed(),
    {
        let mut r: Vec<Event> = Vec::new();
        let mut i: usize = 0;
        while i < self.history.len()
            invariant
                i <= self.history.len(),
                event_views(r@) == event_views(self.history@).take(i as int),
            decreases self.history.len() - i,
        {
            let e = self.history[i].clone();
            let ghost before = r@;
            assert(event_views(before).len() == before.len());
            r.push(e);
            proof {
                assert forall|k: int| 0 <= k < i + 1 implies #[trigger] event_views(r@)[k]
                    == event_views(self.history@)[k] by {
                    if k < i {
                        assert(r@[k] == before[k]);
                        assert(event_views(before)[k] == event_views(self.history@).take(
                            i as int,
                        )[k]);
                    }
                }
                assert(event_views(r@) =~= event_views(self.history@).take(i + 1));
            }
            i = i + 1;
        }
        assert(event_views(self.history@).take(self.history.len() as int) =~= event_views(
            self.history@,
        ));
        r
    }

    /// Hands over the events not yet given to live subscribers and forgets them.
    pub fn take_outbox(&mut self) -> (r: Vec<Event>)
        requires
            old(self).wf(),
        ensures
            final(self).wf(),
            event_views(r@) == old(self).outbox(),
            final(self).outbox() == Seq::<EventView>::empty(),
            final(self).feed() == old(self).feed(),
            final(self).roster() == old(self).roster(),
            final(self).same_inboxes(*old(self)),
    {
        let mut r: Vec<Event> = Vec::new();
        std::mem::swap(&mut r, &mut self.outbox);
        assert(event_views(self.outbox@) =~= Seq::<EventView>::empty());
        r
    }

    /// The position of the agent with id `id`, if it is on.
    fn find_index(&self, id: &str) -> (r: Option<usize>)
        requires
            self.wf(),
        ensures
            match r {
                Some(i) => i < self.agents@.len() && has_agent(self.roster(), id@) && agent_index(
                    self.roster(),
                    id@,
                ) == i && self.roster()[i as int].id == id@,
                None => !has_agent(self.roster(), id@),
            },
    {
        let mut i: usize = 0;
        while i < self.agents.len()
            invariant
                self.wf(),
                i <= self.agents.len(),
                forall|j: int| 0 <= j < i ==> self.roster()[j].id != id@,
            decreases self.agents.len() - i,
        {
            if str_eq(self.agents[i].id.as_str(), id) {
                proof {
                    assert(self.roster()[i as int] == self.agents@[i as int]@);
                    lemma_agent_index(self.roster(), i as int);
                }
                return Some(i);
            }
            assert(self.roster()[i as int] == self.agents@[i as int]@);
            i = i + 1;
        }
        None
    }

    /// Puts `agent` on the marketplace, in place of an agent with the same id
    /// if there is one, and announces it with an "agent_joined" event.
    pub fn add_agent(&mut self, agent: Agent) -> (r: Agent)
        requires
            old(self).wf(),
        ensures
            final(self).wf(),
            r@ == agent@,
            final(self).roster() == roster_put(old(self).roster(), agent@),
            final(self).same_inboxes(*old(self)),
            final(self).announced(
                *old(self),
                "agent_joined"@,
                EventDataView::AgentJoined { agent: agent@ },
            ),
    {
        let copy = agent.clone();
        let ghost r0 = self.roster();
        match self.find_index(agent.id.as_str()) {
            Some(i) => {
                self.agents.set(i, agent);
                proof {
                    assert(self.roster() =~= r0.update(i as int, copy@));
                    assert forall|a: int, b: int|
                        0 <= a < self.roster().len() && 0 <= b < self.roster().len() && a != b
                            implies self.roster()[a].id != self.roster()[b].id by {
                        assert(r0[a].id != r0[b].id);
                    }
                }
            },
            None => {
                self.agents.push(agent);
                proof {
                    assert(self.roster() =~= r0.push(copy@));
                    assert forall|a: int, b: int|
                        0 <= a < self.roster().len() && 0 <= b < self.roster().len() && a != b
                            implies self.roster()[a].id != self.roster()[b].id by {
                        if a < r0.len() && b < r0.len() {
                            assert(r0[a].id != r0[b].id);
                        } else if a < r0.len() {
                            assert(r0[a].id != copy@.id);
                        } else {
                            assert(r0[b].id != copy@.id);
                        }
                    }
                }
            },
        }
        let ghost mid = *self;
        let ev = Event::new("agent_joined", EventData::AgentJoined { agent: copy.clone() });
        self.emit(ev);
        proof {
            assert(mid.feed() == old(self).feed());
            assert(mid.outbox() == old(self).outbox());
            assert(self.feed() == capped(old(self).feed().push(ev@)));
        }
        copy
    }

    /// The agent with id `id`, if it is on the marketplace.
    pub fn get(&self, id: &str) -> (r: Option<Agent>)
        requires
            self.wf(),
        ensures
            opt_agent_view(r) == find_agent(self.roster(), id@),
    {
        match self.find_index(id) {
            Some(i) => {
                assert(self.roster()[i as int] == self.agents@[i as int]@);
                Some(self.agents[i].clone())
            },
            None => None,
        }
    }

    /// The name of the agent with id `id`, or `id` itself when no such agent is on.
    pub fn name_of(&self, id: &str) -> (r: String)
        requires
            self.wf(),
        ensures
            r@ == display_name(self.roster(), id@),
    {
        match self.get(id) {
            Some(a) => a.name,
            None => owned(id),
        }
    }

    /// Records that the agent with id `id`, if it is on, was seen at time `t`.
    pub fn touch_at(&mut self, id: &str, t: u64)
        requires
            old(self).wf(),
        ensures
            final(self).wf(),
            final(self).roster() == roster_touched(old(self).roster(), id@, t),
            final(self).same_inboxes(*old(self)),
            final(self).same_feed(*old(self)),
    {
        let ghost r0 = self.roster();
        match self.find_index(id) {
            Some(i) => {
                let mut a = self.agents[i].clone();
                a.last_seen = t;
                self.agents.set(i, a);
                proof {
                    assert(self.roster() =~= roster_touched(r0, id@, t));
                    assert forall|x: int, y: int|
                        0 <= x < self.roster().len() && 0 <= y < self.roster().len() && x != y
                            implies self.roster()[x].id != self.roster()[y].id by {
                        assert(r0[x].id != r0[y].id);
                    }
                }
            },
            None => {
                assert(self.roster() == roster_touched(r0, id@, t));
            },
        }
    }

    /// Records that the agent with id `id` was just seen, if it is on, and
    /// returns the time it recorded.
    pub fn touch(&mut self, id: &str) -> (t: u64)
        requires
            old(self).wf(),
        ensures
            final(self).wf(),
            final(self).roster() == roster_touched(old(self).roster(), id@, t),
            final(self).same_inboxes(*old(self)),
            final(self).same_feed(*old(self)),
    {
        let t = crate::models::now();
        self.touch_at(id, t);
        t
    }

    /// Everyone on the marketplace, ordered by creation time; agents created
    /// at the same time are listed in the order they joined.
    pub fn agents(&self) -> (r: Vec<Agent>)
        requires
            self.wf(),
        ensures
            agent_views(r@) == by_creation(self.roster()),
    {
        let mut res: Vec<Agent> = Vec::new();
        let mut i: usize = 0;
        while i < self.agents.len()
            invariant
                i <= self.agents.len(),
                agent_views(res@) == by_creation(self.roster().take(i as int)),
            decreases self.agents.len() - i,
        {
            let a = self.agents[i].clone();
            let mut p: usize = res.len();
            while p > 0 && res[p - 1].created_at > a.created_at
                invariant
                    p <= res.len(),
                    forall|k: int|
                        p <= k < res.len() ==> earlier_first(#[trigger] agent_views(res@)[k])
                            < earlier_first(a@),
                decreases p,
            {
                p = p - 1;
            }
            proof {
                let key = |x: AgentView| earlier_first(x);
                lemma_insert_by_key_at(agent_views(res@), a@, key, p as int);
                assert(self.roster().take(i + 1).drop_last() =~= self.roster().take(i as int));
                assert(self.roster().take(i + 1).last() == a@);
            }
            let ghost before = res@;
            let ghost av = a@;
            res.insert(p, a);
            assert(agent_views(res@) =~= agent_views(before).insert(p as int, av));
            i = i + 1;
        }
        assert(self.roster().take(self.agents.len() as int) =~= self.roster());
        res
    }

    /// The position of the inbox of `id`, if it has one.
    fn inbox_index(&self, id: &str) -> (r: Option<usize>)
        requires
            self.wf(),
        ensures
            match r {
                Some(i) => i < self.inboxes@.len() && self.inboxes@[i as int].owner@ == id@,
                None => forall|j: int|
                    0 <= j < self.inboxes@.len() ==> #[trigger] self.inboxes@[j].owner@ != id@,
            },
    {
        let mut i: usize = 0;
        while i < self.inboxes.len()
            invariant
                i <= self.inboxes.len(),
                forall|j: int| 0 <= j < i ==> #[trigger] self.inboxes@[j].owner@ != id@,
            decreases self.inboxes.len() - i,
        {
            if str_eq(self.inboxes[i].owner.as_str(), id) {
                return Some(i);
            }
            i = i + 1;
        }
        None
    }

    /// Forgets the inbox of `id`.
    fn remove_inbox(&mut self, id: &str)
        requires
            old(self).wf(),
        ensures
            final(self).wf(),
            final(self).inbox(id@) == Seq::<MessageView>::empty(),
            forall|other: Seq<char>|
                other != id@ ==> #[trigger] final(self).inbox(other) == old(self).inbox(other),
            final(self).roster() == old(self).roster(),
            final(self).same_feed(*old(self)),
    {
        let ghost s0 = self.inboxes@;
        match self.inbox_index(id) {
            Some(k) => {
                self.inboxes.remove(k);
                proof {
                    let s1 = self.inboxes@;
                    assert(s1 =~= s0.remove(k as int));
                    assert forall|x: int, y: int|
                        0 <= x < s1.len() && 0 <= y < s1.len() && x != y implies s1[x].owner@
                        != s1[y].owner@ by {
                        let x0 = if x < k { x } else { x + 1 };
                        let y0 = if y < k { y } else { y + 1 };
                        assert(s1[x] == s0[x0] && s1[y] == s0[y0]);
                    }
                    assert forall|j: int| 0 <= j < s1.len() implies #[trigger] s1[j].owner@ != id@ by {
                        let j0 = if j < k { j } else { j + 1 };
                        assert(s1[j] == s0[j0]);
                    }
                    assert forall|other: Seq<char>| other != id@ implies #[trigger] inbox_of(
                        s1,
                        other,
                    ) == inbox_of(s0, other) by {
                        lemma_inbox_after_remove(s0, k as int, other);
                    }
                }
            },
            None => {},
        }
    }

    /// Delivers `msg` into the inbox of `to`.
    fn deliver(&mut self, to: &str, msg: Message)
        requires
            old(self).wf(),
        ensures
            final(self).wf(),
            final(self).inbox(to@) == old(self).inbox(to@).push(msg@),
            forall|other: Seq<char>|
                other != to@ ==> #[trigger] final(self).inbox(other) == old(self).inbox(other),
            final(self).roster() == old(self).roster(),
            final(self).same_feed(*old(self)),
    {
        let ghost s0 = self.inboxes@;
        let ghost mv = msg@;
        match self.inbox_index(to) {
            Some(k) => {
                let mut ib = self.inboxes.remove(k);
                let ghost m0 = ib.messages@;
                ib.messages.push(msg);
                let ghost ib_new = ib;
                self.inboxes.insert(k, ib);
                proof {
                    let s1 = self.inboxes@;
                    assert(s1 =~= s0.update(k as int, ib_new));
                    assert(message_views(ib_new.messages@) =~= message_views(m0).push(mv));
                    assert forall|x: int, y: int|
                        0 <= x < s1.len() && 0 <= y < s1.len() && x != y implies s1[x].owner@
                        != s1[y].owner@ by {
                        assert(s0[x].owner@ != s0[y].owner@);
                    }
                    lemma_inbox_at(s0, k as int);
                    lemma_inbox_at(s1, k as int);
                    assert forall|other: Seq<char>| other != to@ implies #[trigger] inbox_of(
                        s1,
                        other,
                    ) == inbox_of(s0, other) by {
                        if exists|j: int| 0 <= j < s1.len() && s1[j].owner@ == other {
                            let j = choose|j: int| 0 <= j < s1.len() && s1[j].owner@ == other;
                            lemma_inbox_at(s1, j);
                            lemma_inbox_at(s0, j);
                        } else {
                            assert forall|j: int| 0 <= j < s0.len() implies s0[j].owner@ != other by {
                                if j != k {
                                    assert(s1[j] == s0[j]);
                                }
                            }
                        }
                    }
                }
            },
            None => {
                let mut messages: Vec<Message> = Vec::new();
                messages.push(msg);
                let ib = Inbox { owner: owned(to), messages };
                let ghost ib_new = ib;
                self.inboxes.push(ib);
                proof {
                    let s1 = self.inboxes@;
                    assert(s1 =~= s0.push(ib_new));
                    assert(message_views(ib_new.messages@) =~= Seq::<MessageView>::empty().push(mv));
                    assert forall|x: int, y: int|
                        0 <= x < s1.len() && 0 <= y < s1.len() && x != y implies s1[x].owner@
                        != s1[y].owner@ by {
                        if x < s0.len() && y < s0.len() {
                            assert(s0[x].owner@ != s0[y].owner@);
                        } else if x < s0.len() {
                            assert(s1[x] == s0[x]);
                        } else {
                            assert(s1[y] == s0[y]);
                        }
                    }
                    lemma_inbox_at(s1, s0.len() as int);
                    assert forall|other: Seq<char>| other != to@ implies #[trigger] inbox_of(
                        s1,
                        other,
                    ) == inbox_of(s0, other) by {
                        if exists|j: int| 0 <= j < s1.len() && s1[j].owner@ == other {
                            let j = choose|j: int| 0 <= j < s1.len() && s1[j].owner@ == other;
                            lemma_inbox_at(s1, j);
                            assert(s1[j] == s0[j]);
                            lemma_inbox_at(s0, j);
                        } else {
                            assert forall|j: int| 0 <= j < s0.len() implies s0[j].owner@ != other by {
                                assert(s1[j] == s0[j]);
                            }
                        }
                    }
                }
            },
        }
    }

    /// Removes the agent with id `id` and its inbox; announces it with an
    /// "agent_left" event when it was on. Returns whether it was on.
    pub fn remove_agent(&mut self, id: &str) -> (r: bool)
        requires
            old(self).wf(),
        ensures
            final(self).wf(),
            r == has_agent(old(self).roster(), id@),
            final(self).roster() == roster_without(old(self).roster(), id@),
            final(self).inbox(id@) == Seq::<MessageView>::empty(),
            forall|other: Seq<char>|
                other != id@ ==> #[trigger] final(self).inbox(other) == old(self).inbox(other),
            match find_agent(old(self).roster(), id@) {
                Some(a) => final(self).announced(
                    *old(self),
                    "agent_left"@,
                    EventDataView::AgentLeft { id: a.id, name: a.name },
                ),
                None => final(self).same_feed(*old(self)),
            },
    {
        self.remove_inbox(id);
        let ghost after_inbox = *self;
        let ghost r0 = self.roster();
        match self.find_index(id) {
            Some(i) => {
                let a = self.agents.remove(i);
                proof {
                    lemma_agent_index(r0, i as int);
                    let r1 = self.roster();
                    assert(r1 =~= r0.remove(i as int));
                    assert forall|x: int, y: int|
                        0 <= x < r1.len() && 0 <= y < r1.len() && x != y implies r1[x].id
                        != r1[y].id by {
                        let x0 = if x < i { x } else { x + 1 };
                        let y0 = if y < i { y } else { y + 1 };
                        assert(r1[x] == r0[x0] && r1[y] == r0[y0]);
                    }
                }
                let ghost mid = *self;
                let ev = Event::new("agent_left", EventData::AgentLeft { id: a.id, name: a.name });
                self.emit(ev);
                proof {
                    assert(mid.feed() == old(self).feed());
                    assert(self.feed() == capped(old(self).feed().push(ev@)));
                    assert forall|other: Seq<char>| other != id@ implies #[trigger] self.inbox(
                        other,
                    ) == old(self).inbox(other) by {
                        assert(self.inbox(other) == mid.inbox(other));
                        assert(mid.inbox(other) == after_inbox.inbox(other));
                    }
                    assert(self.inbox(id@) == mid.inbox(id@));
                }
                true
            },
            None => false,
        }
    }

    /// Returns the messages waiting for `id`, oldest first, and empties its inbox.
    pub fn drain_inbox(&mut self, id: &str) -> (r: Vec<Message>)
        requires
            old(self).wf(),
        ensures
            final(self).wf(),
            message_views(r@) == old(self).inbox(id@),
            final(self).inbox(id@) == Seq::<MessageView>::empty(),
            forall|other: Seq<char>|
                other != id@ ==> #[trigger] final(self).inbox(other) == old(self).inbox(other),
            final(self).roster() == old(self).roster(),
            final(self).same_feed(*old(self)),
    {
        let ghost s0 = self.inboxes@;
        match self.inbox_index(id) {
            Some(k) => {
                let ib = self.inboxes.remove(k);
                proof {
                    lemma_inbox_at(s0, k as int);
                    let s1 = self.inboxes@;
                    assert(s1 =~= s0.remove(k as int));
                    assert forall|x: int, y: int|
                        0 <= x < s1.len() && 0 <= y < s1.len() && x != y implies s1[x].owner@
                        != s1[y].owner@ by {
                        let x0 = if x < k { x } else { x + 1 };
                        let y0 = if y < k { y } else { y + 1 };
                        assert(s1[x] == s0[x0] && s1[y] == s0[y0]);
                    }
                    assert forall|j: int| 0 <= j < s1.len() implies #[trigger] s1[j].owner@ != id@ by {
                        let j0 = if j < k { j } else { j + 1 };
                        assert(s1[j] == s0[j0]);
                    }
                    assert forall|other: Seq<char>| other != id@ implies #[trigger] inbox_of(
                        s1,
                        other,
                    ) == inbox_of(s0, other) by {
                        lemma_inbox_after_remove(s0, k as int, other);
                    }
                }
                ib.messages
            },
            None => {
                let r: Vec<Message> = Vec::new();
                assert(message_views(r@) =~= Seq::<MessageView>::empty());
                r
            },
        }
    }

    /// Delivers `msg` into the inbox of its recipient, records that its
    /// sender was just seen, and announces it with a "message" event naming
    /// both ends. Returns the message.
    pub fn route(&mut self, msg: Message) -> (r: Message)
        requires
            old(self).wf(),
        ensures
            final(self).wf(),
            r@ == msg@,
            final(self).inbox(msg@.to_id) == old(self).inbox(msg@.to_id).push(msg@),
            forall|other: Seq<char>|
                other != msg@.to_id ==> #[trigger] final(self).inbox(other) == old(self).inbox(
                    other,
                ),
            exists|t: u64|
                final(self).roster() == roster_touched(old(self).roster(), msg@.from_id, t),
            final(self).announced(
                *old(self),
                "message"@,
                EventDataView::MessageSent {
                    message: msg@,
                    from_name: display_name(old(self).roster(), msg@.from_id),
                    to_name: display_name(old(self).roster(), msg@.to_id),
                },
            ),
    {
        let t = crate::models::now();
        self.route_at(msg, t)
    }

    /// Delivers `msg` to its addressee's inbox, records that the sender was
    /// seen at time `t`, and announces it with a "message" event naming both
    /// ends. Returns the message.
    pub fn route_at(&mut self, msg: Message, t: u64) -> (r: Message)
        requires
            old(self).wf(),
        ensures
            final(self).wf(),
            r@ == msg@,
            final(self).inbox(msg@.to_id) == old(self).inbox(msg@.to_id).push(msg@),
            forall|other: Seq<char>|
                other != msg@.to_id ==> #[trigger] final(self).inbox(other) == old(self).inbox(
                    other,
                ),
            final(self).roster() == roster_touched(old(self).roster(), msg@.from_id, t),
            final(self).announced(
                *old(self),
                "message"@,
                EventDataView::MessageSent {
                    message: msg@,
                    from_name: display_name(old(self).roster(), msg@.from_id),
                    to_name: display_name(old(self).roster(), msg@.to_id),
                },
            ),
    {
        let from_name = self.name_of(msg.from_id.as_str());
        let to_name = self.name_of(msg.to_id.as_str());
        let copy = msg.clone();
        let result = msg.clone();
        let to = msg.to_id.clone();
        let from = msg.from_id.clone();
        self.deliver(to.as_str(), msg);
        let ghost delivered = *self;
        self.touch_at(from.as_str(), t);
        let ghost touched = *self;
        let ev = Event::new(
            "message",
            EventData::MessageSent { message: copy, from_name, to_name },
        );
        self.emit(ev);
        proof {
            assert(touched.feed() == old(self).feed());
            assert(touched.outbox() == old(self).outbox());
            assert(self.feed() == capped(old(self).feed().push(ev@)));
            assert forall|other: Seq<char>| #[trigger] self.inbox(other) == delivered.inbox(other) by {
                assert(self.inbox(other) == touched.inbox(other));
                assert(touched.inbox(other) == delivered.inbox(other));
            }
        }
        result
    }

    /// The agents whose capabilities, name or role share words with `query`,
    /// best overlap first (ties in the order they joined), leaving out
    /// `exclude_id` so an asker never finds itself. Announces the search with a
    /// "search" event.
    pub fn discover(&mut self, query: &str, exclude_id: Option<&str>) -> (r: Vec<Agent>)
        requires
            old(self).wf(),
        ensures
            final(self).wf(),
            agent_views(r@) == discovered(old(self).roster(), query@, opt_str(exclude_id)),
            final(self).roster() == old(self).roster(),
            final(self).same_inboxes(*old(self)),
            final(self).announced(
                *old(self),
                "search"@,
                EventDataView::Search {
                    query: query@,
                    by: opt_str(exclude_id),
                    by_name: match exclude_id {
                        Some(id) => Some(display_name(old(self).roster(), id@)),
                        None => None,
                    },
                    matches: discovered(old(self).roster(), query@, opt_str(exclude_id)),
                },
            ),
    {
        let words = word_set(query, 1);
        let ghost q = query@;
        let ghost ex = opt_str(exclude_id);
        let ghost key = |p: (int, AgentView)| by_overlap(p);
        let mut scored: Vec<(usize, Agent)> = Vec::new();
        let mut i: usize = 0;
        while i < self.agents.len()
            invariant
                self.wf(),
                i <= self.agents.len(),
                string_views(words@).no_duplicates(),
                string_views(words@).to_set() == token_set(q, 1),
                q == query@,
                ex == opt_str(exclude_id),
                key == (|p: (int, AgentView)| by_overlap(p)),
                scored_views(scored@) == rank_by_key(candidates(self.roster().take(i as int), q, ex), key),
            decreases self.agents.len() - i,
        {
            let ghost a_view = self.roster()[i as int];
            assert(self.roster()[i as int] == self.agents@[i as int]@);
            assert(self.roster().take(i + 1).drop_last() =~= self.roster().take(i as int));
            assert(self.roster().take(i + 1).last() == a_view);
            let skip = match exclude_id {
                Some(x) => str_eq(self.agents[i].id.as_str(), x),
                None => false,
            };
            if !skip {
                let a = &self.agents[i];
                let mut h = join_strings(&a.capabilities, " ");
                crate::text::push_char(&mut h, ' ');
                append_str(&mut h, a.name.as_str());
                crate::text::push_char(&mut h, ' ');
                append_str(&mut h, a.role.as_str());
                assert(h@ =~= hay(a_view));
                let hw = word_set(h.as_str(), 1);
                let score = crate::text::count_shared(&words, &hw);
                assert(score == overlap(q, a_view));
                if score > 0 {
                    let mut p: usize = scored.len();
                    while p > 0 && scored[p - 1].0 < score
                        invariant
                            p <= scored.len(),
                            forall|k: int|
                                p <= k < scored.len() ==> by_overlap(#[trigger] scored_views(scored@)[k])
                                    < score,
                        decreases p,
                    {
                        p = p - 1;
                    }
                    let c = a.clone();
                    proof {
                        lemma_insert_by_key_at(scored_views(scored@), (score as int, a_view), key, p as int);
                    }
                    let ghost before = scored@;
                    scored.insert(p, (score, c));
                    assert(scored_views(scored@) =~= scored_views(before).insert(p as int, (score as int, a_view)));
                    proof {
                        let c0 = candidates(self.roster().take(i as int), q, ex);
                        assert(c0.push((score as int, a_view)).drop_last() =~= c0);
                        assert(candidates(self.roster().take(i + 1), q, ex) == c0.push((score as int, a_view)));
                    }
                }
            }
            i = i + 1;
        }
        assert(self.roster().take(self.agents.len() as int) =~= self.roster());
        let mut found: Vec<Agent> = Vec::new();
        let mut k: usize = 0;
        while k < scored.len()
            invariant
                k <= scored.len(),
                agent_views(found@) == scored_views(scored@).map_values(|p: (int, AgentView)| p.1).take(k as int),
            decreases scored.len() - k,
        {
            let c = scored[k].1.clone();
            let ghost before = found@;
            assert(agent_views(before).len() == before.len());
            found.push(c);
            proof {
                let target = scored_views(scored@).map_values(|p: (int, AgentView)| p.1);
                assert(target[k as int] == scored@[k as int].1@);
                assert forall|j: int| 0 <= j < k + 1 implies #[trigger] agent_views(found@)[j] == target.take(k + 1)[j] by {
                    if j < k {
                        assert(found@[j] == before[j]);
                        assert(agent_views(before)[j] == target.take(k as int)[j]);
                    }
                }
                assert(agent_views(found@) =~= target.take(k + 1));
            }
            k = k + 1;
        }
        assert(scored_views(scored@).map_values(|p: (int, AgentView)| p.1).take(scored.len() as int)
            =~= scored_views(scored@).map_values(|p: (int, AgentView)| p.1));
        let by_name = match exclude_id {
            Some(x) => Some(self.name_of(x)),
            None => None,
        };
        let by = match exclude_id {
            Some(x) => Some(owned(x)),
            None => None,
        };
        let matches = copy_agents(&found);
        let ghost mid = *self;
        let ev = Event::new(
            "search",
            EventData::Search { query: owned(query), by, by_name, matches },
        );
        self.emit(ev);
        proof {
            assert(self.feed() == capped(old(self).feed().push(ev@)));
        }
        found
    }

    /// Every distinct capability currently offered, in lexicographic order.
    pub fn capability_index(&self) -> (r: Vec<String>)
        ensures
            strictly_sorted(string_views(r@)),
            string_views(r@).to_set() == all_caps(self.roster()),
            string_views(r@) == capability_list(self.roster()),
    {
        let ghost r = self.roster();
        let mut set: Vec<String> = Vec::new();
        assert(string_views(set@).to_set() =~= caps_seen(r, 0, 0));
        let mut i: usize = 0;
        while i < self.agents.len()
            invariant
                r == self.roster(),
                i <= self.agents.len(),
                strictly_sorted(string_views(set@)),
                string_views(set@).to_set() == caps_seen(r, i as int, 0),
            decreases self.agents.len() - i,
        {
            let caps = &self.agents[i].capabilities;
            assert(r[i as int].capabilities == string_views(caps@));
            let mut j: usize = 0;
            while j < caps.len()
                invariant
                    r == self.roster(),
                    i < self.agents.len(),
                    caps == &self.agents@[i as int].capabilities,
                    r[i as int].capabilities == string_views(caps@),
                    j <= caps.len(),
                    strictly_sorted(string_views(set@)),
                    string_views(set@).to_set() == caps_seen(r, i as int, j as int),
                decreases caps.len() - j,
            {
                let ghost before = string_views(set@).to_set();
                insert_sorted_unique(&mut set, caps[j].clone());
                proof {
                    assert(r[i as int].capabilities[j as int] == caps@[j as int]@);
                    assert(caps_seen(r, i as int, j + 1) =~= before.insert(caps@[j as int]@)) by {
                        assert forall|c: Seq<char>| #[trigger] caps_seen(r, i as int, j + 1).contains(c)
                            <==> before.insert(caps@[j as int]@).contains(c) by {
                            if exists|b: int| 0 <= b < j + 1 && #[trigger] r[i as int].capabilities[b] == c {
                                let b = choose|b: int| 0 <= b < j + 1 && #[trigger] r[i as int].capabilities[b] == c;
                                if b < j {
                                    assert(caps_seen(r, i as int, j as int).contains(c));
                                }
                            }
                        }
                    }
                }
                j = j + 1;
            }
            proof {
                assert(caps_seen(r, i + 1, 0) =~= caps_seen(r, i as int, caps.len() as int)) by {
                    assert forall|c: Seq<char>| #[trigger] caps_seen(r, i + 1, 0).contains(c)
                        <==> caps_seen(r, i as int, caps.len() as int).contains(c) by {
                        if exists|a: int, b: int|
                            0 <= a < i + 1 && 0 <= b < r[a].capabilities.len() && #[trigger] r[a].capabilities[b] == c {
                            let (a, b) = choose|a: int, b: int|
                                0 <= a < i + 1 && 0 <= b < r[a].capabilities.len() && #[trigger] r[a].capabilities[b] == c;
                            if a == i {
                                assert(r[i as int].capabilities[b] == c);
                            }
                        }
                    }
                }
            }
            i = i + 1;
        }
        proof {
            assert(caps_seen(r, r.len() as int, 0) =~= all_caps(r)) by {
                assert forall|c: Seq<char>| #[trigger] caps_seen(r, r.len() as int, 0).contains(c)
                    <==> all_caps(r).contains(c) by {
                    if all_caps(r).contains(c) {
                        let (a, b) = choose|a: int, b: int|
                            0 <= a < r.len() && 0 <= b < r[a].capabilities.len() && #[trigger] r[a].capabilities[b] == c;
                        assert(r[a].capabilities[b] == c);
                    }
                }
            }
            lemma_capability_list(r, string_views(set@));
        }
        set
    }
}

/// With unique owners, the inbox at position `i` is the one `inbox_of` finds for its owner.
proof fn lemma_inbox_at(s: Seq<Inbox>, i: int)
    requires
        0 <= i < s.len(),
        forall|x: int, y: int|
            0 <= x < s.len() && 0 <= y < s.len() && x != y ==> s[x].owner@ != s[y].owner@,
    ensures
        inbox_of(s, s[i].owner@) == message_views(s[i].messages@),
{
    assert(s[i].owner@ == s[i].owner@);
    let j = choose|j: int| 0 <= j < s.len() && s[j].owner@ == s[i].owner@;
    assert(j == i);
}

/// Removing the inbox at `k` keeps every other owner's inbox.
proof fn lemma_inbox_after_remove(s: Seq<Inbox>, k: int, other: Seq<char>)
    requires
        0 <= k < s.len(),
        other != s[k].owner@,
        forall|x: int, y: int|
            0 <= x < s.len() && 0 <= y < s.len() && x != y ==> s[x].owner@ != s[y].owner@,
    ensures
        inbox_of(s.remove(k), other) == inbox_of(s, other),
{
    let s1 = s.remove(k);
    assert forall|x: int, y: int|
        0 <= x < s1.len() && 0 <= y < s1.len() && x != y implies s1[x].owner@ != s1[y].owner@ by {
        let x0 = if x < k { x } else { x + 1 };
        let y0 = if y < k { y } else { y + 1 };
        assert(s1[x] == s[x0] && s1[y] == s[y0]);
    }
    if exists|j: int| 0 <= j < s1.len() && s1[j].owner@ == other {
        let j = choose|j: int| 0 <= j < s1.len() && s1[j].owner@ == other;
        let j0 = if j < k { j } else { j + 1 };
        assert(s1[j] == s[j0]);
        lemma_inbox_at(s1, j);
        lemma_inbox_at(s, j0);
    } else {
        assert forall|j: int| 0 <= j < s.len() implies s[j].owner@ != other by {
            if j != k {
                let j1 = if j < k { j } else { j - 1 };
                assert(s1[j1] == s[j]);
            }
        }
    }
}

} // verus!
