//! The shared vocabulary of the marketplace: agents, messages, feed events
//! and the bodies a visitor sends to create an agent or hand over a goal.
//! Times are milliseconds since the Unix epoch.

use vstd::prelude::*;
use crate::json::{Json, text_of};
use crate::text::{
    append_str, chars_of, join, join_strings, lowercase, push_char, split_char, split_on,
    string_from_chars, string_views, to_lowercase, trim, trim_seq,
};

verus! {

// ------------------------------------------------------------------------
// Identifiers and time
// ------------------------------------------------------------------------

/// A lowercase hexadecimal digit.
pub open spec fn is_hex_digit(c: char) -> bool {
    ('0' <= c && c <= '9') || ('a' <= c && c <= 'f')
}

/// `id` reads `<prefix>_` followed by six lowercase hexadecimal digits.
pub open spec fn is_short_id(id: Seq<char>, prefix: Seq<char>) -> bool {
    &&& id.len() == prefix.len() + 7
    &&& id.subrange(0, prefix.len() as int) == prefix
    &&& id[prefix.len() as int] == '_'
    &&& forall|i: int| prefix.len() < i < id.len() ==> is_hex_digit(#[trigger] id[i])
}

/// Calls `uuid::Uuid::new_v4` and renders the UUID with `Uuid::simple`, which
/// uuid's formatting code writes as its 32 lowercase hexadecimal digits. The
/// digits themselves are random and nothing is said of them.
#[verifier::external_body]
fn random_hex() -> (s: String)
    ensures
        s@.len() == 32,
        forall|i: int| 0 <= i < 32 ==> is_hex_digit(#[trigger] s@[i]),
{
    uuid::Uuid::new_v4().simple().to_string()
}

/// A short, readable, random identifier such as `agent_3f2a9c`.
pub fn short_id(prefix: &str) -> (r: String)
    ensures
        is_short_id(r@, prefix@),
{
    let hex = random_hex();
    let digits = chars_of(hex.as_str());
    let p = chars_of(prefix);
    let mut r = string_from_chars(&p, 0, p.len());
    push_char(&mut r, '_');
    let mut i: usize = 0;
    while i < 6
        invariant
            p@ == prefix@,
            digits@.len() == 32,
            forall|k: int| 0 <= k < 32 ==> is_hex_digit(#[trigger] digits@[k]),
            i <= 6,
            r@ == prefix@.push('_') + digits@.take(i as int),
        decreases 6 - i,
    {
        push_char(&mut r, digits[i]);
        assert(prefix@.push('_') + digits@.take(i + 1) =~= (prefix@.push('_') + digits@.take(
            i as int,
        )).push(digits@[i as int]));
        i = i + 1;
    }
    assert(r@.subrange(0, prefix@.len() as int) =~= prefix@);
    assert forall|k: int| prefix@.len() < k < r@.len() implies is_hex_digit(#[trigger] r@[k]) by {
        assert(r@[k] == digits@[k - prefix@.len() - 1]);
    }
    r
}

/// Reads the clock through `SystemTime::UNIX_EPOCH.elapsed`: the milliseconds
/// since the Unix epoch, or 0 when the clock reads earlier than that. The
/// reading depends on the time and nothing is said of it.
#[verifier::external_body]
pub fn now() -> u64 {
    std::time::SystemTime::UNIX_EPOCH.elapsed().map(|d| d.as_millis() as u64).unwrap_or(0)
}

// ------------------------------------------------------------------------
// Agents
// ------------------------------------------------------------------------

/// An agent living on the marketplace. `persona` is the instruction the
/// server's language model follows to answer as this agent.
pub struct Agent {
    pub id: String,
    pub name: String,
    pub role: String,
    pub capabilities: Vec<String>,
    /// The instruction that defines how this agent thinks and answers.
    pub persona: String,
    /// "human" for agents created by visitors, "coordinator" for the recruiter.
    pub kind: String,
    pub created_at: u64,
    /// The last time the marketplace saw activity from or about this agent.
    pub last_seen: u64,
}

/// An agent as plain values.
pub struct AgentView {
    pub id: Seq<char>,
    pub name: Seq<char>,
    pub role: Seq<char>,
    pub capabilities: Seq<Seq<char>>,
    pub persona: Seq<char>,
    pub kind: Seq<char>,
    pub created_at: u64,
    pub last_seen: u64,
}

impl View for Agent {
    type V = AgentView;

    open spec fn view(&self) -> AgentView {
        AgentView {
            id: self.id@,
            name: self.name@,
            role: self.role@,
            capabilities: string_views(self.capabilities@),
            persona: self.persona@,
            kind: self.kind@,
            created_at: self.created_at,
            last_seen: self.last_seen,
        }
    }
}

/// A copy of a list of strings with the same characters.
pub fn copy_strings(v: &Vec<String>) -> (r: Vec<String>)
    ensures
        string_views(r@) == string_views(v@),
{
    let mut r: Vec<String> = Vec::new();
    let mut i: usize = 0;
    while i < v.len()
        invariant
            i <= v.len(),
            string_views(r@) == string_views(v@).take(i as int),
        decreases v.len() - i,
    {
        let c = v[i].clone();
        let ghost before = r@;
        assert(string_views(before).len() == before.len());
        assert(before.len() == i);
        r.push(c);
        proof {
            assert(r@.len() == i + 1);
            assert forall|k: int| 0 <= k < i + 1 implies #[trigger] string_views(r@)[k]
                == string_views(v@)[k] by {
                if k < i {
                    assert(r@[k] == before[k]);
                    assert(string_views(before)[k] == string_views(v@).take(i as int)[k]);
                }
            }
            assert(string_views(r@) =~= string_views(v@).take(i + 1));
        }
        i = i + 1;
    }
    assert(string_views(v@).take(v.len() as int) =~= string_views(v@));
    r
}

impl Clone for Agent {
    fn clone(&self) -> (r: Self)
        ensures
            r@ == self@,
    {
        Agent {
            id: self.id.clone(),
            name: self.name.clone(),
            role: self.role.clone(),
            capabilities: copy_strings(&self.capabilities),
            persona: self.persona.clone(),
            kind: self.kind.clone(),
            created_at: self.created_at,
            last_seen: self.last_seen,
        }
    }
}

/// The views of a list of agents.
pub open spec fn agent_views(v: Seq<Agent>) -> Seq<AgentView> {
    v.map_values(|a: Agent| a@)
}

/// The view of an optional string.
pub open spec fn opt_view(o: Option<String>) -> Option<Seq<char>> {
    match o {
        Some(s) => Some(s@),
        None => None,
    }
}

// ------------------------------------------------------------------------
// Messages
// ------------------------------------------------------------------------

/// A message routed between agents through the marketplace.
pub struct Message {
    pub id: String,
    pub from_id: String,
    pub to_id: String,
    /// "request" or "reply".
    pub kind: String,
    pub content: String,
    pub task_id: Option<String>,
    pub ts: u64,
}

/// A message as plain values.
pub struct MessageView {
    pub id: Seq<char>,
    pub from_id: Seq<char>,
    pub to_id: Seq<char>,
    pub kind: Seq<char>,
    pub content: Seq<char>,
    pub task_id: Option<Seq<char>>,
    pub ts: u64,
}

impl View for Message {
    type V = MessageView;

    open spec fn view(&self) -> MessageView {
        MessageView {
            id: self.id@,
            from_id: self.from_id@,
            to_id: self.to_id@,
            kind: self.kind@,
            content: self.content@,
            task_id: opt_view(self.task_id),
            ts: self.ts,
        }
    }
}

/// A copy of an optional string.
pub fn copy_opt(o: &Option<String>) -> (r: Option<String>)
    ensures
        opt_view(r) == opt_view(*o),
{
    match o {
        Some(s) => Some(s.clone()),
        None => None,
    }
}

impl Clone for Message {
    fn clone(&self) -> (r: Self)
        ensures
            r@ == self@,
    {
        Message {
            id: self.id.clone(),
            from_id: self.from_id.clone(),
            to_id: self.to_id.clone(),
            kind: self.kind.clone(),
            content: self.content.clone(),
            task_id: copy_opt(&self.task_id),
            ts: self.ts,
        }
    }
}

/// The views of a list of messages.
pub open spec fn message_views(v: Seq<Message>) -> Seq<MessageView> {
    v.map_values(|m: Message| m@)
}

// ------------------------------------------------------------------------
// Creating agents
// ------------------------------------------------------------------------

/// The body a visitor sends to create an agent.
pub struct CreateAgent {
    pub name: String,
    pub role: String,
    /// A list of strings or one comma-separated string.
    pub capabilities: Json,
    pub persona: String,
}

/// The body a visitor sends to hand the coordinator a goal.
pub struct GoalBody {
    pub goal: String,
}

/// A capability as sent, trimmed and lower-cased.
pub open spec fn cap_of(piece: Seq<char>) -> Seq<char> {
    lowercase(trim_seq(piece))
}

/// The capabilities named by the string items of a list, in order, empty ones left out.
pub open spec fn caps_from_items(items: Seq<Json>) -> Seq<Seq<char>>
    decreases items.len(),
{
    if items.len() == 0 {
        Seq::empty()
    } else {
        let before = caps_from_items(items.drop_last());
        match text_of(items.last()) {
            Some(s) => if cap_of(s).len() > 0 {
                before.push(cap_of(s))
            } else {
                before
            },
            None => before,
        }
    }
}

/// The capabilities named by pieces of text, in order, empty ones left out.
pub open spec fn caps_from_pieces(pieces: Seq<Seq<char>>) -> Seq<Seq<char>>
    decreases pieces.len(),
{
    if pieces.len() == 0 {
        Seq::empty()
    } else {
        let before = caps_from_pieces(pieces.drop_last());
        if cap_of(pieces.last()).len() > 0 {
            before.push(cap_of(pieces.last()))
        } else {
            before
        }
    }
}

/// The capabilities that `v` names: the string items of a list, or the
/// comma-separated pieces of a string; anything else names none.
pub open spec fn normalized_caps(v: Json) -> Seq<Seq<char>> {
    match v {
        Json::Array(items) => caps_from_items(items@),
        Json::Str(s) => caps_from_pieces(split_on(s@, ',')),
        _ => Seq::empty(),
    }
}

/// Capabilities sent as either `["a","b"]` or `"a, b"`, trimmed and lower-cased,
/// empty ones left out.
pub fn normalize_caps(v: Json) -> (r: Vec<String>)
    ensures
        string_views(r@) == normalized_caps(v),
{
    caps_in(&v)
}

/// The capabilities `v` names, without taking it.
pub fn caps_in(v: &Json) -> (r: Vec<String>)
    ensures
        string_views(r@) == normalized_caps(*v),
{
    let mut out: Vec<String> = Vec::new();
    match v {
        Json::Array(items) => {
            let mut i: usize = 0;
            while i < items.len()
                invariant
                    i <= items.len(),
                    string_views(out@) == caps_from_items(items@.take(i as int)),
                decreases items.len() - i,
            {
                assert(items@.take(i + 1).drop_last() =~= items@.take(i as int));
                match items[i].as_str() {
                    Some(s) => {
                        let t = trim(s.as_str());
                        let c = to_lowercase(t.as_str());
                        if !c.as_str().is_empty() {
                            let ghost before = out@;
                            out.push(c);
                            assert(string_views(out@) =~= string_views(before).push(c@));
                        }
                    },
                    None => {},
                }
                i = i + 1;
            }
            assert(items@.take(items.len() as int) =~= items@);
        },
        Json::Str(s) => {
            let pieces = split_char(s.as_str(), ',');
            let mut i: usize = 0;
            while i < pieces.len()
                invariant
                    i <= pieces.len(),
                    string_views(out@) == caps_from_pieces(string_views(pieces@).take(i as int)),
                decreases pieces.len() - i,
            {
                assert(string_views(pieces@).take(i + 1).drop_last() =~= string_views(
                    pieces@,
                ).take(i as int));
                let t = trim(pieces[i].as_str());
                let c = to_lowercase(t.as_str());
                if c.as_str().is_empty() {
                } else {
                    let ghost before = out@;
                    out.push(c);
                    assert(string_views(out@) =~= string_views(before).push(c@));
                }
                i = i + 1;
            }
            assert(string_views(pieces@).take(pieces.len() as int) =~= string_views(pieces@));
        },
        _ => {
            assert(string_views(out@) =~= Seq::<Seq<char>>::empty());
        },
    }
    out
}

/// The role an agent gets: the one sent, trimmed, or one made from its capabilities.
pub open spec fn role_for(role: Seq<char>, caps: Seq<Seq<char>>) -> Seq<char> {
    if trim_seq(role).len() == 0 {
        "Specializes in "@ + join(caps, ", "@)
    } else {
        trim_seq(role)
    }
}

/// The persona an agent gets: the one sent, trimmed, or one made from its
/// name, role and capabilities.
pub open spec fn persona_for(
    name: Seq<char>,
    role: Seq<char>,
    persona: Seq<char>,
    caps: Seq<Seq<char>>,
) -> Seq<char> {
    if trim_seq(persona).len() == 0 {
        "You are "@ + trim_seq(name) + ", an agent on an open marketplace. Your role: "@ + role
            + ". You specialize in: "@ + join(caps, ", "@)
            + ". When a peer asks you something in your specialty, give a concrete, useful answer in 1-3 sentences."@
    } else {
        trim_seq(persona)
    }
}

impl Agent {
    /// The agent a visitor's form describes: name, role and persona trimmed,
    /// capabilities normalized, a role and a persona made up where none was
    /// given, a fresh `agent_` id, and the current time as both its creation
    /// and last-seen time.
    pub fn from_create(c: CreateAgent) -> (r: Agent)
        ensures
            is_short_id(r@.id, "agent"@),
            r@.name == trim_seq(c.name@),
            r@.capabilities == normalized_caps(c.capabilities),
            r@.role == role_for(c.role@, r@.capabilities),
            r@.persona == persona_for(c.name@, r@.role, c.persona@, r@.capabilities),
            r@.kind == "human"@,
            r@.created_at == r@.last_seen,
    {
        let capabilities = normalize_caps(c.capabilities);
        let joined = join_strings(&capabilities, ", ");
        let trimmed_role = trim(c.role.as_str());
        let role = if trimmed_role.as_str().is_empty() {
            let mut r = String::new();
            append_str(&mut r, "Specializes in ");
            append_str(&mut r, joined.as_str());
            assert(r@ =~= "Specializes in "@ + joined@);
            r
        } else {
            trimmed_role
        };
        let name = trim(c.name.as_str());
        let trimmed_persona = trim(c.persona.as_str());
        let persona = if trimmed_persona.as_str().is_empty() {
            let mut p = String::new();
            append_str(&mut p, "You are ");
            append_str(&mut p, name.as_str());
            append_str(&mut p, ", an agent on an open marketplace. Your role: ");
            append_str(&mut p, role.as_str());
            append_str(&mut p, ". You specialize in: ");
            append_str(&mut p, joined.as_str());
            append_str(
                &mut p,
                ". When a peer asks you something in your specialty, give a concrete, useful answer in 1-3 sentences.",
            );
            assert(p@ =~= persona_for(c.name@, role@, c.persona@, string_views(capabilities@)));
            p
        } else {
            trimmed_persona
        };
        let t = now();
        let mut kind = String::new();
        append_str(&mut kind, "human");
        assert(kind@ =~= "human"@);
        Agent {
            id: short_id("agent"),
            name,
            role,
            capabilities,
            persona,
            kind,
            created_at: t,
            last_seen: t,
        }
    }
}

// ------------------------------------------------------------------------
// The live feed
// ------------------------------------------------------------------------

/// What an event on the live feed says. The variants follow the event types:
/// "agent_joined", "agent_left", "search", "message", "goal_start", "plan"
/// and "goal_done".
#[allow(inconsistent_fields)]
pub enum EventData {
    AgentJoined { agent: Agent },
    AgentLeft { id: String, name: String },
    Search {
        query: String,
        by: Option<String>,
        by_name: Option<String>,
        matches: Vec<Agent>,
    },
    MessageSent { message: Message, from_name: String, to_name: String },
    GoalStart { goal: String, by: String },
    Plan { by: String, goal: String, needs: Vec<String> },
    GoalDone {
        by: String,
        goal: String,
        result: String,
        unmet: Vec<String>,
        hired: Vec<String>,
    },
}

/// What an event says, as plain values.
#[allow(inconsistent_fields)]
pub enum EventDataView {
    AgentJoined { agent: AgentView },
    AgentLeft { id: Seq<char>, name: Seq<char> },
    Search {
        query: Seq<char>,
        by: Option<Seq<char>>,
        by_name: Option<Seq<char>>,
        matches: Seq<AgentView>,
    },
    MessageSent { message: MessageView, from_name: Seq<char>, to_name: Seq<char> },
    GoalStart { goal: Seq<char>, by: Seq<char> },
    Plan { by: Seq<char>, goal: Seq<char>, needs: Seq<Seq<char>> },
    GoalDone {
        by: Seq<char>,
        goal: Seq<char>,
        result: Seq<char>,
        unmet: Seq<Seq<char>>,
        hired: Seq<Seq<char>>,
    },
}

impl View for EventData {
    type V = EventDataView;

    open spec fn view(&self) -> EventDataView {
        match self {
            EventData::AgentJoined { agent } => EventDataView::AgentJoined { agent: agent@ },
            EventData::AgentLeft { id, name } => EventDataView::AgentLeft { id: id@, name: name@ },
            EventData::Search { query, by, by_name, matches } => EventDataView::Search {
                query: query@,
                by: opt_view(*by),
                by_name: opt_view(*by_name),
                matches: agent_views(matches@),
            },
            EventData::MessageSent { message, from_name, to_name } => EventDataView::MessageSent {
                message: message@,
                from_name: from_name@,
                to_name: to_name@,
            },
            EventData::GoalStart { goal, by } => EventDataView::GoalStart { goal: goal@, by: by@ },
            EventData::Plan { by, goal, needs } => EventDataView::Plan {
                by: by@,
                goal: goal@,
                needs: string_views(needs@),
            },
            EventData::GoalDone { by, goal, result, unmet, hired } => EventDataView::GoalDone {
                by: by@,
                goal: goal@,
                result: result@,
                unmet: string_views(unmet@),
                hired: string_views(hired@),
            },
        }
    }
}

/// A copy of a list of agents.
pub fn copy_agents(v: &Vec<Agent>) -> (r: Vec<Agent>)
    ensures
        agent_views(r@) == agent_views(v@),
{
    let mut r: Vec<Agent> = Vec::new();
    let mut i: usize = 0;
    while i < v.len()
        invariant
            i <= v.len(),
            agent_views(r@) == agent_views(v@).take(i as int),
        decreases v.len() - i,
    {
        let c = v[i].clone();
        let ghost before = r@;
        assert(agent_views(before).len() == before.len());
        r.push(c);
        proof {
            assert forall|k: int| 0 <= k < i + 1 implies #[trigger] agent_views(r@)[k]
                == agent_views(v@)[k] by {
                if k < i {
                    assert(r@[k] == before[k]);
                    assert(agent_views(before)[k] == agent_views(v@).take(i as int)[k]);
                }
            }
            assert(agent_views(r@) =~= agent_views(v@).take(i + 1));
        }
        i = i + 1;
    }
    assert(agent_views(v@).take(v.len() as int) =~= agent_views(v@));
    r
}

impl Clone for EventData {
    fn clone(&self) -> (r: Self)
        ensures
            r@ == self@,
    {
        match self {
            EventData::AgentJoined { agent } => EventData::AgentJoined { agent: agent.clone() },
            EventData::AgentLeft { id, name } => EventData::AgentLeft {
                id: id.clone(),
                name: name.clone(),
            },
            EventData::Search { query, by, by_name, matches } => EventData::Search {
                query: query.clone(),
                by: copy_opt(by),
                by_name: copy_opt(by_name),
                matches: copy_agents(matches),
            },
            EventData::MessageSent { message, from_name, to_name } => EventData::MessageSent {
                message: message.clone(),
                from_name: from_name.clone(),
                to_name: to_name.clone(),
            },
            EventData::GoalStart { goal, by } => EventData::GoalStart {
                goal: goal.clone(),
                by: by.clone(),
            },
            EventData::Plan { by, goal, needs } => EventData::Plan {
                by: by.clone(),
                goal: goal.clone(),
                needs: copy_strings(needs),
            },
            EventData::GoalDone { by, goal, result, unmet, hired } => EventData::GoalDone {
                by: by.clone(),
                goal: goal.clone(),
                result: result.clone(),
                unmet: copy_strings(unmet),
                hired: copy_strings(hired),
            },
        }
    }
}

/// A typed entry on the live feed that visitors watch.
pub struct Event {
    pub id: String,
    pub event_type: String,
    pub ts: u64,
    pub data: EventData,
}

/// An event as plain values.
pub struct EventView {
    pub id: Seq<char>,
    pub event_type: Seq<char>,
    pub ts: u64,
    pub data: EventDataView,
}

impl View for Event {
    type V = EventView;

    open spec fn view(&self) -> EventView {
        EventView { id: self.id@, event_type: self.event_type@, ts: self.ts, data: self.data@ }
    }
}

impl Clone for Event {
    fn clone(&self) -> (r: Self)
        ensures
            r@ == self@,
    {
        Event {
            id: self.id.clone(),
            event_type: self.event_type.clone(),
            ts: self.ts,
            data: self.data.clone(),
        }
    }
}

/// The views of a list of events.
pub open spec fn event_views(v: Seq<Event>) -> Seq<EventView> {
    v.map_values(|e: Event| e@)
}

/// A copy of `s`.
pub fn owned(s: &str) -> (r: String)
    ensures
        r@ == s@,
{
    let mut r = String::new();
    append_str(&mut r, s);
    assert(r@ =~= s@);
    r
}

impl Event {
    /// A new event of type `event_type` saying `data`, with a fresh `evt_`
    /// id and the current time.
    pub fn new(event_type: &str, data: EventData) -> (r: Event)
        ensures
            r@.event_type == event_type@,
            r@.data == data@,
            is_short_id(r@.id, "evt"@),
    {
        Event { id: short_id("evt"), event_type: owned(event_type), ts: now(), data }
    }
}

} // verus!
