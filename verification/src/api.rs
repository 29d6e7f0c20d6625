//! The decisions behind the HTTP API: which requests are refused and why,
//! and what a `.env` file sets.

use vstd::prelude::*;
use crate::coordinator::first_at;
use crate::hub::{Hub, find_agent, has_agent, roster_put, roster_without};
use crate::models::{
    Agent, CreateAgent, EventDataView, GoalBody, MessageView, caps_in, normalized_caps, owned,
    persona_for, role_for,
};
use crate::text::{
    chars_of, split_char, split_on, str_eq, string_from_chars, string_views, trim, trim_char,
    trim_matches_seq, trim_seq,
};

verus! {

/// Why a request was refused.
pub enum ApiError {
    /// An agent needs a name.
    NameRequired,
    /// An agent needs at least one capability.
    CapabilityRequired,
    /// The coordinator stays on the marketplace.
    CoordinatorProtected,
    /// A goal needs some text.
    GoalRequired,
}

impl ApiError {
    /// What the visitor is told.
    pub fn message(&self) -> (r: String)
        ensures
            r@ == match self {
                ApiError::NameRequired => "name is required"@,
                ApiError::CapabilityRequired => "at least one capability is required"@,
                ApiError::CoordinatorProtected => "the coordinator cannot be removed"@,
                ApiError::GoalRequired => "goal is required"@,
            },
    {
        match self {
            ApiError::NameRequired => owned("name is required"),
            ApiError::CapabilityRequired => owned("at least one capability is required"),
            ApiError::CoordinatorProtected => owned("the coordinator cannot be removed"),
            ApiError::GoalRequired => owned("goal is required"),
        }
    }
}

/// Creates the agent a visitor's form describes and puts it on the
/// marketplace; refused when the name is blank or no capability is named.
pub fn create_agent(hub: &mut Hub, body: CreateAgent) -> (r: Result<Agent, ApiError>)
    requires
        old(hub).wf(),
    ensures
        final(hub).wf(),
        trim_seq(body.name@).len() == 0 ==> (r matches Err(ApiError::NameRequired)) && *final(hub)
            == *old(hub),
        trim_seq(body.name@).len() > 0 && normalized_caps(body.capabilities).len() == 0 ==> (r matches Err(
            ApiError::CapabilityRequired,
        )) && *final(hub) == *old(hub),
        trim_seq(body.name@).len() > 0 && normalized_caps(body.capabilities).len() > 0 ==> match r {
            Ok(a) => {
                &&& a@.name == trim_seq(body.name@)
                &&& a@.capabilities == normalized_caps(body.capabilities)
                &&& a@.role == role_for(body.role@, a@.capabilities)
                &&& a@.persona == persona_for(body.name@, a@.role, body.persona@, a@.capabilities)
                &&& crate::models::is_short_id(a@.id, "agent"@)
                &&& a@.kind == "human"@
                &&& a@.created_at == a@.last_seen
                &&& final(hub).roster() == roster_put(old(hub).roster(), a@)
                &&& final(hub).same_inboxes(*old(hub))
                &&& final(hub).announced(
                    *old(hub),
                    "agent_joined"@,
                    crate::models::EventDataView::AgentJoined { agent: a@ },
                )
            },
            Err(_) => false,
        },
{
    let name = trim(body.name.as_str());
    if name.as_str().is_empty() {
        return Err(ApiError::NameRequired);
    }
    let caps = caps_in(&body.capabilities);
    if caps.len() == 0 {
        return Err(ApiError::CapabilityRequired);
    }
    let agent = Agent::from_create(body);
    Ok(hub.add_agent(agent))
}

/// Removes an agent at a visitor's request; the coordinator is never removed.
/// Returns whether the agent was on the marketplace.
pub fn remove_listed_agent(hub: &mut Hub, id: &str, coordinator_id: &str) -> (r: Result<bool, ApiError>)
    requires
        old(hub).wf(),
    ensures
        final(hub).wf(),
        id@ == coordinator_id@ ==> (r matches Err(ApiError::CoordinatorProtected)) && *final(hub)
            == *old(hub),
        id@ != coordinator_id@ ==> {
            &&& r == Ok::<bool, ApiError>(has_agent(old(hub).roster(), id@))
            &&& final(hub).roster() == roster_without(old(hub).roster(), id@)
            &&& final(hub).inbox(id@) == Seq::<MessageView>::empty()
            &&& forall|other: Seq<char>|
                other != id@ ==> #[trigger] final(hub).inbox(other) == old(hub).inbox(other)
            &&& match find_agent(old(hub).roster(), id@) {
                Some(a) => final(hub).announced(
                    *old(hub),
                    "agent_left"@,
                    EventDataView::AgentLeft { id: a.id, name: a.name },
                ),
                None => final(hub).same_feed(*old(hub)),
            }
        },
{
    if str_eq(id, coordinator_id) {
        return Err(ApiError::CoordinatorProtected);
    }
    Ok(hub.remove_agent(id))
}

/// The goal a visitor hands over, trimmed; refused when blank.
pub fn goal_text(body: &GoalBody) -> (r: Result<String, ApiError>)
    ensures
        match r {
            Ok(g) => trim_seq(body.goal@).len() > 0 && g@ == trim_seq(body.goal@),
            Err(e) => trim_seq(body.goal@).len() == 0 && e is GoalRequired,
        },
{
    let g = trim(body.goal.as_str());
    if g.as_str().is_empty() {
        Err(ApiError::GoalRequired)
    } else {
        Ok(g)
    }
}

/// The value of a `.env` entry: trimmed, then stripped of surrounding double
/// and then single quotes.
pub open spec fn env_value(raw: Seq<char>) -> Seq<char> {
    trim_matches_seq(trim_matches_seq(trim_seq(raw), '"'), '\'')
}

/// What a line of a `.env` file sets: blank lines, comments (`#`) and lines
/// without `=` set nothing; otherwise the trimmed text before the first `=`
/// names the variable, unless it is blank, and the rest is its value.
pub open spec fn env_entry(line: Seq<char>) -> Option<(Seq<char>, Seq<char>)> {
    let t = trim_seq(line);
    let eq = first_at(t, '=');
    if t.len() == 0 || t[0] == '#' || eq < 0 {
        None
    } else {
        let key = trim_seq(t.subrange(0, eq));
        if key.len() == 0 {
            None
        } else {
            Some((key, env_value(t.subrange(eq + 1, t.len() as int))))
        }
    }
}

/// Reads one line of a `.env` file as a variable and its value.
pub fn dotenv_entry(line: &str) -> (r: Option<(String, String)>)
    ensures
        match r {
            Some((k, v)) => env_entry(line@) == Some((k@, v@)),
            None => env_entry(line@) is None,
        },
{
    let t = chars_of(trim(line).as_str());
    if t.len() == 0 || t[0] == '#' {
        return None;
    }
    let mut eq: usize = 0;
    while eq < t.len() && t[eq] != '='
        invariant
            eq <= t.len(),
            forall|j: int| 0 <= j < eq ==> t@[j] != '=',
        decreases t.len() - eq,
    {
        eq = eq + 1;
    }
    proof {
        crate::coordinator::lemma_first_at(t@, '=', eq as int);
    }
    if eq == t.len() {
        return None;
    }
    let key_raw = string_from_chars(&t, 0, eq);
    let key = trim(key_raw.as_str());
    if key.as_str().is_empty() {
        return None;
    }
    let val_raw = string_from_chars(&t, eq + 1, t.len());
    let v1 = trim(val_raw.as_str());
    let v2 = trim_char(v1.as_str(), '"');
    let v3 = trim_char(v2.as_str(), '\'');
    Some((key, v3))
}

/// The entries of a list of variables and values, as plain values.
pub open spec fn entry_views(v: Seq<(String, String)>) -> Seq<(Seq<char>, Seq<char>)> {
    v.map_values(|e: (String, String)| (e.0@, e.1@))
}

/// What the lines `lines` of a `.env` file set, in order.
pub open spec fn env_entries(lines: Seq<Seq<char>>) -> Seq<(Seq<char>, Seq<char>)>
    decreases lines.len(),
{
    if lines.len() == 0 {
        Seq::empty()
    } else {
        let before = env_entries(lines.drop_last());
        match env_entry(lines.last()) {
            Some(e) => before.push(e),
            None => before,
        }
    }
}

/// What a `.env` file with the text `raw` sets, line by line in order. Lines
/// are split at `'\n'`; a `'\r'` ending one is trimmed away like any other
/// whitespace, and an empty last line sets nothing.
pub fn dotenv_entries(raw: &str) -> (r: Vec<(String, String)>)
    ensures
        entry_views(r@) == env_entries(split_on(raw@, '\n')),
{
    let lines = split_char(raw, '\n');
    let ghost ls = string_views(lines@);
    let mut out: Vec<(String, String)> = Vec::new();
    let mut i: usize = 0;
    while i < lines.len()
        invariant
            i <= lines.len(),
            ls == string_views(lines@),
            ls == split_on(raw@, '\n'),
            entry_views(out@) == env_entries(ls.take(i as int)),
        decreases lines.len() - i,
    {
        assert(ls.take(i + 1).drop_last() =~= ls.take(i as int));
        assert(ls.take(i + 1).last() == lines@[i as int]@);
        match dotenv_entry(lines[i].as_str()) {
            Some(e) => {
                let ghost before = out@;
                let ghost ev = (e.0@, e.1@);
                out.push(e);
                assert(entry_views(out@) =~= entry_views(before).push(ev));
            },
            None => {},
        }
        i = i + 1;
    }
    assert(ls.take(lines.len() as int) =~= ls);
    out
}

} // verus!
