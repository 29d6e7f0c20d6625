//! The coordinator: it turns a goal into a team. It decomposes the goal into
//! the capabilities it needs, searches the marketplace for each, asks the
//! best match, and assembles the answers into one result.
//!
//! Thinking (a language-model call) is outside work: `GoalRun` makes every
//! decision and says, step by step, what to think about next; the server
//! does the thinking and hands the answer back.

use vstd::prelude::*;
use crate::hub::{
    Hub, capability_list, capped, discovered, display_name, lemma_capability_list, roster_touched,
};
use crate::json::{Json, field, json_parse, opt_text, parse_json};
use crate::models::{
    Agent, AgentView, Event, EventData, EventDataView, EventView, Message, MessageView,
    is_short_id, owned, short_id,
};
use crate::rank::{rank_by_key, lemma_insert_by_key_at};
use crate::text::{
    append_str, chars_of, count_shared, join, join_strings, lowercase, split_whitespace,
    split_whitespace_seq, string_from_chars, string_views, to_lowercase, token_set, trim, trim_seq,
    word_set,
};

verus! {

/// One decomposed need: a searchable capability and the question to ask
/// whoever provides it.
pub struct Need {
    pub capability: String,
    pub question: String,
}

/// A need as plain values.
pub struct NeedView {
    pub capability: Seq<char>,
    pub question: Seq<char>,
}

impl View for Need {
    type V = NeedView;

    open spec fn view(&self) -> NeedView {
        NeedView { capability: self.capability@, question: self.question@ }
    }
}

/// The views of a list of needs.
pub open spec fn need_views(v: Seq<Need>) -> Seq<NeedView> {
    v.map_values(|n: Need| n@)
}

/// The set of words of `text` longer than two bytes.
pub fn words(text: &str) -> (r: Vec<String>)
    ensures
        string_views(r@).no_duplicates(),
        string_views(r@).to_set() == token_set(text@, 2),
{
    word_set(text, 2)
}

// ------------------------------------------------------------------------
// Decomposing from what the marketplace offers
// ------------------------------------------------------------------------

/// How many words of a capability (longer than two bytes) occur in the goal.
pub open spec fn cap_score(goal: Seq<char>, c: Seq<char>) -> int {
    token_set(c, 2).intersect(token_set(goal, 2)).len() as int
}

/// Each capability with its score.
pub open spec fn scored_caps(goal: Seq<char>, caps: Seq<Seq<char>>) -> Seq<(int, Seq<char>)> {
    caps.map_values(|c: Seq<char>| (cap_score(goal, c), c))
}

/// The ranking key of a scored capability.
pub open spec fn by_score(p: (int, Seq<char>)) -> int {
    p.0
}

/// The capabilities ranked by score, best first, ties in their given order.
pub open spec fn ranked_caps(goal: Seq<char>, caps: Seq<Seq<char>>) -> Seq<(int, Seq<char>)> {
    rank_by_key(scored_caps(goal, caps), |p: (int, Seq<char>)| by_score(p))
}

/// The capabilities with a positive score, in order.
pub open spec fn positive_caps(s: Seq<(int, Seq<char>)>) -> Seq<Seq<char>>
    decreases s.len(),
{
    if s.len() == 0 {
        Seq::empty()
    } else if s.last().0 > 0 {
        positive_caps(s.drop_last()).push(s.last().1)
    } else {
        positive_caps(s.drop_last())
    }
}

/// The capabilities chosen for a goal: those that share a word with it,
/// ranked; when none does, all of them, ranked.
pub open spec fn chosen_caps(goal: Seq<char>, caps: Seq<Seq<char>>) -> Seq<Seq<char>> {
    let ranked = ranked_caps(goal, caps);
    let pos = positive_caps(ranked);
    if pos.len() == 0 {
        ranked.map_values(|p: (int, Seq<char>)| p.1)
    } else {
        pos
    }
}

/// The question put to whoever provides `c`.
pub open spec fn ask_for(goal: Seq<char>, c: Seq<char>) -> Seq<char> {
    "For the goal '"@ + goal + "', help with the '"@ + c + "' part."@
}

/// The first word of the goal, or "help" when it has none.
pub open spec fn first_word(goal: Seq<char>) -> Seq<char> {
    let ws = split_whitespace_seq(goal);
    if ws.len() > 0 {
        ws[0]
    } else {
        "help"@
    }
}

/// The needs a goal decomposes into, given the capabilities on offer: at
/// most four chosen capabilities, each with its question; when nothing is on
/// offer, one need named by the goal's first word, lower-cased.
pub open spec fn market_needs(goal: Seq<char>, caps: Seq<Seq<char>>) -> Seq<NeedView> {
    if caps.len() == 0 {
        seq![NeedView { capability: lowercase(first_word(goal)), question: goal }]
    } else {
        let ch = chosen_caps(goal, caps);
        let n = if ch.len() < 4 {
            ch.len() as int
        } else {
            4
        };
        ch.take(n).map_values(|c: Seq<char>| NeedView { capability: c, question: ask_for(goal, c) })
    }
}

/// The scored capabilities as plain values.
spec fn scored_views(v: Seq<(usize, String)>) -> Seq<(int, Seq<char>)> {
    v.map_values(|p: (usize, String)| (p.0 as int, p.1@))
}

/// Breaks a goal into needs without a language model: picks the
/// capabilities on the marketplace that share words with the goal.
pub fn decompose_from_market(hub: &Hub, goal: &str) -> (r: Vec<Need>)
    ensures
        need_views(r@) == market_needs(goal@, capability_list(hub.roster())),
{
    let goal_words = words(goal);
    let caps = hub.capability_index();
    proof {
        lemma_capability_list(hub.roster(), string_views(caps@));
    }
    let ghost cv = string_views(caps@);
    let mut needs: Vec<Need> = Vec::new();
    if caps.len() == 0 {
        let ws = split_whitespace(goal);
        let first = if ws.len() > 0 {
            to_lowercase(ws[0].as_str())
        } else {
            to_lowercase("help")
        };
        needs.push(Need { capability: first, question: owned(goal) });
        assert(need_views(needs@) =~= market_needs(goal@, cv));
        return needs;
    }
    let ghost key = |p: (int, Seq<char>)| by_score(p);
    let mut scored: Vec<(usize, String)> = Vec::new();
    let mut i: usize = 0;
    while i < caps.len()
        invariant
            i <= caps.len(),
            cv == string_views(caps@),
            string_views(goal_words@).to_set() == token_set(goal@, 2),
            key == (|p: (int, Seq<char>)| by_score(p)),
            scored_views(scored@) == rank_by_key(scored_caps(goal@, cv.take(i as int)), key),
        decreases caps.len() - i,
    {
        let cw = words(caps[i].as_str());
        let score = count_shared(&cw, &goal_words);
        let ghost x = (score as int, cv[i as int]);
        assert(x == (cap_score(goal@, cv[i as int]), cv[i as int]));
        let mut p: usize = scored.len();
        while p > 0 && scored[p - 1].0 < score
            invariant
                p <= scored.len(),
                forall|k: int|
                    p <= k < scored.len() ==> by_score(#[trigger] scored_views(scored@)[k]) < score,
            decreases p,
        {
            p = p - 1;
        }
        proof {
            lemma_insert_by_key_at(scored_views(scored@), x, key, p as int);
            let s0 = scored_caps(goal@, cv.take(i as int));
            assert(scored_caps(goal@, cv.take(i + 1)) =~= s0.push(x));
            assert(s0.push(x).drop_last() =~= s0);
        }
        let ghost before = scored@;
        scored.insert(p, (score, caps[i].clone()));
        assert(scored_views(scored@) =~= scored_views(before).insert(p as int, x));
        i = i + 1;
    }
    assert(cv.take(caps.len() as int) =~= cv);
    let ghost ranked = scored_views(scored@);
    // the capabilities that share a word with the goal, in ranked order
    let mut overlapping: Vec<String> = Vec::new();
    let mut k: usize = 0;
    while k < scored.len()
        invariant
            k <= scored.len(),
            ranked == scored_views(scored@),
            string_views(overlapping@) == positive_caps(ranked.take(k as int)),
        decreases scored.len() - k,
    {
        assert(ranked.take(k + 1).drop_last() =~= ranked.take(k as int));
        if scored[k].0 > 0 {
            let ghost before = overlapping@;
            overlapping.push(scored[k].1.clone());
            assert(string_views(overlapping@) =~= string_views(before).push(ranked[k as int].1));
        }
        k = k + 1;
    }
    assert(ranked.take(scored.len() as int) =~= ranked);
    let mut chosen: Vec<String> = Vec::new();
    if overlapping.len() == 0 {
        let mut k: usize = 0;
        while k < scored.len()
            invariant
                k <= scored.len(),
                ranked == scored_views(scored@),
                string_views(chosen@) == ranked.map_values(|p: (int, Seq<char>)| p.1).take(
                    k as int,
                ),
            decreases scored.len() - k,
        {
            let ghost before = chosen@;
            let c = scored[k].1.clone();
            chosen.push(c);
            proof {
                let m = ranked.map_values(|p: (int, Seq<char>)| p.1);
                assert(string_views(chosen@) =~= string_views(before).push(c@));
                assert(m[k as int] == c@);
                assert(m.take(k + 1) =~= m.take(k as int).push(m[k as int]));
            }
            k = k + 1;
        }
        assert(ranked.map_values(|p: (int, Seq<char>)| p.1).take(scored.len() as int)
            =~= ranked.map_values(|p: (int, Seq<char>)| p.1));
    } else {
        chosen = overlapping;
    }
    let ghost ch = string_views(chosen@);
    assert(ch == chosen_caps(goal@, cv));
    let mut k: usize = 0;
    while k < chosen.len() && k < 4
        invariant
            k <= chosen.len(),
            k <= 4,
            ch == string_views(chosen@),
            need_views(needs@) == ch.take(k as int).map_values(
                |c: Seq<char>| NeedView { capability: c, question: ask_for(goal@, c) },
            ),
        decreases chosen.len() - k,
    {
        let c = chosen[k].clone();
        let mut q = String::new();
        append_str(&mut q, "For the goal '");
        append_str(&mut q, goal);
        append_str(&mut q, "', help with the '");
        append_str(&mut q, c.as_str());
        append_str(&mut q, "' part.");
        assert(q@ =~= ask_for(goal@, c@));
        let ghost before = needs@;
        let ghost cv2 = c@;
        let n = Need { capability: c, question: q };
        let ghost nv = n@;
        needs.push(n);
        proof {
            let f = |c: Seq<char>| NeedView { capability: c, question: ask_for(goal@, c) };
            assert(need_views(needs@) =~= need_views(before).push(nv));
            assert(cv2 == ch[k as int]);
            assert(nv == f(ch[k as int]));
            assert(ch.take(k + 1) =~= ch.take(k as int).push(ch[k as int]));
            assert(ch.take(k + 1).map_values(f) =~= ch.take(k as int).map_values(f).push(f(ch[k as int])));
        }
        k = k + 1;
    }
    needs
}

// ------------------------------------------------------------------------
// Reading the needs a language model proposes
// ------------------------------------------------------------------------

/// The position of the first `c` in `s`, or -1.
pub open spec fn first_at(s: Seq<char>, c: char) -> int
    decreases s.len(),
{
    if s.len() == 0 {
        -1
    } else if s[0] == c {
        0
    } else {
        let r = first_at(s.drop_first(), c);
        if r < 0 {
            -1
        } else {
            r + 1
        }
    }
}

/// The position of the last `c` in `s`, or -1.
pub open spec fn last_at(s: Seq<char>, c: char) -> int
    decreases s.len(),
{
    if s.len() == 0 {
        -1
    } else if s.last() == c {
        s.len() - 1
    } else {
        last_at(s.drop_last(), c)
    }
}

/// The text from the first `[` to the last `]` of a reply, when the `]`
/// comes after the `[`: where a JSON array of needs would stand.
pub open spec fn needs_span_of(s: Seq<char>) -> Option<Seq<char>> {
    let a = first_at(s, '[');
    let b = last_at(s, ']');
    if a >= 0 && b > a {
        Some(s.subrange(a, b + 1))
    } else {
        None
    }
}

pub proof fn lemma_first_at(s: Seq<char>, c: char, i: int)
    requires
        0 <= i <= s.len(),
        forall|j: int| 0 <= j < i ==> s[j] != c,
        i < s.len() ==> s[i] == c,
    ensures
        first_at(s, c) == if i < s.len() {
            i
        } else {
            -1
        },
    decreases i,
{
    if i > 0 {
        let t = s.drop_first();
        assert forall|j: int| 0 <= j < i - 1 implies t[j] != c by {
            assert(t[j] == s[j + 1]);
        }
        if i < s.len() {
            assert(t[i - 1] == s[i]);
        }
        lemma_first_at(t, c, i - 1);
    }
}

proof fn lemma_last_at(s: Seq<char>, c: char, i: int)
    requires
        -1 <= i < s.len(),
        forall|j: int| i < j < s.len() ==> s[j] != c,
        i >= 0 ==> s[i] == c,
    ensures
        last_at(s, c) == i,
    decreases s.len(),
{
    if s.len() > 0 && i < s.len() - 1 {
        let t = s.drop_last();
        assert forall|j: int| i < j < t.len() implies t[j] != c by {
            assert(t[j] == s[j]);
        }
        lemma_last_at(t, c, i);
    }
}

/// The text from the first `[` to the last `]` of `text`, when there is such.
pub fn needs_span(text: &str) -> (r: Option<String>)
    ensures
        crate::models::opt_view(r) == needs_span_of(text@),
{
    let v = chars_of(text);
    let mut a: usize = 0;
    while a < v.len() && v[a] != '['
        invariant
            a <= v.len(),
            forall|j: int| 0 <= j < a ==> v@[j] != '[',
        decreases v.len() - a,
    {
        a = a + 1;
    }
    proof {
        lemma_first_at(v@, '[', a as int);
    }
    let mut b: usize = v.len();
    while b > 0 && v[b - 1] != ']'
        invariant
            b <= v.len(),
            forall|j: int| b <= j < v.len() ==> v@[j] != ']',
        decreases b,
    {
        b = b - 1;
    }
    proof {
        lemma_last_at(v@, ']', b - 1);
    }
    if a < v.len() && b > 0 && b - 1 > a {
        Some(string_from_chars(&v, a, b))
    } else {
        None
    }
}

/// The need an item of the array proposes: its capability (trimmed,
/// lower-cased) and its question, or a question made from the capability.
/// Items without a capability propose none.
pub open spec fn need_of_item(it: Json) -> Option<NeedView> {
    let cap = trim_seq(
        match opt_text(field(it, "capability"@)) {
            Some(s) => s,
            None => Seq::empty(),
        },
    );
    let q = trim_seq(
        match opt_text(field(it, "question"@)) {
            Some(s) => s,
            None => Seq::empty(),
        },
    );
    if cap.len() > 0 {
        Some(
            NeedView {
                capability: lowercase(cap),
                question: if q.len() == 0 {
                    "Help with '"@ + cap + "'."@
                } else {
                    q
                },
            },
        )
    } else {
        None
    }
}

/// The needs the items of an array propose, in order.
pub open spec fn needs_of_items(items: Seq<Json>) -> Seq<NeedView>
    decreases items.len(),
{
    if items.len() == 0 {
        Seq::empty()
    } else {
        match need_of_item(items.last()) {
            Some(n) => needs_of_items(items.drop_last()).push(n),
            None => needs_of_items(items.drop_last()),
        }
    }
}

/// The needs a parsed reply proposes: `None` unless it is an array.
pub open spec fn parsed_needs(v: Json) -> Option<Seq<NeedView>> {
    match v {
        Json::Array(items) => Some(needs_of_items(items@)),
        _ => None,
    }
}

/// The text of member `key` of `it` when it is a string, trimmed; empty otherwise.
fn member_text(it: &Json, key: &str) -> (r: String)
    ensures
        r@ == trim_seq(
            match opt_text(field(*it, key@)) {
                Some(s) => s,
                None => Seq::empty(),
            },
        ),
{
    let empty = String::new();
    match it.get(key) {
        Some(v) => match v.as_str() {
            Some(s) => trim(s.as_str()),
            None => trim(empty.as_str()),
        },
        None => trim(empty.as_str()),
    }
}

/// The needs proposed by a JSON array of `{capability, question}` objects.
pub fn needs_from_json(v: &Json) -> (r: Option<Vec<Need>>)
    ensures
        match r {
            Some(n) => parsed_needs(*v) == Some(need_views(n@)),
            None => parsed_needs(*v) is None,
        },
{
    let items = match v.as_array() {
        Some(a) => a,
        None => return None,
    };
    let mut needs: Vec<Need> = Vec::new();
    let mut i: usize = 0;
    while i < items.len()
        invariant
            *v == Json::Array(*items),
            i <= items.len(),
            need_views(needs@) == needs_of_items(items@.take(i as int)),
        decreases items.len() - i,
    {
        assert(items@.take(i + 1).drop_last() =~= items@.take(i as int));
        assert(items@.take(i + 1).last() == items@[i as int]);
        let cap = member_text(&items[i], "capability");
        let q = member_text(&items[i], "question");
        if !cap.as_str().is_empty() {
            let question = if q.as_str().is_empty() {
                let mut h = String::new();
                append_str(&mut h, "Help with '");
                append_str(&mut h, cap.as_str());
                append_str(&mut h, "'.");
                assert(h@ =~= "Help with '"@ + cap@ + "'."@);
                h
            } else {
                q
            };
            let n = Need { capability: to_lowercase(cap.as_str()), question };
            let ghost before = needs@;
            let ghost nv = n@;
            needs.push(n);
            assert(need_views(needs@) =~= need_views(before).push(nv));
        }
        i = i + 1;
    }
    assert(items@.take(items.len() as int) =~= items@);
    Some(needs)
}

/// The needs a model's reply proposes: the text from its first `[` to its
/// last `]`, parsed as JSON and read as an array of needs; `None` when there
/// is no such text, it is not JSON, or it is not an array.
pub open spec fn reply_needs(reply: Seq<char>) -> Option<Seq<NeedView>> {
    match needs_span_of(reply) {
        Some(t) => match json_parse(t) {
            Some(v) => parsed_needs(v),
            None => None,
        },
        None => None,
    }
}

/// Reads the needs a model's reply proposes as a JSON array of
/// `{capability, question}` objects, tolerating text (such as code fences)
/// around the array.
pub fn parse_needs(text: &str) -> (r: Option<Vec<Need>>)
    ensures
        match r {
            Some(n) => reply_needs(text@) == Some(need_views(n@)),
            None => reply_needs(text@) is None,
        },
{
    let span = match needs_span(text) {
        Some(t) => t,
        None => return None,
    };
    let v = match parse_json(span.as_str()) {
        Some(v) => v,
        None => return None,
    };
    needs_from_json(&v)
}

/// What a run plans from the language model's reply to the request to
/// decompose its goal: the needs the reply proposes, when it proposes at
/// least one; otherwise what the marketplace, offering `offered`, suggests.
pub open spec fn decomposition(goal: Seq<char>, offered: Seq<Seq<char>>, reply: Seq<char>) -> Seq<NeedView> {
    match reply_needs(reply) {
        Some(ns) => if ns.len() > 0 {
            ns
        } else {
            market_needs(goal, offered)
        },
        None => market_needs(goal, offered),
    }
}

// ------------------------------------------------------------------------
// Assembling
// ------------------------------------------------------------------------

/// One hired agent's contribution: who, for which capability, and the answer.
pub struct Hire {
    pub name: String,
    pub capability: String,
    pub answer: String,
}

/// A contribution as plain values.
pub struct HiredView {
    pub name: Seq<char>,
    pub capability: Seq<char>,
    pub answer: Seq<char>,
}

impl View for Hire {
    type V = HiredView;

    open spec fn view(&self) -> HiredView {
        HiredView { name: self.name@, capability: self.capability@, answer: self.answer@ }
    }
}

/// The views of a list of contributions.
pub open spec fn hire_views(v: Seq<Hire>) -> Seq<HiredView> {
    v.map_values(|h: Hire| h@)
}

/// The result when nobody could be recruited.
pub open spec fn no_recruit_text(goal: Seq<char>, unmet: Seq<Seq<char>>) -> Seq<char> {
    "Couldn't recruit anyone for \""@ + goal + "\"."@ + if unmet.len() == 0 {
        Seq::empty()
    } else {
        " No agents on the marketplace offer: "@ + join(unmet, ", "@) + "."@
    }
}

/// The bullet line of one contribution.
pub open spec fn bullet(h: HiredView) -> Seq<char> {
    "- "@ + h.name + " (for "@ + h.capability + "): "@ + h.answer
}

/// The prompt that asks the brain to synthesize the contributions.
pub open spec fn assembly_prompt(goal: Seq<char>, hires: Seq<HiredView>, unmet: Seq<Seq<char>>) -> Seq<char> {
    "Goal: "@ + goal + "\n\nRecruited agents replied:\n"@ + join(
        hires.map_values(|h: HiredView| bullet(h)),
        "\n"@,
    ) + if unmet.len() == 0 {
        Seq::empty()
    } else {
        "\n\nStill unmet (no provider on the marketplace): "@ + join(unmet, ", "@)
    }
}

/// The result when nobody could be recruited.
pub fn no_recruit_message(goal: &str, unmet: &Vec<String>) -> (r: String)
    ensures
        r@ == no_recruit_text(goal@, string_views(unmet@)),
{
    let mut r = String::new();
    append_str(&mut r, "Couldn't recruit anyone for \"");
    append_str(&mut r, goal);
    append_str(&mut r, "\".");
    if unmet.len() > 0 {
        let joined = join_strings(unmet, ", ");
        append_str(&mut r, " No agents on the marketplace offer: ");
        append_str(&mut r, joined.as_str());
        append_str(&mut r, ".");
    }
    assert(r@ =~= no_recruit_text(goal@, string_views(unmet@)));
    r
}

/// The prompt that asks the brain to synthesize the contributions.
pub fn assembly_request(goal: &str, hires: &Vec<Hire>, unmet: &Vec<String>) -> (r: String)
    ensures
        r@ == assembly_prompt(goal@, hire_views(hires@), string_views(unmet@)),
{
    let ghost hv = hire_views(hires@);
    let mut bullets: Vec<String> = Vec::new();
    let mut i: usize = 0;
    while i < hires.len()
        invariant
            i <= hires.len(),
            hv == hire_views(hires@),
            string_views(bullets@) == hv.map_values(|h: HiredView| bullet(h)).take(i as int),
        decreases hires.len() - i,
    {
        let h = &hires[i];
        let mut b = String::new();
        append_str(&mut b, "- ");
        append_str(&mut b, h.name.as_str());
        append_str(&mut b, " (for ");
        append_str(&mut b, h.capability.as_str());
        append_str(&mut b, "): ");
        append_str(&mut b, h.answer.as_str());
        assert(b@ =~= bullet(hv[i as int]));
        let ghost before = bullets@;
        let ghost bv = b@;
        bullets.push(b);
        proof {
            let m = hv.map_values(|h: HiredView| bullet(h));
            assert(string_views(bullets@) =~= string_views(before).push(bv));
            assert(m.take(i + 1) =~= m.take(i as int).push(m[i as int]));
        }
        i = i + 1;
    }
    assert(hv.map_values(|h: HiredView| bullet(h)).take(hires.len() as int) =~= hv.map_values(
        |h: HiredView| bullet(h),
    ));
    let joined = join_strings(&bullets, "\n");
    let mut r = String::new();
    append_str(&mut r, "Goal: ");
    append_str(&mut r, goal);
    append_str(&mut r, "\n\nRecruited agents replied:\n");
    append_str(&mut r, joined.as_str());
    if unmet.len() > 0 {
        let u = join_strings(unmet, ", ");
        append_str(&mut r, "\n\nStill unmet (no provider on the marketplace): ");
        append_str(&mut r, u.as_str());
    }
    assert(r@ =~= assembly_prompt(goal@, hv, string_views(unmet@)));
    r
}

// ------------------------------------------------------------------------
// Running a goal
// ------------------------------------------------------------------------

/// The instruction for decomposing a goal with the language model.
pub const DECOMPOSE_SYSTEM: &'static str = "You decompose a goal into the specialist capabilities needed to accomplish it. Reply with ONLY a JSON array of objects [{\"capability\":\"<short keyword>\",\"question\":\"<one question>\"}]. Capabilities must be short searchable keywords (e.g. \"restaurants\", \"unit testing\"), not sentences. 2-4 items.";

/// The instruction for synthesizing the hired agents' answers.
pub const SYNTHESIS_SYSTEM: &'static str = "You synthesize specialist agents' answers into one clear, friendly result. Be concise (4-6 short lines) and credit each agent's contribution naturally.";

/// Where a goal run stands.
pub enum Stage {
    /// Waiting for the language model to decompose the goal.
    Decomposing,
    /// Waiting for a hired agent's answer.
    Delegating,
    /// Waiting for the synthesis of the answers.
    Assembling,
    /// The goal is done.
    Finished,
}

/// What the server is to do next for a goal.
pub enum Step {
    /// Think: answer `prompt` in the voice `system`, in at most `max_tokens`
    /// tokens, and hand the answer to `GoalRun::on_thought`.
    Think { system: String, prompt: String, max_tokens: u32 },
    /// The goal is done; `result` is its result.
    Done { result: String },
}

/// A step as plain values.
pub enum StepView {
    Think { system: Seq<char>, prompt: Seq<char>, max_tokens: u32 },
    Done { result: Seq<char> },
}

impl View for Step {
    type V = StepView;

    open spec fn view(&self) -> StepView {
        match self {
            Step::Think { system, prompt, max_tokens } => StepView::Think {
                system: system@,
                prompt: prompt@,
                max_tokens: *max_tokens,
            },
            Step::Done { result } => StepView::Done { result: result@ },
        }
    }
}

/// An agent that was asked and whose answer is awaited, with the task id of the request.
struct Hiring {
    agent: Agent,
    task_id: String,
}

/// A goal being worked on by the coordinator.
pub struct GoalRun {
    coordinator_id: String,
    coord_name: String,
    goal: String,
    stage: Stage,
    needs: Vec<Need>,
    next: usize,
    hiring: Option<Hiring>,
    hires: Vec<Hire>,
    unmet: Vec<String>,
}

/// A goal run as plain values.
pub struct RunView {
    pub coordinator: Seq<char>,
    pub coord_name: Seq<char>,
    pub goal: Seq<char>,
    pub stage: Stage,
    /// The needs the goal decomposed into.
    pub needs: Seq<NeedView>,
    /// How many needs were searched for so far.
    pub next: int,
    /// The agent asked last and the task id of the request, while its answer is awaited.
    pub hiring: Option<(AgentView, Seq<char>)>,
    /// The answers received, in order.
    pub hires: Seq<HiredView>,
    /// The capabilities no agent on the marketplace offered, in order.
    pub unmet: Seq<Seq<char>>,
}

impl View for GoalRun {
    type V = RunView;

    closed spec fn view(&self) -> RunView {
        RunView {
            coordinator: self.coordinator_id@,
            coord_name: self.coord_name@,
            goal: self.goal@,
            stage: self.stage,
            needs: need_views(self.needs@),
            next: self.next as int,
            hiring: match self.hiring {
                Some(h) => Some((h.agent@, h.task_id@)),
                None => None,
            },
            hires: hire_views(self.hires@),
            unmet: string_views(self.unmet@),
        }
    }
}

/// A run's invariant: what it holds agrees with where it stands.
pub open spec fn run_wf(r: RunView) -> bool {
    &&& 0 <= r.next <= r.needs.len()
    &&& match r.stage {
        Stage::Decomposing => r.next == 0 && r.hiring is None && r.hires.len()
            == 0 && r.unmet.len() == 0,
        Stage::Delegating => r.hiring is Some ==> r.next >= 1,
        Stage::Assembling | Stage::Finished => r.next == r.needs.len() && r.hiring is None,
    }
}

/// The step asks for what the run waits for: a thought while it waits for
/// one, parsing while it parses, and the end once it is finished.
pub open spec fn step_fits(r: RunView, step: StepView) -> bool {
    match step {
        StepView::Think { .. } => GoalRun::awaits_thought(r),
        StepView::Done { .. } => r.stage is Finished,
    }
}

/// The kinds of a list of events.
pub open spec fn kinds(evs: Seq<EventView>) -> Seq<Seq<char>> {
    evs.map_values(|e: EventView| e.event_type)
}

/// `after` differs from `before` by `added` on the feed and in the outbox.
pub open spec fn logged(before: Hub, after: Hub, added: Seq<EventView>) -> bool {
    after.outbox() == before.outbox() + added && after.feed() == capped(before.feed() + added)
}

/// What the search of the coordinator `c` for `cap` announces.
pub open spec fn search_data(r: Seq<AgentView>, c: Seq<char>, cap: Seq<char>) -> EventDataView {
    EventDataView::Search {
        query: cap,
        by: Some(c),
        by_name: Some(display_name(r, c)),
        matches: discovered(r, cap, Some(c)),
    }
}

/// What the end of a goal announces.
pub open spec fn done_data(run: RunView, result: Seq<char>) -> EventDataView {
    EventDataView::GoalDone {
        by: run.coord_name,
        goal: run.goal,
        result,
        unmet: run.unmet,
        hired: run.hires.map_values(|h: HiredView| h.name),
    }
}

/// The capabilities of the needs `lo..hi`.
pub open spec fn caps_between(needs: Seq<NeedView>, lo: int, hi: int) -> Seq<Seq<char>> {
    needs.subrange(lo, hi).map_values(|n: NeedView| n.capability)
}

/// Every inbox of `after` is that of `before`.
pub open spec fn same_inboxes(before: Hub, after: Hub) -> bool {
    forall|id: Seq<char>| #[trigger] after.inbox(id) == before.inbox(id)
}

/// The end of the needs: with no answer in hand the goal is done and its
/// result announced; otherwise the brain is asked to synthesize the answers.
pub open spec fn finished(r0: RunView, h0: Hub, r1: RunView, h1: Hub, step: StepView) -> bool {
    &&& r1 == RunView { stage: r1.stage, ..r0 }
    &&& h1.roster() == h0.roster()
    &&& same_inboxes(h0, h1)
    &&& if r0.hires.len() == 0 {
        &&& r1.stage is Finished
        &&& step == StepView::Done { result: no_recruit_text(r0.goal, r0.unmet) }
        &&& exists|e: EventView|
            #![trigger logged(h0, h1, seq![e])]
            logged(h0, h1, seq![e]) && e.event_type == "goal_done"@ && is_short_id(e.id, "evt"@)
                && e.data == done_data(r0, no_recruit_text(r0.goal, r0.unmet))
    } else {
        &&& r1.stage is Assembling
        &&& step == StepView::Think {
            system: SYNTHESIS_SYSTEM@,
            prompt: assembly_prompt(r0.goal, r0.hires, r0.unmet),
            max_tokens: 700,
        }
        &&& h1.feed() == h0.feed() && h1.outbox() == h0.outbox()
    }
}

/// The request the coordinator sends to the agent it hires.
pub open spec fn is_request(m: MessageView, c: Seq<char>, a: AgentView, n: NeedView, task: Seq<char>) -> bool {
    &&& m.from_id == c
    &&& m.to_id == a.id
    &&& m.kind == "request"@
    &&& m.content == n.question
    &&& m.task_id == Some(task)
    &&& is_short_id(m.id, "msg"@)
}

/// The hub `h_mid` is `h0` after the searches for the needs from `r0.next`
/// to `n1`, which announced `searches`.
pub open spec fn searched(r0: RunView, h0: Hub, n1: int, searches: Seq<EventView>, h_mid: Hub) -> bool {
    &&& logged(h0, h_mid, searches)
    &&& h_mid.roster() == h0.roster()
    &&& same_inboxes(h0, h_mid)
    &&& searches.len() == n1 - r0.next
    &&& forall|i: int|
        0 <= i < searches.len() ==> (#[trigger] searches[i]).event_type == "search"@
            && is_short_id(searches[i].id, "evt"@) && searches[i].data == search_data(
            h0.roster(),
            r0.coordinator,
            r0.needs[r0.next + i].capability,
        )
}

/// The last need searched for, `r0.needs[r1.next - 1]`, is delegated: its
/// best match is hired, sent the question, and its answer awaited.
pub open spec fn delegated(r0: RunView, h_mid: Hub, r1: RunView, h1: Hub, step: StepView) -> bool {
    let c = r0.coordinator;
    let ro = h_mid.roster();
    let n1 = r1.next;
    let n = r0.needs[n1 - 1];
    let hiring = r1.hiring->0;
    let a = hiring.0;
    let task = hiring.1;
    &&& r1.hiring is Some
    &&& r1 == RunView {
        next: n1,
        hiring: r1.hiring,
        unmet: r0.unmet + caps_between(r0.needs, r0.next, n1 - 1),
        ..r0
    }
    &&& discovered(ro, n.capability, Some(c)).len() > 0
    &&& a == discovered(ro, n.capability, Some(c))[0]
    &&& is_short_id(task, "task"@)
    &&& step == StepView::Think { system: a.persona, prompt: n.question, max_tokens: 300 }
    &&& exists|m: MessageView, e: EventView, t: u64|
        #![trigger is_request(m, c, a, n, task), logged(h_mid, h1, seq![e]), roster_touched(ro, c, t)]
        {
            &&& is_request(m, c, a, n, task)
            &&& h1.inbox(a.id) == h_mid.inbox(a.id).push(m)
            &&& forall|other: Seq<char>|
                other != a.id ==> #[trigger] h1.inbox(other) == h_mid.inbox(other)
            &&& h1.roster() == roster_touched(ro, c, t)
            &&& logged(h_mid, h1, seq![e])
            &&& e.event_type == "message"@
            &&& is_short_id(e.id, "evt"@)
            &&& e.data == EventDataView::MessageSent {
                message: m,
                from_name: display_name(ro, c),
                to_name: display_name(ro, a.id),
            }
        }
}

/// What searching for the needs from `r0.next` on does: each need in turn is
/// searched for (leaving the coordinator out); those nobody offers join the
/// unmet capabilities; the first need somebody offers hires the best match,
/// which is sent the need's question and whose answer is awaited. When no
/// need is left, the goal is `finished`.
pub open spec fn advanced(r0: RunView, h0: Hub, r1: RunView, h1: Hub, step: StepView) -> bool {
    let c = r0.coordinator;
    let ro = h0.roster();
    let n0 = r0.next;
    let n1 = r1.next;
    let hired = r1.hiring is Some && r1.stage is Delegating;
    let searched_unmet = if hired {
        n1 - 1
    } else {
        n1
    };
    &&& n0 <= searched_unmet <= n1 <= r0.needs.len()
    &&& forall|j: int|
        n0 <= j < searched_unmet ==> #[trigger] discovered(ro, r0.needs[j].capability, Some(c)).len()
            == 0
    &&& exists|searches: Seq<EventView>, h_mid: Hub|
        #![trigger searched(r0, h0, n1, searches, h_mid)]
        {
            &&& searched(r0, h0, n1, searches, h_mid)
            &&& if hired {
                delegated(r0, h_mid, r1, h1, step)
            } else {
                &&& n1 == r0.needs.len()
                &&& finished(
                    RunView { next: n1, unmet: r0.unmet + caps_between(r0.needs, n0, n1), ..r0 },
                    h_mid,
                    r1,
                    h1,
                    step,
                )
            }
        }
}

/// The names of the hired agents, in order.
fn hire_names(hires: &Vec<Hire>) -> (r: Vec<String>)
    ensures
        string_views(r@) == hire_views(hires@).map_values(|h: HiredView| h.name),
{
    let ghost hv = hire_views(hires@);
    let mut names: Vec<String> = Vec::new();
    let mut i: usize = 0;
    while i < hires.len()
        invariant
            i <= hires.len(),
            hv == hire_views(hires@),
            string_views(names@) == hv.map_values(|h: HiredView| h.name).take(i as int),
        decreases hires.len() - i,
    {
        let n = hires[i].name.clone();
        let ghost before = names@;
        names.push(n);
        proof {
            let m = hv.map_values(|h: HiredView| h.name);
            assert(string_views(names@) =~= string_views(before).push(n@));
            assert(m.take(i + 1) =~= m.take(i as int).push(m[i as int]));
        }
        i = i + 1;
    }
    assert(hv.map_values(|h: HiredView| h.name).take(hires.len() as int) =~= hv.map_values(
        |h: HiredView| h.name,
    ));
    names
}

impl GoalRun {
    /// Announces the end of the goal with `result`.
    fn announce_done(&self, hub: &mut Hub, result: &String)
        requires
            old(hub).wf(),
        ensures
            final(hub).wf(),
            final(hub).roster() == old(hub).roster(),
            same_inboxes(*old(hub), *final(hub)),
            exists|e: EventView|
                #![trigger logged(*old(hub), *final(hub), seq![e])]
                logged(*old(hub), *final(hub), seq![e]) && e.event_type == "goal_done"@
                    && is_short_id(e.id, "evt"@) && e.data == done_data(self@, result@),
    {
        let data = EventData::GoalDone {
            by: self.coord_name.clone(),
            goal: self.goal.clone(),
            result: result.clone(),
            unmet: crate::models::copy_strings(&self.unmet),
            hired: hire_names(&self.hires),
        };
        let ev = Event::new("goal_done", data);
        let ghost h0 = *hub;
        hub.emit(ev);
        proof {
            assert(h0.feed().push(ev@) =~= h0.feed() + seq![ev@]);
            assert(h0.outbox().push(ev@) =~= h0.outbox() + seq![ev@]);
            assert(logged(h0, *hub, seq![ev@]));
        }
    }

    /// All needs are searched for: the goal ends, or the answers go to synthesis.
    fn finish(&mut self, hub: &mut Hub) -> (step: Step)
        requires
            old(hub).wf(),
            run_wf(old(self)@),
            old(self)@.stage is Delegating,
            old(self)@.hiring is None,
            old(self)@.next == old(self)@.needs.len(),
        ensures
            final(hub).wf(),
            run_wf(final(self)@),
            step_fits(final(self)@, step@),
            finished(old(self)@, *old(hub), final(self)@, *final(hub), step@),
    {
        if self.hires.len() == 0 {
            let result = no_recruit_message(self.goal.as_str(), &self.unmet);
            self.announce_done(hub, &result);
            self.stage = Stage::Finished;
            Step::Done { result }
        } else {
            let prompt = assembly_request(self.goal.as_str(), &self.hires, &self.unmet);
            self.stage = Stage::Assembling;
            Step::Think { system: owned(SYNTHESIS_SYSTEM), prompt, max_tokens: 700 }
        }
    }

    /// Searches for the needs from `next` on until one can be delegated, or
    /// finishes when none is left.
    fn advance(&mut self, hub: &mut Hub) -> (step: Step)
        requires
            old(hub).wf(),
            run_wf(old(self)@),
            old(self)@.stage is Delegating,
            old(self)@.hiring is None,
        ensures
            final(hub).wf(),
            run_wf(final(self)@),
            step_fits(final(self)@, step@),
            advanced(old(self)@, *old(hub), final(self)@, *final(hub), step@),
    {
        let ghost r0 = self@;
        let ghost h0 = *hub;
        let ghost ro = hub.roster();
        let ghost c = r0.coordinator;
        let ghost mut searches: Seq<EventView> = Seq::empty();
        assert(h0.outbox() + searches =~= h0.outbox());
        assert(h0.feed() + searches =~= h0.feed());
        proof {
            h0.lemma_feed_bounded();
        }
        assert(r0.unmet + caps_between(r0.needs, r0.next, r0.next) =~= r0.unmet);
        while self.next < self.needs.len()
            invariant
                r0 == old(self)@,
                h0 == *old(hub),
                hub.wf(),
                hub.roster() == ro,
                ro == h0.roster(),
                same_inboxes(h0, *hub),
                logged(h0, *hub, searches),
                c == r0.coordinator,
                r0.next <= self@.next <= r0.needs.len(),
                self@ == (RunView {
                    next: self@.next,
                    unmet: r0.unmet + caps_between(r0.needs, r0.next, self@.next),
                    ..r0
                }),
                run_wf(r0),
                r0.stage is Delegating,
                r0.hiring is None,
                searches.len() == self@.next - r0.next,
                forall|k: int|
                    0 <= k < searches.len() ==> (#[trigger] searches[k]).event_type == "search"@
                        && is_short_id(searches[k].id, "evt"@) && searches[k].data == search_data(
                        ro,
                        c,
                        r0.needs[r0.next + k].capability,
                    ),
                forall|j: int|
                    r0.next <= j < self@.next ==> #[trigger] discovered(
                        ro,
                        r0.needs[j].capability,
                        Some(c),
                    ).len() == 0,
            decreases self.needs.len() - self.next,
        {
            let i = self.next;
            let ghost hb = *hub;
            let matches = hub.discover(
                self.needs[i].capability.as_str(),
                Some(self.coordinator_id.as_str()),
            );
            let ghost cap = r0.needs[i as int].capability;
            assert(self.needs@[i as int]@.capability == cap);
            let ghost e = choose|e: EventView|
                #![trigger hb.feed().push(e)]
                e.event_type == "search"@ && e.data == search_data(ro, c, cap) && is_short_id(
                    e.id,
                    "evt"@,
                ) && hub.feed() == capped(hb.feed().push(e)) && hub.outbox() == hb.outbox().push(
                    e,
                );
            proof {
                assert(hub.feed() == capped(hb.feed().push(e)));
                crate::hub::lemma_capped_append(h0.feed() + searches, seq![e]);
                assert(hb.feed().push(e) =~= capped(h0.feed() + searches) + seq![e]);
                assert(h0.feed() + searches + seq![e] =~= h0.feed() + searches.push(e));
                assert(hb.outbox().push(e) =~= h0.outbox() + searches.push(e));
                searches = searches.push(e);
                assert forall|id: Seq<char>| #[trigger] hub.inbox(id) == h0.inbox(id) by {
                    assert(hub.inbox(id) == hb.inbox(id));
                }
            }
            self.next = i + 1;
            if matches.len() == 0 {
                proof {
                    assert(discovered(ro, cap, Some(c)).len() == 0);
                }
                let ghost before = self@.unmet;
                self.unmet.push(self.needs[i].capability.clone());
                proof {
                    assert(r0.needs.subrange(r0.next, i + 1) =~= r0.needs.subrange(
                        r0.next,
                        i as int,
                    ).push(r0.needs[i as int]));
                    assert(caps_between(r0.needs, r0.next, i + 1) =~= caps_between(
                        r0.needs,
                        r0.next,
                        i as int,
                    ).push(cap));
                    assert(self@.unmet =~= before.push(cap));
                    assert(self@.unmet =~= r0.unmet + caps_between(r0.needs, r0.next, i + 1));
                }
                continue;
            }
            let agent = matches[0].clone();
            let ghost a = agent@;
            assert(a == discovered(ro, cap, Some(c))[0]);
            let ghost h_mid = *hub;
            let task_id = short_id("task");
            let msg = Message {
                id: short_id("msg"),
                from_id: self.coordinator_id.clone(),
                to_id: agent.id.clone(),
                kind: owned("request"),
                content: self.needs[i].question.clone(),
                task_id: Some(task_id.clone()),
                ts: crate::models::now(),
            };
            let ghost m = msg@;
            hub.route(msg);
            let persona = agent.persona.clone();
            let prompt = self.needs[i].question.clone();
            let ghost task = task_id@;
            self.hiring = Some(Hiring { agent, task_id });
            let step = Step::Think { system: persona, prompt, max_tokens: 300 };
            proof {
                assert(is_request(m, c, a, r0.needs[i as int], task));
                let t = choose|t: u64| hub.roster() == roster_touched(ro, m.from_id, t);
                let e2 = choose|e: EventView|
                    #![trigger h_mid.feed().push(e)]
                    e.event_type == "message"@ && e.data == (EventDataView::MessageSent {
                        message: m,
                        from_name: display_name(ro, m.from_id),
                        to_name: display_name(ro, m.to_id),
                    }) && is_short_id(e.id, "evt"@) && hub.feed() == capped(h_mid.feed().push(e))
                        && hub.outbox() == h_mid.outbox().push(e);
                assert(h_mid.feed().push(e2) =~= h_mid.feed() + seq![e2]);
                assert(h_mid.outbox().push(e2) =~= h_mid.outbox() + seq![e2]);
                assert(logged(h_mid, *hub, seq![e2]));
                assert(searched(r0, h0, i + 1, searches, h_mid));
                assert(self@ == RunView {
                    next: self@.next,
                    hiring: self@.hiring,
                    unmet: r0.unmet + caps_between(r0.needs, r0.next, self@.next - 1),
                    ..r0
                });
                assert(delegated(r0, h_mid, self@, *hub, step@));
                assert(advanced(r0, h0, self@, *hub, step@));
            }
            return step;
        }
        let ghost h_mid = *hub;
        let ghost r_mid = self@;
        let step = self.finish(hub);
        proof {
            assert(logged(h0, h_mid, searches));
            assert(searched(r0, h0, self@.next, searches, h_mid));
            assert(finished(r_mid, h_mid, self@, *hub, step@));
        }
        step
    }
}

/// The run `r0` is given the needs `needs`: it announces its plan, then
/// searches for them as `advanced` says.
pub open spec fn planned(r0: RunView, h0: Hub, needs: Seq<NeedView>, r1: RunView, h1: Hub, step: StepView) -> bool {
    exists|e: EventView, h_mid: Hub|
        #![trigger logged(h0, h_mid, seq![e])]
        {
            &&& logged(h0, h_mid, seq![e])
            &&& e.event_type == "plan"@
            &&& is_short_id(e.id, "evt"@)
            &&& e.data == EventDataView::Plan {
                by: r0.coord_name,
                goal: r0.goal,
                needs: needs.map_values(|n: NeedView| n.capability),
            }
            &&& h_mid.roster() == h0.roster()
            &&& same_inboxes(h0, h_mid)
            &&& advanced(
                RunView { stage: Stage::Delegating, needs, next: 0, ..r0 },
                h_mid,
                r1,
                h1,
                step,
            )
        }
}

/// The answer `answer` of the agent awaited by `r0` is routed back to the
/// coordinator: `h_mid` is `h0` after it.
pub open spec fn replied(r0: RunView, h0: Hub, answer: Seq<char>, h_mid: Hub) -> bool {
    let c = r0.coordinator;
    let ro = h0.roster();
    let hiring = r0.hiring->0;
    let a = hiring.0;
    let task = hiring.1;
    exists|m: MessageView, e: EventView, t: u64|
        #![trigger logged(h0, h_mid, seq![e]), roster_touched(ro, a.id, t), m.content]
        {
            &&& m.from_id == a.id
            &&& m.to_id == c
            &&& m.kind == "reply"@
            &&& m.content == answer
            &&& m.task_id == Some(task)
            &&& is_short_id(m.id, "msg"@)
            &&& h_mid.inbox(c) == h0.inbox(c).push(m)
            &&& forall|other: Seq<char>|
                other != c ==> #[trigger] h_mid.inbox(other) == h0.inbox(other)
            &&& h_mid.roster() == roster_touched(ro, a.id, t)
            &&& logged(h0, h_mid, seq![e])
            &&& e.event_type == "message"@
            &&& is_short_id(e.id, "evt"@)
            &&& e.data == EventDataView::MessageSent {
                message: m,
                from_name: display_name(ro, a.id),
                to_name: display_name(ro, c),
            }
        }
}

/// The run right after it is started.
pub open spec fn initial_run(coordinator: Seq<char>, coord_name: Seq<char>, goal: Seq<char>) -> RunView {
    RunView {
        coordinator,
        coord_name,
        goal,
        stage: Stage::Decomposing,
        needs: Seq::empty(),
        next: 0,
        hiring: None,
        hires: Seq::empty(),
        unmet: Seq::empty(),
    }
}

impl GoalRun {
    /// Announces the plan and starts searching for its needs.
    fn plan(&mut self, hub: &mut Hub, needs: Vec<Need>) -> (step: Step)
        requires
            old(hub).wf(),
            run_wf(old(self)@),
            old(self)@.stage is Decomposing,
        ensures
            final(hub).wf(),
            run_wf(final(self)@),
            step_fits(final(self)@, step@),
            planned(old(self)@, *old(hub), need_views(needs@), final(self)@, *final(hub), step@),
    {
        let ghost nv = need_views(needs@);
        let mut caps: Vec<String> = Vec::new();
        let mut i: usize = 0;
        while i < needs.len()
            invariant
                i <= needs.len(),
                nv == need_views(needs@),
                string_views(caps@) == nv.map_values(|n: NeedView| n.capability).take(i as int),
            decreases needs.len() - i,
        {
            let c = needs[i].capability.clone();
            let ghost before = caps@;
            caps.push(c);
            proof {
                let m = nv.map_values(|n: NeedView| n.capability);
                assert(string_views(caps@) =~= string_views(before).push(c@));
                assert(m.take(i + 1) =~= m.take(i as int).push(m[i as int]));
            }
            i = i + 1;
        }
        assert(nv.map_values(|n: NeedView| n.capability).take(needs.len() as int) =~= nv.map_values(
            |n: NeedView| n.capability,
        ));
        let ev = Event::new(
            "plan",
            EventData::Plan { by: self.coord_name.clone(), goal: self.goal.clone(), needs: caps },
        );
        let ghost h0 = *hub;
        let ghost r0 = self@;
        hub.emit(ev);
        proof {
            assert(h0.feed().push(ev@) =~= h0.feed() + seq![ev@]);
            assert(h0.outbox().push(ev@) =~= h0.outbox() + seq![ev@]);
            assert(logged(h0, *hub, seq![ev@]));
        }
        let ghost h_mid = *hub;
        self.needs = needs;
        self.next = 0;
        self.stage = Stage::Delegating;
        assert(self@ == (RunView { stage: Stage::Delegating, needs: nv, next: 0, ..r0 }));
        self.advance(hub)
    }

    /// Decomposes the goal from what the marketplace offers and plans it.
    fn fall_back(&mut self, hub: &mut Hub) -> (step: Step)
        requires
            old(hub).wf(),
            run_wf(old(self)@),
            old(self)@.stage is Decomposing,
        ensures
            final(hub).wf(),
            run_wf(final(self)@),
            step_fits(final(self)@, step@),
            planned(
                old(self)@,
                *old(hub),
                market_needs(old(self)@.goal, capability_list(old(hub).roster())),
                final(self)@,
                *final(hub),
                step@,
            ),
    {
        let needs = decompose_from_market(hub, self.goal.as_str());
        self.plan(hub, needs)
    }

    /// Starts working on `goal` for the coordinator `coordinator_id`,
    /// announcing it with a "goal_start" event. With a language model
    /// (`live`) the first step asks it to decompose the goal; without one,
    /// the goal is decomposed from what the marketplace offers and planned.
    pub fn start(hub: &mut Hub, coordinator_id: &str, goal: &str, live: bool) -> (r: (GoalRun, Step))
        requires
            old(hub).wf(),
        ensures
            final(hub).wf(),
            run_wf(r.0@),
            step_fits(r.0@, r.1@),
            exists|e: EventView, h_mid: Hub|
                #![trigger logged(*old(hub), h_mid, seq![e])]
                {
                    let r0 = initial_run(
                        coordinator_id@,
                        display_name(old(hub).roster(), coordinator_id@),
                        goal@,
                    );
                    &&& logged(*old(hub), h_mid, seq![e])
                    &&& e.event_type == "goal_start"@
                    &&& is_short_id(e.id, "evt"@)
                    &&& e.data == EventDataView::GoalStart { goal: goal@, by: r0.coord_name }
                    &&& h_mid.roster() == old(hub).roster()
                    &&& same_inboxes(*old(hub), h_mid)
                    &&& if live {
                        &&& r.0@ == r0
                        &&& r.1@ == StepView::Think {
                            system: DECOMPOSE_SYSTEM@,
                            prompt: "Goal: "@ + goal@,
                            max_tokens: 500,
                        }
                        &&& final(hub).roster() == h_mid.roster()
                        &&& same_inboxes(h_mid, *final(hub))
                        &&& final(hub).feed() == h_mid.feed()
                        &&& final(hub).outbox() == h_mid.outbox()
                    } else {
                        planned(
                            r0,
                            h_mid,
                            market_needs(goal@, capability_list(h_mid.roster())),
                            r.0@,
                            *final(hub),
                            r.1@,
                        )
                    }
                },
    {
        let coord_name = hub.name_of(coordinator_id);
        let ev = Event::new(
            "goal_start",
            EventData::GoalStart { goal: owned(goal), by: coord_name.clone() },
        );
        let ghost h0 = *hub;
        hub.emit(ev);
        proof {
            assert(h0.feed().push(ev@) =~= h0.feed() + seq![ev@]);
            assert(h0.outbox().push(ev@) =~= h0.outbox() + seq![ev@]);
            assert(logged(h0, *hub, seq![ev@]));
        }
        let ghost h_mid = *hub;
        let mut run = GoalRun {
            coordinator_id: owned(coordinator_id),
            coord_name,
            goal: owned(goal),
            stage: Stage::Decomposing,
            needs: Vec::new(),
            next: 0,
            hiring: None,
            hires: Vec::new(),
            unmet: Vec::new(),
        };
        let ghost r0 = initial_run(coordinator_id@, display_name(h0.roster(), coordinator_id@), goal@);
        assert(run@.needs =~= Seq::<NeedView>::empty());
        assert(run@.hires =~= Seq::<HiredView>::empty());
        assert(run@.unmet =~= Seq::<Seq<char>>::empty());
        assert(run@ == r0);
        if live {
            let mut prompt = String::new();
            append_str(&mut prompt, "Goal: ");
            append_str(&mut prompt, goal);
            assert(prompt@ =~= "Goal: "@ + goal@);
            let step = Step::Think { system: owned(DECOMPOSE_SYSTEM), prompt, max_tokens: 500 };
            (run, step)
        } else {
            let step = run.fall_back(hub);
            (run, step)
        }
    }
}

impl GoalRun {
    /// Whether the run waits for a thought (rather than being finished or
    /// about to search).
    pub open spec fn awaits_thought(r: RunView) -> bool {
        ||| r.stage is Decomposing
        ||| (r.stage is Delegating && r.hiring is Some)
        ||| r.stage is Assembling
    }

    /// Takes the brain's answer to the last `Step::Think`:
    /// - while decomposing, the needs the reply proposes (the JSON array from
    ///   its first `[` to its last `]`) are planned; when it proposes none, the
    ///   goal is decomposed from what the marketplace offers;
    /// - while delegating, the answer is routed back to the coordinator as a
    ///   reply from the hired agent, recorded, and the next needs are searched for;
    /// - while assembling, the answer is the result: the goal is announced done.
    pub fn on_thought(&mut self, hub: &mut Hub, answer: String) -> (step: Step)
        requires
            old(hub).wf(),
            run_wf(old(self)@),
            GoalRun::awaits_thought(old(self)@),
        ensures
            final(hub).wf(),
            run_wf(final(self)@),
            step_fits(final(self)@, step@),
            match old(self)@.stage {
                Stage::Decomposing => planned(
                    old(self)@,
                    *old(hub),
                    decomposition(old(self)@.goal, capability_list(old(hub).roster()), answer@),
                    final(self)@,
                    *final(hub),
                    step@,
                ),
                Stage::Delegating => exists|h_mid: Hub|
                    #![trigger replied(old(self)@, *old(hub), answer@, h_mid)]
                    {
                        let r0 = old(self)@;
                        let hiring = r0.hiring->0;
                        &&& replied(r0, *old(hub), answer@, h_mid)
                        &&& advanced(
                            RunView {
                                hiring: None,
                                hires: r0.hires.push(
                                    HiredView {
                                        name: hiring.0.name,
                                        capability: r0.needs[r0.next - 1].capability,
                                        answer: answer@,
                                    },
                                ),
                                ..r0
                            },
                            h_mid,
                            final(self)@,
                            *final(hub),
                            step@,
                        )
                    },
                _ => {
                    &&& final(self)@ == RunView { stage: Stage::Finished, ..old(self)@ }
                    &&& step@ == StepView::Done { result: answer@ }
                    &&& final(hub).roster() == old(hub).roster()
                    &&& same_inboxes(*old(hub), *final(hub))
                    &&& exists|e: EventView|
                        #![trigger logged(*old(hub), *final(hub), seq![e])]
                        logged(*old(hub), *final(hub), seq![e]) && e.event_type == "goal_done"@
                            && is_short_id(e.id, "evt"@) && e.data == done_data(
                            old(self)@,
                            answer@,
                        )
                },
            },
    {
        match self.stage {
            Stage::Decomposing => {
                match parse_needs(answer.as_str()) {
                    Some(ns) => {
                        if ns.len() > 0 {
                            self.plan(hub, ns)
                        } else {
                            self.fall_back(hub)
                        }
                    },
                    None => self.fall_back(hub),
                }
            },
            Stage::Delegating => {
                let ghost r0 = self@;
                let ghost h0 = *hub;
                let hiring = self.hiring.take().unwrap();
                let ghost a = hiring.agent@;
                let ghost task = hiring.task_id@;
                let ghost c = r0.coordinator;
                proof {
                    h0.lemma_ids_unique();
                }
                hub.touch(hiring.agent.id.as_str());
                let ghost t1 = choose|t: u64| hub.roster() == roster_touched(h0.roster(), a.id, t);
                let ghost h_touched = *hub;
                proof {
                    crate::hub::lemma_display_name_touched(h0.roster(), a.id, t1, a.id);
                    crate::hub::lemma_display_name_touched(h0.roster(), a.id, t1, c);
                }
                let msg = Message {
                    id: short_id("msg"),
                    from_id: hiring.agent.id.clone(),
                    to_id: self.coordinator_id.clone(),
                    kind: owned("reply"),
                    content: answer.clone(),
                    task_id: Some(hiring.task_id.clone()),
                    ts: crate::models::now(),
                };
                let ghost m = msg@;
                hub.route(msg);
                let ghost h_mid = *hub;
                proof {
                    let t2 = choose|t: u64| hub.roster() == roster_touched(h_touched.roster(), a.id, t);
                    crate::hub::lemma_touched_twice(h0.roster(), a.id, t1, t2);
                    let e = choose|e: EventView|
                        #![trigger h_touched.feed().push(e)]
                        e.event_type == "message"@ && e.data == (EventDataView::MessageSent {
                            message: m,
                            from_name: display_name(h_touched.roster(), m.from_id),
                            to_name: display_name(h_touched.roster(), m.to_id),
                        }) && is_short_id(e.id, "evt"@) && hub.feed() == capped(
                            h_touched.feed().push(e),
                        ) && hub.outbox() == h_touched.outbox().push(e);
                    assert(h_touched.feed() == h0.feed());
                    assert(h_touched.outbox() == h0.outbox());
                    assert(h0.feed().push(e) =~= h0.feed() + seq![e]);
                    assert(h0.outbox().push(e) =~= h0.outbox() + seq![e]);
                    assert(logged(h0, h_mid, seq![e]));
                    assert(hub.inbox(c) == h0.inbox(c).push(m)) by {
                        assert(h_touched.inbox(c) == h0.inbox(c));
                    }
                    assert forall|other: Seq<char>| other != c implies #[trigger] hub.inbox(other)
                        == h0.inbox(other) by {
                        assert(h_touched.inbox(other) == h0.inbox(other));
                    }
                    assert(hub.roster() == roster_touched(h0.roster(), a.id, t2));
                    assert(m.content == answer@);
                    assert(replied(r0, h0, answer@, h_mid));
                }
                let need_cap = self.needs[self.next - 1].capability.clone();
                let ghost hv = HiredView { name: a.name, capability: need_cap@, answer: answer@ };
                self.hires.push(Hire { name: hiring.agent.name, capability: need_cap, answer });
                proof {
                    assert(hire_views(self.hires@) =~= r0.hires.push(hv));
                    assert(self@ == RunView { hiring: None, hires: r0.hires.push(hv), ..r0 });
                }
                self.advance(hub)
            },
            _ => {
                self.announce_done(hub, &answer);
                self.stage = Stage::Finished;
                Step::Done { result: answer }
            },
        }
    }
}

} // verus!
