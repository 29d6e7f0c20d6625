//! The decisions of the server-side brain that thinks for agents created
//! from a web form: which API key it runs with, the text it takes out of a
//! language-model response, and the deterministic stand-in reply it gives
//! when no model answers.

use vstd::prelude::*;
use crate::json::{Json, field, item, opt_text};
use crate::text::{
    append_str, char_width, chars_of, lemma_utf8_len_prefix_monotone, split_char, split_on, string_from_chars, string_views,
    trim, trim_seq, utf8_len,
};

verus! {

// ------------------------------------------------------------------------
// API key
// ------------------------------------------------------------------------

/// The key the brain runs with: the first variable that is set, unless it is blank.
pub open spec fn chosen_key(primary: Option<Seq<char>>, fallback: Option<Seq<char>>) -> Option<Seq<char>> {
    let k = if primary is Some { primary } else { fallback };
    match k {
        Some(s) => if trim_seq(s).len() > 0 { Some(s) } else { None },
        None => None,
    }
}

/// Picks the API key from the primary variable's value, else the fallback's;
/// a blank value means no key.
pub fn select_api_key(primary: Option<String>, fallback: Option<String>) -> (r: Option<String>)
    ensures
        crate::models::opt_view(r) == chosen_key(
            crate::models::opt_view(primary),
            crate::models::opt_view(fallback),
        ),
{
    let k = match primary {
        Some(p) => Some(p),
        None => fallback,
    };
    match k {
        Some(s) => {
            let t = trim(s.as_str());
            if t.as_str().is_empty() {
                None
            } else {
                Some(s)
            }
        },
        None => None,
    }
}

// ------------------------------------------------------------------------
// Reading a response
// ------------------------------------------------------------------------

/// The `parts` of the content of the first candidate of a response.
pub open spec fn response_parts(j: Json) -> Option<Seq<Json>> {
    match field(j, "candidates"@) {
        Some(c) => match item(c, 0) {
            Some(first) => match field(first, "content"@) {
                Some(content) => match field(content, "parts"@) {
                    Some(Json::Array(ps)) => Some(ps@),
                    _ => None,
                },
                None => None,
            },
            None => None,
        },
        None => None,
    }
}

/// The first `text` member of `parts` that is a string.
pub open spec fn first_text(parts: Seq<Json>) -> Option<Seq<char>>
    decreases parts.len(),
{
    if parts.len() == 0 {
        None
    } else {
        match opt_text(field(parts[0], "text"@)) {
            Some(s) => Some(s),
            None => first_text(parts.drop_first()),
        }
    }
}

/// The text of a response: the first text part of its first candidate,
/// trimmed, when that is not empty.
pub open spec fn response_text(j: Json) -> Option<Seq<char>> {
    match response_parts(j) {
        Some(ps) => match first_text(ps) {
            Some(t) => if trim_seq(t).len() > 0 {
                Some(trim_seq(t))
            } else {
                None
            },
            None => None,
        },
        None => None,
    }
}

/// Pulls the first text part out of a `generateContent` response.
pub fn extract_text(json: &Json) -> (r: Option<String>)
    ensures
        crate::models::opt_view(r) == response_text(*json),
{
    let parts = match json.get("candidates") {
        Some(c) => match c.at(0) {
            Some(first) => match first.get("content") {
                Some(content) => match content.get("parts") {
                    Some(p) => match p.as_array() {
                        Some(a) => a,
                        None => return None,
                    },
                    None => return None,
                },
                None => return None,
            },
            None => return None,
        },
        None => return None,
    };
    let mut i: usize = 0;
    assert(parts@.skip(0) =~= parts@);
    while i < parts.len()
        invariant
            response_parts(*json) == Some(parts@),
            i <= parts.len(),
            first_text(parts@) == first_text(parts@.skip(i as int)),
        decreases parts.len() - i,
    {
        let ghost rest = parts@.skip(i as int);
        assert(rest[0] == parts@[i as int]);
        assert(rest.drop_first() =~= parts@.skip(i + 1));
        match parts[i].get("text") {
            Some(t) => match t.as_str() {
                Some(s) => {
                    let trimmed = trim(s.as_str());
                    if trimmed.as_str().is_empty() {
                        return None;
                    } else {
                        return Some(trimmed);
                    }
                },
                None => {},
            },
            None => {},
        }
        i = i + 1;
    }
    assert(parts@.skip(parts.len() as int) =~= Seq::<Json>::empty());
    None
}

// ------------------------------------------------------------------------
// The stand-in reply
// ------------------------------------------------------------------------

/// The first line of `s`, as `str::lines` yields it: the text before the
/// first `'\n'`, without a `'\r'` that ends it there; empty text has none.
pub open spec fn first_line(s: Seq<char>) -> Seq<char> {
    let pieces = split_on(s, '\n');
    let p = pieces[0];
    if pieces.len() > 1 && p.len() > 0 && p.last() == '\r' {
        p.drop_last()
    } else {
        p
    }
}

/// The text of `s` before its first `','` or `'.'`.
pub open spec fn before_stop(s: Seq<char>) -> Seq<char>
    decreases s.len(),
{
    if s.len() == 0 {
        s
    } else if s[0] == ',' || s[0] == '.' {
        Seq::empty()
    } else {
        seq![s[0]] + before_stop(s.drop_first())
    }
}

/// Who speaks in a persona: the words after a leading "You are " up to the
/// first comma or period, or "Agent".
pub open spec fn speaker_of(system: Seq<char>) -> Seq<char> {
    let t = trim_seq(system);
    let p = "You are "@;
    if t.len() >= p.len() && t.take(p.len() as int) == p {
        trim_seq(before_stop(t.skip(p.len() as int)))
    } else {
        trim_seq("Agent"@)
    }
}

/// What was asked: the first line of the prompt, trimmed.
pub open spec fn ask_of(prompt: Seq<char>) -> Seq<char> {
    trim_seq(first_line(prompt))
}

/// `k` characters of `ask` are its longest prefix of at most 140 bytes of UTF-8.
pub open spec fn is_cut_point(ask: Seq<char>, k: int) -> bool {
    &&& 0 <= k <= ask.len()
    &&& utf8_len(ask.take(k)) <= 140
    &&& (k == ask.len() || utf8_len(ask.take(k + 1)) > 140)
}

/// `ask` cut to its longest prefix of at most 140 bytes, so that the cut
/// never splits a character.
pub open spec fn cut(ask: Seq<char>) -> Seq<char> {
    ask.take(choose|k: int| is_cut_point(ask, k))
}

/// The deterministic reply used when no language model answers.
pub open spec fn mock_text(system: Seq<char>, prompt: Seq<char>) -> Seq<char> {
    "["@ + speaker_of(system) + "] On it: "@ + cut(ask_of(prompt))
        + " (demo mode — set GEMINI_API_KEY for real answers)"@
}

/// Whether `v` starts with the characters of `p`.
fn starts_with(v: &Vec<char>, p: &str) -> (r: bool)
    ensures
        r == (v@.len() >= p@.len() && v@.take(p@.len() as int) == p@),
{
    let q = chars_of(p);
    if v.len() < q.len() {
        return false;
    }
    let mut i: usize = 0;
    while i < q.len()
        invariant
            q@ == p@,
            v.len() >= q.len(),
            i <= q.len(),
            forall|j: int| 0 <= j < i ==> v@[j] == q@[j],
        decreases q.len() - i,
    {
        if v[i] != q[i] {
            assert(v@.take(p@.len() as int)[i as int] != p@[i as int]);
            return false;
        }
        i = i + 1;
    }
    assert(v@.take(p@.len() as int) =~= p@);
    true
}

/// Who speaks in `system`.
fn speaker(system: &str) -> (r: String)
    ensures
        r@ == speaker_of(system@),
{
    let t = chars_of(trim(system).as_str());
    let p = "You are ";
    if starts_with(&t, p) {
        let start = chars_of(p).len();
        let mut k: usize = start;
        let ghost rest = t@.skip(start as int);
        assert(rest.skip(0) =~= rest);
        assert(before_stop(rest) == rest.take(0) + before_stop(rest.skip(0)));
        while k < t.len() && t[k] != ',' && t[k] != '.'
            invariant
                start <= k <= t.len(),
                rest == t@.skip(start as int),
                before_stop(rest) == rest.take(k - start) + before_stop(rest.skip(k - start)),
            decreases t.len() - k,
        {
            let ghost j = k - start;
            assert(rest.skip(j)[0] == t@[k as int]);
            assert(rest.skip(j).drop_first() =~= rest.skip(j + 1));
            assert(rest.take(j + 1) =~= rest.take(j) + seq![t@[k as int]]);
            k = k + 1;
        }
        proof {
            let j = k - start;
            if k < t.len() {
                assert(rest.skip(j)[0] == t@[k as int]);
            } else {
                assert(rest.skip(j) =~= Seq::<char>::empty());
            }
            assert(rest.take(j) =~= t@.subrange(start as int, k as int));
            assert(before_stop(rest) =~= t@.subrange(start as int, k as int));
        }
        let piece = string_from_chars(&t, start, k);
        trim(piece.as_str())
    } else {
        trim("Agent")
    }
}

/// The first line of `prompt`.
fn first_line_of(prompt: &str) -> (r: String)
    ensures
        r@ == first_line(prompt@),
{
    let pieces = split_char(prompt, '\n');
    assert(string_views(pieces@).len() > 0);
    let p = chars_of(pieces[0].as_str());
    assert(p@ == split_on(prompt@, '\n')[0]);
    if pieces.len() > 1 && p.len() > 0 && p[p.len() - 1] == '\r' {
        assert(p@.subrange(0, p.len() - 1) =~= p@.drop_last());
        string_from_chars(&p, 0, p.len() - 1)
    } else {
        assert(p@.subrange(0, p.len() as int) =~= p@);
        string_from_chars(&p, 0, p.len())
    }
}

/// `ask` cut to its longest prefix of at most 140 bytes.
fn cut_ask(ask: &Vec<char>) -> (r: String)
    ensures
        r@ == cut(ask@),
{
    let mut total: usize = 0;
    let mut i: usize = 0;
    while i < ask.len() && total + char_width(ask[i]) <= 140
        invariant
            i <= ask.len(),
            total == utf8_len(ask@.take(i as int)),
            total <= 140,
        decreases ask.len() - i,
    {
        assert(ask@.take(i + 1).drop_last() =~= ask@.take(i as int));
        total = total + char_width(ask[i]);
        i = i + 1;
    }
    proof {
        if i < ask.len() {
            assert(ask@.take(i + 1).drop_last() =~= ask@.take(i as int));
        }
        assert(is_cut_point(ask@, i as int));
        let k = choose|k: int| is_cut_point(ask@, k);
        if k < i {
            lemma_utf8_len_prefix_monotone(ask@, k + 1, i as int);
        } else if k > i {
            lemma_utf8_len_prefix_monotone(ask@, i + 1, k);
        }
        assert(k == i);
    }
    string_from_chars(ask, 0, i)
}

/// The deterministic stand-in reply: flavored by the speaker named in the
/// persona `system`, echoing the first line of `prompt` cut to 140 bytes.
pub fn mock_reply(system: &str, prompt: &str) -> (r: String)
    ensures
        r@ == mock_text(system@, prompt@),
{
    let who = speaker(system);
    let line = first_line_of(prompt);
    let ask = chars_of(trim(line.as_str()).as_str());
    let said = cut_ask(&ask);
    let mut r = String::new();
    append_str(&mut r, "[");
    append_str(&mut r, who.as_str());
    append_str(&mut r, "] On it: ");
    append_str(&mut r, said.as_str());
    append_str(&mut r, " (demo mode — set GEMINI_API_KEY for real answers)");
    assert(r@ =~= mock_text(system@, prompt@));
    r
}

/// What the brain answers: the text of the model's response when one came
/// back and holds text, the stand-in reply otherwise.
pub fn answer_from(response: Option<&Json>, system: &str, prompt: &str) -> (r: String)
    ensures
        r@ == match response {
            Some(j) => match response_text(*j) {
                Some(t) => t,
                None => mock_text(system@, prompt@),
            },
            None => mock_text(system@, prompt@),
        },
{
    match response {
        Some(j) => match extract_text(j) {
            Some(t) => t,
            None => mock_reply(system, prompt),
        },
        None => mock_reply(system, prompt),
    }
}

} // verus!
