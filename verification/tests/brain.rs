use hivemind::brain::{answer_from, extract_text, mock_reply, select_api_key};
use hivemind::json::Json;

#[test]
fn brain_mock_is_named_and_safe() {
    let out = answer_from(None, "You are Foodie, a restaurant expert.", "Suggest a venue.");
    assert!(out.contains("Foodie"), "mock reply should be flavored by speaker: {out}");
    assert!(!out.is_empty());
}

#[test]
fn mock_reply_exact_text() {
    assert_eq!(
        mock_reply("You are Foodie, a restaurant expert.", "Suggest a venue.\nMore lines"),
        "[Foodie] On it: Suggest a venue. (demo mode — set GEMINI_API_KEY for real answers)"
    );
    assert_eq!(
        mock_reply("Be helpful.", "  \r\nsecond"),
        "[Agent] On it:  (demo mode — set GEMINI_API_KEY for real answers)"
    );
}

#[test]
fn mock_reply_cuts_long_asks() {
    let long = "x".repeat(200);
    let out = mock_reply("You are Zed", &long);
    assert_eq!(out, format!("[Zed] On it: {} (demo mode — set GEMINI_API_KEY for real answers)", "x".repeat(140)));
}

#[test]
fn mock_reply_never_splits_a_character() {
    let prompt = format!("{}é rest", "a".repeat(139));
    let out = mock_reply("You are Foodie.", &prompt);
    assert_eq!(
        out,
        format!("[Foodie] On it: {} (demo mode — set GEMINI_API_KEY for real answers)", "a".repeat(139))
    );
    let exact = format!("{}é", "a".repeat(138));
    assert_eq!(
        mock_reply("You are Foodie.", &exact),
        format!("[Foodie] On it: {} (demo mode — set GEMINI_API_KEY for real answers)", exact)
    );
}

fn response(texts: Vec<Json>) -> Json {
    let parts: Vec<Json> = texts
        .into_iter()
        .map(|t| Json::Object(vec![("text".to_string(), t)]))
        .collect();
    Json::Object(vec![(
        "candidates".to_string(),
        Json::Array(vec![Json::Object(vec![(
            "content".to_string(),
            Json::Object(vec![("parts".to_string(), Json::Array(parts))]),
        )])]),
    )])
}

#[test]
fn extract_text_takes_the_first_text_part() {
    let r = response(vec![Json::Str("Hi".to_string()), Json::Str(" there".to_string())]);
    assert_eq!(extract_text(&r), Some("Hi".to_string()));
    let r = response(vec![Json::Null, Json::Str(" Hello ".to_string()), Json::Str("world".to_string())]);
    assert_eq!(extract_text(&r), Some("Hello".to_string()));
    assert_eq!(extract_text(&response(vec![Json::Str("  ".to_string()), Json::Str("x".to_string())])), None);
    assert_eq!(extract_text(&response(vec![])), None);
    assert_eq!(extract_text(&Json::Null), None);
}

#[test]
fn answer_prefers_the_model() {
    let r = response(vec![Json::Str("Real answer".to_string())]);
    assert_eq!(answer_from(Some(&r), "You are X", "Q"), "Real answer");
    let empty = response(vec![]);
    assert_eq!(
        answer_from(Some(&empty), "You are X", "Q"),
        "[X] On it: Q (demo mode — set GEMINI_API_KEY for real answers)"
    );
}

#[test]
fn api_key_selection() {
    assert_eq!(select_api_key(Some("k1".into()), Some("k2".into())), Some("k1".to_string()));
    assert_eq!(select_api_key(None, Some("k2".into())), Some("k2".to_string()));
    assert_eq!(select_api_key(Some("  ".into()), Some("k2".into())), None);
    assert_eq!(select_api_key(None, None), None);
}

#[test]
fn created_agent_speaks_by_name() {
    let agent = hivemind::models::Agent::from_create(hivemind::models::CreateAgent {
        name: "  Foodie ".to_string(),
        role: String::new(),
        capabilities: Json::Str("restaurants, menus".to_string()),
        persona: " ".to_string(),
    });
    for prompt in ["Suggest a venue.", &format!("{}é", "b".repeat(139))] {
        let out = mock_reply(&agent.persona, prompt);
        assert!(out.starts_with("[Foodie] On it: "), "{out}");
    }
}
