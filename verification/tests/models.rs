use hivemind::json::Json;
use hivemind::models::{normalize_caps, short_id, Agent, CreateAgent};

#[test]
fn capabilities_from_a_comma_separated_string() {
    let caps = normalize_caps(Json::Str(" Menus, ,DINING , ".to_string()));
    assert_eq!(caps, vec!["menus", "dining"]);
}

#[test]
fn capabilities_from_a_list() {
    let caps = normalize_caps(Json::Array(vec![
        Json::Str(" Art ".to_string()),
        Json::Number("3".to_string()),
        Json::Str("".to_string()),
        Json::Str("Music".to_string()),
    ]));
    assert_eq!(caps, vec!["art", "music"]);
}

#[test]
fn capabilities_from_anything_else() {
    assert!(normalize_caps(Json::Null).is_empty());
    assert!(normalize_caps(Json::Bool(true)).is_empty());
}

#[test]
fn created_agent_gets_role_and_persona() {
    let a = Agent::from_create(CreateAgent {
        name: " Foodie ".to_string(),
        role: "  ".to_string(),
        capabilities: Json::Str("restaurants, menus".to_string()),
        persona: String::new(),
    });
    assert_eq!(a.name, "Foodie");
    assert_eq!(a.role, "Specializes in restaurants, menus");
    assert_eq!(
        a.persona,
        "You are Foodie, an agent on an open marketplace. Your role: Specializes in restaurants, menus. You specialize in: restaurants, menus. When a peer asks you something in your specialty, give a concrete, useful answer in 1-3 sentences."
    );
    assert_eq!(a.kind, "human");
    assert_eq!(a.created_at, a.last_seen);
    assert!(a.id.starts_with("agent_"));
}

#[test]
fn created_agent_keeps_given_role_and_persona() {
    let a = Agent::from_create(CreateAgent {
        name: "Chef".to_string(),
        role: " Cooks ".to_string(),
        capabilities: Json::Str("cooking".to_string()),
        persona: " Be brief. ".to_string(),
    });
    assert_eq!(a.role, "Cooks");
    assert_eq!(a.persona, "Be brief.");
}

#[test]
fn short_ids_have_six_hex_digits() {
    let id = short_id("task");
    assert!(id.starts_with("task_"));
    assert_eq!(id.len(), 11);
    assert!(id[5..].chars().all(|c| "0123456789abcdef".contains(c)));
    assert_ne!(short_id("task"), short_id("task"));
}

#[test]
fn normalizing_again_changes_nothing() {
    let first = normalize_caps(Json::Str(" Menus, ,DINING , Late Night ".to_string()));
    assert_eq!(first, vec!["menus", "dining", "late night"]);
    let again = normalize_caps(Json::Array(first.iter().map(|c| Json::Str(c.clone())).collect()));
    assert_eq!(again, first);
    let joined = normalize_caps(Json::Str(first.join(",")));
    assert_eq!(joined, first);
}
