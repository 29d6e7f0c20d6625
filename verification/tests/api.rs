use hivemind::api::{create_agent, dotenv_entries, dotenv_entry, goal_text, remove_listed_agent, ApiError};
use hivemind::hub::Hub;
use hivemind::json::Json;
use hivemind::models::{CreateAgent, GoalBody};

fn body(name: &str, caps: Json) -> CreateAgent {
    CreateAgent { name: name.to_string(), role: String::new(), capabilities: caps, persona: String::new() }
}

#[test]
fn creating_agents_checks_name_and_capabilities() {
    let mut hub = Hub::new();
    match create_agent(&mut hub, body("  ", Json::Str("x".into()))) {
        Err(e) => assert_eq!(e.message(), "name is required"),
        Ok(_) => panic!("blank name accepted"),
    }
    match create_agent(&mut hub, body("Ann", Json::Str(" , ".into()))) {
        Err(e) => assert_eq!(e.message(), "at least one capability is required"),
        Ok(_) => panic!("no capability accepted"),
    }
    assert!(hub.agents().is_empty());
    let a = match create_agent(&mut hub, body("Ann", Json::Str("art".into()))) {
        Ok(a) => a,
        Err(_) => panic!("refused a good agent"),
    };
    assert_eq!(hub.agents().len(), 1);
    assert_eq!(a.capabilities, vec!["art"]);
}

#[test]
fn the_coordinator_cannot_be_removed() {
    let mut hub = Hub::new();
    let a = create_agent(&mut hub, body("Ann", Json::Str("art".into()))).ok().unwrap();
    assert!(matches!(remove_listed_agent(&mut hub, "c1", "c1"), Err(ApiError::CoordinatorProtected)));
    assert!(matches!(remove_listed_agent(&mut hub, &a.id, "c1"), Ok(true)));
    assert!(matches!(remove_listed_agent(&mut hub, &a.id, "c1"), Ok(false)));
}

#[test]
fn goals_are_trimmed_and_required() {
    assert_eq!(goal_text(&GoalBody { goal: "  Go  ".into() }).ok(), Some("Go".to_string()));
    assert!(matches!(goal_text(&GoalBody { goal: " ".into() }), Err(ApiError::GoalRequired)));
}

#[test]
fn dotenv_lines() {
    assert_eq!(dotenv_entry(" KEY = \"value\" "), Some(("KEY".to_string(), "value".to_string())));
    assert_eq!(dotenv_entry("A='b=c'"), Some(("A".to_string(), "b=c".to_string())));
    assert_eq!(dotenv_entry("# comment"), None);
    assert_eq!(dotenv_entry("   "), None);
    assert_eq!(dotenv_entry("novalue"), None);
    assert_eq!(dotenv_entry(" = x"), None);
}

#[test]
fn dotenv_files() {
    let raw = "# settings\r\nGEMINI_API_KEY=abc\r\n\n  PORT = '9000'\nbroken line\nEMPTY=\n";
    assert_eq!(
        dotenv_entries(raw),
        vec![
            ("GEMINI_API_KEY".to_string(), "abc".to_string()),
            ("PORT".to_string(), "9000".to_string()),
            ("EMPTY".to_string(), String::new()),
        ]
    );
    assert!(dotenv_entries("").is_empty());
}
