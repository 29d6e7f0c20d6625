use hivemind::brain::answer_from;
use hivemind::coordinator::{
    assembly_request, decompose_from_market, needs_from_json, needs_span, no_recruit_message,
    parse_needs,
    GoalRun, Hire, Step, DECOMPOSE_SYSTEM, SYNTHESIS_SYSTEM,
};
use hivemind::hub::Hub;
use hivemind::json::Json;
use hivemind::models::{Agent, CreateAgent, EventData};

fn make(name: &str, caps: &str) -> Agent {
    Agent::from_create(CreateAgent {
        name: name.to_string(),
        role: String::new(),
        capabilities: Json::Str(caps.to_string()),
        persona: String::new(),
    })
}

fn make_coordinator(caps: &str) -> Agent {
    let mut a = make("Coordinator", caps);
    a.kind = "coordinator".to_string();
    a
}

/// Runs a goal to its end with the stand-in brain.
fn run_goal(hub: &mut Hub, coordinator_id: &str, goal: &str) -> String {
    let (mut run, mut step) = GoalRun::start(hub, coordinator_id, goal, false);
    loop {
        match step {
            Step::Think { system, prompt, .. } => {
                let answer = answer_from(None, &system, &prompt);
                step = run.on_thought(hub, answer);
            }
            Step::Done { result } => return result,
        }
    }
}

fn hired(hub: &Hub) -> Vec<String> {
    hub.history()
        .into_iter()
        .filter(|e| e.event_type == "message")
        .filter_map(|e| match e.data {
            EventData::MessageSent { message, to_name, .. } if message.kind == "request" => {
                Some(to_name)
            }
            _ => None,
        })
        .collect()
}

#[test]
fn coordinator_recruits_from_the_marketplace() {
    let mut hub = Hub::new();
    let coord = hub.add_agent(make("Coordinator", "planning,coordination"));
    hub.add_agent(make("Backend", "endpoint,server,api"));
    hub.add_agent(make("Tester", "testing,qa"));
    hub.add_agent(make("Docs", "docs,documentation"));

    let result = run_goal(&mut hub, &coord.id, "Build an endpoint, add testing, and write docs");
    assert!(!result.is_empty());

    let hired = hired(&hub);
    for who in ["Backend", "Tester", "Docs"] {
        assert!(hired.contains(&who.to_string()), "expected to hire {who}, hired {hired:?}");
    }
}

#[test]
fn coordinator_recruits_specialists_not_meta_capabilities() {
    let mut hub = Hub::new();
    let coord = hub.add_agent(make_coordinator("planning,coordination"));
    hub.add_agent(make("Foodie", "restaurants,menus,dining"));
    hub.add_agent(make("Scheduler", "calendar,availability"));
    hub.add_agent(make("Gifts", "gifts,wishlist"));

    let result = run_goal(&mut hub, &coord.id, "plan a surprise birthday dinner");

    assert!(!result.contains("Couldn't recruit anyone"), "should hire specialists, got: {result}");
    let hired = hired(&hub);
    assert!(hired.iter().any(|n| n == "Foodie"), "expected Foodie, hired {hired:?}");
}

#[test]
fn coordinator_with_nobody_to_recruit() {
    let mut hub = Hub::new();
    let coord = hub.add_agent(make_coordinator("planning"));
    let result = run_goal(&mut hub, &coord.id, "Bake bread");
    assert_eq!(
        result,
        "Couldn't recruit anyone for \"Bake bread\". No agents on the marketplace offer: planning."
    );
    let last = hub.history().pop().unwrap();
    assert_eq!(last.event_type, "goal_done");
}

#[test]
fn coordinator_never_hires_itself() {
    let mut hub = Hub::new();
    let coord = hub.add_agent(make_coordinator("cooking"));
    hub.add_agent(make("Chef", "cooking"));
    run_goal(&mut hub, &coord.id, "cooking tonight");
    assert_eq!(hired(&hub), vec!["Chef"]);
    let replies = hub.drain_inbox(&coord.id);
    assert_eq!(replies.len(), 1);
    assert_eq!(replies[0].kind, "reply");
}

#[test]
fn live_run_parses_proposed_needs() {
    let mut hub = Hub::new();
    let coord = hub.add_agent(make_coordinator("planning"));
    hub.add_agent(make("Chef", "cooking"));
    let (mut run, step) = GoalRun::start(&mut hub, &coord.id, "Dinner", true);
    match step {
        Step::Think { system, prompt, max_tokens } => {
            assert_eq!(system, DECOMPOSE_SYSTEM);
            assert_eq!(prompt, "Goal: Dinner");
            assert_eq!(max_tokens, 500);
        }
        _ => panic!("expected a thought"),
    }
    let step = run.on_thought(
        &mut hub,
        "```json\n[{\"capability\":\"Cooking\",\"question\":\"What to cook?\"}]\n```".to_string(),
    );
    match step {
        Step::Think { prompt, max_tokens, .. } => {
            assert_eq!(prompt, "What to cook?");
            assert_eq!(max_tokens, 300);
        }
        _ => panic!("expected the hired agent to think"),
    }
    let step = run.on_thought(&mut hub, "Pasta.".to_string());
    match step {
        Step::Think { system, prompt, max_tokens } => {
            assert_eq!(system, SYNTHESIS_SYSTEM);
            assert_eq!(max_tokens, 700);
            assert!(prompt.contains("- Chef (for cooking): Pasta."));
        }
        _ => panic!("expected synthesis"),
    }
    match run.on_thought(&mut hub, "Cook pasta.".to_string()) {
        Step::Done { result } => assert_eq!(result, "Cook pasta."),
        _ => panic!("expected the end"),
    }
}

#[test]
fn live_run_falls_back_to_the_market_on_an_unreadable_reply() {
    let mut hub = Hub::new();
    let coord = hub.add_agent(make_coordinator("planning"));
    hub.add_agent(make("Chef", "cooking"));
    let (mut run, _) = GoalRun::start(&mut hub, &coord.id, "cooking dinner", true);
    let step = run.on_thought(&mut hub, "[not json]".to_string());
    match step {
        Step::Think { prompt, .. } => {
            assert_eq!(prompt, "For the goal 'cooking dinner', help with the 'cooking' part.")
        }
        _ => panic!("expected the hired agent to think"),
    }
    assert_eq!(hired(&hub), vec!["Chef"]);
}

#[test]
fn parse_needs_reads_the_array_in_a_reply() {
    let needs = parse_needs(
        "```json\n[{\"capability\":\" Dining \",\"question\":\"\"},{\"question\":\"x\"},{\"capability\":\"Gifts\",\"question\":\"Which gift?\"}]\n```",
    )
    .unwrap();
    let caps: Vec<&str> = needs.iter().map(|n| n.capability.as_str()).collect();
    assert_eq!(caps, vec!["dining", "gifts"]);
    assert_eq!(needs[0].question, "Help with 'Dining'.");
    assert_eq!(needs[1].question, "Which gift?");
    assert!(parse_needs("no array here").is_none());
    assert!(parse_needs("[oops").is_none());
    assert!(parse_needs("{\"a\": [1, 2]}").unwrap().is_empty());
    assert!(parse_needs("[\"a\"] and ]").is_none());
}

#[test]
fn market_decomposition_without_capabilities_uses_first_word() {
    let hub = Hub::new();
    let needs = decompose_from_market(&hub, "  Translate this letter");
    assert_eq!(needs.len(), 1);
    assert_eq!(needs[0].capability, "translate");
    assert_eq!(needs[0].question, "  Translate this letter");
    let needs = decompose_from_market(&hub, "   ");
    assert_eq!(needs[0].capability, "help");
}

#[test]
fn market_decomposition_prefers_overlapping_capabilities() {
    let mut hub = Hub::new();
    hub.add_agent(make("A", "unit testing, art, music, poetry, dance"));
    let needs = decompose_from_market(&hub, "Write unit tests");
    assert_eq!(needs.len(), 1);
    assert_eq!(needs[0].capability, "unit testing");
    assert_eq!(needs[0].question, "For the goal 'Write unit tests', help with the 'unit testing' part.");
    let needs = decompose_from_market(&hub, "nothing shared");
    let caps: Vec<String> = needs.into_iter().map(|n| n.capability).collect();
    assert_eq!(caps, vec!["art", "dance", "music", "poetry"]);
}

#[test]
fn needs_span_frames_the_array() {
    assert_eq!(needs_span("x [1] y ] z"), Some("[1] y ]".to_string()));
    assert_eq!(needs_span("no array"), None);
    assert_eq!(needs_span("] before ["), None);
}

#[test]
fn needs_from_json_reads_items() {
    let v = Json::Array(vec![
        Json::Object(vec![("capability".to_string(), Json::Str(" Art ".to_string()))]),
        Json::Object(vec![("question".to_string(), Json::Str("orphan".to_string()))]),
        Json::Str("skip".to_string()),
    ]);
    let needs = needs_from_json(&v).unwrap();
    assert_eq!(needs.len(), 1);
    assert_eq!(needs[0].capability, "art");
    assert_eq!(needs[0].question, "Help with 'Art'.");
    assert!(needs_from_json(&Json::Null).is_none());
}

#[test]
fn assembly_texts() {
    assert_eq!(no_recruit_message("Go", &vec![]), "Couldn't recruit anyone for \"Go\".");
    let hires = vec![Hire {
        name: "Chef".to_string(),
        capability: "cooking".to_string(),
        answer: "Pasta".to_string(),
    }];
    assert_eq!(
        assembly_request("Dinner", &hires, &vec!["music".to_string(), "art".to_string()]),
        "Goal: Dinner\n\nRecruited agents replied:\n- Chef (for cooking): Pasta\n\nStill unmet (no provider on the marketplace): music, art"
    );
}
