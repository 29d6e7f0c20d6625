use hivemind::hub::Hub;
use hivemind::json::Json;
use hivemind::models::{Agent, CreateAgent, EventData, Message};

fn make(name: &str, caps: &str) -> Agent {
    Agent::from_create(CreateAgent {
        name: name.to_string(),
        role: String::new(),
        capabilities: Json::Str(caps.to_string()),
        persona: String::new(),
    })
}

#[test]
fn discovery_ranks_and_excludes_self() {
    let mut hub = Hub::new();
    let lead = hub.add_agent(make("Lead", "planning,coordination"));
    hub.add_agent(make("Foodie", "restaurants,dining,menus"));
    hub.add_agent(make("Scheduler", "calendar,availability"));

    let matches = hub.discover("who knows restaurants and dining", Some(&lead.id));
    assert_eq!(matches.first().map(|a| a.name.as_str()), Some("Foodie"));
    assert!(matches.iter().all(|a| a.id != lead.id), "must exclude the asker");
}

#[test]
fn routing_drains_inbox_once() {
    let mut hub = Hub::new();
    let a = hub.add_agent(make("A", "x"));
    let b = hub.add_agent(make("B", "y"));
    hub.route(Message {
        id: "m1".into(),
        from_id: a.id.clone(),
        to_id: b.id.clone(),
        kind: "request".into(),
        content: "hi".into(),
        task_id: None,
        ts: 0,
    });
    assert_eq!(hub.drain_inbox(&b.id).len(), 1);
    assert_eq!(hub.drain_inbox(&b.id).len(), 0, "inbox should drain");
}

#[test]
fn feed_records_events() {
    let mut hub = Hub::new();
    hub.add_agent(make("A", "x"));
    let types: Vec<String> = hub.history().into_iter().map(|e| e.event_type).collect();
    assert!(types.contains(&"agent_joined".to_string()));
}

#[test]
fn discovery_ranks_by_overlap() {
    let mut hub = Hub::new();
    hub.add_agent(make("Cook", "cooking"));
    hub.add_agent(make("Chef", "cooking,menus"));
    let matches = hub.discover("cooking menus", None);
    let names: Vec<&str> = matches.iter().map(|a| a.name.as_str()).collect();
    assert_eq!(names, vec!["Chef", "Cook"]);
}

#[test]
fn discovery_keeps_join_order_among_ties() {
    let mut hub = Hub::new();
    hub.add_agent(make("First", "baking"));
    hub.add_agent(make("Second", "baking"));
    let matches = hub.discover("baking", None);
    let names: Vec<&str> = matches.iter().map(|a| a.name.as_str()).collect();
    assert_eq!(names, vec!["First", "Second"]);
}

#[test]
fn discovery_ignores_one_letter_words_and_case() {
    let mut hub = Hub::new();
    hub.add_agent(make("Writer", "docs"));
    assert!(hub.discover("a b c", None).is_empty());
    assert_eq!(hub.discover("DOCS please", None).len(), 1);
}

#[test]
fn discovery_announces_the_search() {
    let mut hub = Hub::new();
    let lead = hub.add_agent(make("Lead", "planning"));
    hub.add_agent(make("Foodie", "dining"));
    hub.discover("dining", Some(&lead.id));
    let last = hub.history().pop().unwrap();
    assert_eq!(last.event_type, "search");
    match last.data {
        EventData::Search { query, by, by_name, matches } => {
            assert_eq!(query, "dining");
            assert_eq!(by, Some(lead.id.clone()));
            assert_eq!(by_name, Some("Lead".to_string()));
            assert_eq!(matches.len(), 1);
            assert_eq!(matches[0].name, "Foodie");
        }
        _ => panic!("expected a search event"),
    }
}

#[test]
fn joining_then_getting_and_naming() {
    let mut hub = Hub::new();
    let a = hub.add_agent(make("  Ada  ", "math"));
    assert_eq!(hub.get(&a.id).map(|x| x.name), Some("Ada".to_string()));
    assert_eq!(hub.name_of(&a.id), "Ada");
    assert_eq!(hub.name_of("agent_nobody"), "agent_nobody");
    assert!(hub.get("agent_nobody").is_none());
}

#[test]
fn rejoining_replaces_in_place() {
    let mut hub = Hub::new();
    let mut a = make("Ada", "math");
    a.id = "agent_000001".to_string();
    hub.add_agent(a);
    hub.add_agent(make("Bob", "art"));
    let mut a2 = make("Ada Two", "logic");
    a2.id = "agent_000001".to_string();
    hub.add_agent(a2);
    let roster = hub.agents();
    assert_eq!(roster.len(), 2);
    assert_eq!(hub.name_of("agent_000001"), "Ada Two");
}

#[test]
fn leaving_removes_agent_and_inbox() {
    let mut hub = Hub::new();
    let a = hub.add_agent(make("A", "x"));
    let b = hub.add_agent(make("B", "y"));
    hub.route(Message {
        id: "m1".into(),
        from_id: a.id.clone(),
        to_id: b.id.clone(),
        kind: "request".into(),
        content: "hi".into(),
        task_id: None,
        ts: 0,
    });
    assert!(hub.remove_agent(&b.id));
    assert!(!hub.remove_agent(&b.id));
    assert!(hub.get(&b.id).is_none());
    assert_eq!(hub.drain_inbox(&b.id).len(), 0);
    let last = hub.history().pop().unwrap();
    assert_eq!(last.event_type, "agent_left");
    match last.data {
        EventData::AgentLeft { id, name } => {
            assert_eq!(id, b.id);
            assert_eq!(name, "B");
        }
        _ => panic!("expected an agent_left event"),
    }
}

#[test]
fn routing_names_both_ends_and_touches_sender() {
    let mut hub = Hub::new();
    let mut a = make("A", "x");
    a.last_seen = 0;
    let a = hub.add_agent(a);
    let b = hub.add_agent(make("B", "y"));
    let msg = Message {
        id: "m1".into(),
        from_id: a.id.clone(),
        to_id: b.id.clone(),
        kind: "request".into(),
        content: "hi".into(),
        task_id: Some("task_1".into()),
        ts: 7,
    };
    let back = hub.route(msg);
    assert_eq!(back.content, "hi");
    assert!(hub.get(&a.id).unwrap().last_seen > 0);
    let last = hub.history().pop().unwrap();
    match last.data {
        EventData::MessageSent { message, from_name, to_name } => {
            assert_eq!(message.id, "m1");
            assert_eq!(from_name, "A");
            assert_eq!(to_name, "B");
        }
        _ => panic!("expected a message event"),
    }
    let got = hub.drain_inbox(&b.id);
    assert_eq!(got.len(), 1);
    assert_eq!(got[0].task_id, Some("task_1".to_string()));
}

#[test]
fn feed_keeps_the_most_recent_events() {
    let mut hub = Hub::new();
    for i in 0..(hivemind::hub::MAX_HISTORY + 20) {
        hub.add_agent(make(&format!("agent{i}"), "x"));
    }
    let history = hub.history();
    assert_eq!(history.len(), hivemind::hub::MAX_HISTORY);
    match &history[history.len() - 1].data {
        EventData::AgentJoined { agent } => {
            assert_eq!(agent.name, format!("agent{}", hivemind::hub::MAX_HISTORY + 19))
        }
        _ => panic!("expected agent_joined"),
    }
    assert_eq!(hub.take_outbox().len(), hivemind::hub::MAX_HISTORY + 20);
    assert!(hub.take_outbox().is_empty());
}

#[test]
fn capability_index_is_sorted_and_distinct() {
    let mut hub = Hub::new();
    hub.add_agent(make("A", "menus, dining"));
    hub.add_agent(make("B", "dining,art"));
    assert_eq!(hub.capability_index(), vec!["art", "dining", "menus"]);
}

#[test]
fn agents_are_listed_by_creation_time() {
    let mut hub = Hub::new();
    let mut late = make("Late", "x");
    late.created_at = 200;
    let mut early = make("Early", "y");
    early.created_at = 100;
    let mut tie = make("Tie", "z");
    tie.created_at = 200;
    hub.add_agent(late);
    hub.add_agent(early);
    hub.add_agent(tie);
    let names: Vec<String> = hub.agents().into_iter().map(|a| a.name).collect();
    assert_eq!(names, vec!["Early", "Late", "Tie"]);
}

#[test]
fn event_ids_are_short_and_prefixed() {
    let mut hub = Hub::new();
    hub.add_agent(make("A", "x"));
    let ev = hub.history().pop().unwrap();
    assert!(ev.id.starts_with("evt_"));
    assert_eq!(ev.id.len(), 10);
    assert!(ev.id[4..].chars().all(|c| c.is_ascii_hexdigit() && !c.is_ascii_uppercase()));
}

#[test]
fn drained_messages_come_out_in_arrival_order() {
    let mut hub = Hub::new();
    let a = hub.add_agent(make("A", "x"));
    let b = hub.add_agent(make("B", "y"));
    for (id, text) in [("m1", "first"), ("m2", "second")] {
        hub.route(Message {
            id: id.into(),
            from_id: a.id.clone(),
            to_id: b.id.clone(),
            kind: "request".into(),
            content: text.into(),
            task_id: None,
            ts: 0,
        });
    }
    let out = hub.drain_inbox(&b.id);
    let ids: Vec<&str> = out.iter().map(|m| m.id.as_str()).collect();
    assert_eq!(ids, vec!["m1", "m2"]);
    assert_eq!(out[1].content, "second");
    assert!(hub.drain_inbox(&b.id).is_empty());
    assert!(hub.drain_inbox(&a.id).is_empty());
}

#[test]
fn touching_records_the_time() {
    let mut hub = Hub::new();
    let a = hub.add_agent(make("A", "x"));
    hub.touch_at(&a.id, 42);
    assert_eq!(hub.get(&a.id).unwrap().last_seen, 42);
    hub.touch_at("nobody", 7);
    assert_eq!(hub.agents().len(), 1);
    assert_eq!(hub.get(&a.id).unwrap().last_seen, 42);
    let t = hub.touch(&a.id);
    assert_eq!(hub.get(&a.id).unwrap().last_seen, t);
}

#[test]
fn discovery_ignores_case_and_grows_with_the_query() {
    let mut hub = Hub::new();
    let lead = hub.add_agent(make("Lead", "planning,coordination"));
    hub.add_agent(make("Foodie", "restaurants,dining,menus"));
    hub.add_agent(make("Scheduler", "calendar,availability"));
    let names = |v: Vec<Agent>| v.into_iter().map(|a| a.name).collect::<Vec<String>>();
    let lower = names(hub.discover("restaurants", Some(&lead.id)));
    let upper = names(hub.discover("RESTAURANTS", Some(&lead.id)));
    assert_eq!(lower, vec!["Foodie"]);
    assert_eq!(upper, lower);
    let longer = names(hub.discover("restaurants calendar", Some(&lead.id)));
    assert!(longer.contains(&"Foodie".to_string()));
    assert!(longer.contains(&"Scheduler".to_string()));
    assert!(hub.discover("a ?", Some(&lead.id)).is_empty());
}

#[test]
fn routes_to_others_do_not_mix_into_an_inbox() {
    let mut hub = Hub::new();
    let a = hub.add_agent(make("A", "x"));
    let b = hub.add_agent(make("B", "y"));
    let c = hub.add_agent(make("C", "z"));
    for (id, to) in [("m1", &b.id), ("m2", &c.id), ("m3", &b.id)] {
        hub.route(Message {
            id: id.into(),
            from_id: a.id.clone(),
            to_id: to.clone(),
            kind: "request".into(),
            content: "hi".into(),
            task_id: None,
            ts: 0,
        });
    }
    let to_b: Vec<String> = hub.drain_inbox(&b.id).into_iter().map(|m| m.id).collect();
    assert_eq!(to_b, vec!["m1", "m3"]);
    let to_c: Vec<String> = hub.drain_inbox(&c.id).into_iter().map(|m| m.id).collect();
    assert_eq!(to_c, vec!["m2"]);
}

#[test]
fn routing_at_a_time_records_the_sender_seen() {
    let mut hub = Hub::new();
    let a = hub.add_agent(make("A", "x"));
    let b = hub.add_agent(make("B", "y"));
    let before_b = hub.get(&b.id).unwrap().last_seen;
    hub.route_at(
        Message {
            id: "m1".into(),
            from_id: a.id.clone(),
            to_id: b.id.clone(),
            kind: "request".into(),
            content: "hi".into(),
            task_id: None,
            ts: 0,
        },
        77,
    );
    assert_eq!(hub.get(&a.id).unwrap().last_seen, 77);
    assert_eq!(hub.get(&b.id).unwrap().last_seen, before_b);
    assert_eq!(hub.drain_inbox(&b.id).len(), 1);
}
