use uma_helper::matching::{
    match_events_with_text, rank_candidates, AppState, Choice, EventMatch, JsonEvent, MatchKind,
};

fn choice(text: &str, number: &str) -> Choice {
    Choice { text: text.to_string(), number: number.to_string(), outcome: "Speed +10".to_string() }
}

fn event(name: &str, choices: Vec<Choice>) -> JsonEvent {
    JsonEvent {
        name: name.to_string(),
        character_name: "Special Week".to_string(),
        relation_type: "Support".to_string(),
        choices,
    }
}

fn candidate(index: usize, confidence: u32) -> EventMatch {
    EventMatch {
        event_index: index,
        match_confidence: confidence,
        match_type: MatchKind::EventName,
        matched_text: format!("event {}", index),
    }
}

#[test]
fn catalog_holds_events() {
    let state = AppState::new(vec![event("Speed Training", vec![])]);
    assert_eq!(state.events.len(), 1);
    assert_eq!(state.events[0].name, "Speed Training");
}

#[test]
fn exact_name_match() {
    let events = vec![event("Speed Training", vec![choice("Work hard", "1")])];
    let result = match_events_with_text("Speed Training!!", &events);
    assert!(!result.is_empty());
    assert_eq!(result[0].event_index, 0);
    assert_eq!(result[0].match_confidence, 1_000_000);
    assert_eq!(result[0].match_type, MatchKind::EventName);
    assert_eq!(result[0].matched_text, "Speed Training");
}

#[test]
fn exact_choice_match() {
    let events = vec![event(
        "Extra Training",
        vec![choice("Let's keep going!", "1"), choice("Take a break", "2")],
    )];
    let result = match_events_with_text("take a break", &events);
    assert_eq!(result[0].match_type, MatchKind::ChoiceText);
    assert_eq!(result[0].match_confidence, 1_000_000);
    assert_eq!(result[0].matched_text, "Take a break");
}

#[test]
fn ranking_order_descending() {
    let ranked = rank_candidates(vec![candidate(0, 900_000), candidate(1, 750_000), candidate(2, 950_000)]);
    let order: Vec<usize> = ranked.iter().map(|m| m.event_index).collect();
    assert_eq!(order, vec![2, 0, 1]);
}

#[test]
fn ranking_ties_keep_catalog_order() {
    let ranked = rank_candidates(vec![
        candidate(0, 700_000),
        candidate(1, 800_000),
        candidate(2, 700_000),
        candidate(3, 800_000),
    ]);
    let order: Vec<usize> = ranked.iter().map(|m| m.event_index).collect();
    assert_eq!(order, vec![1, 3, 0, 2]);
}

#[test]
fn truncation_to_five() {
    let events: Vec<JsonEvent> = (0..8).map(|_| event("Speed Training", vec![])).collect();
    let result = match_events_with_text("speed training", &events);
    assert_eq!(result.len(), 5);
    let order: Vec<usize> = result.iter().map(|m| m.event_index).collect();
    assert_eq!(order, vec![0, 1, 2, 3, 4]);
}

#[test]
fn partial_name_fallback() {
    // The whole name scores below the whole-match bar; every query word
    // matches a word of the name exactly.
    let events = vec![event("Camp Summer", vec![choice("Camp Summer", "1")])];
    let result = match_events_with_text("Summer Camp", &events);
    assert_eq!(result.len(), 1);
    assert_eq!(result[0].match_type, MatchKind::PartialEventName);
    assert_eq!(result[0].match_confidence, 1_000_000);
    assert_eq!(result[0].matched_text, "Camp Summer");
}

#[test]
fn partial_fallback_needs_the_partial_bar() {
    // Only half of the query words match: the word-level score is 0.5.
    let events = vec![event("Camp Summer", vec![])];
    let result = match_events_with_text("xq camp", &events);
    assert!(result.is_empty());
}

#[test]
fn empty_query_finds_nothing() {
    let events = vec![event("Speed Training", vec![choice("", "1")]), event("!!!", vec![])];
    assert!(match_events_with_text("", &events).is_empty());
    assert!(match_events_with_text("?!...", &events).is_empty());
}

#[test]
fn unrelated_text_finds_nothing() {
    let events = vec![event("Speed Training", vec![choice("Work hard", "1")])];
    assert!(match_events_with_text("xq zv", &events).is_empty());
}

#[test]
fn match_kind_tags() {
    assert_eq!(MatchKind::EventName.as_str(), "event_name");
    assert_eq!(MatchKind::ChoiceText.as_str(), "choice_text");
    assert_eq!(MatchKind::PartialEventName.as_str(), "partial_event_name");
}
