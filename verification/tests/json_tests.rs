use story_graph::json::{load, parse_story, to_json, LoadError};
use story_graph::story::{Choice, Link, LinkProbabilityPair, StoryMap};
use story_graph::validate::validate;

fn pair(link: &str, probability: &str) -> LinkProbabilityPair {
    LinkProbabilityPair { link: link.to_string(), probability: probability.to_string() }
}

fn choice(description: &str, options: Vec<LinkProbabilityPair>) -> Choice {
    Choice { description: description.to_string(), options }
}

fn link(id: &str, description: &str, choices: Vec<Choice>) -> Link {
    Link { id: id.to_string(), description: description.to_string(), choices }
}

fn small_story() -> StoryMap {
    StoryMap {
        id: "s1".to_string(),
        name: "Trip".to_string(),
        description: "a trip".to_string(),
        init_link_id: "start".to_string(),
        links: vec![
            link(
                "start",
                "you stand at a fork",
                vec![choice(
                    "which way?",
                    vec![pair("end", "1"), pair("start", "3")],
                )],
            ),
            link("end", "you arrive", vec![]),
        ],
    }
}

const SMALL_STORY_TEXT: &str = "{\"id\":\"s1\",\"name\":\"Trip\",\"description\":\"a trip\",\"init_link_id\":\"start\",\"links\":[{\"id\":\"start\",\"description\":\"you stand at a fork\",\"choices\":[{\"description\":\"which way?\",\"options\":[{\"link\":\"end\",\"probability\":\"1\"},{\"link\":\"start\",\"probability\":\"3\"}]}]},{\"id\":\"end\",\"description\":\"you arrive\",\"choices\":[]}]}";

#[test]
fn to_json_emits_the_canonical_text() {
    assert_eq!(to_json(&small_story()), SMALL_STORY_TEXT);
}

#[test]
fn load_reads_the_canonical_text_back() {
    let m = load(SMALL_STORY_TEXT).expect("canonical text must load");
    assert_eq!(m.id, "s1");
    assert_eq!(m.name, "Trip");
    assert_eq!(m.description, "a trip");
    assert_eq!(m.init_link_id, "start");
    assert_eq!(m.links.len(), 2);
    assert_eq!(m.links[0].id, "start");
    assert_eq!(m.links[0].choices.len(), 1);
    assert_eq!(m.links[0].choices[0].description, "which way?");
    assert_eq!(m.links[0].choices[0].options.len(), 2);
    assert_eq!(m.links[0].choices[0].options[0].link, "end");
    assert_eq!(m.links[0].choices[0].options[0].probability, "1");
    assert_eq!(m.links[0].choices[0].options[1].link, "start");
    assert_eq!(m.links[0].choices[0].options[1].probability, "3");
    assert_eq!(m.links[1].id, "end");
    assert!(m.links[1].choices.is_empty());
}

#[test]
fn quotes_and_backslashes_survive_a_round_trip() {
    let mut s = small_story();
    s.name = "a \"quoted\" name with a \\ in it".to_string();
    s.links[0].description = "say \\\"hi\\\"".to_string();
    let text = to_json(&s);
    let m = load(&text).expect("escaped text must load");
    assert_eq!(m.name, s.name);
    assert_eq!(m.links[0].description, s.links[0].description);
}

#[test]
fn a_loaded_story_serializes_to_the_text_it_came_from() {
    let m = load(SMALL_STORY_TEXT).expect("canonical text must load");
    assert_eq!(to_json(&m), SMALL_STORY_TEXT);
}

#[test]
fn reloading_a_serialized_story_validates_identically() {
    // A valid story stays valid across the round trip.
    let s = small_story();
    let m = load(&to_json(&s)).expect("canonical text must load");
    assert_eq!(validate(&s).is_ok(), validate(&m).is_ok());
    assert!(validate(&m).is_ok());
    // An invalid one is refused the same way on reload: the fold of
    // validation into loading reports it as a validation failure.
    let mut bad = small_story();
    bad.init_link_id = "ghost".to_string();
    assert!(validate(&bad).is_err());
    assert!(matches!(load(&to_json(&bad)), Err(LoadError::Validation(_))));
    let m2 = parse_story(&to_json(&bad)).expect("canonical text must parse");
    assert_eq!(validate(&bad).is_ok(), validate(&m2).is_ok());
}

#[test]
fn load_rejects_malformed_documents() {
    assert!(load("").is_err());
    assert!(load("{}").is_err());
    assert!(load("{\"id\":\"s1\"}").is_err());
    // Truncated document.
    let text = SMALL_STORY_TEXT;
    assert!(load(&text[..text.len() - 1]).is_err());
    // Trailing whitespace is tolerated; trailing garbage is not.
    let mut with_ws = text.to_string();
    with_ws.push(' ');
    assert!(load(&with_ws).is_ok());
    let mut with_tail = text.to_string();
    with_tail.push('x');
    assert!(load(&with_tail).is_err());
    // A stray escape.
    assert!(load(&text.replace("a trip", "a \\xtrip")).is_err());
}

#[test]
fn text_outside_ascii_survives_a_round_trip() {
    let mut s = small_story();
    s.name = "caf\u{e9} \u{2615} na\u{ef}ve".to_string();
    s.links[1].description = "\u{1f3d6} the shore".to_string();
    let text = to_json(&s);
    let m = load(&text).expect("text outside ascii must load");
    assert_eq!(m.name, s.name);
    assert_eq!(m.links[1].description, s.links[1].description);
    assert_eq!(to_json(&m), text);
}

#[test]
fn empty_links_and_empty_strings_round_trip() {
    let s = StoryMap {
        id: "".to_string(),
        name: "".to_string(),
        description: "".to_string(),
        init_link_id: "".to_string(),
        links: vec![],
    };
    let text = to_json(&s);
    assert_eq!(
        text,
        "{\"id\":\"\",\"name\":\"\",\"description\":\"\",\"init_link_id\":\"\",\"links\":[]}"
    );
    // The empty story parses, but its entry link resolves to nothing, so
    // loading refuses it as structurally invalid.
    let m = parse_story(&text).expect("the empty story must parse");
    assert!(m.links.is_empty());
    assert_eq!(m.id, "");
    assert!(matches!(load(&text), Err(LoadError::Validation(_))));
}

#[test]
fn whitespace_between_tokens_is_accepted() {
    let spaced = "{ \"id\" : \"s1\" ,\n  \"name\": \"Trip\",\t\"description\" : \"a trip\",\r\n  \"init_link_id\": \"start\",\n  \"links\": [ { \"id\": \"start\", \"description\": \"you stand at a fork\", \"choices\": [ { \"description\": \"which way?\", \"options\": [ { \"link\": \"end\", \"probability\": \"1\" } , { \"link\": \"start\", \"probability\": \"3\" } ] } ] } , { \"id\": \"end\", \"description\": \"you arrive\", \"choices\": [ ] } ] }\n";
    let m = load(spaced).expect("whitespace between tokens must be accepted");
    assert_eq!(m.id, "s1");
    assert_eq!(m.init_link_id, "start");
    assert_eq!(m.links.len(), 2);
    assert_eq!(m.links[0].choices[0].options[1].probability, "3");
    // The same document re-serializes to the canonical, whitespace-free text.
    assert_eq!(to_json(&m), SMALL_STORY_TEXT);
}

#[test]
fn standard_string_escapes_are_accepted() {
    let text = SMALL_STORY_TEXT.replace("Trip", "a\\nb\\tc\\u0041\\/d\\u000a");
    let m = load(&text).expect("standard escapes must be accepted");
    assert_eq!(m.name, "a\nb\tc" .to_string() + "A/d\n");
}

#[test]
fn control_characters_are_emitted_escaped() {
    let mut s = small_story();
    s.name = "line one\nline two\u{1}".to_string();
    let text = to_json(&s);
    assert!(text.contains("line one\\u000aline two\\u0001"));
    let m = load(&text).expect("the emitted text must load");
    assert_eq!(m.name, s.name);
}

#[test]
fn surrogate_pair_escapes_combine_into_one_character() {
    let text = SMALL_STORY_TEXT.replace("Trip", "\\uD83D\\uDE00!");
    let m = load(&text).expect("a surrogate pair must be accepted");
    assert_eq!(m.name, "\u{1F600}!");
}

#[test]
fn lone_surrogate_escapes_are_rejected() {
    let text = SMALL_STORY_TEXT.replace("Trip", "\\ud800");
    assert!(load(&text).is_err());
    let low_first = SMALL_STORY_TEXT.replace("Trip", "\\udc00\\ud800");
    assert!(load(&low_first).is_err());
}
