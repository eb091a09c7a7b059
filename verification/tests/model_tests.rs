use story_graph::story::{find_link, get_story_file_path, Choice, Link, LinkProbabilityPair, StoryMap};
use story_graph::validate::{validate, ValidationError};

fn pair(link: &str, probability: &str) -> LinkProbabilityPair {
    LinkProbabilityPair { link: link.to_string(), probability: probability.to_string() }
}

fn choice(description: &str, options: Vec<LinkProbabilityPair>) -> Choice {
    Choice { description: description.to_string(), options }
}

fn link(id: &str, description: &str, choices: Vec<Choice>) -> Link {
    Link { id: id.to_string(), description: description.to_string(), choices }
}

fn story(init: &str, links: Vec<Link>) -> StoryMap {
    StoryMap {
        id: "story-1".to_string(),
        name: "A Story".to_string(),
        description: "a test story".to_string(),
        init_link_id: init.to_string(),
        links,
    }
}

#[test]
fn find_link_returns_position_of_matching_id() {
    let links = vec![
        link("start", "the start", vec![]),
        link("middle", "the middle", vec![]),
        link("end", "the end", vec![]),
    ];
    assert_eq!(find_link(&links, &"start".to_string()), Some(0));
    assert_eq!(find_link(&links, &"middle".to_string()), Some(1));
    assert_eq!(find_link(&links, &"end".to_string()), Some(2));
}

#[test]
fn find_link_signals_absence() {
    let links = vec![link("start", "the start", vec![])];
    assert_eq!(find_link(&links, &"missing".to_string()), None);
    assert_eq!(find_link(&vec![], &"start".to_string()), None);
}

#[test]
fn find_link_returns_first_match_among_duplicates() {
    let links = vec![
        link("a", "first", vec![]),
        link("dup", "second", vec![]),
        link("dup", "third", vec![]),
    ];
    assert_eq!(find_link(&links, &"dup".to_string()), Some(1));
}

#[test]
fn story_file_path_is_under_story_maps() {
    let p = get_story_file_path(&"vacation_test_story.json".to_string());
    assert_eq!(p, "story_maps/vacation_test_story.json");
}

#[test]
fn validate_accepts_a_well_formed_story() {
    let s = story(
        "start",
        vec![
            link(
                "start",
                "you are here",
                vec![choice("go?", vec![pair("end", "1"), pair("start", "3")])],
            ),
            link("end", "done", vec![]),
        ],
    );
    assert!(validate(&s).is_ok());
}

#[test]
fn validate_rejects_missing_init_link() {
    let s = story("nowhere", vec![link("start", "x", vec![])]);
    assert!(matches!(s_err(&s), ValidationError::MissingInitLink));
}

#[test]
fn validate_rejects_dangling_option_target() {
    let s = story(
        "start",
        vec![link("start", "x", vec![choice("c", vec![pair("ghost", "1")])])],
    );
    assert!(matches!(
        s_err(&s),
        ValidationError::DanglingOptionTarget { link_index: 0, choice_index: 0, option_index: 0 }
    ));
}

#[test]
fn validate_rejects_duplicate_link_ids() {
    let s = story(
        "start",
        vec![link("start", "x", vec![]), link("start", "y", vec![])],
    );
    assert!(matches!(s_err(&s), ValidationError::DuplicateLinkId { link_index: 1 }));
}

#[test]
fn validate_rejects_choice_without_options() {
    let s = story("start", vec![link("start", "x", vec![choice("c", vec![])])]);
    assert!(matches!(
        s_err(&s),
        ValidationError::EmptyOrZeroWeightChoice { link_index: 0, choice_index: 0 }
    ));
}

#[test]
fn validate_rejects_all_zero_weights() {
    let s = story(
        "start",
        vec![
            link(
                "start",
                "x",
                vec![choice("c", vec![pair("end", "0"), pair("end", "0")])],
            ),
            link("end", "y", vec![]),
        ],
    );
    assert!(matches!(
        s_err(&s),
        ValidationError::EmptyOrZeroWeightChoice { link_index: 0, choice_index: 0 }
    ));
}

#[test]
fn validate_rejects_unparseable_weight() {
    let s = story(
        "start",
        vec![
            link("start", "x", vec![choice("c", vec![pair("end", "lots")])]),
            link("end", "y", vec![]),
        ],
    );
    assert!(matches!(
        s_err(&s),
        ValidationError::EmptyOrZeroWeightChoice { link_index: 0, choice_index: 0 }
    ));
}

fn s_err(s: &StoryMap) -> ValidationError {
    match validate(s) {
        Ok(()) => panic!("expected a validation error"),
        Err(e) => e,
    }
}
