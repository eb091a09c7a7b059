use story_graph::engine::{accept_index, advance, begin, observe, EngineError, PlayerPosition};
use story_graph::story::{Choice, Link, LinkProbabilityPair, StoryMap};

fn pair(link: &str, probability: &str) -> LinkProbabilityPair {
    LinkProbabilityPair { link: link.to_string(), probability: probability.to_string() }
}

fn choice(description: &str, options: Vec<LinkProbabilityPair>) -> Choice {
    Choice { description: description.to_string(), options }
}

fn link(id: &str, description: &str, choices: Vec<Choice>) -> Link {
    Link { id: id.to_string(), description: description.to_string(), choices }
}

fn story(init: &str, links: Vec<Link>) -> StoryMap {
    StoryMap {
        id: "story-1".to_string(),
        name: "A Story".to_string(),
        description: "a test story".to_string(),
        init_link_id: init.to_string(),
        links,
    }
}

fn active_id(p: &PlayerPosition) -> Option<String> {
    match p {
        PlayerPosition::Active { link_id } => Some(link_id.clone()),
        PlayerPosition::Ended => None,
    }
}

#[test]
fn begin_starts_at_the_init_link() {
    let s = story("start", vec![link("start", "x", vec![])]);
    let p = begin(&s);
    assert_eq!(active_id(&p), Some("start".to_string()));
}

#[test]
fn a_story_with_one_terminal_link_ends_without_any_input_request() {
    // The whole playthrough: begin, observe once, ended. No choice is ever
    // requested because observe hands out no link index.
    let s = story("start", vec![link("start", "the only scene", vec![])]);
    let mut p = begin(&s);
    let r = observe(&s, &mut p);
    assert!(matches!(r, Ok(None)));
    assert!(matches!(p, PlayerPosition::Ended));
}

#[test]
fn a_terminal_link_always_ends_traversal_however_it_was_reached() {
    let s = story(
        "start",
        vec![
            link("start", "x", vec![choice("go", vec![pair("end", "1")])]),
            link("end", "y", vec![]),
        ],
    );
    // Reached from the start link through a choice.
    let mut p = begin(&s);
    assert!(matches!(observe(&s, &mut p), Ok(Some(0))));
    advance(&s, &mut p, 1).expect("the only option must resolve");
    assert_eq!(active_id(&p), Some("end".to_string()));
    assert!(matches!(observe(&s, &mut p), Ok(None)));
    assert!(matches!(p, PlayerPosition::Ended));
    // Reached directly as the entry link.
    let s2 = story("end", vec![link("end", "y", vec![])]);
    let mut p2 = begin(&s2);
    assert!(matches!(observe(&s2, &mut p2), Ok(None)));
    assert!(matches!(p2, PlayerPosition::Ended));
}

#[test]
fn an_ended_position_stays_ended() {
    let s = story("start", vec![link("start", "x", vec![])]);
    let mut p = PlayerPosition::Ended;
    assert!(matches!(observe(&s, &mut p), Ok(None)));
    assert!(matches!(p, PlayerPosition::Ended));
}

#[test]
fn observe_reports_an_unresolvable_link_as_an_integrity_fault() {
    let s = story("ghost", vec![link("start", "x", vec![])]);
    let mut p = begin(&s);
    match observe(&s, &mut p) {
        Err(EngineError::Integrity { link_id }) => assert_eq!(link_id, "ghost"),
        other => panic!("expected an integrity fault, got {:?}", other.is_ok()),
    }
    // The position is untouched by the fault.
    assert_eq!(active_id(&p), Some("ghost".to_string()));
}

#[test]
fn accept_index_admits_exactly_the_closed_range() {
    assert!(!accept_index(2, Some(0)));
    assert!(accept_index(2, Some(1)));
    assert!(accept_index(2, Some(2)));
    assert!(!accept_index(2, Some(3)));
    assert!(!accept_index(2, None));
    assert!(!accept_index(0, Some(1)));
}

#[test]
fn selecting_the_choice_always_yields_the_positive_weight_target() {
    // Options [a with weight 1, b with weight 0]: the draw can only land
    // on a.
    let s = story(
        "start",
        vec![
            link(
                "start",
                "x",
                vec![choice("go", vec![pair("a", "1"), pair("b", "0")])],
            ),
            link("a", "ya", vec![]),
            link("b", "yb", vec![]),
        ],
    );
    for _ in 0..100 {
        let mut p = begin(&s);
        assert!(matches!(observe(&s, &mut p), Ok(Some(0))));
        advance(&s, &mut p, 1).expect("weight one must resolve");
        assert_eq!(active_id(&p), Some("a".to_string()));
        assert!(matches!(observe(&s, &mut p), Ok(None)));
        assert!(matches!(p, PlayerPosition::Ended));
    }
}

#[test]
fn a_dangling_target_reached_without_validation_is_a_fatal_fault() {
    // The story was never validated: the only option leads nowhere. The
    // step itself resolves, and the next inspection stops with an
    // integrity fault instead of ending silently.
    let s = story(
        "start",
        vec![link("start", "x", vec![choice("go", vec![pair("ghost", "1")])])],
    );
    let mut p = begin(&s);
    assert!(matches!(observe(&s, &mut p), Ok(Some(0))));
    advance(&s, &mut p, 1).expect("the only option must resolve");
    assert_eq!(active_id(&p), Some("ghost".to_string()));
    match observe(&s, &mut p) {
        Err(EngineError::Integrity { link_id }) => assert_eq!(link_id, "ghost"),
        other => panic!("expected an integrity fault, got {:?}", other.is_ok()),
    }
}

#[test]
fn advance_leaves_the_position_alone_on_selection_errors() {
    let s = story(
        "start",
        vec![link("start", "x", vec![choice("go", vec![pair("start", "zero")])])],
    );
    let mut p = begin(&s);
    assert!(matches!(observe(&s, &mut p), Ok(Some(0))));
    assert!(advance(&s, &mut p, 1).is_err());
    assert_eq!(active_id(&p), Some("start".to_string()));
}
