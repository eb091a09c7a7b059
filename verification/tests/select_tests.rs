use story_graph::select::{parse_weight, resolve, SelectError};
use story_graph::story::LinkProbabilityPair;

fn pair(link: &str, probability: &str) -> LinkProbabilityPair {
    LinkProbabilityPair { link: link.to_string(), probability: probability.to_string() }
}

#[test]
fn parse_weight_reads_plain_decimals() {
    assert_eq!(parse_weight("0"), Some(0));
    assert_eq!(parse_weight("1"), Some(1));
    assert_eq!(parse_weight("42"), Some(42));
    assert_eq!(parse_weight("4294967295"), Some(u32::MAX));
}

#[test]
fn parse_weight_rejects_bad_text() {
    assert_eq!(parse_weight(""), None);
    assert_eq!(parse_weight("-1"), None);
    assert_eq!(parse_weight("ten"), None);
    assert_eq!(parse_weight("1.5"), None);
    assert_eq!(parse_weight(" 2"), None);
    assert_eq!(parse_weight("4294967296"), None);
}

#[test]
fn resolve_never_picks_a_zero_weight_option() {
    let options = vec![pair("a", "1"), pair("b", "0")];
    for _ in 0..200 {
        let picked = resolve(&options).expect("a positive total must resolve");
        assert_eq!(picked, "a");
    }
}

#[test]
fn resolve_reports_the_first_unparseable_weight() {
    let options = vec![pair("a", "1"), pair("b", "soon"), pair("c", "2")];
    assert!(matches!(
        resolve(&options),
        Err(SelectError::Config { option_index: 1 })
    ));
}

#[test]
fn resolve_rejects_an_all_zero_weight_set() {
    let options = vec![pair("a", "0"), pair("b", "0")];
    assert!(matches!(resolve(&options), Err(SelectError::Distribution)));
}

#[test]
fn resolve_rejects_an_empty_option_set() {
    let options: Vec<LinkProbabilityPair> = vec![];
    assert!(matches!(resolve(&options), Err(SelectError::Distribution)));
}

#[test]
fn resolve_follows_the_declared_weights() {
    // Weights [1, 3]: the second option carries 75% of the mass. Over
    // 10,000 draws the observed share must land within 2% of that.
    let options = vec![pair("a", "1"), pair("b", "3")];
    let n = 10_000;
    let mut second = 0;
    for _ in 0..n {
        let picked = resolve(&options).expect("a positive total must resolve");
        if picked == "b" {
            second += 1;
        } else {
            assert_eq!(picked, "a");
        }
    }
    assert!(second >= 7300, "second option drawn only {} times of {}", second, n);
    assert!(second <= 7700, "second option drawn {} times of {}", second, n);
}
