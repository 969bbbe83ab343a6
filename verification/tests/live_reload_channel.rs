use mace::live_reload::{handle_live_reload_response, LiveReloadOutcome};

fn chars(s: &str) -> Vec<char> {
    s.chars().collect()
}

fn string_of(v: &[char]) -> String {
    v.iter().collect()
}

const MARKER: &str = "$$$file_change$$$";

#[test]
fn foreign_responses_are_forwarded() {
    let r = handle_live_reload_response(5, 9, &chars("whatever"), &chars(MARKER));
    assert!(matches!(r, LiveReloadOutcome::Forward));
}

#[test]
fn a_well_formed_body_splits_into_name_and_content() {
    let body = format!("src/main.rs{}fn main() {{}}", MARKER);
    let r = handle_live_reload_response(9, 9, &chars(&body), &chars(MARKER));
    match r {
        LiveReloadOutcome::Consumed(Some(change)) => {
            assert_eq!(string_of(&change.file_name), "src/main.rs".to_string());
            assert_eq!(string_of(&change.content), "fn main() {}".to_string());
        }
        _ => panic!("the channel's own response must be consumed with a change"),
    }
}

#[test]
fn an_empty_body_is_consumed_without_a_change() {
    let r = handle_live_reload_response(9, 9, &chars(""), &chars(MARKER));
    assert!(matches!(r, LiveReloadOutcome::Consumed(None)));
}

#[test]
fn a_markerless_body_is_consumed_without_a_change() {
    let r = handle_live_reload_response(9, 9, &chars("garbled"), &chars(MARKER));
    assert!(matches!(r, LiveReloadOutcome::Consumed(None)));
}

#[test]
fn the_split_takes_the_first_marker() {
    let body = format!("a{}b{}c", MARKER, MARKER);
    let r = handle_live_reload_response(9, 9, &chars(&body), &chars(MARKER));
    match r {
        LiveReloadOutcome::Consumed(Some(change)) => {
            assert_eq!(string_of(&change.file_name), "a".to_string());
            assert_eq!(string_of(&change.content), format!("b{}c", MARKER));
        }
        _ => panic!("expected a change"),
    }
}
