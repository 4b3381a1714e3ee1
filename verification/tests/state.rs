use kkc_plugins::json::{get_text, get_unsigned};
use kkc_plugins::state::{parse_state, put_text, state_u, write_state};

#[test]
fn only_objects_are_states() {
    assert_eq!(write_state(&parse_state("")), "{}");
    assert_eq!(write_state(&parse_state("  \n")), "{}");
    assert_eq!(write_state(&parse_state("[1]")), "{}");
    assert_eq!(write_state(&parse_state("{")), "{}");
    assert_eq!(write_state(&parse_state(" {\"a\" : null} ")), "{\"a\":null}");
}

#[test]
fn indices_are_numbers_or_texts() {
    let state = parse_state("{\"a\":3,\"b\":\"4\",\"c\":-1,\"d\":1.5,\"e\":\"x\",\"f\":null}");
    assert_eq!(state_u(&state, "a", 9), 3);
    assert_eq!(state_u(&state, "b", 9), 4);
    for key in ["c", "d", "e", "f", "g"] {
        assert_eq!(state_u(&state, key, 9), 9);
    }
    assert_eq!(get_unsigned(&state, "a"), Some(3));
    assert_eq!(get_unsigned(&state, "b"), None);
    assert_eq!(get_text(&state, "b"), Some("4"));
    assert_eq!(get_text(&state, "a"), None);
}

#[test]
fn stored_texts_are_read_again() {
    let mut state = parse_state("{\"keep\":[1,2],\"k\":true}");
    put_text(&mut state, "k", "12");
    assert_eq!(state_u(&state, "k", 0), 12);
    let text = write_state(&state);
    assert_eq!(text, "{\"k\":\"12\",\"keep\":[1,2]}");
    assert_eq!(state_u(&parse_state(&text), "k", 0), 12);
    put_text(&mut state, "odd \"key\"", "\u{1}\\");
    let again = parse_state(&write_state(&state));
    assert_eq!(get_text(&again, "odd \"key\""), Some("\u{1}\\"));
}

#[test]
fn other_fields_survive() {
    let raw = "{\"n\":18446744073709551615,\"i\":-9223372036854775808,\"b\":true,\"z\":null,\"l\":[1,{\"x\":-2}]}";
    let state = parse_state(raw);
    let again = parse_state(&write_state(&state));
    assert_eq!(again, state);
    assert_eq!(get_unsigned(&again, "n"), Some(u64::MAX));
    assert_eq!(write_state(&parse_state("{\"f\":5.0}")), "{\"f\":5.0}");
    assert_eq!(write_state(&parse_state("{\"f\":1e30}")), "{\"f\":1e+30}");
}

#[test]
fn every_key_is_an_ordinary_key() {
    for key in ["$serde_json::private::RawValue", "$serde_json::private::Number"] {
        let raw = format!("{{\"{key}\":\"[1]\"}}");
        let mut state = parse_state(&raw);
        assert_eq!(get_text(&state, key), Some("[1]"));
        put_text(&mut state, "a", "1");
        put_text(&mut state, key, "no json");
        let again = parse_state(&write_state(&state));
        assert_eq!(get_text(&again, key), Some("no json"));
        assert_eq!(state_u(&again, "a", 0), 1);
    }
}
