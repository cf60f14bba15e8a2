use rsenv::codec::{decode, encode, render_env};
use rsenv::environment::Environment;
use rsenv::errors::Error;

fn env_of(pairs: &[(&str, &str)]) -> Environment {
    let mut e = Environment::new();
    for (k, v) in pairs {
        e.set_var(k.to_string(), v.to_string());
    }
    e
}

#[test]
fn decode_two_variables_in_order() {
    let e = decode("FOO=bar\nBAZ=qux").unwrap();
    assert_eq!(e.vars.len(), 2);
    assert_eq!(e.vars[0].0, "FOO");
    assert_eq!(e.vars[0].1, "bar");
    assert_eq!(e.vars[1].0, "BAZ");
    assert_eq!(e.vars[1].1, "qux");
}

#[test]
fn decode_duplicate_key_last_value_wins() {
    let e = decode("X=1\nX=2").unwrap();
    assert_eq!(e.vars.len(), 1);
    assert_eq!(e.vars[0].0, "X");
    assert_eq!(e.vars[0].1, "2");
}

#[test]
fn decode_skips_blank_and_comment_lines() {
    let e = decode("# a comment\n\n   \t\nA=1\n! another\nB=2\n").unwrap();
    assert_eq!(e.vars.len(), 2);
    assert_eq!(e.vars[0].0, "A");
    assert_eq!(e.vars[0].1, "1");
    assert_eq!(e.vars[1].0, "B");
    assert_eq!(e.vars[1].1, "2");
}

#[test]
fn decode_empty_text_gives_empty_environment() {
    let e = decode("").unwrap();
    assert_eq!(e.vars.len(), 0);
}

#[test]
fn decode_crlf_line_endings() {
    let e = decode("A=1\r\nB=2\r\n").unwrap();
    assert_eq!(e.vars.len(), 2);
    assert_eq!(e.vars[0].0, "A");
    assert_eq!(e.vars[1].0, "B");
}

#[test]
fn decode_empty_value_is_kept() {
    let e = decode("K=").unwrap();
    assert_eq!(e.vars.len(), 1);
    assert_eq!(e.vars[0].0, "K");
    assert_eq!(e.vars[0].1, "");
}

#[test]
fn decode_value_may_hold_equals_signs() {
    let e = decode("K=a=b=c").unwrap();
    assert_eq!(e.vars.len(), 1);
    assert_eq!(e.vars[0].1, "a=b=c");
}

#[test]
fn decode_line_without_equals_is_malformed() {
    assert_eq!(decode("just some words").unwrap_err(), Error::DecodeError);
}

#[test]
fn decode_empty_key_is_malformed() {
    assert_eq!(decode("=value").unwrap_err(), Error::DecodeError);
}

#[test]
fn encode_writes_one_line_per_variable() {
    let e = env_of(&[("FOO", "bar"), ("BAZ", "qux")]);
    assert_eq!(encode(&e), "FOO=bar\nBAZ=qux\n");
}

#[test]
fn encode_empty_environment_is_empty_text() {
    let e = Environment::new();
    assert_eq!(encode(&e), "");
}

#[test]
fn round_trip_preserves_keys_values_and_order() {
    let e = env_of(&[("FOO", "bar"), ("BAZ", "qux"), ("EMPTY", "")]);
    let back = decode(&encode(&e)).unwrap();
    assert_eq!(back.vars, e.vars);
}

#[test]
fn round_trip_value_with_spaces_and_equals() {
    let e = env_of(&[("A", "x y = z"), ("B", "  lead and trail  ")]);
    let back = decode(&encode(&e)).unwrap();
    assert_eq!(back.vars, e.vars);
}

#[test]
fn render_shows_key_space_equals_space_value() {
    let e = env_of(&[("FOO", "bar"), ("BAZ", "qux")]);
    assert_eq!(render_env(&e), "FOO = bar\nBAZ = qux\n");
}

#[test]
fn set_var_overwrites_in_place_and_get_finds_it() {
    let mut e = env_of(&[("A", "1"), ("B", "2")]);
    e.set_var("A".to_string(), "9".to_string());
    assert_eq!(e.len(), 2);
    assert_eq!(e.vars[0].1, "9");
    assert_eq!(e.get("A"), Some("9".to_string()));
    assert_eq!(e.get("B"), Some("2".to_string()));
    assert_eq!(e.get("C"), None);
}
