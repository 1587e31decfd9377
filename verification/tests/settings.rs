use webp_batch::config::{get_output_path, parse_config, render_unset, set_output_path};
use webp_batch::greet;

#[test]
fn set_then_get_returns_the_path() {
    let record = set_output_path("/tmp/out");
    assert_eq!(record, "{\"output_path\":\"/tmp/out\"}");
    assert_eq!(get_output_path(Some(record.as_str())), Ok(String::from("/tmp/out")));
}

#[test]
fn get_before_any_set_is_empty_not_an_error() {
    assert_eq!(get_output_path(None), Ok(String::new()));
}

#[test]
fn null_record_reads_as_empty() {
    let record = render_unset();
    assert_eq!(record, "{\"output_path\":null}");
    assert_eq!(get_output_path(Some(record.as_str())), Ok(String::new()));
}

#[test]
fn awkward_characters_round_trip() {
    let value = "C:\\out dir\\\"quoted\"";
    let record = set_output_path(value);
    assert_eq!(get_output_path(Some(record.as_str())), Ok(String::from(value)));
}

#[test]
fn malformed_records_are_errors() {
    assert!(get_output_path(Some("")).is_err());
    assert!(get_output_path(Some("{}")).is_err());
    assert!(get_output_path(Some("{\"output_path\":12}")).is_err());
    assert!(get_output_path(Some("{\"output_path\":\"unterminated}")).is_err());
    assert!(get_output_path(Some("{\"output_path\":\"dangling\\\"}")).is_err());
}

#[test]
fn parse_accepts_exactly_the_rendered_shape() {
    let cfg = parse_config("{\"output_path\":\"/a/b\"}").unwrap();
    assert_eq!(cfg.output_path, Some(String::from("/a/b")));
    let cfg = parse_config("{\"output_path\":null}").unwrap();
    assert_eq!(cfg.output_path, None);
    assert!(parse_config(" {\"output_path\":null}").is_err());
}

#[test]
fn greet_echoes_the_name() {
    assert_eq!(greet("Ada"), "Hello, Ada! You've been greeted from Rust!");
}
