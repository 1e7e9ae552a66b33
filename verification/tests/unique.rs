use ndjson_filter::filter::ParseError;
use ndjson_filter::unique::{collect, get_json_value, write_unique_values, RunError, UniqueValues};

const SAMPLE: &[u8] = b"{\"k\":\"a\"}\n{\"k\":\"b\"}\n{\"k\":\"a\"}\n";

fn parse_back(document: &str) -> Vec<String> {
    let mut bytes = document.as_bytes().to_vec();
    simd_json::from_slice::<Vec<String>>(&mut bytes).unwrap()
}

#[test]
fn unique_collects_each_string_once() {
    let got = write_unique_values(SAMPLE, "k").ok().unwrap();
    assert_eq!(got.values, vec!["a".to_string(), "b".to_string()]);
    assert_eq!(got.total_read, 30);
}

#[test]
fn unique_document_round_trips() {
    let got = write_unique_values(SAMPLE, "k").ok().unwrap();
    let mut back = parse_back(&got.document);
    back.sort();
    assert_eq!(back, vec!["a".to_string(), "b".to_string()]);
}

#[test]
fn unique_document_is_a_json_array() {
    let got = write_unique_values(SAMPLE, "k").ok().unwrap();
    assert_eq!(got.document, "[\"a\",\"b\"]");
}

#[test]
fn unique_of_empty_input_is_an_empty_document() {
    let got = write_unique_values(b"", "k").ok().unwrap();
    assert!(got.values.is_empty());
    assert_eq!(got.document, "[]");
    assert_eq!(got.total_read, 0);
    assert!(parse_back(&got.document).is_empty());
}

#[test]
fn unique_skips_missing_keys_and_other_values() {
    let input = b"{\"j\":\"x\"}\n{\"k\":3}\n[1]\n{\"k\":\"y\"}\n{\"k\":null}";
    let got = write_unique_values(input, "k").ok().unwrap();
    assert_eq!(got.values, vec!["y".to_string()]);
    assert_eq!(got.total_read, input.len() as u64 + 1);
}

#[test]
fn unique_keeps_first_occurrence_order() {
    let input = b"{\"k\":\"c\"}\n{\"k\":\"a\"}\n{\"k\":\"c\"}\n{\"k\":\"b\"}\n{\"k\":\"a\"}\n";
    let got = write_unique_values(input, "k").ok().unwrap();
    assert_eq!(got.values, vec!["c".to_string(), "a".to_string(), "b".to_string()]);
}

#[test]
fn unique_round_trips_escapes_and_text_beyond_ascii() {
    let input = "{\"k\":\"a\\\"b\"}\n{\"k\":\"żółw\"}\n{\"k\":\"a\\\"b\"}\n{\"k\":\"line\\nbreak\"}\n".as_bytes();
    let got = write_unique_values(input, "k").ok().unwrap();
    let expected = vec!["a\"b".to_string(), "żółw".to_string(), "line\nbreak".to_string()];
    assert_eq!(got.values, expected);
    assert_eq!(parse_back(&got.document), expected);
}

#[test]
fn unique_fails_at_the_first_invalid_line() {
    let input = b"{\"k\":\"a\"}\n{\"k\":\"b\"}\n{\"k\"\n";
    match write_unique_values(input, "k") {
        Err(RunError::Parse(ParseError { line })) => assert_eq!(line, 2),
        _ => panic!("the third line is not valid JSON"),
    }
}

#[test]
fn get_json_value_reads_the_string_at_the_key() {
    assert_eq!(get_json_value(b"{\"k\":\"a\"}\n", "k"), Some(Some("a".to_string())));
    assert_eq!(get_json_value(b"{\"k\":\"a\",\"j\":\"b\"}", "j"), Some(Some("b".to_string())));
    assert_eq!(get_json_value(b"{\"k\":1}", "k"), Some(None));
    assert_eq!(get_json_value(b"{\"k\":\"a\"}", "j"), Some(None));
    assert_eq!(get_json_value(b"true", "k"), Some(None));
    assert_eq!(get_json_value(b"{\"k\":\"a\"", "k"), None);
}

#[test]
fn unique_values_hold_each_string_once() {
    let mut values = UniqueValues::new();
    assert_eq!(values.len(), 0);
    assert!(!values.contains("a"));
    assert!(values.insert("a".to_string()));
    assert!(values.insert("b".to_string()));
    assert!(!values.insert("a".to_string()));
    assert!(values.contains("a"));
    assert!(values.contains("b"));
    assert!(!values.contains("c"));
    assert_eq!(values.len(), 2);
    assert_eq!(values.into_values(), vec!["a".to_string(), "b".to_string()]);
}

#[test]
fn collect_takes_strings_and_skips_nothing_found() {
    let mut values = UniqueValues::new();
    collect(&mut values, None);
    collect(&mut values, Some("x".to_string()));
    collect(&mut values, Some("x".to_string()));
    collect(&mut values, None);
    assert_eq!(values.into_values(), vec!["x".to_string()]);
}

#[test]
fn unique_run_collects_line_by_line() {
    let mut run = ndjson_filter::unique::UniqueRun::new();
    assert!(run.step(b"{\"k\":\"a\"}\n", "k").is_ok());
    assert!(run.step(b"{\"k\":7}\n", "k").is_ok());
    assert!(run.step(b"{\"k\":\"a\"}\n", "k").is_ok());
    assert!(run.step(b"{\"k\":\"b\"}", "k").is_ok());
    assert_eq!((run.total_read, run.lines), (38, 4));
    let got = run.finish().ok().unwrap();
    assert_eq!(got.values, vec!["a".to_string(), "b".to_string()]);
    assert_eq!(got.document, "[\"a\",\"b\"]");
    assert_eq!(got.total_read, 38);
}

#[test]
fn unique_run_stays_as_it_was_on_an_invalid_line() {
    let mut run = ndjson_filter::unique::UniqueRun::new();
    assert!(run.step(b"{\"k\":\"a\"}\n", "k").is_ok());
    let err = run.step(b"{\"k\":\"b\"\n", "k").unwrap_err();
    assert_eq!(err.line, 1);
    assert_eq!((run.total_read, run.lines), (10, 1));
    assert_eq!(run.finish().ok().unwrap().values, vec!["a".to_string()]);
}

#[test]
fn unique_run_counts_the_input_length_when_it_ends_in_a_newline() {
    let mut run = ndjson_filter::unique::UniqueRun::new();
    let mut seen = Vec::new();
    for line in [&b"{\"k\":\"a\"}\n"[..], &b"{\"k\":\"b\"}\n"[..], &b"{\"k\":\"a\"}\n"[..]] {
        assert!(run.step(line, "k").is_ok());
        seen.push(run.total_read);
    }
    assert_eq!(seen, vec![10, 20, 30]);
}

#[test]
fn unique_skips_numbers_and_other_keys() {
    let input = b"{\"k\":\"a\"}\n{\"k\":1}\n{\"j\":\"c\"}\n{\"k\":\"a\"}\n";
    let got = write_unique_values(input, "k").ok().unwrap();
    assert_eq!(got.document, "[\"a\"]");
    assert_eq!(parse_back(&got.document), vec!["a".to_string()]);
    assert_eq!(got.total_read, input.len() as u64);
}

#[test]
fn unique_finish_of_a_fresh_run_is_the_empty_document() {
    let got = ndjson_filter::unique::UniqueRun::new().finish().ok().unwrap();
    assert!(got.values.is_empty());
    assert_eq!(got.document, "[]");
    assert_eq!(got.total_read, 0);
}
