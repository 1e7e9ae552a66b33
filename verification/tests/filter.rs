use ndjson_filter::filter::{is_filtered, keep_line, write_filtered_rows};

const SAMPLE: &[u8] = b"{\"k\":\"a\"}\n{\"k\":\"b\"}\n{\"k\":\"a\"}\n";

#[test]
fn filter_keeps_matching_lines_in_order() {
    let got = write_filtered_rows(SAMPLE, "k", "a").unwrap();
    assert_eq!(got.output, b"{\"k\":\"a\"}\n{\"k\":\"a\"}\n".to_vec());
}

#[test]
fn filter_counts_bytes_and_separators() {
    let got = write_filtered_rows(SAMPLE, "k", "a").unwrap();
    assert_eq!(got.total_read, 30);
    assert_eq!(got.total_wrote, 20);
}

#[test]
fn filter_counts_one_more_for_an_unterminated_end() {
    let input = b"{\"k\":\"a\"}\n{\"k\":\"b\"}";
    let got = write_filtered_rows(input, "k", "b").unwrap();
    assert_eq!(input.len(), 19);
    assert_eq!(got.total_read, 20);
    assert_eq!(got.total_wrote, 10);
    assert_eq!(got.output, b"{\"k\":\"b\"}".to_vec());
}

#[test]
fn filter_of_empty_input_is_empty() {
    let got = write_filtered_rows(b"", "k", "a").unwrap();
    assert!(got.output.is_empty());
    assert_eq!(got.total_read, 0);
    assert_eq!(got.total_wrote, 0);
}

#[test]
fn filter_twice_gives_the_same_bytes() {
    let first = write_filtered_rows(SAMPLE, "k", "b").unwrap();
    let second = write_filtered_rows(SAMPLE, "k", "b").unwrap();
    assert_eq!(first.output, second.output);
    assert_eq!(first.output, b"{\"k\":\"b\"}\n".to_vec());
}

#[test]
fn filter_output_filtered_again_is_unchanged() {
    let first = write_filtered_rows(SAMPLE, "k", "a").unwrap();
    let second = write_filtered_rows(&first.output, "k", "a").unwrap();
    assert_eq!(first.output, second.output);
}

#[test]
fn filter_drops_lines_without_the_key() {
    let input = b"{\"other\":\"a\"}\n{\"k\":\"a\"}\n";
    let got = write_filtered_rows(input, "k", "a").unwrap();
    assert_eq!(got.output, b"{\"k\":\"a\"}\n".to_vec());
}

#[test]
fn filter_drops_values_that_are_no_strings() {
    let input = b"{\"k\":1}\n{\"k\":null}\n{\"k\":[\"a\"]}\n{\"k\":{\"k\":\"a\"}}\n";
    let got = write_filtered_rows(input, "k", "a").unwrap();
    assert!(got.output.is_empty());
    assert_eq!(got.total_read, input.len() as u64);
}

#[test]
fn filter_drops_lines_that_are_no_objects() {
    let input = b"[\"k\",\"a\"]\n\"a\"\n12\n{\"k\":\"a\"}\n";
    let got = write_filtered_rows(input, "k", "a").unwrap();
    assert_eq!(got.output, b"{\"k\":\"a\"}\n".to_vec());
}

#[test]
fn filter_fails_at_the_first_invalid_line() {
    let input = b"{\"k\":\"a\"}\n{\"k\":\n{\"k\":\"a\"}\nnot json\n";
    let err = write_filtered_rows(input, "k", "a").unwrap_err();
    assert_eq!(err.line, 1);
    assert_eq!(err.output, b"{\"k\":\"a\"}\n".to_vec());
    assert_eq!(err.total_read, 10);
    assert_eq!(err.total_wrote, 10);
}

#[test]
fn filter_failure_keeps_the_matches_before_it() {
    let input = b"{\"k\":\"b\"}\n{\"k\":\"a\"}\n{\"k\":\"a\"}\n{\n{\"k\":\"a\"}\n";
    let err = write_filtered_rows(input, "k", "a").unwrap_err();
    assert_eq!(err.line, 3);
    assert_eq!(err.output, b"{\"k\":\"a\"}\n{\"k\":\"a\"}\n".to_vec());
    assert_eq!(err.total_read, 30);
    assert_eq!(err.total_wrote, 20);
}

#[test]
fn filter_fails_on_an_invalid_first_line() {
    let err = write_filtered_rows(b"{k}\n", "k", "a").unwrap_err();
    assert_eq!(err.line, 0);
    assert!(err.output.is_empty());
    assert_eq!((err.total_read, err.total_wrote), (0, 0));
}

#[test]
fn filter_resolves_escapes_before_comparing() {
    let input = b"{\"k\":\"a\\\"b\"}\n{\"k\":\"a\"}\n";
    let got = write_filtered_rows(input, "k", "a\"b").unwrap();
    assert_eq!(got.output, b"{\"k\":\"a\\\"b\"}\n".to_vec());
}

#[test]
fn filter_compares_whole_strings() {
    let input = b"{\"k\":\"ab\"}\n{\"k\":\"\"}\n{\"k\":\"A\"}\n";
    let got = write_filtered_rows(input, "k", "a").unwrap();
    assert!(got.output.is_empty());
}

#[test]
fn filter_handles_text_beyond_ascii() {
    let input = "{\"k\":\"żółw\"}\n{\"k\":\"zolw\"}\n".as_bytes();
    let got = write_filtered_rows(input, "k", "żółw").unwrap();
    assert_eq!(got.output, "{\"k\":\"żółw\"}\n".as_bytes().to_vec());
}

#[test]
fn filter_tolerates_space_around_the_object() {
    let input = b"  {\"k\" : \"a\"}  \n";
    let got = write_filtered_rows(input, "k", "a").unwrap();
    assert_eq!(got.output, input.to_vec());
}

#[test]
fn is_filtered_compares_a_found_string() {
    assert_eq!(is_filtered(&Some("a".to_string()), "a"), Some(true));
    assert_eq!(is_filtered(&Some("b".to_string()), "a"), Some(false));
    assert_eq!(is_filtered(&Some(String::new()), ""), Some(true));
    assert_eq!(is_filtered(&None, "a"), None);
}

#[test]
fn keep_line_decides_one_line() {
    assert_eq!(keep_line(b"{\"k\":\"a\"}\n", "k", "a"), Some(true));
    assert_eq!(keep_line(b"{\"k\":\"b\"}\n", "k", "a"), Some(false));
    assert_eq!(keep_line(b"{\"j\":\"a\"}", "k", "a"), Some(false));
    assert_eq!(keep_line(b"{\"k\":", "k", "a"), None);
}

#[test]
fn filter_run_counts_line_by_line() {
    let mut run = ndjson_filter::filter::FilterRun::new();
    assert_eq!(run.step(b"{\"k\":\"a\"}\n", "k", "a").ok(), Some(true));
    assert_eq!((run.total_read, run.total_wrote, run.lines), (10, 10, 1));
    assert_eq!(run.step(b"{\"k\":\"b\"}\n", "k", "a").ok(), Some(false));
    assert_eq!((run.total_read, run.total_wrote, run.lines), (20, 10, 2));
    assert_eq!(run.step(b"{\"k\":\"a\"}", "k", "a").ok(), Some(true));
    assert_eq!((run.total_read, run.total_wrote, run.lines), (30, 20, 3));
}

#[test]
fn filter_run_stays_as_it_was_on_an_invalid_line() {
    let mut run = ndjson_filter::filter::FilterRun::new();
    assert!(run.step(b"{}\n", "k", "a").is_ok());
    let err = run.step(b"{\n", "k", "a").unwrap_err();
    assert_eq!(err.line, 1);
    assert_eq!((run.total_read, run.total_wrote, run.lines), (3, 0, 1));
}

#[test]
fn filter_run_counts_the_input_length_when_it_ends_in_a_newline() {
    let mut run = ndjson_filter::filter::FilterRun::new();
    let mut seen = Vec::new();
    for line in [&b"{\"k\":\"a\"}\n"[..], &b"{\"k\":\"b\"}\n"[..], &b"{\"k\":\"a\"}\n"[..]] {
        run.step(line, "k", "a").unwrap();
        seen.push(run.total_read);
    }
    assert_eq!(seen, vec![10, 20, 30]);
    assert_eq!(run.total_read, SAMPLE.len() as u64);
}

#[test]
fn step_len_counts_the_separator_once() {
    assert_eq!(ndjson_filter::lines::step_len(b"abc\n"), 4);
    assert_eq!(ndjson_filter::lines::step_len(b"abc"), 4);
    assert_eq!(ndjson_filter::lines::step_len(b"\n"), 1);
    assert_eq!(ndjson_filter::lines::step_len(b""), 1);
}
