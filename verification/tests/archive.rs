use ndjson_filter::archive::{extract_archive, WINDOW_LOG_MAX};

#[test]
fn extract_gives_back_what_was_packed() {
    let source = b"{\"k\":\"a\"}\n{\"k\":\"b\"}\n{\"k\":\"a\"}\n".repeat(50);
    let packed = zstd::encode_all(&source[..], 3).unwrap();
    assert_ne!(packed, source);
    let got = extract_archive(&packed).ok().unwrap();
    assert_eq!(got.data, source);
    assert_eq!(got.size, source.len() as u64);
}

#[test]
fn extract_of_an_empty_payload_is_empty() {
    let packed = zstd::encode_all(&b""[..], 1).unwrap();
    let got = extract_archive(&packed).ok().unwrap();
    assert!(got.data.is_empty());
    assert_eq!(got.size, 0);
}

#[test]
fn extract_rejects_bytes_that_are_no_archive() {
    assert!(extract_archive(b"this is not a zstd archive at all").is_err());
}

#[test]
fn extract_rejects_a_cut_archive() {
    let source = b"0123456789".repeat(100);
    let packed = zstd::encode_all(&source[..], 3).unwrap();
    assert!(extract_archive(&packed[..packed.len() / 2]).is_err());
}

#[test]
fn window_limit_is_two_to_the_thirty_one() {
    assert_eq!(WINDOW_LOG_MAX, 31);
}
