use d3main::framer::{FramingError, JsonFramer};

fn texts(vals: Vec<Vec<u8>>) -> Vec<String> {
    vals.into_iter().map(|v| String::from_utf8(v).unwrap()).collect()
}

#[test]
fn two_appends_give_two_values() {
    let mut jf = JsonFramer::new();
    assert_eq!(texts(jf.append(br#"{"a":1}"#).unwrap()), vec![r#"{"a":1}"#]);
    assert_eq!(texts(jf.append(br#"{"b":2}"#).unwrap()), vec![r#"{"b":2}"#]);
}

#[test]
fn value_split_across_appends() {
    let mut jf = JsonFramer::new();
    assert_eq!(texts(jf.append(br#"{"a":1}{"b""#).unwrap()), vec![r#"{"a":1}"#]);
    assert_eq!(texts(jf.append(b":2}").unwrap()), vec![r#"{"b":2}"#]);
}

#[test]
fn brace_inside_string() {
    let mut jf = JsonFramer::new();
    assert_eq!(texts(jf.append(br#"{"x":"a{b"}"#).unwrap()), vec![r#"{"x":"a{b"}"#]);
}

#[test]
fn escaped_quote_inside_string() {
    let mut jf = JsonFramer::new();
    let input = br#"{"x":"a\"}"}"#;
    assert_eq!(texts(jf.append(input).unwrap()), vec![r#"{"x":"a\"}"}"#]);
}

#[test]
fn several_values_with_whitespace_and_nesting() {
    let mut jf = JsonFramer::new();
    let out = texts(jf.append(b" {\"a\":[1,{\"b\":[]}]}\n[1,2]\t{").unwrap());
    assert_eq!(out, vec!["{\"a\":[1,{\"b\":[]}]}", "[1,2]"]);
    assert_eq!(texts(jf.append(b"}").unwrap()), vec!["{}"]);
}

#[test]
fn empty_input_frames_nothing() {
    let mut jf = JsonFramer::new();
    assert!(jf.append(b"").unwrap().is_empty());
    assert!(jf.append(b"{\"a\"").unwrap().is_empty());
}

#[test]
fn stray_closer_is_an_error_and_invalidates() {
    let mut jf = JsonFramer::new();
    assert_eq!(jf.append(b"}").unwrap_err(), FramingError::UnbalancedCloser);
    assert_eq!(jf.append(b"{}").unwrap_err(), FramingError::Invalidated);
}

#[test]
fn mismatched_closer_is_an_error() {
    let mut jf = JsonFramer::new();
    assert_eq!(jf.append(b"{\"a\":[1}").unwrap_err(), FramingError::UnbalancedCloser);
}

#[test]
fn bad_escape_is_an_error() {
    let mut jf = JsonFramer::new();
    assert_eq!(jf.append(br#"{"x":"\q"}"#).unwrap_err(), FramingError::InvalidEscape);
}

#[test]
fn garbage_between_values_is_an_error() {
    let mut jf = JsonFramer::new();
    assert_eq!(jf.append(b"{} x {}").unwrap_err(), FramingError::UnexpectedByte);
}

#[test]
fn any_split_gives_the_same_values() {
    let stream: &[u8] = b"{\"a\":\"}{\\\"\"} [1,[2]]\n{\"b\":{}}";
    let mut whole = JsonFramer::new();
    let expected = texts(whole.append(stream).unwrap());
    assert_eq!(expected.len(), 3);
    for cut in 0..=stream.len() {
        let mut jf = JsonFramer::new();
        let mut got = texts(jf.append(&stream[..cut]).unwrap());
        got.extend(texts(jf.append(&stream[cut..]).unwrap()));
        assert_eq!(got, expected);
    }
}
