use tracespan::stream::split_events;

#[test]
fn splits_concatenated_objects() {
    let bytes = br#"{"A":1}{"B":{"c":"}"}} {"C":"\"{"}"#;
    let (frames, rest) = split_events(bytes);
    assert_eq!(rest, bytes.len());
    let parts: Vec<&[u8]> = frames.iter().map(|&(s, t)| &bytes[s..t]).collect();
    assert_eq!(parts, vec![&br#"{"A":1}"#[..], &br#"{"B":{"c":"}"}}"#[..], &br#"{"C":"\"{"}"#[..]]);
}

#[test]
fn skips_bytes_between_objects() {
    let bytes = b"\n  {}\n\n{\"x\":[1,2]}\n";
    let (frames, rest) = split_events(bytes);
    assert_eq!(frames, vec![(3, 5), (7, 18)]);
    assert_eq!(rest, bytes.len());
}

#[test]
fn reports_an_unterminated_object() {
    let bytes = br#"{"a":1}{"b":{"#;
    let (frames, rest) = split_events(bytes);
    assert_eq!(frames, vec![(0, 7)]);
    assert_eq!(rest, 7);
}

#[test]
fn malformed_object_is_still_one_frame() {
    let bytes = br#"{"a":}{"b":2}"#;
    let (frames, _) = split_events(bytes);
    assert_eq!(frames, vec![(0, 6), (6, 13)]);
}

#[test]
fn empty_stream_has_no_frames() {
    let (frames, rest) = split_events(b"");
    assert!(frames.is_empty());
    assert_eq!(rest, 0);
}
