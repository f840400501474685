use qlog::{classify_payload, stamped_text, JsonlWriter, PayloadKind, TextWriter};

#[test]
fn timestamp_replaces_text_before_info() {
    let text = "Dec 30 20:55:13.071 INFO Query timing (GraphQL), block: 1";
    assert_eq!(
        stamped_text(text, Some("2020-12-30T20:55:13.071Z")),
        "2020-12-30T20:55:13.071Z INFO Query timing (GraphQL), block: 1"
    );
    assert_eq!(stamped_text(text, None), text);
    assert_eq!(stamped_text("no marker here", Some("ts")), "no marker here");
}

#[test]
fn payloads_are_classified() {
    assert_eq!(classify_payload("[Trimmed] Query timing (GraphQL), block"), PayloadKind::Trimmed);
    assert_eq!(classify_payload("x INFO Query timing (GraphQL), block: 1"), PayloadKind::Query);
    assert_eq!(classify_payload("x INFO Query timing (SQL), block: 1"), PayloadKind::Other);
    assert_eq!(classify_payload(""), PayloadKind::Other);
}

#[test]
fn writers_hold_their_output() {
    let w = TextWriter::new(vec![1u8]);
    assert_eq!(w.out, vec![1u8]);
    let j = JsonlWriter::new(5u32, true);
    assert_eq!((j.out, j.print_extra), (5, true));
}
