use qlog::{group_key, key_for, source_from, KeySource, ShapeFingerprint};

/// Stands in for the structural fingerprint: digits are literal values and
/// do not count; text that does not start like a query does not parse.
struct DigitBlind;

impl ShapeFingerprint for DigitBlind {
    fn fingerprint(&self, query: &str) -> Option<u64> {
        if query.starts_with('{') || query.starts_with("query") {
            let mut h: u64 = 17;
            for c in query.chars().filter(|c| !c.is_ascii_digit()) {
                h = h.wrapping_mul(31).wrapping_add(c as u64);
            }
            Some(h)
        } else {
            None
        }
    }
}

#[test]
fn id_with_one_hyphen_carries_fingerprint() {
    assert_eq!(source_from("abc-def", None), KeySource::Embedded(0xabc));
    assert_eq!(source_from("ABC-1", Some(9)), KeySource::Embedded(0xabc));
    assert_eq!(source_from("ffffffffffffffff-x", None), KeySource::Embedded(u64::MAX));
}

#[test]
fn other_ids_fall_back_to_query_text() {
    assert_eq!(source_from("f-1-4-b-e4", Some(7)), KeySource::Shape(7));
    assert_eq!(source_from("f-1-4-b-e4", None), KeySource::Text);
    assert_eq!(source_from("xyz-1", Some(3)), KeySource::Shape(3));
    assert_eq!(source_from("-1", None), KeySource::Text);
    assert_eq!(source_from("cb9af68f", None), KeySource::Text);
    assert_eq!(source_from("10000000000000000-1", Some(4)), KeySource::Shape(4));
}

#[test]
fn same_fingerprint_gives_same_key_on_every_path() {
    let a = key_for(KeySource::Embedded(5), "query A { a }", "Qm1");
    let b = key_for(KeySource::Shape(5), "query B { b }", "Qm1");
    assert_eq!(a, b);
    assert_ne!(a, 5);
    assert_ne!(a, key_for(KeySource::Shape(6), "query A { a }", "Qm1"));
}

#[test]
fn literal_values_do_not_split_groups() {
    let s = DigitBlind;
    let a = group_key("c5-d3-4e-92-37x", "{ things(first: 1) { id } }", "Qm1", &s);
    let b = group_key("c5-d3-4e-92-38x", "{ things(first: 100) { id } }", "Qm1", &s);
    assert_eq!(a, b);
    let c = group_key("c5-d3-4e-92-38x", "{ things(first: 100) { id } }", "Qm2", &s);
    assert_ne!(a, c);
}

#[test]
fn embedded_fingerprint_wins_over_text() {
    let s = DigitBlind;
    let a = group_key("2d-12", "{ a }", "Qm1", &s);
    let b = group_key("2d-99", "{ something else }", "Qm1", &s);
    assert_eq!(a, b);
    assert_eq!(a, key_for(KeySource::Embedded(0x2d), "", "Qm1"));
}

#[test]
fn unparsed_text_is_hashed_verbatim() {
    let s = DigitBlind;
    let a = group_key("id", "garbage 1", "Qm1", &s);
    let b = group_key("id", "garbage 2", "Qm1", &s);
    assert_ne!(a, b);
    assert_eq!(a, key_for(KeySource::Text, "garbage 1", "Qm1"));
    assert_ne!(a, key_for(KeySource::Text, "garbage 1", "Qm2"));
}
