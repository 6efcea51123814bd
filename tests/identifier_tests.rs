use dd_trace::identifier::{duration_to_string, durable_file_name, BatchIdentifier};

#[test]
fn batch_identifier_string_roundtrip() {
    let batch_ident = BatchIdentifier::new(vec![3, 5, 2], 12);

    let str = batch_ident.to_string();
    let parsed_batch_ident = BatchIdentifier::from_string(str.as_str());

    assert_eq!(parsed_batch_ident, batch_ident)
}

#[test]
fn duration_to_string_as_expected() {
    assert_eq!(duration_to_string(59087389724, 5001000), "00000000059087389724005001000");
}

#[test]
fn identifier_text_is_dot_joined() {
    let id = BatchIdentifier::new(vec![3, 5, 2], 12);
    assert_eq!(id.to_string(), "3.5.2.12");
}

#[test]
fn identifier_without_address_round_trips() {
    let id = BatchIdentifier::new(vec![], 7);
    assert_eq!(id.to_string(), "7");
    assert_eq!(BatchIdentifier::from_string("7"), id);
}

#[test]
fn identifier_with_large_parts_round_trips() {
    let id = BatchIdentifier::new(vec![0, usize::MAX, 10], 100);
    let text = id.to_string();
    assert_eq!(text, format!("0.{}.10.100", usize::MAX));
    assert_eq!(BatchIdentifier::from_string(&text), id);
}

#[test]
fn identifier_reads_leading_zeros() {
    let id = BatchIdentifier::from_string("007.08");
    assert_eq!(id, BatchIdentifier::new(vec![7], 8));
}

#[test]
fn duration_text_pads_both_parts() {
    assert_eq!(duration_to_string(0, 0), "00000000000000000000000000000");
    assert_eq!(duration_to_string(u64::MAX, 999_999_999), "18446744073709551615999999999");
}

#[test]
fn durable_file_name_layout() {
    let id = BatchIdentifier::new(vec![1, 4], 2);
    assert_eq!(
        durable_file_name(&id, 59087389724, 5001000),
        "durability/1.4.2-00000000059087389724005001000.abom"
    );
}
