use avatar_params::saved::SavedParameter;
use avatar_params::value::RawValue;

#[test]
fn one_record_two_fragments() {
    let text = "{\"name\":\"Jump\",\"value\":1}";
    let saved = SavedParameter::from_file(text);
    assert_eq!(saved.len(), 1);
    assert_eq!(saved[0].name, "Jump");
    assert_eq!(saved[0].raw_value, RawValue::new(false, 10_000));
}

#[test]
fn several_records_comma_packed() {
    let text = "{\"name\":\"Jump\",\"value\":1},{\"name\":\"Speed\",\"value\":0.42}";
    let saved = SavedParameter::from_file(text);
    assert_eq!(saved.len(), 2);
    assert_eq!(saved[0].name, "Jump");
    assert_eq!(saved[0].raw_value, RawValue::new(false, 10_000));
    assert_eq!(saved[1].name, "Speed");
    assert_eq!(saved[1].raw_value, RawValue::new(false, 4_200));
}

#[test]
fn saved_name_with_spaces_normalized() {
    let text = "{\"name\":\"Left Hand Grip\",\"value\":0.5}";
    let saved = SavedParameter::from_file(text);
    assert_eq!(saved.len(), 1);
    assert_eq!(saved[0].name, "Left_Hand_Grip");
}

#[test]
fn malformed_value_skips_record_without_blocking() {
    let text = "{\"name\":\"Bad\",\"value\":abc},{\"name\":\"Good\",\"value\":0.25}";
    let saved = SavedParameter::from_file(text);
    assert_eq!(saved.len(), 1);
    assert_eq!(saved[0].name, "Good");
    assert_eq!(saved[0].raw_value, RawValue::new(false, 2_500));
}

#[test]
fn value_without_preceding_name_dropped() {
    let text = "\"value\":1},{\"name\":\"Jump\",\"value\":0}";
    let saved = SavedParameter::from_file(text);
    assert_eq!(saved.len(), 1);
    assert_eq!(saved[0].name, "Jump");
    assert_eq!(saved[0].raw_value, RawValue::new(false, 0));
}

#[test]
fn negative_value_kept_signed() {
    let text = "{\"name\":\"Offset\",\"value\":-0.5}";
    let saved = SavedParameter::from_file(text);
    assert_eq!(saved.len(), 1);
    assert_eq!(saved[0].raw_value, RawValue::new(true, 5_000));
}

#[test]
fn name_without_value_at_end_dropped() {
    let text = "{\"name\":\"Jump\",\"value\":1},{\"name\":\"Dangling\"";
    let saved = SavedParameter::from_file(text);
    assert_eq!(saved.len(), 1);
    assert_eq!(saved[0].name, "Jump");
}

#[test]
fn empty_saved_text_yields_nothing() {
    let saved = SavedParameter::from_file("");
    assert_eq!(saved.len(), 0);
}

#[test]
fn fragment_without_keys_changes_nothing() {
    let text = "{\"name\":\"Jump\",nonsense fragment,\"value\":1}";
    let saved = SavedParameter::from_file(text);
    assert_eq!(saved.len(), 1);
    assert_eq!(saved[0].name, "Jump");
    assert_eq!(saved[0].raw_value, RawValue::new(false, 10_000));
}
