use avatar_params::defs::{get_avatar_params, OscConfigParameter};
use avatar_params::reconcile::{reconcile, ParameterValue};
use avatar_params::saved::SavedParameter;
use avatar_params::value::RawValue;

fn def(name: &str, ptype: &str) -> OscConfigParameter {
    OscConfigParameter { name: name.to_string(), ptype: ptype.to_string() }
}

fn entry(name: &str, raw: RawValue) -> SavedParameter {
    SavedParameter { name: name.to_string(), raw_value: raw }
}

#[test]
fn jump_and_speed_scenario() {
    let defs = vec![def("Jump", "Bool"), def("Speed", "Float")];
    let saved = vec![
        entry("Jump", RawValue::new(false, 10_000)),
        entry("Speed", RawValue::new(false, 4_200)),
    ];
    let map = reconcile(&defs, &saved);
    assert_eq!(map.len(), 2);
    assert_eq!(map.get(&"Jump".to_string()), Some(&ParameterValue::Bool(true)));
    assert_eq!(
        map.get(&"Speed".to_string()),
        Some(&ParameterValue::Float(RawValue::new(false, 4_200))),
    );
}

#[test]
fn empty_saved_yields_all_defaults() {
    let defs = vec![def("A", "Float"), def("B", "Int"), def("C", "Bool")];
    let saved: Vec<SavedParameter> = Vec::new();
    let map = reconcile(&defs, &saved);
    assert_eq!(map.len(), 3);
    assert_eq!(map.get(&"A".to_string()), Some(&ParameterValue::Float(RawValue::new(false, 0))));
    assert_eq!(map.get(&"B".to_string()), Some(&ParameterValue::Int(0)));
    assert_eq!(map.get(&"C".to_string()), Some(&ParameterValue::Bool(false)));
}

#[test]
fn unrecognized_type_never_enters_map() {
    let defs = vec![def("Kept", "float"), def("Dropped", "string")];
    let saved = vec![entry("Dropped", RawValue::new(false, 10_000))];
    let map = reconcile(&defs, &saved);
    assert_eq!(map.len(), 1);
    assert_eq!(map.get(&"Dropped".to_string()), None);
    assert!(map.get(&"Kept".to_string()).is_some());
}

#[test]
fn orphan_saved_entry_ignored() {
    let defs = vec![def("Jump", "Bool")];
    let saved = vec![entry("Unknown", RawValue::new(false, 10_000))];
    let map = reconcile(&defs, &saved);
    assert_eq!(map.len(), 1);
    assert_eq!(map.get(&"Jump".to_string()), Some(&ParameterValue::Bool(false)));
    assert_eq!(map.get(&"Unknown".to_string()), None);
}

#[test]
fn bool_threshold_through_reconcile() {
    let defs = vec![def("A", "Bool"), def("B", "Bool"), def("C", "Bool")];
    let saved = vec![
        entry("A", RawValue::new(false, 7_300)),
        entry("B", RawValue::new(false, 2_000)),
        entry("C", RawValue::new(false, 5_000)),
    ];
    let map = reconcile(&defs, &saved);
    assert_eq!(map.get(&"A".to_string()), Some(&ParameterValue::Bool(true)));
    assert_eq!(map.get(&"B".to_string()), Some(&ParameterValue::Bool(false)));
    assert_eq!(map.get(&"C".to_string()), Some(&ParameterValue::Bool(true)));
}

#[test]
fn int_target_truncates_saved_value() {
    let defs = vec![def("N", "Int"), def("M", "Int")];
    let saved = vec![
        entry("N", RawValue::new(false, 29_999)),
        entry("M", RawValue::new(false, 3_000_000)),
    ];
    let map = reconcile(&defs, &saved);
    assert_eq!(map.get(&"N".to_string()), Some(&ParameterValue::Int(2)));
    assert_eq!(map.get(&"M".to_string()), Some(&ParameterValue::Int(255)));
}

#[test]
fn later_definition_overwrites_earlier_same_name() {
    let defs = vec![def("X", "Float"), def("X", "Bool")];
    let saved: Vec<SavedParameter> = Vec::new();
    let map = reconcile(&defs, &saved);
    assert_eq!(map.len(), 1);
    assert_eq!(map.get(&"X".to_string()), Some(&ParameterValue::Bool(false)));
}

#[test]
fn later_saved_entry_wins() {
    let defs = vec![def("X", "Float")];
    let saved = vec![
        entry("X", RawValue::new(false, 1_000)),
        entry("X", RawValue::new(false, 9_000)),
    ];
    let map = reconcile(&defs, &saved);
    assert_eq!(
        map.get(&"X".to_string()),
        Some(&ParameterValue::Float(RawValue::new(false, 9_000))),
    );
}

#[test]
fn entries_agree_with_lookups() {
    let defs = vec![def("A", "Int"), def("B", "Bool")];
    let saved = vec![entry("B", RawValue::new(false, 10_000))];
    let map = reconcile(&defs, &saved);
    let es = map.entries();
    assert_eq!(es.len(), 2);
    for (name, value) in es.iter() {
        assert_eq!(map.get(name), Some(value));
    }
}

#[test]
fn full_pipeline_from_texts() {
    let def_text = "  \"name\": \"Jump\",\n  \"type\": \"Bool\"\n  \"name\": \"Speed\",\n  \"type\": \"Float\"\n";
    let saved_text = "{\"name\":\"Jump\",\"value\":1},{\"name\":\"Speed\",\"value\":0.42}";
    let defs = get_avatar_params(def_text);
    let saved = SavedParameter::from_file(saved_text);
    let map = reconcile(&defs, &saved);
    assert_eq!(map.len(), 2);
    assert_eq!(map.get(&"Jump".to_string()), Some(&ParameterValue::Bool(true)));
    assert_eq!(
        map.get(&"Speed".to_string()),
        Some(&ParameterValue::Float(RawValue::new(false, 4_200))),
    );
}
