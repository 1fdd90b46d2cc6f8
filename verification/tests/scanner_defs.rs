use avatar_params::defs::get_avatar_params;

#[test]
fn two_records_in_order() {
    let text = "  \"name\": \"Jump\",\n  \"type\": \"Bool\"\n  \"name\": \"Speed\",\n  \"type\": \"Float\"\n";
    let defs = get_avatar_params(text);
    assert_eq!(defs.len(), 2);
    assert_eq!(defs[0].name, "Jump");
    assert_eq!(defs[0].ptype, "Bool");
    assert_eq!(defs[1].name, "Speed");
    assert_eq!(defs[1].ptype, "Float");
}

#[test]
fn type_before_name_yields_nothing() {
    let text = "  \"type\": \"Bool\"\n  \"name\": \"Jump\",\n";
    let defs = get_avatar_params(text);
    assert_eq!(defs.len(), 0);
}

#[test]
fn type_after_flush_yields_nothing() {
    let text = "  \"name\": \"Jump\",\n  \"type\": \"Bool\"\n  \"type\": \"Float\"\n";
    let defs = get_avatar_params(text);
    assert_eq!(defs.len(), 1);
    assert_eq!(defs[0].name, "Jump");
    assert_eq!(defs[0].ptype, "Bool");
}

#[test]
fn name_with_spaces_normalized() {
    let text = "  \"name\": \"Left Hand Grip\",\n  \"type\": \"Float\"\n";
    let defs = get_avatar_params(text);
    assert_eq!(defs.len(), 1);
    assert_eq!(defs[0].name, "Left_Hand_Grip");
}

#[test]
fn junk_lines_between_name_and_type_ignored() {
    let text = "  \"name\": \"Jump\",\n  \"address\": \"/avatar/parameters/Jump\",\n{ [ } nonsense\n  \"type\": \"Bool\"\n";
    let defs = get_avatar_params(text);
    assert_eq!(defs.len(), 1);
    assert_eq!(defs[0].name, "Jump");
    assert_eq!(defs[0].ptype, "Bool");
}

#[test]
fn unpaired_name_at_end_dropped() {
    let text = "  \"name\": \"Jump\",\n  \"type\": \"Bool\"\n  \"name\": \"Dangling\",\n";
    let defs = get_avatar_params(text);
    assert_eq!(defs.len(), 1);
    assert_eq!(defs[0].name, "Jump");
}

#[test]
fn later_name_overwrites_pending_name() {
    let text = "  \"name\": \"First\",\n  \"name\": \"Second\",\n  \"type\": \"Int\"\n";
    let defs = get_avatar_params(text);
    assert_eq!(defs.len(), 1);
    assert_eq!(defs[0].name, "Second");
    assert_eq!(defs[0].ptype, "Int");
}

#[test]
fn unindented_lines_do_not_match() {
    let text = "\"name\": \"Jump\",\n\"type\": \"Bool\"\n";
    let defs = get_avatar_params(text);
    assert_eq!(defs.len(), 0);
}

#[test]
fn name_capture_is_greedy_to_last_quote_comma() {
    let text = "  \"name\": \"a\",\"b\",\n  \"type\": \"Int\"\n";
    let defs = get_avatar_params(text);
    assert_eq!(defs.len(), 1);
    assert_eq!(defs[0].name, "a\",\"b");
}

#[test]
fn crlf_line_endings_accepted() {
    let text = "  \"name\": \"Jump\",\r\n  \"type\": \"Bool\"\r\n";
    let defs = get_avatar_params(text);
    assert_eq!(defs.len(), 1);
    assert_eq!(defs[0].name, "Jump");
    assert_eq!(defs[0].ptype, "Bool");
}

#[test]
fn empty_input_yields_nothing() {
    let defs = get_avatar_params("");
    assert_eq!(defs.len(), 0);
}

#[test]
fn type_token_stops_at_quote_inside_nonspace_run() {
    let text = "  \"name\": \"Jump\",\n  \"type\": \"Bool\",\n";
    let defs = get_avatar_params(text);
    assert_eq!(defs.len(), 1);
    assert_eq!(defs[0].ptype, "Bool");
}
