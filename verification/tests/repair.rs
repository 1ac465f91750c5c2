use boulderboard::api::clean_api_output;

#[test]
fn warning_line_is_removed_other_lines_intact() {
    let input = "{\"a\": 1,\n<b>Warning: something broke</b>\n\"b\": 2}".to_string();
    let cleaned = clean_api_output(input);
    assert_eq!(cleaned, "{\"a\": 1,\n\"b\": 2}");
}

#[test]
fn text_without_marked_lines_is_unchanged() {
    let input = "{\n  \"name\": \"x\",\n  \"note\": \"a > b\"\n}\n".to_string();
    let cleaned = clean_api_output(input.clone());
    assert_eq!(cleaned, input);
}

#[test]
fn marked_line_without_trailing_newline_is_removed() {
    let input = "{}\n<b>Warning: tail</b>".to_string();
    let cleaned = clean_api_output(input);
    assert_eq!(cleaned, "{}\n");
}

#[test]
fn marker_inside_a_line_does_not_remove_it() {
    let input = "value <b>kept</b>\nnext".to_string();
    let cleaned = clean_api_output(input.clone());
    assert_eq!(cleaned, input);
}

#[test]
fn several_marked_lines_are_all_removed() {
    let input = "<w1\nkeep1\n<w2\n<w3\nkeep2\n".to_string();
    let cleaned = clean_api_output(input);
    assert_eq!(cleaned, "keep1\nkeep2\n");
}

#[test]
fn empty_payload_stays_empty() {
    assert_eq!(clean_api_output(String::new()), "");
}

#[test]
fn marked_first_line_is_removed() {
    let input = "<?php notice\n[1, 2]".to_string();
    let cleaned = clean_api_output(input);
    assert_eq!(cleaned, "[1, 2]");
}
