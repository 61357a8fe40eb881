use candle_token_classification::BILOU;

#[test]
fn parses_begin_prefix() {
    let tag = BILOU::from_entity_name("B-PER");
    assert_eq!(tag, BILOU::B("PER".to_string()));
    assert_eq!(tag.tag(), "PER");
}

#[test]
fn parses_inside_prefix() {
    let tag = BILOU::from_entity_name("I-LOC");
    assert_eq!(tag, BILOU::I("LOC".to_string()));
    assert_eq!(tag.tag(), "LOC");
}

#[test]
fn bare_label_becomes_inside() {
    let tag = BILOU::from_entity_name("O");
    assert_eq!(tag, BILOU::I("O".to_string()));
    assert_eq!(tag.tag(), "O");
}

#[test]
fn last_prefix_is_not_recognized() {
    // Only "B-" and "I-" are special-cased; an "L-" label keeps its prefix.
    let tag = BILOU::from_entity_name("L-PER");
    assert_eq!(tag, BILOU::I("L-PER".to_string()));
}

#[test]
fn unit_and_outside_prefixes_are_not_recognized() {
    assert_eq!(BILOU::from_entity_name("U-PER"), BILOU::I("U-PER".to_string()));
    assert_eq!(BILOU::from_entity_name("O-PER"), BILOU::I("O-PER".to_string()));
}

#[test]
fn empty_type_after_begin_prefix() {
    assert_eq!(BILOU::from_entity_name("B-"), BILOU::B(String::new()));
}

#[test]
fn empty_label_becomes_inside_of_empty() {
    assert_eq!(BILOU::from_entity_name(""), BILOU::I(String::new()));
}

#[test]
fn short_label_is_kept_whole() {
    assert_eq!(BILOU::from_entity_name("B"), BILOU::I("B".to_string()));
}

#[test]
fn tag_reads_every_variant() {
    assert_eq!(BILOU::B("X".to_string()).tag(), "X");
    assert_eq!(BILOU::I("X".to_string()).tag(), "X");
    assert_eq!(BILOU::L("X".to_string()).tag(), "X");
    assert_eq!(BILOU::O("X".to_string()).tag(), "X");
    assert_eq!(BILOU::U("X".to_string()).tag(), "X");
}
