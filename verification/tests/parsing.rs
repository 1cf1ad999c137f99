use royal::BoxType;
use royal::Message;

#[test]
fn full_message_with_lipsync_and_wait() {
    let input = "[msg MSG_BTTL_2 [Morgana]][s][f 4 10 65535 0 0]Hello world![f 1 3 65535][w][e]";
    let message = Message::parse(input).expect("message should parse");
    assert_eq!(message.header.box_type, BoxType::Message);
    assert_eq!(message.header.message_id, "MSG_BTTL_2");
    assert_eq!(message.header.character.as_deref(), Some("Morgana"));
    assert_eq!(message.content, "Hello world!");
    assert!(message.flags.has_lipsync);
    assert!(message.flags.wait_for_input);
    assert!(message.confidant_points.is_none());
}

#[test]
fn confidant_points_award() {
    let input = "[msg PFM_BTTL_2 [Morgana]][s][f 4 10 65535 0 0][f 5 13 30 15 5]I cant see an exit we're stuck here[f 1 3 65535][w][e]";
    let message = Message::parse(input).expect("message should parse");
    assert_eq!(message.header.box_type, BoxType::Progress);
    let award = message.confidant_points.expect("award should be present");
    assert_eq!(award.confidant_id, 30);
    assert_eq!(award.points, 15);
    assert_eq!(award.model_id, 5);
    assert_eq!(message.content, "I cant see an exit we're stuck here");
}

#[test]
fn unknown_prefix_still_parses() {
    let input = "[msg XYZ_1 [Bob]][s]Hi[e]";
    let message = Message::parse(input).expect("message should parse");
    assert_eq!(message.header.box_type, BoxType::Unknown);
    assert_eq!(message.header.message_id, "XYZ_1");
    assert_eq!(message.header.character.as_deref(), Some("Bob"));
    assert_eq!(message.content, "Hi");
}

#[test]
fn no_brackets_at_all_is_rejected() {
    assert!(Message::parse("no brackets at all").is_none());
}

#[test]
fn unparseable_award_is_dropped_not_fatal() {
    let input = "[msg MSG_1 [Bob]][s][f 5 13 abc 1 2]text[e]";
    let message = Message::parse(input).expect("message should parse");
    assert!(message.confidant_points.is_none());
    assert_eq!(message.content, "text");
}

#[test]
fn empty_input_is_rejected() {
    assert!(Message::parse("").is_none());
}

#[test]
fn unclosed_header_is_rejected() {
    assert!(Message::parse("[msg MSG_1 [Bob").is_none());
}

#[test]
fn header_with_too_few_tokens_is_rejected() {
    assert!(Message::parse("[msg MSG_1][s]text[e]").is_none());
}

#[test]
fn header_without_msg_keyword_is_rejected() {
    assert!(Message::parse("[note MSG_1 [Bob]][s]text[e]").is_none());
}

#[test]
fn missing_start_tag_is_rejected_when_required() {
    let input = "[msg MSG_2 [Ann]]hello[e]";
    assert!(Message::parse(input).is_none());
    assert!(Message::parse_with(input, true).is_none());
}

#[test]
fn missing_start_tag_is_accepted_when_lenient() {
    let input = "[msg MSG_2 [Ann]]hello[e]";
    let message = Message::parse_with(input, false).expect("lenient parse should succeed");
    assert_eq!(message.content, "hello");
}

#[test]
fn parse_is_pure_repeat_calls_agree() {
    let input = "[msg PFM_BTTL_2 [Morgana]][s][f 4 10 65535 0 0][f 5 13 30 15 5]stuck[w][e]";
    let first = Message::parse(input).expect("message should parse");
    let second = Message::parse(input).expect("message should parse");
    assert_eq!(first.header.box_type, second.header.box_type);
    assert_eq!(first.header.message_id, second.header.message_id);
    assert_eq!(first.header.character, second.header.character);
    assert_eq!(first.content, second.content);
    assert_eq!(first.flags.has_lipsync, second.flags.has_lipsync);
    assert_eq!(first.flags.wait_for_input, second.flags.wait_for_input);
    assert_eq!(first.confidant_points, second.confidant_points);
}

#[test]
fn text_and_tags_after_end_marker_are_ignored() {
    let input = "[msg MSG_1 [Ann]][s]Hello[e]World[w][f 5 13 1 2 3]";
    let message = Message::parse(input).expect("message should parse");
    assert_eq!(message.content, "Hello");
    assert!(!message.flags.wait_for_input);
    assert!(message.confidant_points.is_none());
}

#[test]
fn box_type_prefix_table() {
    let cases = [
        ("HLP", BoxType::Help),
        ("MSG", BoxType::Message),
        ("MND", BoxType::Mind),
        ("SYS", BoxType::System),
        ("TRV", BoxType::Trivia),
        ("DVL", BoxType::Devil),
        ("PFM", BoxType::Progress),
        ("ZZZ", BoxType::Unknown),
    ];
    for (prefix, expected) in cases.iter() {
        let header = format!("[msg {}_01 [Sojiro", prefix);
        let parsed = Message::parse_header(&header).expect("header should parse");
        assert_eq!(parsed.box_type, *expected);
        assert_eq!(parsed.message_id, format!("{}_01", prefix));
        assert_eq!(parsed.character.as_deref(), Some("Sojiro"));
    }
}

#[test]
fn prefix_table_is_case_sensitive() {
    let parsed = Message::parse_header("[msg msg_01 x").expect("header should parse");
    assert_eq!(parsed.box_type, BoxType::Unknown);
}

#[test]
fn short_message_id_maps_to_unknown() {
    let parsed = Message::parse_header("[msg AB [Ann").expect("header should parse");
    assert_eq!(parsed.box_type, BoxType::Unknown);
    assert_eq!(parsed.message_id, "AB");
}

#[test]
fn unbracketed_third_token_gives_no_character() {
    let input = "[msg MSG_1 extra][s]Hi[e]";
    let message = Message::parse(input).expect("message should parse");
    assert!(message.header.character.is_none());
}

#[test]
fn extra_header_tokens_are_ignored() {
    let input = "[msg MSG_1 [Ann] more stuff][s]Hi[e]";
    let message = Message::parse(input).expect("message should parse");
    assert_eq!(message.header.character.as_deref(), Some("Ann"));
    assert_eq!(message.content, "Hi");
}

#[test]
fn start_tag_with_inline_arguments_emits_following_text() {
    let input = "[msg MSG_1 [Ann]][s 1]Hi there[e]";
    // The strict policy wants the literal `[s]`, which this stream lacks.
    assert!(Message::parse(input).is_none());
    let message = Message::parse_with(input, false).expect("message should parse");
    assert_eq!(message.content, "Hi there");
}

#[test]
fn content_is_trimmed_of_surrounding_whitespace() {
    let input = "[msg MSG_1 [Ann]][s]  padded text \u{9}[e]";
    let message = Message::parse(input).expect("message should parse");
    assert_eq!(message.content, "padded text");
}

#[test]
fn award_with_too_few_arguments_is_dropped() {
    let input = "[msg MSG_1 [Ann]][s][f 5 13 1 2]Hi[e]";
    let message = Message::parse(input).expect("message should parse");
    assert!(message.confidant_points.is_none());
    assert_eq!(message.content, "Hi");
}

#[test]
fn later_award_tag_overrides_earlier_one() {
    let input = "[msg MSG_1 [Ann]][s][f 5 13 1 2 3][f 5 13 9 9 bad]Hi[e]";
    let message = Message::parse(input).expect("message should parse");
    assert!(message.confidant_points.is_none());
}

#[test]
fn award_values_are_truncated_to_field_widths() {
    let input = "[msg MSG_1 [Ann]][s][f 5 13 300 15 70000]Hi[e]";
    let message = Message::parse(input).expect("message should parse");
    let award = message.confidant_points.expect("award should be present");
    assert_eq!(award.confidant_id, 44);
    assert_eq!(award.points, 15);
    assert_eq!(award.model_id, 4464);
}

#[test]
fn award_value_beyond_u32_range_is_dropped() {
    let input = "[msg MSG_1 [Ann]][s][f 5 13 1 2 99999999999]Hi[e]";
    let message = Message::parse(input).expect("message should parse");
    assert!(message.confidant_points.is_none());
}

#[test]
fn wait_tag_sets_wait_for_input_only() {
    let input = "[msg MSG_1 [Ann]][s]Hi[w][e]";
    let message = Message::parse(input).expect("message should parse");
    assert!(message.flags.wait_for_input);
    assert!(!message.flags.has_lipsync);
}

#[test]
fn parse_content_alone_reports_defaults_on_plain_text() {
    let (content, flags, award) = Message::parse_content("plain text only");
    assert_eq!(content, "plain text only");
    assert!(!flags.has_lipsync);
    assert!(!flags.wait_for_input);
    assert!(award.is_none());
}

#[test]
fn award_numbers_accept_a_leading_plus_sign() {
    let input = "[msg MSG_1 [Ann]][s][f 5 13 +30 +15 +5]Hi[e]";
    let message = Message::parse(input).expect("message should parse");
    let award = message.confidant_points.expect("award should be present");
    assert_eq!(award.confidant_id, 30);
    assert_eq!(award.points, 15);
    assert_eq!(award.model_id, 5);
}

#[test]
fn header_tokens_split_on_any_whitespace() {
    let parsed = Message::parse_header("[msg\tMSG_1\t[Bob").expect("header should parse");
    assert_eq!(parsed.message_id, "MSG_1");
    assert_eq!(parsed.character.as_deref(), Some("Bob"));
}

#[test]
fn doc_example_parses() {
    let input = "[msg MSG_BTTL_2 [Morgana]][s][f 4 10 65535 0 0]Hello world![f 1 3 65535][w][e]";
    if let Some(message) = Message::parse(input) {
        assert_eq!(message.content, "Hello world!");
        assert!(message.flags.has_lipsync);
    } else {
        panic!("example should parse");
    }
}
