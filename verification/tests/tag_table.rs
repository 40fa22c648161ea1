use fix_flow::model::TagName;
use fix_flow::tag_table::{decimal_text, decode, encode, get_tags, split_terminator_exec, try_decode, try_encode, try_get_tags};

const TAGS: &str = r#"[{"tag": 8, "name": "BeginString"}, {"tag": 35, "name": "MsgType"}, {"tag": 35, "name": "MessageType"}]"#;

fn table() -> Vec<TagName> {
    get_tags(TAGS).0
}

#[test]
fn tag_table_is_read_in_order() {
    let (dict, names, tags) = get_tags(TAGS);
    assert_eq!(
        dict,
        vec![
            TagName { tag: 8, name: "BeginString".to_string() },
            TagName { tag: 35, name: "MsgType".to_string() },
            TagName { tag: 35, name: "MessageType".to_string() },
        ]
    );
    assert_eq!(names, vec!["BeginString", "MsgType", "MessageType"]);
    assert_eq!(tags, vec![8, 35, 35]);
}

#[test]
fn negative_tag_is_converted_as_as_converts() {
    let (dict, _, tags) = get_tags(r#"[{"tag": -1, "name": "X"}]"#);
    assert_eq!(tags, vec![u64::MAX]);
    assert_eq!(dict[0].tag, u64::MAX);
}

#[test]
fn incomplete_records_are_refused() {
    assert!(try_get_tags(r#"[{"tag": "8", "name": "BeginString"}]"#).is_none());
    assert!(try_get_tags(r#"[{"tag": 8}]"#).is_none());
    assert!(try_get_tags(r#"{"tag": 8, "name": "BeginString"}"#).is_none());
    assert!(try_get_tags("[]").is_some());
}

#[test]
fn decode_writes_an_entry_per_matching_row() {
    let out = decode(b"8=FIX.4.4|35=A|", table(), vec![], vec![]);
    assert_eq!(out, "{\"BeginString\": \"FIX.4.4\", \"MsgType\": \"A\", \"MessageType\": \"A\", }");
}

#[test]
fn decode_skips_unknown_tags_and_reads_the_second_piece() {
    assert_eq!(decode(b"99=x|35=A=B|", table(), vec![], vec![]), "{\"MsgType\": \"A\", \"MessageType\": \"A\", }");
    assert_eq!(decode(b"", table(), vec![], vec![]), "{}");
}

#[test]
fn decode_refuses_malformed_pieces() {
    assert!(try_decode(b"8=FIX.4.4|35|", table()).is_none());
    assert!(try_decode(b"8=|", table()).is_none());
    assert!(try_decode(b"x=1|", table()).is_none());
    assert_eq!(try_decode(b"8=FIX.4.4", table()), Some("{\"BeginString\": \"FIX.4.4\", }".to_string()));
}

#[test]
fn encode_writes_a_field_per_matching_row_in_key_order() {
    let json = r#"{"MsgType": "A", "BeginString": "FIX.4.4", "Unknown": "z"}"#;
    assert_eq!(encode(json, String::new(), table(), vec![], vec![]), "8=FIX.4.4|35=A|");
    let aliased = r#"{"MessageType": "0"}"#;
    assert_eq!(encode(aliased, String::new(), table(), vec![], vec![]), "35=0|");
}

#[test]
fn encode_refuses_what_is_no_object_of_strings() {
    assert!(try_encode(r#"{"MsgType": 1}"#, table()).is_none());
    assert!(try_encode("[1]", table()).is_none());
    assert!(try_encode("not json", table()).is_none());
    assert_eq!(try_encode("{}", table()), Some(String::new()));
}

#[test]
fn decimal_text_and_split_terminator() {
    assert_eq!(decimal_text(0), "0");
    assert_eq!(decimal_text(18446744073709551615), "18446744073709551615");
    assert_eq!(split_terminator_exec(b"a|b|", b'|'), vec![b"a".to_vec(), b"b".to_vec()]);
    assert_eq!(split_terminator_exec(b"a||b", b'|'), vec![b"a".to_vec(), b"".to_vec(), b"b".to_vec()]);
    assert_eq!(split_terminator_exec(b"", b'|'), Vec::<Vec<u8>>::new());
}

#[test]
fn decoding_two_messages_one_after_the_other() {
    let a: &[u8] = b"8=FIX.4.4|";
    let b: &[u8] = b"35=A|99=x|";
    let x = decode(a, table(), vec![], vec![]);
    let y = decode(b, table(), vec![], vec![]);
    let whole = decode(b"8=FIX.4.4|35=A|99=x|", table(), vec![], vec![]);
    assert_eq!(whole, x[..x.len() - 1].to_string() + &y[1..]);
}
