use fix_flow::encoder::{flow_encoder, EntryValue, JsonField};
use fix_flow::json_message::{flow_encoder_text, parse_json_message};

const HEARTBEAT_JSON: &str = r#"{"Header":{"BeginString":"FIX.4.4","MsgType":"0","SenderCompID":"A","TargetCompID":"B","MsgSeqNum":"12","SendingTime":"20100304-07:59:30"},"Body":{},"Trailer":{}}"#;

#[test]
fn json_text_is_read_section_by_section_in_key_order() {
    let msg = parse_json_message(HEARTBEAT_JSON).unwrap();
    let names: Vec<&str> = msg.header.iter().map(|(n, _)| n.as_str()).collect();
    assert_eq!(names, vec!["BeginString", "MsgSeqNum", "MsgType", "SenderCompID", "SendingTime", "TargetCompID"]);
    assert!(msg.body.is_empty());
    assert!(msg.trailer.is_empty());
}

#[test]
fn json_text_encodes_as_its_message() {
    let text = flow_encoder_text(HEARTBEAT_JSON).unwrap();
    assert_eq!(text, flow_encoder(&parse_json_message(HEARTBEAT_JSON).unwrap()));
    assert_eq!(text, "8=FIX.4.4|9=000047|35=0|34=12|35=0|49=A|52=20100304-07:59:30|56=B|10=046|");
}

#[test]
fn groups_are_read_with_their_entries() {
    let json = r#"{"Header":{"BeginString":"FIX.4.4","MsgType":"V"},"Body":{"NoMDEntryTypes":[{"MDEntryType":"0"},{"MDEntryType":"1","Nested":[]}]},"Trailer":{}}"#;
    let msg = parse_json_message(json).unwrap();
    match &msg.body[0].1 {
        JsonField::Group(entries) => {
            assert_eq!(entries.len(), 2);
            assert!(matches!(&entries[0][0].1, EntryValue::Field(s) if s == "0"));
            assert!(matches!(&entries[1][1].1, EntryValue::Group));
        }
        JsonField::Field(_) => panic!("a group was read as a field"),
    }
    let text = flow_encoder_text(json).unwrap();
    assert!(text.contains("|269=0|269=1|"));
}

#[test]
fn texts_that_are_no_message_are_refused() {
    assert_eq!(flow_encoder_text("not json"), None);
    assert_eq!(flow_encoder_text(r#"{"Header":{},"Body":{}}"#), None);
    assert_eq!(flow_encoder_text(r#"{"Header":{"MsgType":1},"Body":{},"Trailer":{}}"#), None);
    let number_in_group = r#"{"Header":{"BeginString":"FIX.4.4","MsgType":"V"},"Body":{"NoMDEntryTypes":[{"MDEntryType":0}]},"Trailer":{}}"#;
    assert!(parse_json_message(number_in_group).is_none());
}

#[test]
fn messages_that_cannot_be_written_give_none() {
    assert_eq!(flow_encoder_text(r#"{"Header":{"BeginString":"FIX.4.4"},"Body":{},"Trailer":{}}"#), None);
    assert_eq!(
        flow_encoder_text(r#"{"Header":{"BeginString":"FIX.4.4","MsgType":"0"},"Body":{"NoSuchField":"x"},"Trailer":{}}"#),
        None
    );
}

#[test]
fn decoding_what_was_encoded_gives_the_json_sections_back() {
    let json = r#"{"Header":{"BeginString":"FIX.4.4","MsgType":"D","MsgSeqNum":"1","SenderCompID":"A","TargetCompID":"B","SendingTime":"20240101-00:00:00"},"Body":{"Account":"acct","Symbol":"btc_usdt_spot","Price":"25000"},"Trailer":{}}"#;
    let text = flow_encoder_text(json).unwrap();
    let decoded = fix_flow::decoder::flow_decoder(text.as_bytes()).unwrap();
    let input: serde_json::Value = serde_json::from_str(json).unwrap();
    let output: serde_json::Value = serde_json::from_str(&decoded).unwrap();
    assert_eq!(output["Header"], input["Header"]);
    assert_eq!(output["Body"], input["Body"]);
    let checksum = &text[text.len() - 4..text.len() - 1];
    assert_eq!(output["Trailer"], serde_json::Value::Object(
        [("CheckSum".to_string(), serde_json::Value::String(checksum.to_string()))].into_iter().collect()
    ));
}
