use fix_flow::encoder::{flow_encoder, try_flow_encoder, EntryValue, FixJsonMessage, JsonField};

fn field(name: &str, value: &str) -> (String, JsonField) {
    (name.to_string(), JsonField::Field(value.to_string()))
}

fn heartbeat() -> FixJsonMessage {
    FixJsonMessage {
        header: vec![
            field("BeginString", "FIX.4.4"),
            field("MsgType", "0"),
            field("SenderCompID", "A"),
            field("TargetCompID", "B"),
            field("MsgSeqNum", "12"),
            field("SendingTime", "20100304-07:59:30"),
        ],
        body: vec![],
        trailer: vec![],
    }
}

/// What `fefix`'s own tag-value encoder writes for the same fields.
fn fefix_encoded(begin_string: &str, msg_type: &str, fields: &[(u16, &str)]) -> String {
    let mut encoder = fefix::tagvalue::Encoder::<fefix::tagvalue::Config>::default();
    encoder.config_mut().set_separator(b'|');
    let mut buffer = Vec::new();
    let mut handle = encoder.start_message(begin_string.as_bytes(), &mut buffer, msg_type.as_bytes());
    for (tag, value) in fields {
        handle.set_any(fefix::TagU16::new(*tag).unwrap(), value.as_bytes());
    }
    String::from_utf8(handle.wrap().to_vec()).unwrap()
}

#[test]
fn heartbeat_encodes_to_tag_value() {
    let text = flow_encoder(&heartbeat());
    assert_eq!(
        text,
        "8=FIX.4.4|9=000047|35=0|35=0|49=A|56=B|34=12|52=20100304-07:59:30|10=046|"
    );
}

#[test]
fn encoding_matches_the_fefix_encoder() {
    let fields = [(35u16, "0"), (49, "A"), (56, "B"), (34, "12"), (52, "20100304-07:59:30")];
    assert_eq!(flow_encoder(&heartbeat()), fefix_encoded("FIX.4.4", "0", &fields));
}

#[test]
fn header_trailer_and_body_come_in_that_order() {
    let msg = FixJsonMessage {
        header: vec![field("MsgType", "A"), field("BeginString", "FIX.4.4")],
        body: vec![field("Username", "alice")],
        trailer: vec![field("Signature", "xyz")],
    };
    let text = flow_encoder(&msg);
    let expected = fefix_encoded("FIX.4.4", "A", &[(35, "A"), (89, "xyz"), (553, "alice")]);
    assert_eq!(text, expected);
    assert!(text.starts_with("8=FIX.4.4|9=000027|35=A|35=A|89=xyz|553=alice|10=100|"));
}

#[test]
fn group_entries_are_written_field_by_field() {
    let msg = FixJsonMessage {
        header: vec![field("BeginString", "FIX.4.4"), field("MsgType", "V")],
        body: vec![(
            "NoMDEntryTypes".to_string(),
            JsonField::Group(vec![
                vec![("MDEntryType".to_string(), EntryValue::Field("0".to_string())), ("Nested".to_string(), EntryValue::Group)],
                vec![("MDEntryType".to_string(), EntryValue::Field("1".to_string()))],
            ]),
        )],
        trailer: vec![],
    };
    let expected = fefix_encoded("FIX.4.4", "V", &[(35, "V"), (269, "0"), (269, "1")]);
    assert_eq!(flow_encoder(&msg), expected);
}

#[test]
fn message_without_msg_type_cannot_be_encoded() {
    let msg = FixJsonMessage { header: vec![field("BeginString", "FIX.4.4")], body: vec![], trailer: vec![] };
    assert!(try_flow_encoder(&msg).is_none());
}

#[test]
fn unknown_field_name_cannot_be_encoded() {
    let mut msg = heartbeat();
    msg.body.push(field("NoSuchField", "1"));
    assert!(try_flow_encoder(&msg).is_none());
    assert_eq!(try_flow_encoder(&heartbeat()), Some(flow_encoder(&heartbeat())));
}

#[test]
fn body_length_digits_are_those_of_the_fefix_encoder() {
    let long = "x".repeat(300);
    let mut msg = heartbeat();
    msg.header.truncate(2);
    msg.body.push(field("Text", &long));
    let expected = fefix_encoded("FIX.4.4", "0", &[(35, "0"), (58, long.as_str())]);
    assert_eq!(flow_encoder(&msg), expected);
    // 35=0|35=0| (10 bytes) and 58=...| (304 bytes): 314 bytes, written as
    // the encoder truncates each quotient to a byte.
    assert!(expected.starts_with("8=FIX.4.4|9=000318|"));
}

#[test]
fn encoded_message_reads_back_checksum_and_frame() {
    let text = flow_encoder(&heartbeat());
    let json = fix_flow::decoder::flow_decoder(text.as_bytes()).unwrap();
    assert!(json.contains("\"CheckSum\":\"046\""));
    assert!(json.contains("\"MsgSeqNum\":\"12\""));
    assert_eq!(fix_flow::frame::payload_range_exec(text.as_bytes()), Some((19, 66)));
}

#[test]
fn decoder_reads_back_each_written_field() {
    let mut msg = heartbeat();
    msg.body.push(field("Text", "hello"));
    let text = flow_encoder(&msg);
    let json = fix_flow::decoder::flow_decoder(text.as_bytes()).unwrap();
    assert_eq!(
        json,
        "{\"Body\":{\"Text\":\"hello\"},\"Header\":{\"BeginString\":\"FIX.4.4\",\"MsgSeqNum\":\"12\",\"MsgType\":\"0\",\"SenderCompID\":\"A\",\"SendingTime\":\"20100304-07:59:30\",\"TargetCompID\":\"B\"},\"Trailer\":{\"CheckSum\":\"".to_string()
            + &text[text.len() - 4..text.len() - 1]
            + "\"}}"
    );
}
