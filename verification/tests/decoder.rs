use fix_flow::decoder::{checksum_text_exec, decode_err, flow_decoder, try_flow_decoder, DecodeError};
use fix_flow::frame::FixErrorKind;

const HEARTBEAT: &[u8] = b"8=FIX.4.4|9=42|35=0|49=A|56=B|34=12|52=20100304-07:59:30|10=185|";

#[test]
fn heartbeat_decodes_to_sections() {
    let json = flow_decoder(HEARTBEAT).unwrap();
    assert_eq!(
        json,
        "{\"Body\":{},\"Header\":{\"BeginString\":\"FIX.4.4\",\"MsgSeqNum\":\"12\",\"MsgType\":\"0\",\"SenderCompID\":\"A\",\"SendingTime\":\"20100304-07:59:30\",\"TargetCompID\":\"B\"},\"Trailer\":{\"CheckSum\":\"185\"}}"
    );
}

#[test]
fn message_without_checksum_value_is_malformed() {
    assert_eq!(flow_decoder(b"8=FIX.4.4|9=5|35=0|10=|"), Err(DecodeError::Malformed));
    assert_eq!(try_flow_decoder(b""), Some(Err(DecodeError::Malformed)));
}

#[test]
fn wrong_body_length_is_refused_by_the_fix_decoder() {
    assert_eq!(flow_decoder(b"8=FIX.4.4|9=6|35=0|10=000|"), Err(DecodeError::Fix(FixErrorKind::Invalid)));
    assert_eq!(flow_decoder(b"8=FIX.4.4|10=000|"), Err(DecodeError::Fix(FixErrorKind::Invalid)));
}

#[test]
fn tag_unknown_to_the_dictionary_is_malformed() {
    let msg = b"8=FIX.4.4|9=32|35=0|49=A|56=B|34=1|52=X|5000=q|10=201|";
    assert_eq!(try_flow_decoder(msg), Some(Err(DecodeError::Malformed)));
}

#[test]
fn body_and_trailer_fields_go_to_their_sections() {
    let msg = b"8=FIX.4.4|9=46|35=0|49=A|56=B|34=1|52=X|58=hello|93=3|89=abc|10=193|";
    let json = flow_decoder(msg).unwrap();
    assert_eq!(
        json,
        "{\"Body\":{\"Text\":\"hello\"},\"Header\":{\"BeginString\":\"FIX.4.4\",\"MsgSeqNum\":\"1\",\"MsgType\":\"0\",\"SenderCompID\":\"A\",\"SendingTime\":\"X\",\"TargetCompID\":\"B\"},\"Trailer\":{\"CheckSum\":\"193\",\"Signature\":\"abc\",\"SignatureLength\":\"3\"}}"
    );
}

#[test]
fn checksum_value_is_read_from_the_last_field() {
    assert_eq!(checksum_text_exec(b"8=FIX.4.4|10=185|"), Some(b"185".to_vec()));
    assert_eq!(checksum_text_exec(b"10=1=2"), Some(b"1".to_vec()));
    assert_eq!(checksum_text_exec(b"10"), None);
    assert_eq!(checksum_text_exec(b""), None);
    assert_eq!(decode_err(), DecodeError::Malformed);
}

#[test]
fn errors_have_their_texts() {
    assert_eq!(DecodeError::Malformed.message(), "failed to decode");
    assert_eq!(DecodeError::Fix(FixErrorKind::Invalid).message(), "Invalid FIX message syntax.");
    assert_eq!(flow_decoder(b"8=FIX.4.4|10=000|").unwrap_err().message(), "Invalid FIX message syntax.");
    assert_eq!(DecodeError::Json.message(), "JSON serialization failed");
}
