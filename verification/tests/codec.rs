use toncall::envelope::pack_message;
use toncall::envelope::unpack_message;
use toncall::envelope::EncodedMessage;
use toncall::envelope::UnpackError;

fn msg(id: &str, body: &[u8], expire: Option<u32>) -> EncodedMessage {
    EncodedMessage { message_id: id.to_string(), message_body: body.to_vec(), expire }
}

fn roundtrip(m: &EncodedMessage, method: &str) {
    let token = pack_message(m, method);
    let (back, back_method) = unpack_message(&token).expect("token must unpack");
    assert_eq!(&back, m);
    assert_eq!(back_method, method);
}

#[test]
fn roundtrip_plain() {
    roundtrip(&msg("abcdef", &[0xde, 0xad, 0xbe, 0xef], Some(1234)), "transfer");
}

#[test]
fn roundtrip_no_expire() {
    roundtrip(&msg("id-1", &[], None), "constructor");
}

#[test]
fn roundtrip_expire_zero() {
    roundtrip(&msg("x", &[7], Some(0)), "m");
}

#[test]
fn roundtrip_expire_max() {
    roundtrip(&msg("x", &[0, 255], Some(u32::MAX)), "m");
}

#[test]
fn roundtrip_exotic_strings() {
    roundtrip(&msg("quote\" slash\\ newline\n tab\t", &[1, 2, 3], Some(9)), "mé₤😀");
}

#[test]
fn roundtrip_empty_everything() {
    roundtrip(&msg("", &[], None), "");
}

#[test]
fn packed_token_wire_format() {
    let m = msg("0a", &[0xab], Some(7));
    let token = pack_message(&m, "run");
    let text = r#"{"msg":{"message_id":"0a","message_body":"ab","expire":7},"method":"run"}"#;
    assert_eq!(token, hex::encode(text));
}

#[test]
fn packed_token_null_expire() {
    let m = msg("", &[], None);
    let token = pack_message(&m, "go");
    let text = r#"{"msg":{"message_id":"","message_body":"","expire":null},"method":"go"}"#;
    assert_eq!(token, hex::encode(text));
}

#[test]
fn unpack_accepts_uppercase_hex() {
    let m = msg("id", &[0xfe], Some(1));
    let token = pack_message(&m, "m").to_uppercase();
    let (back, method) = unpack_message(&token).expect("uppercase token must unpack");
    assert_eq!(back, m);
    assert_eq!(method, "m");
}

#[test]
fn unpack_rejects_bad_hex() {
    assert_eq!(unpack_message("not-valid-hex!"), Err(UnpackError::MalformedToken));
}

#[test]
fn unpack_rejects_odd_length() {
    assert_eq!(unpack_message("abc"), Err(UnpackError::MalformedToken));
}

#[test]
fn unpack_rejects_non_json() {
    let token = hex::encode("not json");
    assert_eq!(unpack_message(&token), Err(UnpackError::DecodeError));
}

#[test]
fn unpack_rejects_non_ascii_text() {
    assert_eq!(unpack_message("ff"), Err(UnpackError::CorruptToken));
}

#[test]
fn unpack_rejects_missing_method() {
    let text = r#"{"msg":{"message_id":"a","message_body":"","expire":null}}"#;
    let token = hex::encode(text);
    assert_eq!(
        unpack_message(&token),
        Err(UnpackError::FieldMissing("method".to_string()))
    );
}

#[test]
fn unpack_rejects_missing_message_id() {
    let text = r#"{"msg":{"message_body":""},"method":"m"}"#;
    let token = hex::encode(text);
    assert_eq!(
        unpack_message(&token),
        Err(UnpackError::FieldMissing("message_id".to_string()))
    );
}

#[test]
fn unpack_rejects_missing_message_body() {
    let text = r#"{"msg":{"message_id":"a"},"method":"m"}"#;
    let token = hex::encode(text);
    assert_eq!(
        unpack_message(&token),
        Err(UnpackError::FieldMissing("message_body".to_string()))
    );
}

#[test]
fn unpack_rejects_bad_body_hex() {
    let text = r#"{"msg":{"message_id":"a","message_body":"zz","expire":null},"method":"m"}"#;
    let token = hex::encode(text);
    assert_eq!(unpack_message(&token), Err(UnpackError::CorruptToken));
}

#[test]
fn unpack_ignores_non_numeric_expire() {
    let text = r#"{"msg":{"message_id":"a","message_body":"0b","expire":"soon"},"method":"m"}"#;
    let token = hex::encode(text);
    let (back, method) = unpack_message(&token).expect("token must unpack");
    assert_eq!(back, msg("a", &[0x0b], None));
    assert_eq!(method, "m");
}

#[test]
fn expiration_header_text() {
    assert_eq!(toncall::envelope::expiration_header(0), "{\"expire\":0}");
    assert_eq!(toncall::envelope::expiration_header(1596644247), "{\"expire\":1596644247}");
}
