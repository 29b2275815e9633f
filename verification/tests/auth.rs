use login_core::auth::authenticate;
use login_core::auth::UserRecord;
use login_core::worker::handle_frame;
use login_core::codec::encode_frame;
use login_core::LoginStatus;
use login_core::Message;

fn record(id: i32, username: &str, password: &str) -> UserRecord {
    UserRecord {
        id,
        username: username.to_string(),
        password: password.to_string(),
        email: None,
    }
}

fn auth(store: &Vec<UserRecord>, u: &str, p: &str) -> Message {
    authenticate(store, &u.to_string(), &p.to_string())
}

#[test]
fn empty_store_is_bad_user() {
    let store = vec![];
    assert_eq!(auth(&store, "u", "p"), Message::LoginReply(LoginStatus::BadUser));
}

#[test]
fn one_match_right_password_is_accepted() {
    let store = vec![record(1, "u", "hp")];
    assert_eq!(
        auth(&store, "u", "hp"),
        Message::LoginReply(LoginStatus::Accepted { id: 1 })
    );
}

#[test]
fn one_match_wrong_password_is_bad_pass() {
    let store = vec![record(1, "u", "hp")];
    assert_eq!(auth(&store, "u", "wrong"), Message::LoginReply(LoginStatus::BadPass));
}

#[test]
fn duplicate_usernames_are_internal_error() {
    let store = vec![record(1, "u", "hp"), record(2, "u", "hp2")];
    assert_eq!(auth(&store, "u", "hp"), Message::InternalError);
}

#[test]
fn only_matching_rows_count() {
    // Other users in the store change nothing.
    let store = vec![record(7, "other", "x"), record(3, "u", "hp"), record(9, "misc", "hp")];
    assert_eq!(
        auth(&store, "u", "hp"),
        Message::LoginReply(LoginStatus::Accepted { id: 3 })
    );
    assert_eq!(auth(&store, "nobody", "hp"), Message::LoginReply(LoginStatus::BadUser));
}

#[test]
fn password_comparison_is_exact() {
    let store = vec![record(1, "u", "HP")];
    assert_eq!(auth(&store, "u", "hp"), Message::LoginReply(LoginStatus::BadPass));
    assert_eq!(auth(&store, "u", "HP "), Message::LoginReply(LoginStatus::BadPass));
    assert_eq!(
        auth(&store, "u", "HP"),
        Message::LoginReply(LoginStatus::Accepted { id: 1 })
    );
}

fn payload_of(m: &Message) -> Vec<u8> {
    let frame = encode_frame(m);
    frame[..frame.len() - 1].to_vec()
}

#[test]
fn malformed_frame_gets_exactly_bad_request() {
    let store = vec![record(1, "u", "hp")];
    let reply = handle_frame(&b"this is not a message".to_vec(), &store);
    assert_eq!(reply, Some(Message::BadRequest));
    let reply = handle_frame(&vec![0xc3, 0x28], &store);
    assert_eq!(reply, Some(Message::BadRequest));
}

#[test]
fn login_request_frame_is_authenticated() {
    let store = vec![record(5, "u", "hp")];
    let request = Message::LoginRequest { username: "u".to_string(), password: "hp".to_string() };
    let reply = handle_frame(&payload_of(&request), &store);
    assert_eq!(reply, Some(Message::LoginReply(LoginStatus::Accepted { id: 5 })));

    let request = Message::LoginRequest { username: "u".to_string(), password: "xx".to_string() };
    let reply = handle_frame(&payload_of(&request), &store);
    assert_eq!(reply, Some(Message::LoginReply(LoginStatus::BadPass)));
}

#[test]
fn unexpected_variant_gets_no_reply() {
    let store = vec![record(1, "u", "hp")];
    for m in [
        Message::LoginReply(LoginStatus::BadUser),
        Message::LoginReply(LoginStatus::Accepted { id: 2 }),
        Message::BadRequest,
        Message::InternalError,
    ] {
        assert_eq!(handle_frame(&payload_of(&m), &store), None);
    }
}
