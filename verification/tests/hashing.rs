use login_core::get_hash;
use login_core::protocol::classify_reply;
use login_core::LoginResult;
use login_core::LoginStatus;
use login_core::Message;
use login_core::MAX_USERNAME_LEN;
use login_core::PORT;

#[test]
fn known_sha512_digests() {
    // Uppercase hex of SHA-512, against independently known values.
    assert_eq!(
        get_hash(&String::new()),
        "CF83E1357EEFB8BDF1542850D66D8007D620E4050B5715DC83F4A921D36CE9CE\
         47D0D13C5D85F2B0FF8318D2877EEC2F63B931BD47417A81A538327AF927DA3E"
    );
    assert_eq!(
        get_hash(&"abc".to_string()),
        "DDAF35A193617ABACC417349AE20413112E6FA4E89A97EA20A9EEEE64B55D39A\
         2192992A274FC1A836BA3C23A3FEEBBD454D4423643CE80E2A9AC94FA54CA49F"
    );
}

#[test]
fn hash_is_fixed_width_and_input_sensitive() {
    let a = get_hash(&"password".to_string());
    let b = get_hash(&"passwore".to_string());
    assert_eq!(a.len(), 128);
    assert_eq!(b.len(), 128);
    assert_ne!(a, b);
    assert!(a.chars().all(|c| c.is_ascii_hexdigit() && !c.is_ascii_lowercase()));
}

#[test]
fn replies_classify_for_the_client() {
    assert_eq!(
        classify_reply(&Message::LoginReply(LoginStatus::Accepted { id: 9 })),
        (LoginResult::Success, Some(9))
    );
    assert_eq!(
        classify_reply(&Message::LoginReply(LoginStatus::BadUser)),
        (LoginResult::BadUser, None)
    );
    assert_eq!(
        classify_reply(&Message::LoginReply(LoginStatus::BadPass)),
        (LoginResult::BadPass, None)
    );
    assert_eq!(
        classify_reply(&Message::BadRequest),
        (LoginResult::SomethingWentWrong, None)
    );
    assert_eq!(
        classify_reply(&Message::InternalError),
        (LoginResult::SomethingWentWrong, None)
    );
    assert_eq!(
        classify_reply(&Message::LoginRequest {
            username: "u".to_string(),
            password: "p".to_string(),
        }),
        (LoginResult::SomethingWentWrong, None)
    );
}

#[test]
fn protocol_constants() {
    assert_eq!(PORT, 62100);
    assert_eq!(MAX_USERNAME_LEN, 20);
}
