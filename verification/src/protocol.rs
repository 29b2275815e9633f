use vstd::prelude::*;

verus! {

/// Numeric user identifier assigned by the credential store.
/// Opaque to this library: meaningful only up to equality.
pub type Uid = i32;

/// Longest raw username a client may submit before hashing it.
pub const MAX_USERNAME_LEN: usize = 20;

/// TCP port known to client and server out of band.
pub const PORT: u16 = 62100;

/// Outcome of validating a login request against the user store.
#[derive(Clone, Copy, Debug, PartialEq, Eq, Structural)]
pub enum LoginStatus {
    Accepted { id: Uid },
    BadUser,
    BadPass,
}

/// Mathematical shape of a wire message: string fields as character sequences.
pub enum MessageModel {
    LoginRequest { username: Seq<char>, password: Seq<char> },
    LoginReply { status: LoginStatus },
    BadRequest,
    InternalError,
}

/// One message of the wire protocol.
///
/// A login request carries the username and password already hashed by the
/// caller; the wire never carries plaintext secrets.
#[derive(Debug)]
pub enum Message {
    LoginRequest { username: String, password: String },
    LoginReply(LoginStatus),
    BadRequest,
    InternalError,
}

impl View for Message {
    type V = MessageModel;

    open spec fn view(&self) -> MessageModel {
        match self {
            Message::LoginRequest { username, password } => MessageModel::LoginRequest {
                username: username@,
                password: password@,
            },
            Message::LoginReply(status) => MessageModel::LoginReply { status: *status },
            Message::BadRequest => MessageModel::BadRequest,
            Message::InternalError => MessageModel::InternalError,
        }
    }
}

impl PartialEq for Message {
    fn eq(&self, other: &Self) -> bool {
        match (self, other) {
            (
                Message::LoginRequest { username: u1, password: p1 },
                Message::LoginRequest { username: u2, password: p2 },
            ) => *u1 == *u2 && *p1 == *p2,
            (Message::LoginReply(s1), Message::LoginReply(s2)) => *s1 == *s2,
            (Message::BadRequest, Message::BadRequest) => true,
            (Message::InternalError, Message::InternalError) => true,
            _ => false,
        }
    }
}

impl vstd::std_specs::cmp::PartialEqSpecImpl for Message {
    open spec fn obeys_eq_spec() -> bool {
        true
    }

    open spec fn eq_spec(&self, other: &Self) -> bool {
        self@ == other@
    }
}

/// What the client concludes from one login attempt.
#[derive(Clone, Copy, Debug, PartialEq, Eq, Structural)]
pub enum LoginResult {
    NoServer,
    ConnectionTimeout,
    NetworkError,
    SomethingWentWrong,
    BadUser,
    BadPass,
    Success,
}

/// What a server reply means for the client: the verdict of the attempt, and
/// the session id when the login was accepted.
pub open spec fn reply_verdict(m: MessageModel) -> (LoginResult, Option<Uid>) {
    match m {
        MessageModel::LoginReply { status } => match status {
            LoginStatus::Accepted { id } => (LoginResult::Success, Some(id)),
            LoginStatus::BadUser => (LoginResult::BadUser, None),
            LoginStatus::BadPass => (LoginResult::BadPass, None),
        },
        _ => (LoginResult::SomethingWentWrong, None),
    }
}

/// Interpret the server's reply to a login request on the client side.
pub fn classify_reply(reply: &Message) -> (r: (LoginResult, Option<Uid>))
    ensures
        r == reply_verdict(reply@),
{
    match reply {
        Message::LoginReply(LoginStatus::Accepted { id }) => (LoginResult::Success, Some(*id)),
        Message::LoginReply(LoginStatus::BadUser) => (LoginResult::BadUser, None),
        Message::LoginReply(LoginStatus::BadPass) => (LoginResult::BadPass, None),
        _ => (LoginResult::SomethingWentWrong, None),
    }
}

} // verus!
