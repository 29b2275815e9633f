//! A worker's per-connection decision.
//!
//! The worker reads one frame from its connection, decides on a reply here,
//! sends the reply if one is owed, and releases the connection.  Reading and
//! sending are the caller's I/O; the decision is pure: a frame that does not
//! decode is answered `BadRequest`, a login request is decided against the
//! store rows, and any other well-formed message is released without a reply.

use vstd::prelude::*;
use crate::auth::auth_decision;
use crate::auth::authenticate;
use crate::auth::store_view;
use crate::auth::RecordModel;
use crate::auth::UserRecord;
use crate::codec::parse_msg;
use crate::protocol::Message;
use crate::protocol::MessageModel;

verus! {

/// The reply owed for one received frame payload, if any.
pub open spec fn frame_response(payload: Seq<u8>, store: Seq<RecordModel>) -> Option<
    MessageModel,
> {
    if !vstd::utf8::valid_utf8(payload) {
        Some(MessageModel::BadRequest)
    } else {
        match parse_msg(vstd::utf8::decode_utf8(payload)) {
            None => Some(MessageModel::BadRequest),
            Some(m) => match m {
                MessageModel::LoginRequest { username, password } => Some(
                    auth_decision(store, username, password),
                ),
                _ => None,
            },
        }
    }
}

/// Handle one received frame payload: the reply to send back, or nothing
/// when the connection is to be released silently.
pub fn handle_frame(payload: &Vec<u8>, rows: &Vec<UserRecord>) -> (r: Option<Message>)
    ensures
        match r {
            Some(m) => frame_response(payload@, store_view(rows@)) == Some(m@),
            None => frame_response(payload@, store_view(rows@)) is None,
        },
{
    match crate::codec::decode_frame(payload) {
        Err(_) => Some(Message::BadRequest),
        Ok(m) => match m {
            Message::LoginRequest { username, password } => Some(
                authenticate(rows, &username, &password),
            ),
            _ => None,
        },
    }
}

} // verus!
