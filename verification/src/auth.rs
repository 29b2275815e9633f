//! The authentication decision.
//!
//! Given the user rows the credential store returned for a username and the
//! submitted password hash, the reply is fully determined: no match means an
//! unknown user, one match is decided by exact comparison of the stored and
//! submitted password hashes, and several matches betray a broken
//! unique-username invariant of the store, answered as an internal error
//! rather than by guessing a record.

use vstd::prelude::*;
use crate::protocol::LoginStatus;
use crate::protocol::Message;
use crate::protocol::MessageModel;
use crate::protocol::Uid;

verus! {

/// One row of the external user store.
#[derive(Debug)]
pub struct UserRecord {
    pub id: Uid,
    pub username: String,
    pub password: String,
    pub email: Option<String>,
}

/// Mathematical shape of a user row.
pub struct RecordModel {
    pub id: Uid,
    pub username: Seq<char>,
    pub password: Seq<char>,
    pub email: Option<Seq<char>>,
}

impl View for UserRecord {
    type V = RecordModel;

    open spec fn view(&self) -> RecordModel {
        RecordModel {
            id: self.id,
            username: self.username@,
            password: self.password@,
            email: match self.email {
                Some(e) => Some(e@),
                None => None,
            },
        }
    }
}

pub open spec fn store_view(rows: Seq<UserRecord>) -> Seq<RecordModel> {
    rows.map_values(|r: UserRecord| r@)
}

/// The rows whose username field equals `u`.
pub open spec fn matching(store: Seq<RecordModel>, u: Seq<char>) -> Seq<RecordModel> {
    store.filter(|r: RecordModel| r.username == u)
}

/// Extending the store by one row extends its matches by that row exactly
/// when the row's username matches.
pub proof fn lemma_matching_push(store: Seq<RecordModel>, u: Seq<char>, x: RecordModel)
    ensures
        matching(store.push(x), u) == (if x.username == u {
            matching(store, u).push(x)
        } else {
            matching(store, u)
        }),
{
    reveal(Seq::filter);
    assert(store.push(x).drop_last() =~= store);
    assert(store.push(x).last() == x);
}

/// The reply owed to a login request, from the store's contents alone:
/// zero matches give `BadUser`, one match compares the password hashes, and
/// two or more matches are a store-integrity fault.
pub open spec fn auth_decision(store: Seq<RecordModel>, u: Seq<char>, p: Seq<char>) -> MessageModel {
    let ms = matching(store, u);
    if ms.len() == 0 {
        MessageModel::LoginReply { status: LoginStatus::BadUser }
    } else if ms.len() == 1 {
        if ms[0].password == p {
            MessageModel::LoginReply { status: LoginStatus::Accepted { id: ms[0].id } }
        } else {
            MessageModel::LoginReply { status: LoginStatus::BadPass }
        }
    } else {
        MessageModel::InternalError
    }
}

/// Decide one login request against the rows the store returned for it.
pub fn authenticate(rows: &Vec<UserRecord>, username: &String, password: &String) -> (r: Message)
    ensures
        r@ == auth_decision(store_view(rows@), username@, password@),
{
    let mut count: usize = 0;
    let mut first: usize = 0;
    let mut i: usize = 0;
    while i < rows.len()
        invariant
            i <= rows@.len(),
            count <= i,
            count == matching(store_view(rows@.take(i as int)), username@).len(),
            count > 0 ==> first < i && rows@[first as int]@.username == username@ && matching(
                store_view(rows@.take(i as int)),
                username@,
            )[0] == rows@[first as int]@,
        decreases rows@.len() - i,
    {
        let row = &rows[i];
        let is_match = row.username == *username;
        proof {
            let prev = store_view(rows@.take(i as int));
            let next = store_view(rows@.take(i + 1));
            assert(next =~= prev.push(rows@[i as int]@));
            lemma_matching_push(prev, username@, rows@[i as int]@);
            assert(is_match == (rows@[i as int]@.username == username@));
        }
        if is_match {
            if count == 0 {
                first = i;
            }
            count = count + 1;
        }
        i = i + 1;
    }
    proof {
        assert(rows@.take(rows@.len() as int) =~= rows@);
    }
    if count == 0 {
        Message::LoginReply(LoginStatus::BadUser)
    } else if count == 1 {
        let row = &rows[first];
        if row.password == *password {
            Message::LoginReply(LoginStatus::Accepted { id: row.id })
        } else {
            Message::LoginReply(LoginStatus::BadPass)
        }
    } else {
        Message::InternalError
    }
}

} // verus!
