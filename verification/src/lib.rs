//! Connection-dispatch and authentication core of a TCP login service.
//!
//! The library covers the wire framing and message codec, the authentication
//! decision, and the worker-pool dispatch protocol; network and database I/O
//! stay with the caller.

pub mod auth;
pub mod codec;
pub mod digits;
pub mod dispatch;
pub mod escape;
pub mod hashing;
pub mod protocol;
pub mod worker;

pub use hashing::get_hash;
pub use protocol::LoginResult;
pub use protocol::LoginStatus;
pub use protocol::Message;
pub use protocol::Uid;
pub use protocol::MAX_USERNAME_LEN;
pub use protocol::PORT;
