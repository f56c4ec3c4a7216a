//! Redirects a game client's patch-server lookup to a local relay.
//!
//! The library holds the logic: the binary codec of the client's server-list
//! record, the record that points the client at the relay, and the decisions of
//! the relay loop and of the patch session. Reading and writing the container,
//! sockets and the client process are left to the caller.

use vstd::prelude::*;

pub mod codec;
pub mod codec_lemmas;
pub mod patch;
pub mod relay;
pub mod session;

verus! {

} // verus!
