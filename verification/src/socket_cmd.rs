use vstd::prelude::*;

verus! {

/// Asks the server whether a peer id is connected: `#CHECK_ID <target>`.
pub const CHECK_ID: &'static str = "#CHECK_ID";

/// The server's answer to `#CHECK_ID`: `#CHECK_ID_RES <target> <true|false>`.
pub const CHECK_ID_RES: &'static str = "#CHECK_ID_RES";

/// Asks a peer for a connection: `#REQUEST_P2P <target> <sender> <message>`.
pub const REQUEST_P2P: &'static str = "#REQUEST_P2P";

/// A peer's answer to a request: `#REQUEST_P2P_RES <target> <sender> <true|false>`.
pub const REQUEST_P2P_RES: &'static str = "#REQUEST_P2P_RES";

/// A session offer: `#OFFER <target> <sender> <sdp>`.
pub const OFFER: &'static str = "#OFFER";

/// A session answer: `#ANSWER <target> <sender> <sdp>`.
pub const ANSWER: &'static str = "#ANSWER";

/// The id the server assigns to a fresh connection: `#ID <id>`.
pub const ID: &'static str = "#ID";

} // verus!
