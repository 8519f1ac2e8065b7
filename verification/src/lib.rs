pub mod p2p_connection;
pub mod socket_cmd;
pub mod text;
pub mod utils;
pub mod websocket;

pub use utils::{munch_u64, NullSmartPtr, SmartCell, SmartPtr, WaitStep, WaitTimer};
pub use websocket::{
    ConnectionHandshake, IdMessage, MessageGatherer, SocketListener, WebSocketCreationConfig,
    WebSocketHandler,
};
