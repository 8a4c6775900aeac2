//! An in-memory key-value and list store spoken to over the RESP wire protocol:
//! a codec for the protocol's values, an interpreter from requests to commands,
//! and the store that carries the commands out.
pub mod cmd;
pub mod decimal;
pub mod resp;
pub mod state;
pub mod table;
pub mod text;
