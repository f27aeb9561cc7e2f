pub mod error;
pub mod laws;
pub mod modular;
pub mod pdu;
pub mod protocol;
pub mod sums;
pub mod state;
pub mod value;

pub use error::Error;
pub use pdu::{Inbound, Outbound, Payload};
pub use protocol::Protocol;
pub use value::Value;
