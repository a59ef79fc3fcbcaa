pub mod client;
pub mod control;
pub mod equality;
pub mod json;
pub mod json_guard;
pub mod json_number;
pub mod json_text;
pub mod object;
pub mod router;
pub mod server;
pub mod stream;
pub mod table;

pub use object::{BusinessObject, Payload, ReadBusinessObjectError};
