//! The RomM API: the records it returns and the shape of the requests made to it.
pub mod client;
pub mod types;
