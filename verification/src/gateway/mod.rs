//! What the gateway hands to its clients.

pub mod base64;
pub mod hex;
pub mod json;
pub mod response;
pub mod row_laws;
