//! Messages that the server writes itself.
pub mod responses;
