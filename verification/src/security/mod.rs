//! Keys for data at rest.

pub mod key_manager;
