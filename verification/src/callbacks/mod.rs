//! Observers that come with the library.

pub mod log_dispatch;
