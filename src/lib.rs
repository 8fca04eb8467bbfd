//! Gmail batch protocol engine and resumable listing streams.

pub mod text;
pub mod multipart;
pub mod embedded;
pub mod batch;
pub mod cursor;
pub mod util;
pub mod messages;
pub mod history;
pub mod gauth;
pub mod gmail;
pub mod round_trip;
