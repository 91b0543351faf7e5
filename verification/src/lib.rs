//! Data model of Elden Ring's in-memory structures: the message (FMG) file
//! repository with its id lookup, and game version detection.

pub mod bytes;
pub mod cs;
pub mod version;
