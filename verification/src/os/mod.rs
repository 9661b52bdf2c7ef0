//! The parts of the client that stand between it and the operating system:
//! paths, directory items, file times, error codes and the time zone.
pub mod env;
pub mod error;
pub mod fs;
