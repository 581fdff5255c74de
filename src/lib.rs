//! Safe layer over a package-database engine: the Debian version ordering,
//! the reentrant system-lock protocol, and the small helpers around them.

pub mod version;
pub mod lock;
pub mod util;
pub mod raw;
