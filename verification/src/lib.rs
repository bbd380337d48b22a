//! A sandboxed data-access layer: byte objects are read and written under
//! relative paths that are resolved against a fixed root directory, and no
//! resolution may escape that root.
//!
//! The crate verifies the pure core of the accessor: the path sandbox guard
//! (splitting a path into components, normalizing `.` and `..`, and the
//! component-wise containment check against the root) and the typed error
//! taxonomy. The actual filesystem reads and writes are performed by a thin
//! unverified shell around this library.

pub mod errors;
pub mod local;
pub mod paths;

pub use errors::Error;
pub use errors::ErrorKind;
pub use local::Local;
