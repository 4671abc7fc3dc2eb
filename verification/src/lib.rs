pub mod broadcast;
pub mod error;
pub mod frame;
pub mod pb;
pub mod service;
pub mod storage;
pub mod strutil;
pub mod tls;

use vstd::prelude::*;

verus! {

/// HTTP-style status code for a successful command.
pub const STATUS_OK: u32 = 200;

/// Status code for a command that names an absent key.
pub const STATUS_NOT_FOUND: u32 = 404;

/// Status code for a malformed or empty command.
pub const STATUS_BAD_REQUEST: u32 = 400;

/// Status code for a storage or conversion failure.
pub const STATUS_INTERNAL: u32 = 500;

} // verus!
