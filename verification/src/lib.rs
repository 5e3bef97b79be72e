//! A minimal HTTP dispatch engine: a route tree keyed by path segments
//! (literal and `:name` parameter segments), a matcher, a middleware
//! runner with short-circuiting, and a request/response pipeline.
//!
//! The tree is built once during configuration and read many times during
//! dispatch; every operation on it carries a contract over its abstract
//! view, so registration and matching are proved to agree.

pub mod bytes;
pub mod context;
pub mod handler;
pub mod method;
pub mod mimetype;
pub mod path;
pub mod router;

use vstd::prelude::*;

verus! {

/// The byte that separates path segments.
pub open spec fn slash() -> u8 {
    47u8
}

} // verus!
