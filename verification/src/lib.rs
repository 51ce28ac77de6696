//! Rule-based resolution of external handler programs ("openers") for
//! filesystem entries, matched by MIME type and path patterns.
//!
//! The library is built once from structured configuration and then queried
//! read-only: `Open::openers` scans an ordered rule table for the first rule
//! that matches and resolves to a non-empty set of openers, `block_opener`
//! picks the first blocking opener, and `common_openers` intersects the
//! resolutions of several targets.

pub mod pattern;
pub mod opener;
pub mod rule;
pub mod open;
