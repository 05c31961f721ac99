//! Staleness detection for native compilation units: textual scanning of
//! `#include` directives, and the decision whether a previously built static
//! archive must be rebuilt.

pub mod scan;
pub mod stale;
