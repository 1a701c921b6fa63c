//! A cookie-aware HTTP session core.
//!
//! The crate verifies the stateful heart of a small self-care client: a
//! cookie jar with browser-like matching rules, a redirect-following
//! session engine expressed as a state machine, and the screen-scraping
//! helpers that pull identifiers out of fetched pages. All I/O stays with
//! the caller; the engine only decides what the next request must be.

pub mod bytes;
pub mod scrape;
pub mod jar;
pub mod engine;
pub mod scheme;
