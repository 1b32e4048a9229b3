//! A document character-cleaning library.
//!
//! The library holds the data-driven core of a word-processing document
//! sanitizer: a rule table mapping disallowed characters to display names and
//! replacement characters, a shared counter store tracking how often each
//! disallowed character was removed, a text cleaner that substitutes
//! disallowed characters and collapses runs of spaces, a walker that cleans
//! every text fragment of a document, and a reporter that renders removal
//! statistics.

pub mod cleaner;
pub mod counters;
pub mod document;
pub mod report;
pub mod rules;
