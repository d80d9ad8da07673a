//! Surfaces orthographic variants in Japanese text: different written
//! forms that share one phonetic reading, grouped so inconsistent
//! spelling choices stand out.
//!
//! Given a text and the morphologically tagged tokens covering it, the
//! library segments the text into sentences ([`segment`]), filters and
//! classifies the tokens ([`classify`]), correlates token offsets with
//! sentences ([`locate`]), accumulates per-reading state
//! ([`aggregate`]), and emits a fully sorted result ([`builder`]). The
//! entry points live in [`analyze`]; the properties the pipeline
//! guarantees are stated and proved in [`laws`].

pub mod aggregate;
pub mod analyze;
pub mod builder;
pub mod chars;
pub mod classify;
pub mod laws;
pub mod locate;
pub mod segment;
