//! A verified Extended-M3U playlist filter: a codec that parses
//! `#EXTM3U`/`#EXTINF` text into typed entries and serializes them
//! back byte for byte, and a composable transformation pipeline that
//! filters an ordered entry list by a named property.

pub mod cli;
pub mod codec;
pub mod entry;
pub mod processor;
pub mod text;
