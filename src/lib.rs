//! Delivery of long texts, such as video transcripts, over a channel that
//! limits the byte size of each message: byte-bounded splitting that never
//! cuts a UTF-8 character, greedy packing of fragments into messages, and the
//! choice of a fallback transcript language.
pub mod accumulator;
pub mod decode;
pub mod formatter;
pub mod transcript;
pub mod utf8_text;
