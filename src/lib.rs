//! An incremental parser-combinator engine over byte buffers.
//!
//! Parsers read a caller-owned buffer through a cursor ([`input::Input`]), report one
//! of three outcomes ([`input::ParseResult`]), and can be composed with bounded
//! repetition combinators. Buffers and a stream driver turn "insufficient
//! input" into "fetch more and retry".
pub mod ascii;
pub mod bounded;
pub mod buffer;
pub mod combinators;
pub mod input;
pub mod parsers;
pub mod slice;
pub mod stream;
