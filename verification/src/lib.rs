//! Decoders for two line-oriented text tables published by an operating
//! system's virtual process filesystem: the table of registered terminal
//! (tty) drivers and the table of registered line disciplines.
//!
//! Both decoders take already-read lines of text (the caller supplies the
//! line source), tokenize each line on whitespace, and build either a
//! name-keyed table of driver records or an ordered sequence of
//! line-discipline records. Any malformed line aborts the whole decode.

pub mod error;
pub mod ldisc;
pub mod num;
pub mod text;
pub mod tty;
