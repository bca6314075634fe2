//! Parsing and rendering of SIP addresses: the URI and the named header value
//! (display name, URI, trailing parameters) of From, To and Contact fields.
//!
//! Text is held as bytes throughout. Every parser is specified by a function
//! on `Seq<u8>` and a position; every renderer by a function that builds the
//! `Seq<u8>` it returns.

pub mod laws;
pub mod lexical;
pub mod named;
pub mod named_laws;
pub mod parse;
pub mod render;
pub mod uri;
