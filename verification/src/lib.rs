//! A front-coded path database: a differential-prefix codec that compresses
//! a stream of filesystem path lines into a compact binary form, a decoder
//! that reconstructs the lines, and the filtering logic of a query pipeline
//! that matches decoded entries against glob patterns.
//!
//! Lines are carried as UTF-8 byte vectors. The codec lives in `codec`, with
//! its byte-level groundwork in `varint` and `text`; `laws` states and
//! proves the format's guarantees; `query` holds the filtering side of the
//! query pipeline around a thin trusted boundary to the glob crate; `walk`
//! holds the database builder's bookkeeping.

pub mod codec;
pub mod laws;
pub mod query;
pub mod text;
pub mod varint;
pub mod walk;
