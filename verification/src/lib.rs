//! A generator of predictive recursive-descent parsers.
//!
//! A grammar description is turned into the source text of a parser with one
//! token of lookahead. The `frontend` reads the description, the `backend`
//! resolves first sets and renders the parser.

pub mod backend;
pub mod error;
pub mod frontend;
pub mod text;
pub mod types;
