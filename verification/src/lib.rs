//! Montre: a corpus index and query-service library for annotated text.
pub mod bitmap;
pub mod bytes;
pub mod chars;
pub mod conllu;
pub mod formats;
pub mod frame;
pub mod span;
pub mod spans;
pub mod text;
pub mod value;
pub mod lexicon;
pub mod order;
pub mod forward;
pub mod protocol;
pub mod graph;
pub mod inverted;
pub mod ids;
pub mod state;
pub mod corpus;
pub mod handlers;
pub mod builder;
pub mod manifest;
pub mod multi;
pub mod input;
pub mod daemon;
pub mod cli;
