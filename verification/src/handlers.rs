//! The corpus requests of the service protocol, answered from an opened corpus: text,
//! annotations, documents and layers, and alignment projection.
pub mod text;
pub mod corpus;
pub mod alignment;
pub mod query;
