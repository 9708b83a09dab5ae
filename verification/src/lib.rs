//! Relevance-ranking core of a search engine: documents that matched a
//! multi-term query are ordered by an ordered sequence of independent
//! ranking criteria, each refining the ties left by the previous ones.

pub mod arena;
pub mod attribute;
pub mod criterion;
pub mod document;
pub mod engine;
pub mod proximity;
pub mod sorting;
pub mod typo;
pub mod words;

pub use arena::{sort_dedup_positions, DocIndex, DocumentId, PostingsArena, PostingsListId};
pub use attribute::Attribute;
pub use criterion::{Criterion, Order};
pub use document::{aggregate_documents, BareMatch, RawDocument};
pub use proximity::{attribute_proximity, index_proximity, Proximity};
pub use typo::Typo;
pub use words::Words;
