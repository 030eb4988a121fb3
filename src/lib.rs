//! Text analysis with a content-addressed record store and a small
//! phrase-to-filter translator.

pub mod text;
pub mod analyzer;
pub mod record;
pub mod filter;
pub mod store;
pub mod translate;
