//! Static sentence embeddings: a sub-word vocabulary, a table of one vector
//! per token, and the rules that turn a sentence into the rows to be pooled.
//!
//! Everything in this crate is integer and text logic. A vector component is
//! carried as the 32 bits of its IEEE 754 encoding; the sums, the mean and the
//! norm over those components are left to the caller.
pub mod error;
pub mod text;
pub mod segment;
pub mod vocab;
pub mod tokenizer;
pub mod table;
pub mod model;
pub mod cleanup;
pub mod encoded;

pub use cleanup::clean_text;
pub use encoded::TokenizerOutput;
pub use error::{EncodeError, InitError};
pub use model::{Pooling, PotionModel, RustPotion};
pub use table::EmbeddingTable;
pub use tokenizer::{setencen2tok, word2tok};
pub use vocab::Vocabulary;
