//! A byte-pair-encoding tokenizer: it learns merge rules from a corpus and
//! maps text to token ids and back.
pub mod config;
pub mod error;
pub mod expand;
pub mod laws;
pub mod merge;
pub mod preproc;
pub mod pretrained;
pub mod rules;
pub mod table;
pub mod tokenizer;
pub mod train;
pub mod util;

pub use config::TokenizerConfig;
pub use error::TokenizerError;
pub use table::{BkwdMap, FwdMap};
pub use tokenizer::{BPETokenizer, Tokenizer};
pub use util::{Token, VocabMap};
