//! A dictionary-based tokenizer for Tibetan text.
//!
//! The pipeline normalizes input to NFC, classifies every character,
//! segments the text into typed chunks, walks the chunks against a
//! syllable-keyed trie choosing the longest matching word, and finally
//! applies a small post-processing pass (affix splitting, dagdra merging,
//! lemma and sense defaulting).

pub mod char_categories;
pub mod chunker;
pub mod modifiers;
pub mod sentence;
pub mod strutil;
pub mod syllable;
pub mod token;
pub mod tokenizer;
pub mod trie;

pub use char_categories::{get_char_category, BoString, CharCategory};
pub use chunker::{Chunk, Chunker};
pub use modifiers::{apply_all_modifiers, choose_default_senses, generate_default_lemmas, merge_dagdra, split_affixed};
pub use sentence::{paragraph_tokenize, sentence_tokenize, Paragraph, Sentence};
pub use tokenizer::{SimpleTokenizer, Tokenizer};
pub use trie::{AffixInfo, Trie, TrieBuilder, TrieNode, WordData};
pub use syllable::{is_dagdra, AffixData, SylComponents};
pub use token::{AffixationInfo, ChunkType, Sense, Token};
