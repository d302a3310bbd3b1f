//! Grammar-style compression of symbol sequences by repeated substring
//! substitution.

pub mod compress;
pub mod encoding;
pub mod expand;
pub mod graph;
pub mod matching;
pub mod prune;
pub mod selector;
pub mod token;

pub use compress::{compress, encode_with_iterative_run_compression, encode_with_run_compression};
pub use encoding::{collapse_encoding, null_encoding, Encoding};
pub use graph::{encoding_graph, EncodingGraph};
pub use matching::{count_accepted, next_match};
pub use prune::{prune_chains, prune_pass};
pub use selector::find_max_compressable_seq;
pub use token::TokenIter;
