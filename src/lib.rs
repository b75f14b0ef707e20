//! Crib-dragging search for two plaintexts that were XOR-encrypted under one
//! reused keystream.
//!
//! Two streams are read at once against a dictionary trie, each one token at a
//! time: a stream inside a token consumes a byte that some cursor of its cursor
//! set accepts, and a stream that has completed a token consumes one separator
//! and starts over at the root. The next ciphertext byte ties the two streams
//! together: their bytes must XOR to it. `crack` searches depth-first for the
//! first solution; `crack_non_rec` enumerates every solution, best first.
pub mod all;
pub mod alphabet;
pub mod candidates;
pub mod cursor;
pub mod dict;
pub mod laws;
pub mod search;
pub mod xor;

pub use all::crack_non_rec;
pub use alphabet::{charset, special};
pub use cursor::Queries;
pub use dict::build_trie;
pub use search::crack;
pub use xor::{xor, xor_strings};
