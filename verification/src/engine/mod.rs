pub mod keys;
pub mod node;
pub mod zobrist;
pub mod hash_board;
pub mod key_chain;
