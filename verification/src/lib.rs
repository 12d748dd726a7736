//! A compressed prefix tree (radix trie) over unicode strings, with verified
//! insertion, membership search, and deletion.
//!
//! Nodes hold multi-character edge labels; insertion splits an edge when a new
//! word diverges partway through a label, and deletion merges a non-terminal
//! node with its only child so that the tree stays minimal.

pub mod laws;
pub mod prefix;
pub mod radix;
