//! Longest-prefix membership indexes for IPv4 and IPv6 CIDR blocks.
pub mod bit_vec;
pub mod cidr_bs;
pub mod lpc_trie;
pub mod loader;
