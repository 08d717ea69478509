//! Huffman coding core: build a binary prefix-code tree by repeatedly merging
//! the minimum-weight pair of nodes, and report the size in bits of the
//! original fixed-width encoding versus the Huffman-coded encoding.
//!
//! The crate also provides the ordered binary tree and the singly linked list
//! that accompany the Huffman demo.

pub mod binary_tree;
pub mod huffman;
pub mod linked_list;
