//! Collections.
pub mod trie;
pub mod int_list;
pub mod typed_list;
pub mod shifted_array;
pub mod quad_tree;
pub mod raw_vec;
