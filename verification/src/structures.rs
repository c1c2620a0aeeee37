//! Data structures.
pub mod mixed_radix;
pub mod n_dim_index_u;
pub mod n_dim_index;
pub mod n_dim_index_operator;
pub mod n_dim_array;
pub mod n_dim_chunk_array;
pub mod idtrait;
pub mod just;
pub mod owned;
pub mod cmatrix;
pub mod counted_iter;
pub mod grid;
pub mod id_of;
pub mod fid_uid_list;
pub mod dim_dir;
pub mod cached_iter;
pub mod doubly_grid;
pub mod doubly_slice_layers;
pub mod countable_range;
pub mod countable_range_std;
pub mod countable_range_merge;
pub mod horner;
pub mod countable_range_array;
pub mod sort_by_order;
pub mod sort_by_order_kv;
pub mod n_dim_index_edge_iterator;
pub mod n_dim_neighbours;
pub mod step_iter;
pub mod doubly_grid_layers;
