//! Traits for id-addressed collections.
pub mod id_map;
pub mod id_of;
pub mod index_collection;
pub mod index_collection2;
pub mod index_collection_parial;
