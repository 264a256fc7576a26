pub mod amount_map;
pub mod data_storage;
pub mod field;
pub mod merkle_tree;
pub mod processor;
pub mod structs;
