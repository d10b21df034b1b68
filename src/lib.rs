pub mod actions;
pub mod atom_pool;
pub mod config;
pub mod metadata;
pub mod mime_filter;
pub mod ordered_hash_map;
pub mod paste;
pub mod persistence;
pub mod selection;
pub mod selection_data;
pub mod transfer_window_pool;
pub mod utils;
