pub mod byte_order;
pub mod vault_types;
pub mod key_codec;
pub mod payload;
pub mod region_map;
pub mod store;
pub mod laws;
