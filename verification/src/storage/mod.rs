pub mod bincode_codec;
pub mod engine;
pub mod keycode;
pub mod memory;
pub mod mvcc;
pub mod mvcc_key;
pub mod mvcc_laws;
