pub mod text_util;
pub mod str_map;
pub mod crdt;
pub mod redis;
pub mod text_editor;
pub mod greeting;
pub mod compression;
