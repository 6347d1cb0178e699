//! An embedded store made of append-only byte boxes: a numbered entry box,
//! a typed box on top of it, and a key/value box. Every file of a box is held
//! here as the byte image of its memory mapping; reading images from disk and
//! writing them back is left to the caller.

pub mod byte_ops;
pub mod error;
pub mod file_access;
pub mod basic_box;
pub mod kv_key;
pub mod kv_value;
pub mod key_map;
pub mod fx_collections;
pub mod kv_box;
pub mod byte_array_box;
pub mod typed_box;
pub mod guixu;

pub use crate::basic_box::{BasicBox, BoxInfo};
pub use crate::byte_array_box::ByteArrayBox;
pub use crate::error::{GuiXuError, Result};
pub use crate::guixu::GuiXu;
pub use crate::kv_box::KVBox;
pub use crate::typed_box::{StoreData, TypedBox};
