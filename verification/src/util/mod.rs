pub mod bits;
pub mod text;
pub mod tuple_strip;
