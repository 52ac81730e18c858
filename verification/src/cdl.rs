//! CDL: the text `ncdump -h` prints for a dataset's header.

pub mod types;
pub mod literal;
pub mod specials;
pub mod render;
