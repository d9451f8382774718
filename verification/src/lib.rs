pub mod pixel;
pub mod source_image;
pub mod grid;
pub mod region;
pub mod search;
pub mod laws;
