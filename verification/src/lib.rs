pub mod blocks;
pub mod bytes;
pub mod codec;
pub mod error;
pub mod image;
pub mod pixel;
