pub mod text;
pub mod number;
pub mod math;
pub mod color;
pub mod restore;
pub mod image;
pub mod decode;
pub mod group;
pub mod encode;
pub mod sort;
pub mod patterns;
pub mod dither;
pub mod menu;
pub mod roundtrip;
pub mod lossless;
pub mod data;
