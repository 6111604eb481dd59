pub mod codec;
pub mod lens;
pub mod outside;
pub mod types;
