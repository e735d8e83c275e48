pub mod attribute;
pub mod class;
pub mod constant;
pub mod engine;
pub mod error;
pub mod loader;
pub mod manifest;
pub mod reader;
