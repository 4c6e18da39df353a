pub mod blocks;
pub mod digest;
pub mod engine;
pub mod error;
pub mod laws;
pub mod manifest;
pub mod parts;
pub mod path;
pub mod pipeline;
pub mod schedule;
pub mod size;
pub mod text;
pub mod check;
