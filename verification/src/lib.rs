pub mod models;
pub mod value;
pub mod text;
pub mod strmap;
pub mod manifest;
pub mod pm;
pub mod engine;
pub mod dedup;
