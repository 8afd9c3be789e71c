pub mod matching;
pub mod models;
pub mod stream;
pub mod text;
pub mod number;
pub mod args;
pub mod replacer;
pub mod session;
