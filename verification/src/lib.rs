pub mod args;
pub mod libs;
