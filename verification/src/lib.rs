//! Verified core of the harness book tooling.
pub mod text;
pub mod turn;
pub mod book;
pub mod markdown;
pub mod inline;
pub mod blocks;
pub mod parser;
pub mod typst;
pub mod document;
pub mod config;
pub mod paths;
pub mod summary;
pub mod assemble;
pub mod assets;
pub mod includes;
pub mod gitmd;
pub mod gitbook;
pub mod pack;
pub mod manifest;
pub mod archive;
pub mod cli;
pub mod args;
