pub mod text;
pub mod strmap;
pub mod config;
pub mod faker;
pub mod mapping;
pub mod deanonymize;
pub mod cli;
pub mod prompt;
pub mod ner;
pub mod json;
pub mod anonymize;
pub mod pipeline;
pub mod server;
pub mod detection;
