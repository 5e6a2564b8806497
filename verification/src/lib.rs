pub mod anonymize;
pub mod document;
pub mod ollama;
pub mod pages;
pub mod paths;
pub mod replace_laws;
pub mod secrets;
pub mod tags;
pub mod writer;
