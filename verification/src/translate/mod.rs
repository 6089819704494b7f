//! Translation and summary logic around the local Ollama server.

pub mod ollama;
pub mod queue;
