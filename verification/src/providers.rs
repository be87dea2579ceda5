//! What is said to the translation services.

pub mod google;
pub mod llm;
