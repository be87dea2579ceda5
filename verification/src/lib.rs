//! Converts page-based and markup documents into a translated copy: text is
//! taken out, handed to a translation service in batches, and laid out again
//! with the images in their places.

pub mod filetypes;
pub mod frontend;
pub mod options;
pub mod providers;
pub mod scheduler;
pub mod text;
pub mod tui;
