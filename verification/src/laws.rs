//! What the operations promise, said of their inputs and results alone.
pub mod checks;
pub mod documents;
pub mod files;
pub mod links;
pub mod markup;
pub mod views;
pub mod words;
