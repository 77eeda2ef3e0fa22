//! Checks the image links of Markdown documents and embeds the images they point to.
pub mod check;
pub mod cmd;
pub mod embed;
pub mod encode;
pub mod image;
pub mod image_format;
pub mod laws;
pub mod link;
pub mod markdown;
pub mod output;
pub mod path;
pub mod report;
pub mod text;
pub mod tree;
