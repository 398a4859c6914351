//! Quill's engine: everything about a Markdown manuscript that can be decided
//! without a display, verified.

pub mod annotate;
pub mod bytes;
pub mod markdown;
pub mod commands;
pub mod text;
pub mod palette;
pub mod document;
pub mod disk;
pub mod focus;
pub mod data;
pub mod mark;
pub mod offsets;
pub mod html;
pub mod outline;
pub mod front_matter;
pub mod library;
pub mod paginate;
