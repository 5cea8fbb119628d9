//! Bank layout, checksums and image assembly for programmable ROM chips.

pub mod text;
pub mod catalog;
pub mod bank;
pub mod image;
pub mod sidecar;
pub mod placement;
pub mod choice;
pub mod menus;
pub mod changes;
pub mod paging;
pub mod project;
pub mod archive;
pub mod labels;
pub mod names;
pub mod hexdump;
pub mod properties;
pub mod editing_properties;
pub mod table;
