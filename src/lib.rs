//! Resolution of MIME types to installed applications, and the user's
//! persisted choice of default application per MIME type.

pub mod keyed;
pub mod text;
pub mod mimetype_manager;
pub mod desktop_entries;
pub mod filter;
