//! Verified core of a terminal viewer for documents, spreadsheets and directories.
pub mod text;
pub mod xml;
pub mod md;
pub mod mdraw;
pub mod xlsx;
pub mod docx;
pub mod markdown;
pub mod plain;
pub mod keys;
pub mod viewer;
pub mod browser;
pub mod pdf;
pub mod video;
