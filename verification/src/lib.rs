//! Conversion between raw bytes and their textual hexdump rendering.
//!
//! `import` reads a hexdump text tolerantly, line by line, skipping offset
//! columns and trailing ASCII gutters, and yields the bytes it denotes.
//! `export` and `export_to` write bytes as a fixed-width hexdump, with an
//! optional offset column and an optional printable-character gutter.

pub mod exporter;
pub mod importer;
pub mod laws;
pub mod text;

pub use exporter::export;
pub use exporter::export_to;
pub use exporter::ExportError;
pub use exporter::ExportOptions;
pub use importer::import;
