//! Verified core of Graphite Studio: document bookkeeping, file-format
//! encoders and decoders (PSD, ABR), and the application's preference rules.
pub mod limits;
pub mod drawing;
pub mod export;
pub mod paths;
pub mod import;
pub mod text;
pub mod recent_files;
pub mod preferences;
pub mod gpu;
pub mod input;
pub mod gallery;
pub mod project;
pub mod gzip;
