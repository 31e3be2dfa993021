pub mod config;
pub mod fingerprint;
pub mod fingerprint_set;
pub mod importer;
pub mod mem9;
pub mod paths;
pub mod redact;
pub mod state;
pub mod text;

pub use config::{load_runtime_config, RuntimeConfig};
pub use importer::SyncStats;
