//! Per-host credentials in netrc style: one `machine ... login ... password ...`
//! entry per line, gathered from the files of a credential directory.

pub mod entry;
pub mod error;
pub mod laws;
pub mod store;
pub mod text;

pub use entry::AuthConfigEntry;
pub use error::AuthConfigError;
pub use store::AuthConfig;
pub use store::DirItem;
pub use store::DirScan;
pub use store::FileRead;
