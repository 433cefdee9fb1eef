//! Domain-based reverse proxy: the routing table, path rewriting, the
//! decisions taken for each request, the request sent to a backend,
//! synchronization between mapping stores, and certificate bookkeeping.

pub mod certificate;
pub mod config;
pub mod forward;
pub mod mapping;
pub mod request;
pub mod rewrite;
pub mod store;
pub mod sync;
pub mod text;

pub use certificate::{AcmeChallenge, CertificateManager};
pub use config::ProxyConfig;
pub use mapping::{needs_update, Mapping};
pub use store::MappingTable;
pub use sync::lastsync_path;
