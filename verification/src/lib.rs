//! Per-domain cookie storage: domain classification, the on-disk layout,
//! Netscape cookie lines and the account registry.
pub mod text;
pub mod platform;
pub mod layout;
pub mod netscape;
pub mod alias;
pub mod registry;
pub mod ingest;
pub mod accounts;

pub use ingest::ingest_batch;
pub use layout::account_path_for_consumer;
pub use platform::{root_domain_of, PlatformKind};
pub use registry::{AccountEntry, BucketEntry, CookieRegistry, IngestSource};
