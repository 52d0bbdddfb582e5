//! Logic of an encrypted mount of Hugging Face buckets and repositories.

pub mod base91;
pub mod crypto;
pub mod encryption;
pub mod error;
pub mod filename_crypto;
pub mod hctr2;
pub mod hkdf;
pub mod hub_api;
pub mod setup;
pub mod text;
pub mod time;
pub mod virtual_fs;
mod wipe;
