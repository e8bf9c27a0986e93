//! Preparing, signing, bundling and tracking uploads to [Arweave](https://www.arweave.org/).

pub mod arweave;
pub mod avro;
pub mod base64;
pub mod bundle;
pub mod content;
pub mod crypto;
pub mod encoding;
pub mod error;
pub mod log;
pub mod manifest;
pub mod merkle;
pub mod solana;
pub mod status;
pub mod tag;
pub mod text;
pub mod transaction;
pub mod upload;
pub mod views;

pub use crate::arweave::Arweave;
pub use crate::transaction::{BLOCK_SIZE, WINSTONS_PER_AR};
