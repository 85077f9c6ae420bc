//! Verified core of a small end-to-end encrypted file transfer tool.
mod aead;
pub mod cli;
pub mod consent;
pub mod frame;
pub mod keys;
pub mod metadata;
pub mod pipeline;
