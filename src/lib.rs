//! Paper backups of secrets: each secret is encrypted under a key derived
//! from its passphrase, and the ciphertext is split into shares of which a
//! threshold number restore it while fewer reveal nothing about it.
pub mod gf256;
pub mod shamir;
pub mod crypto;
pub mod backup;
pub mod encoding;
pub mod ui;
