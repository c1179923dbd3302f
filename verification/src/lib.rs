//! Credential verification core: a JWK key-set cache with validity tracking,
//! a `Cache-Control` max-age parser, multi-issuer JWT verification against a
//! cached key set, and a symmetric-key session-token codec.
//!
//! All parsing and decision logic is verified; only the cryptographic
//! primitives (HMAC and RSA signatures) and the UTF-8 validation of
//! `String::from_utf8` are called through trusted wrappers.

pub mod bytesutil;
pub mod base64url;
pub mod json;
pub mod max_age;
pub mod crypto;
pub mod keys;
pub mod cache;
pub mod session;
pub mod verify;
pub mod config;
pub mod models;
