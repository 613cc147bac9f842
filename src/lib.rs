//! Receiving files in chunks: chunk bookkeeping, upload sessions, the session registry
//! with its inactivity timers, and the decisions of the upload service.
pub mod bitmap;
pub mod error;
pub mod pending;
pub mod registry;
pub mod service;
mod token;
pub mod naming;
pub mod auth;
pub mod web;
