//! A small blogging service: sessions, users, articles and comments.
//!
//! This crate holds the service's own rules, each with a contract proved by
//! Verus: how an article title becomes a slug, how a stored user becomes a
//! session, how passwords are hashed and checked, which error answers a
//! refused request, and what the session cookie says.

pub mod auth;
pub mod db;
pub mod error;
pub mod extractor;
pub mod handlers;
pub mod models;
pub mod utils;

pub use error::Error;
