//! Term-aware mediation between a text and a machine-translation backend.

pub mod api;
pub mod catalogue;
pub mod config;
pub mod numerals;
pub mod placeholder;
pub mod scan;
pub mod schema;
pub mod text;
pub mod translator;
