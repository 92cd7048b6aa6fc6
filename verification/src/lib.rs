//! Verified integer, byte and text logic of the NUFROST time-series
//! reconstruction toolkit: timestamp handling, band bookkeeping, scene and
//! sample cache layouts, and the MD5 fingerprint used for cache validation.

pub mod md5;
pub mod series;
pub mod text;
pub mod sample_cache;

pub mod time;
pub mod order;
pub mod bands;
pub mod scene_cache;
pub mod stack;
pub mod zhu2015;
pub mod config;
