//! Serving files, with conditional requests and two layers of cache.
pub mod cache;
pub mod conditional;
pub mod disk;
pub mod etag;
pub mod fs;
pub mod index;
pub mod response;
pub mod service;
