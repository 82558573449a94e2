//! Content-addressed image cache and bounded-concurrency fetch scheduling
//! for a manga downloader.

pub mod digest;
pub mod text;
pub mod error;
pub mod cache;
pub mod downloader;
pub mod cache_laws;
pub mod manga_to_download;
pub mod selection;
pub mod args;
pub mod chapter_to_download;
