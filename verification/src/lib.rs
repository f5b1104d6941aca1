//! hbsync: the logic of a Humble Bundle ebook library sync tool.
//!
//! Everything that decides what to download and where to put it lives here
//! and is verified: bundle-title parsing and path-segment sanitizing, the
//! order JSON walk, the download-task layout, download integrity checks,
//! retry scheduling and the command-line decisions. The program around it
//! (HTTP, files, the terminal) lives in `app/`.
pub mod text;
pub mod naming;
pub mod json;
pub mod urls;
pub mod paths;
pub mod downloader;
pub mod auth;
pub mod api;
pub mod cache;
pub mod cli;

