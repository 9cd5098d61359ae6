//! A package manager for the PHP ecosystem: constraint evaluation, dependency
//! resolution, lock files and the generated class-loader files.
pub mod error;
pub mod semver_adapter;
pub mod text;
pub mod package;
pub mod probe;
pub mod digest;
pub mod autoload;
pub mod config;
pub mod io;
pub mod search;
pub mod json;
pub mod psr4;
