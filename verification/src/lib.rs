//! Verified core of a tree-copying and tree-mirroring engine.

pub mod care;
pub mod checksum;
pub mod conduct;
pub mod config;
pub mod copy;
pub mod course;
pub mod entry;
pub mod error;
pub mod ground;
pub mod metadata;
pub mod mirror;
pub mod path;
pub mod path_set;
pub mod protocol;
pub mod prune;
pub mod record;
pub mod replica;
pub mod rest;
pub mod sample;
pub mod stamp;
pub mod sync;
pub mod tree;
pub mod work;
pub mod world;
