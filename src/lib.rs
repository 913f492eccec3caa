//! Codecs and repacking logic for sound-bank and package audio containers.
pub mod bytes;
pub mod order;
pub mod bnk;
pub mod bnk_roundtrip;
pub mod pck;
pub mod pck_roundtrip;
pub mod names;
pub mod project;
pub mod config;
pub mod input;
pub mod tools;
