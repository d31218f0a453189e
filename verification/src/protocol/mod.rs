//! The RouterOS wire protocol: length prefixes, words, sentences, commands.

pub mod command;
pub mod error;
pub mod length;
pub mod response;
pub mod sentence;
pub mod splitter;
pub mod string;
pub mod word;
