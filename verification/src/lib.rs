//! whypkg: a cross-distro package investigator.

pub mod text;
pub mod order;
pub mod seqs;
pub mod model;
pub mod engine;
pub mod backend;
pub mod commands;
pub mod styled;
pub mod tui;
