//! Homebrew: what is declared, what is installed, and how one becomes the other.
pub mod brewfile;
pub mod cask;
pub mod formula;
pub mod info;
pub mod ops;
