//! A small inline-picture library for terminals.
//!
//! Some terminal emulators (iTerm2 among others) can display pictures
//! inline in the console.  This crate provides a simple rectangular
//! canvas, [`canvas::Pict`], of packed 24-bit RGB pixel values, with
//! point plotting and integer line rasterization, and an encoder that
//! turns the canvas into the escape sequence such a terminal renders
//! as an image.

pub mod canvas;
pub mod encode;
pub mod line;
