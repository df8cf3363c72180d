//! A texture-atlas builder: packs a set of rectangles (source image
//! dimensions) without overlap into the smallest power-of-two square bin,
//! tracks which files and directories belong to an atlas, and composites
//! the source pixels into one output buffer with a placement descriptor.

pub mod rect;
pub mod pack;
pub mod paths;
pub mod manifest;
pub mod collect;
pub mod codec;
pub mod buffer;
