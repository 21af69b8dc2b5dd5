//! Image-to-bitmap packing, the frame encoding of a sprite display
//! accelerator's bus protocol, and the reading of numbers given to its
//! command line.

pub mod bitmap;
pub mod frames;
pub mod number;
