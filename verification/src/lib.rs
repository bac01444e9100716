//! First-fit bin packing with machine-checked contracts.
//!
//! `bin` holds the container type and its mathematical model, `packer` the
//! first-fit placement, and `laws` what is proved of every packing.

pub mod bin;
pub mod packer;
pub mod laws;

pub use bin::{Bin, BinView};
pub use packer::{first_fit, place, PackError};
