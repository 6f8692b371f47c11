//! Japanese morphological analysis: binary dictionary access, lattice
//! construction and dictionary-building primitives, with their contracts
//! checked by Verus.

pub mod analysis;
pub mod config;
pub mod dic;
pub mod error;
pub mod input_text;
pub mod plugin;
pub mod util;
