//! cybergraph — local-first cyberlink processor.
//!
//! The verified core: content identities, the native record codecs, the
//! versioned file catalog and its crit-bit name tree, the payment ledger and
//! the small parsers that sit at the edges of the processor.
use vstd::prelude::*;

pub mod api;
pub mod application;
pub mod catalog;
pub mod hash;
pub mod keyed;
pub mod keys;
pub mod legacy_file;
pub mod wire;
pub mod content;
pub mod files;
pub mod native;
pub mod radio;
mod strings;
pub mod text_archive;

verus! {

/// A content-addressed identity: 32 bytes.
pub type Particle = [u8; 32];

/// A neuron identity: 32 bytes.
pub type NeuronId = [u8; 32];

} // verus!
