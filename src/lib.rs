//! A bridge that lets a remote client call, by name, an exported function of
//! a native library, driven by a line-oriented text protocol.
//!
//! The library holds every decision of the bridge: the signature grammar, the
//! tokenizing of a request line, the marshaling of arguments to 32-bit
//! integers and the rendering of each reply. Loading the native library,
//! resolving a symbol and performing the foreign call are left to the program
//! that embeds it.
use vstd::prelude::*;

pub mod marshal;
pub mod protocol;
pub mod signature;
pub mod text;

verus! {

} // verus!
