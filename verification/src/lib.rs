//! A key/value text map with the binary wire encoding of the PostgreSQL
//! `hstore` extension type.
//!
//! The crate provides the map container itself ([`map::Hstore`]), a
//! decoder for the length-prefixed binary transport format, an encoder
//! producing the same format, and a renderer for the inline
//! `'k=>v'::hstore` literal form.

use vstd::prelude::*;

pub mod codec;
pub mod map;
pub mod render;
pub mod wire;

verus! {

} // verus!
