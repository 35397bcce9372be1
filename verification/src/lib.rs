//! A codec for packed, little-endian binary layouts described by runtime
//! type descriptors.
//!
//! A [`descriptor::Descriptor`] captures the binary layout of a C-like
//! value: fixed-width scalars, fixed-width pointers, fixed-length arrays
//! and record ("structure") types whose fields are laid out consecutively
//! with no padding. [`reflect::build_descriptor`] builds a descriptor from
//! the plain data a host runtime reports about one of its type objects, and
//! the codec converts between host values — modelled as plain data by
//! [`value::Value`] — and byte buffers of exactly the descriptor's size.
//!
//! What each operation returns is stated by the specification functions in
//! [`codec`] and [`reflect`], and [`laws`] proves the properties the codec
//! is meant to obey: sizes add up, and a valid value survives the round
//! trip through its packed bytes.

pub mod codec;
pub mod decode;
pub mod descriptor;
pub mod encode;
pub mod error;
pub mod laws;
pub mod reflect;
pub mod value;
pub mod wire;
