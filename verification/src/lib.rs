//! Decoding of STL meshes, verified with Verus.
//!
//! A buffer of bytes is either the text form or the binary form of a mesh.
//! [`sniff`] tells the two apart, [`binary`] and [`ascii`] decode them,
//! [`load`] does both in one call, and [`radius`] finds how far a mesh
//! reaches from the origin. Every function states what it returns over the
//! models in [`geometry`], and every statement is proved, but for the two
//! calls into other crates that [`lexical`] and [`binary`] name.

pub mod ascii;
pub mod binary;
pub mod error;
pub mod geometry;
pub mod lexical;
pub mod load;
pub mod radius;
pub mod sniff;
