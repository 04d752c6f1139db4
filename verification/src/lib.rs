//! ElGamal encryption over elliptic curves, from the ground up: an algebra
//! of operations that take their configuration at run time, a modular field
//! on fixed-width naturals, the group of points of a short Weierstrass
//! curve, the ElGamal scheme over any such group, and a codec that carries
//! text in curve points.
//!
//! The functions state what they return, and the statements are proved.
//! What is taken on trust of `base64`, `primitive-types`, `rand` and the
//! standard library is confined to a few small functions marked
//! `external_body`, each with a comment on what is claimed of it; where a
//! result depends on randomness or on `base64`, the function that decides
//! on it takes it as an argument.

pub mod algebra;
pub mod arith;
pub mod base_traits;
pub mod curve_laws;
pub mod ecc;
pub mod encoding_utils;
pub mod fermat;
pub mod field;
pub mod le_bytes;
pub mod mod_field;
pub mod points_group;
pub mod wide;
