//! Arithmetisation of field arithmetic and twisted Edwards group operations
//! into a two-lane witness table with per-row gates.
//!
//! - [`field`] holds the base field: elements as canonical 32-byte
//!   encodings, with the arithmetic itself delegated to `halo2curves` behind
//!   a handful of trusted wrappers; [`algebra`] proves what the rest needs of
//!   that arithmetic.
//! - [`curve`] is the Bandersnatch curve in twisted Edwards form and its
//!   addition law.
//! - [`expr`] and [`config`] are the constraint polynomials and gate
//!   templates built from them; [`gate_laws`] states what each gate
//!   enforces.
//! - [`table`] is the witness table with its test for satisfiability;
//!   [`table_laws`] states how the table behaves as it grows.
//! - [`chip`], [`decompose`] and [`scalar_mul`] are the operations that lay
//!   witnesses out in the table; [`layout`] describes what each writes.
//! - [`bits`] and [`util`] are the helpers on bytes, bits and constants.

pub mod algebra;
pub mod bits;
pub mod chip;
pub mod config;
pub mod curve;
pub mod decompose;
pub mod expr;
pub mod field;
pub mod gate_laws;
pub mod layout;
pub mod scalar_mul;
pub mod table;
pub mod table_laws;
pub mod util;
