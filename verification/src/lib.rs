//! Message encoding onto Barreto-Naehrig curves: the Fouque-Tibouchi
//! field-to-point map with decode hints, and the hybrid packer built on it.
//!
//! A field element is held as little-endian bytes and computed on through
//! `num_bigint`; every contract is stated over natural numbers modulo `q`.

pub mod bignum;
pub mod bn;
pub mod constant_time;
pub mod curve_bn254;
pub mod curve_bn446;
pub mod field;
pub mod field_laws;
pub mod le_bytes;
pub mod limbs;
pub mod message_encoding;
pub mod modular;
pub mod number_theory;
