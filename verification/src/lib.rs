//! Arithmetic over the finite field GF(2^8) and polynomials with coefficients in it.
//!
//! A [`field::FieldTable`] is built from a reducing polynomial and answers power,
//! discrete-logarithm and product queries; a [`gfpoly::GFPoly`] is a coefficient
//! sequence bound to one table, which can be multiplied and rendered as text.

pub mod convolution;
pub mod field;
pub mod galois;
pub mod gfpoly;
pub mod record;
pub mod text;
pub mod xor_sum;

pub use crate::field::{build_field, gf_add, gf_mul, FieldError, FieldTable};
pub use crate::gfpoly::{build_polynomial, GFPoly};
pub use crate::record::{message, parse_count, parse_record, render_record, Record, RecordError};
