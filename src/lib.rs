//! Arithmetic in binary Galois fields GF(2^n) and a Gauss-Jordan solver for
//! linear systems over such fields.
pub mod poly;
pub mod unsigned;
pub mod galois;
pub mod matrix;
