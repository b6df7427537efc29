//! Polynomials in one variable with `i64` coefficients and `u32` degrees:
//! terms and their arithmetic, polynomials built from coefficient lists,
//! normalization (merging terms of one degree, ordering by descending
//! degree), addition, subtraction, multiplication, evaluation at a point and
//! text such as `3x^2+2x-1`.
pub mod polynomial;
pub mod term;
pub mod text;
