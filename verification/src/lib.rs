//! Exact modular arithmetic over a prime field `Z/PZ`, and the
//! chord-and-tangent group law for points on a short Weierstrass curve
//! `y^2 = x^3 + A*x + B`, with the point at infinity as identity.

pub mod errors;
pub mod finite_field_element;
pub mod point;
