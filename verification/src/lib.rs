//! Group arithmetic for the G1 subgroup of the CP6-782 pairing-friendly curve.
//!
//! The curve is the short Weierstrass curve `y^2 = x^3 + 5x + b` over the
//! 782-bit prime field `Fq`. Every executable function in this crate carries
//! a contract over the mathematical model defined in [`curve`] and [`fq`].
//!
//! * [`limbs`] and [`fq`] hold the arithmetic of the base field.
//! * [`curve`] defines the affine group law and the Jacobian formulas;
//!   [`config`] holds the parameters of the curve, and [`g1`] the points in
//!   affine, Jacobian and prepared form.
//! * [`codec`] reads and writes points.
//! * [`algebra`], [`group_law`], [`closure`] and [`roots`] prove that the
//!   formulas compute the group law, stay on the curve and find square
//!   roots; [`laws`] states what follows for the group and the encoding.
//!
//! The executable code is specified exactly, formula by formula, without
//! any hypothesis. What its results mean in the group rests on the base
//! field being a field, which is Fermat's little theorem for the
//! characteristic; those statements take [`fq::is_field`] as a hypothesis.
pub mod algebra;
pub mod closure;
pub mod codec;
pub mod config;
pub mod curve;
pub mod fq;
pub mod g1;
pub mod group_law;
pub mod laws;
pub mod limbs;
pub mod roots;

pub use codec::{Compress, DeserializationError};
pub use config::{Config, InvalidConfiguration};
pub use g1::{G1Affine, G1Prepared, G1Projective, PointNotOnCurve};
