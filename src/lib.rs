//! Fixed-width exact fractions: a 16-bit numerator over a bounded positive
//! denominator, always held in lowest terms.
use vstd::prelude::*;

pub mod fraction;
pub mod kernel;
pub mod text;

pub use fraction::Fraction32;
pub use kernel::{gcd, lcm};
pub use text::ParseFractionError;

verus! {

} // verus!
