pub mod float_bits;
pub mod number_theory;
pub mod pade_coef;
pub mod pade_expm;
mod traits;

pub use traits::MathError;
