pub mod fp;
pub mod theory;

pub use fp::{FieldError, Fp};
