pub mod constant;
pub mod expression;

pub use constant::Constant;
pub use expression::{Expression, Predicate, Term};
