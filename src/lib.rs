//! Exact arithmetic on fractions written in mixed-number notation (`7`, `-1/4`, `2_3/8`).
pub mod divisor;
pub mod expression;
pub mod fraction;
pub mod numeral;
pub mod scan;
