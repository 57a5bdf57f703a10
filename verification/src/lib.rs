//! Parses a textual polynomial equation `<expr> = <expr>`, reduces it to a
//! single canonical polynomial equal to zero, and classifies/solves it when
//! its effective degree is 0, 1 or 2.
//!
//! Coefficients are exact scaled decimals (`num / 10^scale`), so parsing and
//! reduction are exact; the solver reports roots as exact rationals or, for
//! irrational roots, as exact rational data (axis and discriminant) from
//! which a caller can approximate the roots numerically.

pub mod chars;
pub mod coef;
pub mod parse;
pub mod polynomial;
pub mod render;
pub mod round_trip;
pub mod solve;
pub mod string_utils;

pub use coef::Coef;
pub use parse::{parse_degree, parse_equation, parse_polynomial, parse_term, ParseError};
pub use polynomial::Polynomial;
pub use solve::{Ratio, Solution, SolveError};
pub use string_utils::StringUtils;
