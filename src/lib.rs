//! Grading of survey statistics with exact rational arithmetic.
//!
//! A list of numeric responses is parsed, its five-number summary, mean and
//! mode set are computed exactly, and answers typed by a student are checked
//! against those values.

pub mod decimal;
pub mod error;
pub mod grade;
pub mod laws;
pub mod rational;
pub mod stats;
pub mod text;

pub use error::Error;
pub use grade::{
    check_modes, check_value, grade, grade_against, parse_modes, parse_responses, score_percent,
    summarize, Answers, GradeReport, Summary, MAX_SCORE, MIN_RESPONSES,
};
pub use rational::Rational;
pub use stats::{count, is_ordered, lower_quartile, mean, median, mode, sort, upper_quartile};
