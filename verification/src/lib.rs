//! Quadratic equations `a·x² + b·x + c = 0`, solved exactly.
//!
//! Coefficients are decimal numbers with six places, between minus and plus
//! one hundred million.  From them the library computes, in integers and
//! without rounding, the discriminant, the vertex, the roots and what a plot
//! of the parabola shows: a root is held as a number `(p + √r) / q` with
//! integers `p`, `r` and `q`.  Only what is shown to a reader is rounded, to
//! two decimal places and to the nearest value.  Every result is proved to
//! be what the formulas over the real numbers say.
//!
//! - [`algebra`]: the formulas over the real numbers, and their laws.
//! - [`number`] and [`surd`]: the exact numbers.
//! - [`equation`]: the equation, its discriminant, vertex and roots.
//! - [`range`] and [`plot`]: the ranges of the plot and the roots it marks.
//! - [`text`] and [`render`]: decimal numbers read from text and written as text.
//! - [`args`]: the command line.
//! - [`report`]: the lines of the report.
//! - [`error`]: the errors.
//! - [`isqrt`] and [`reals`]: integer square roots, and facts about reals.

pub mod algebra;
pub mod args;
pub mod equation;
pub mod error;
pub mod isqrt;
pub mod number;
pub mod plot;
pub mod range;
pub mod reals;
pub mod render;
pub mod report;
pub mod surd;
pub mod text;
