//! A deterministic real-number type packed into one 64-bit word, computed
//! with integer operations only, so that every result is the same on every
//! machine.
//!
//! The low 16 bits of a word hold a biased exponent `E`; the word with those
//! bits cleared is a two's-complement mantissa `M`, normalized so that its
//! two top bits differ. The number is `M * 2^(E - 32768 - 64)`, and zero is
//! the zero word alone.
//!
//! Every operation is an exact function of its argument words, and its
//! contract names that function. A result below the exponent range is zero.
//! A result above it is not trapped: the exponent spills into the mantissa
//! modulo `2^64`, and the laws about values hold where the range is kept.
//! What no word can answer is left out by a precondition: division by a word
//! without mantissa, the square root of a negative number, the logarithm of a
//! number that is not positive, and the inverse functions outside their
//! domains.
//!
//! - [`bits`]: shifts, masks, high words of products and leading-bit counts,
//!   each with its meaning in integer arithmetic.
//! - [`kernels`]: the fixed-point kernels of the elementary functions.
//! - [`pseudo_double`]: the type, its layout, integers in and out, negation.
//! - [`ordering`]: the total order.
//! - [`arith`]: the four operations.
//! - [`rounding`]: floor, ceiling, rounding, truncation, fraction, magnitude.
//! - [`explog`]: roots, scaling, exponentials, logarithms and powers.
//! - [`builder`]: numbers from a mantissa and a decimal or binary exponent.
//! - [`trig`]: trigonometric, inverse and hyperbolic functions.
//! - [`parse`]: numbers from decimal text.
//! - [`ieee`]: the bit patterns of hardware floating point.
//! - [`scalar`]: sign queries, approximate equality and constants.
//! - [`convert`]: the narrower integer types.
//! - [`laws`], [`wellformed`], [`accuracy`], [`domains`]: what is proved of
//!   the whole.
//! - [`constants`]: the named constants are the builders' results.

pub mod bits;
pub mod kernels;
pub mod pseudo_double;
pub mod ordering;
pub mod arith;
pub mod rounding;
pub mod explog;
pub mod builder;
pub mod trig;
pub mod parse;
pub mod ieee;
pub mod scalar;
pub mod convert;
pub mod laws;
pub mod wellformed;
pub mod accuracy;
pub mod constants;
pub mod domains;

pub use pseudo_double::PseudoDouble;
