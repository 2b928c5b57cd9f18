//! Floating point numbers with a freely chosen layout: sign bit, exponent size,
//! integer-part size, fraction size and exponent base are type parameters.
pub mod addition;
pub mod arith;
pub mod binary;
pub mod bits;
pub mod bytes;
pub mod convert;
pub mod order;
pub mod parse;
pub mod product;
pub mod quotient;
pub mod format;
pub mod ieee754;
pub mod integer;
pub mod laws;
pub mod int_conv;
pub mod khronos;
pub mod fp;
pub mod nearest;
pub mod negation;
pub mod neighbour;
pub mod next;
pub mod remainder;
pub mod repr;
pub mod round_int;
pub mod root;
pub mod rounding;

