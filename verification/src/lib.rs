//! Arbitrary-precision binary floating-point engine: power-series evaluation
//! with cost-optimized argument reduction and adaptive-precision rounding,
//! instantiated for cosine and tangent.

pub mod consts;
pub mod cos;
pub mod defs;
pub mod num;
pub mod series;
pub mod tan;
pub mod trig;
pub mod util;
pub mod words;
