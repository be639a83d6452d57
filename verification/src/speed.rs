//! Speed factors as the library orders them. A factor is a binary64 value
//! read from a report or from the catalogue; everything the library decides
//! about factors (the lowest, the highest, the median, the bound a
//! suggestion is held to) depends only on how factors are ordered, so the
//! library holds each factor as its order key: the integer whose signed
//! order is the total order of the binary64 values (`f64::total_cmp`), and
//! from which the value is recovered exactly.

use vstd::prelude::*;

verus! {

/// The order key of a speed factor.
pub type SpeedKey = i64;

/// The key of the factor `1.0`.
pub const ONE_SPEED: SpeedKey = 4607182418800017408;
/// The key of the factor `0.0`.
pub const ZERO_SPEED: SpeedKey = 0;
/// The key of `0.1`, the lowest speed ever suggested.
pub const MIN_SPEED: SpeedKey = 4591870180066957722;
/// The key of `10.0`, the highest speed ever suggested.
pub const MAX_SPEED: SpeedKey = 4621819117588971520;

/// The key of `+∞`, above every finite factor.
pub const INFINITY_SPEED: SpeedKey = 9218868437227405312;

pub open spec fn min_key(a: SpeedKey, b: SpeedKey) -> SpeedKey {
    if a <= b { a } else { b }
}

pub open spec fn max_key(a: SpeedKey, b: SpeedKey) -> SpeedKey {
    if a >= b { a } else { b }
}

/// `k` held between `lo` and `hi`.
pub open spec fn clamp_key(k: SpeedKey, lo: SpeedKey, hi: SpeedKey) -> SpeedKey {
    if k < lo { lo } else if k > hi { hi } else { k }
}

} // verus!
