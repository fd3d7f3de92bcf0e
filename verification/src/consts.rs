use vstd::prelude::*;

verus! {

/// The smallest side of a field (inclusive).
pub const FIELD_SIZE_MIN: usize = 20;

/// The largest side of a field (exclusive).
pub const FIELD_SIZE_MAX: usize = 30;

/// The largest side any field may have (inclusive), so that every coordinate on it, and a
/// blast's reach beyond it, fits in an `i32`.
pub const FIELD_SIDE_LIMIT: usize = 0x4000_0000;

/// The least oil a well holds (inclusive).
pub const MIN_OIL: i32 = 10;

/// The most oil a well holds (exclusive).
pub const MAX_OIL: i32 = 100;

/// The shortest blast distance of a bomb (inclusive).
pub const MIN_BOM: i32 = 1;

/// The longest blast distance of a bomb (exclusive).
pub const MAX_BOM: i32 = 3;

} // verus!
