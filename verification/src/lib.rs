//! Client-side state reconciliation for networked real-time simulations:
//! a bounded, time-ordered snapshot store, a clock-offset estimator, and
//! type-aware interpolation between two bracketing snapshots.
//!
//! Times are milliseconds in the producer's clock domain. Numeric state is
//! held in fixed point: a value of `1000` stands for one unit, one degree,
//! or one radian, depending on the tag carried by the value.

pub mod math;
pub mod snapshot_interpolation;
pub mod vault;

pub use snapshot_interpolation::SnapshotInterpolation;
pub use vault::Vault;
