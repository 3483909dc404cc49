use vstd::prelude::*;

use crate::rng::random_u64;

verus! {

/// Which side of the reference instant drawn timestamps lie on.
#[derive(Clone, Copy, Debug, PartialEq, Eq, Structural)]
pub enum WindowDirection {
    After,
    Before,
}

/// The timestamp window: modification times are drawn from the
/// `window`-second span on the chosen side of `reference`, a count of
/// seconds since the Unix epoch.
#[derive(Clone, Copy, Debug, PartialEq, Eq, Structural)]
pub struct TimestampPolicy {
    pub reference: u64,
    pub window: u64,
    pub direction: WindowDirection,
}

/// The window must be non-degenerate and stay inside the range of `u64`.
pub open spec fn timestamp_policy_valid(p: TimestampPolicy) -> bool {
    &&& p.window >= 1
    &&& (p.direction is After ==> p.reference + p.window <= u64::MAX)
    &&& (p.direction is Before ==> p.window <= p.reference)
}

/// The drawn time lies in the configured window, both bounds included.
pub open spec fn in_window(p: TimestampPolicy, t: u64) -> bool {
    match p.direction {
        WindowDirection::After => p.reference <= t <= p.reference + p.window,
        WindowDirection::Before => p.reference - p.window <= t <= p.reference,
    }
}

/// The time a raw draw maps to: the reference, shifted into the window by
/// the draw reduced modulo the window length.
pub open spec fn spec_mtime_from_raw(p: TimestampPolicy, raw: u64) -> int {
    match p.direction {
        WindowDirection::After => p.reference + raw % p.window,
        WindowDirection::Before => p.reference - raw % p.window,
    }
}

/// Maps a raw random draw to a modification time inside the window.
pub fn mtime_from_raw(p: &TimestampPolicy, raw: u64) -> (t: u64)
    requires
        timestamp_policy_valid(*p),
    ensures
        t == spec_mtime_from_raw(*p, raw),
        in_window(*p, t),
{
    let off = raw % p.window;
    match p.direction {
        WindowDirection::After => p.reference + off,
        WindowDirection::Before => p.reference - off,
    }
}

/// Draws a fresh pseudo-random modification time. Whatever the generator
/// returns, the result lies inside the configured window.
pub fn draw_mtime(p: &TimestampPolicy) -> (t: u64)
    requires
        timestamp_policy_valid(*p),
    ensures
        in_window(*p, t),
{
    mtime_from_raw(p, random_u64())
}

} // verus!
