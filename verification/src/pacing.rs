//! Frame pacing of the player: one frame every `FRAME_BUDGET_MS` milliseconds.

use vstd::prelude::*;

verus! {

/// Time allotted to one frame, in milliseconds.
pub const FRAME_BUDGET_MS: u64 = 50;

/// What the player does after drawing a frame.
#[derive(Clone, Copy, Debug, PartialEq, Eq, Structural)]
pub enum FramePacing {
    /// Wait this many milliseconds before the next frame.
    Sleep(u64),
    /// Drawing took longer than the budget: report it and go on at once.
    OverBudget,
}

/// Decides how long to wait after a frame that took `draw_ms` milliseconds.
pub fn frame_pacing(draw_ms: u128) -> (r: FramePacing)
    ensures
        draw_ms > FRAME_BUDGET_MS ==> r == FramePacing::OverBudget,
        draw_ms <= FRAME_BUDGET_MS ==> r == FramePacing::Sleep((FRAME_BUDGET_MS - draw_ms) as u64),
        r matches FramePacing::Sleep(ms) ==> ms + draw_ms == FRAME_BUDGET_MS,
{
    if draw_ms > FRAME_BUDGET_MS as u128 {
        FramePacing::OverBudget
    } else {
        FramePacing::Sleep(FRAME_BUDGET_MS - draw_ms as u64)
    }
}

} // verus!
