//! Frame counting for the optional headless screenshot run.
use vstd::prelude::*;

verus! {

/// Frame on which the screenshot is requested.
pub const SCREENSHOT_FRAME: u32 = 90;

/// Frame from which the run exits.
pub const EXIT_FRAME: u32 = 140;

/// Advances the frame counter by one and decides what the new frame does:
/// returns the new count, whether to take the screenshot now, and whether to
/// exit.
pub fn screenshot_step(frame: u32) -> (r: (u32, bool, bool))
    requires
        frame < u32::MAX,
    ensures
        r.0 == frame + 1,
        r.1 == (frame + 1 == SCREENSHOT_FRAME),
        r.2 == (frame + 1 >= EXIT_FRAME),
        r.1 == (frame + 1 == 90),
        r.2 == (frame + 1 >= 140),
{
    let next = frame + 1;
    (next, next == SCREENSHOT_FRAME, next >= EXIT_FRAME)
}

/// Counting up from zero, the screenshot is requested exactly once, on a
/// frame that does not exit, well before the first frame that does.
pub proof fn lemma_screenshot_before_exit(frame: u32)
    requires
        frame < u32::MAX,
    ensures
        (frame + 1 == SCREENSHOT_FRAME) ==> !(frame + 1 >= EXIT_FRAME),
        SCREENSHOT_FRAME < EXIT_FRAME,
{
}

} // verus!
