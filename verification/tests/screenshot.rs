use hyperbolic_explorer::screenshot::{screenshot_step, EXIT_FRAME, SCREENSHOT_FRAME};

#[test]
fn screenshot_then_exit_schedule() {
    assert_eq!(screenshot_step(0), (1, false, false));
    assert_eq!(screenshot_step(89), (90, true, false));
    assert_eq!(screenshot_step(90), (91, false, false));
    assert_eq!(screenshot_step(139), (140, false, true));
    assert_eq!(screenshot_step(200), (201, false, true));
    let mut frame = 0u32;
    let mut shots = 0;
    loop {
        let (next, take, quit) = screenshot_step(frame);
        frame = next;
        if take {
            shots += 1;
        }
        if quit {
            break;
        }
    }
    assert_eq!(shots, 1);
    assert_eq!(frame, EXIT_FRAME);
    assert!(SCREENSHOT_FRAME < EXIT_FRAME);
}
