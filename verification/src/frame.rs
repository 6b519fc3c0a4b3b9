//! The decision of the frame loop: after a frame is rendered and the
//! window's pending events are read, the loop stops on a request to quit.

use vstd::prelude::*;

verus! {

/// A window event, as far as the frame loop cares.
#[derive(Clone, Copy, Debug, PartialEq, Eq, Structural)]
pub enum FrameEvent {
    Quit,
    Other,
}

/// The loop goes on to the next frame unless one of the events read after
/// this frame asks to quit.
pub fn next_frame(events: &Vec<FrameEvent>) -> (go_on: bool)
    ensures
        go_on == !events@.contains(FrameEvent::Quit),
{
    let mut i: usize = 0;
    while i < events.len()
        invariant
            i <= events.len(),
            forall|j: int| 0 <= j < i ==> events@[j] != FrameEvent::Quit,
        decreases events.len() - i,
    {
        if events[i] == FrameEvent::Quit {
            assert(events@[i as int] == FrameEvent::Quit);
            return false;
        }
        i = i + 1;
    }
    true
}

} // verus!
