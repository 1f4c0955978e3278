//! When the viewer keeps running: every window it shows is open and
//! neither Escape nor Q is held in it.
use vstd::prelude::*;

verus! {

/// A window keeps the viewer running: it is open, and neither Escape nor Q
/// is held down in it.
pub open spec fn keeps_open(window: (bool, bool, bool)) -> bool {
    window.0 && !window.1 && !window.2
}

/// Whether the viewer keeps running, given for each shown window whether it
/// is open and whether Escape and Q are held down in it: all shown windows
/// keep it running; with none shown, the debug window does, if there is one.
pub fn keeps_running(windows: &[(bool, bool, bool)], debug: Option<(bool, bool, bool)>) -> (r: bool)
    ensures
        windows@.len() == 0 ==> r == (debug matches Some(w) && keeps_open(w)),
        windows@.len() > 0 ==> r == forall|i: int| 0 <= i < windows@.len() ==> #[trigger] keeps_open(windows@[i]),
{
    if windows.len() == 0 {
        match debug {
            Some(w) => w.0 && !w.1 && !w.2,
            None => false,
        }
    } else {
        let mut i: usize = 0;
        while i < windows.len()
            invariant
                i <= windows@.len(),
                forall|j: int| 0 <= j < i ==> #[trigger] keeps_open(windows@[j]),
            decreases windows@.len() - i,
        {
            let w = windows[i];
            if !(w.0 && !w.1 && !w.2) {
                assert(!keeps_open(windows@[i as int]));
                return false;
            }
            i = i + 1;
        }
        true
    }
}

} // verus!
