//! Polled button state with one-frame edges.
//!
//! Buttons (keyboard keys, mouse buttons) are identified by integer codes;
//! the window layer assigns each physical key or button its code.

use std::collections::HashSet;

use vstd::prelude::*;

verus! {

broadcast use vstd::std_specs::hash::group_hash_axioms;

/// Which buttons are held, and which were pressed or released since the
/// last [`ButtonStates::end_frame`].
pub struct ButtonStates {
    down: HashSet<u32>,
    pressed: HashSet<u32>,
    released: HashSet<u32>,
}

/// The abstract state of [`ButtonStates`].
pub struct ButtonStatesView {
    pub down: Set<u32>,
    pub pressed: Set<u32>,
    pub released: Set<u32>,
}

impl View for ButtonStates {
    type V = ButtonStatesView;

    closed spec fn view(&self) -> ButtonStatesView {
        ButtonStatesView { down: self.down@, pressed: self.pressed@, released: self.released@ }
    }
}

/// The state after button `code` goes down (`down`) or up. Going down counts
/// as a press only when the button was not already held, so OS key-repeat
/// does not retrigger it; going up always counts as a release.
pub open spec fn after_button(s: ButtonStatesView, code: u32, down: bool) -> ButtonStatesView {
    if down {
        ButtonStatesView {
            down: s.down.insert(code),
            pressed: if s.down.contains(code) {
                s.pressed
            } else {
                s.pressed.insert(code)
            },
            released: s.released,
        }
    } else {
        ButtonStatesView {
            down: s.down.remove(code),
            pressed: s.pressed,
            released: s.released.insert(code),
        }
    }
}

impl ButtonStates {
    pub fn new() -> (r: ButtonStates)
        ensures
            r@.down == Set::<u32>::empty(),
            r@.pressed == Set::<u32>::empty(),
            r@.released == Set::<u32>::empty(),
    {
        ButtonStates { down: HashSet::new(), pressed: HashSet::new(), released: HashSet::new() }
    }

    pub fn is_down(&self, code: u32) -> (r: bool)
        ensures
            r == self@.down.contains(code),
    {
        self.down.contains(&code)
    }

    /// Went down since the last frame ended.
    pub fn pressed(&self, code: u32) -> (r: bool)
        ensures
            r == self@.pressed.contains(code),
    {
        self.pressed.contains(&code)
    }

    /// Went up since the last frame ended.
    pub fn released(&self, code: u32) -> (r: bool)
        ensures
            r == self@.released.contains(code),
    {
        self.released.contains(&code)
    }

    /// Button `code` went down (`down`) or up.
    pub fn on_button(&mut self, code: u32, down: bool)
        ensures
            final(self)@ == after_button(old(self)@, code, down),
            final(self)@.down == if down {
                old(self)@.down.insert(code)
            } else {
                old(self)@.down.remove(code)
            },
            down ==> final(self)@.released == old(self)@.released,
            down ==> (final(self)@.pressed.contains(code) <==> old(self)@.pressed.contains(code)
                || !old(self)@.down.contains(code)),
            !down ==> final(self)@.pressed == old(self)@.pressed,
            !down ==> final(self)@.released == old(self)@.released.insert(code),
            forall|c: u32|
                c != code ==> (final(self)@.pressed.contains(c) <==> old(self)@.pressed.contains(c)),
    {
        if down {
            if self.down.insert(code) {
                self.pressed.insert(code);
            }
        } else {
            self.down.remove(&code);
            self.released.insert(code);
        }
    }

    /// Clears the per-frame edges; held buttons stay held.
    pub fn end_frame(&mut self)
        ensures
            final(self)@.down == old(self)@.down,
            final(self)@.pressed == Set::<u32>::empty(),
            final(self)@.released == Set::<u32>::empty(),
    {
        self.pressed.clear();
        self.released.clear();
    }
}

/// Edges are only cleared by `end_frame`: a button going up leaves every
/// press edge in place (a tap within one frame is both pressed and
/// released), a button going down leaves every release edge in place (let go
/// and pressed again within one frame is both released and pressed), and an
/// event for one button leaves every other button's state alone.
pub proof fn lemma_events_keep_edges(s: ButtonStatesView, code: u32, down: bool, other: u32)
    requires
        other != code,
    ensures
        after_button(s, code, false).pressed == s.pressed,
        after_button(s, code, true).released == s.released,
        s.pressed.subset_of(after_button(s, code, down).pressed),
        s.released.subset_of(after_button(s, code, down).released),
        after_button(s, code, down).down.contains(other) == s.down.contains(other),
        after_button(s, code, down).pressed.contains(other) == s.pressed.contains(other),
        after_button(s, code, down).released.contains(other) == s.released.contains(other),
        after_button(s, code, down).down.contains(code) == down,
{
}

/// Holding a button and having it repeat never registers a second press.
pub proof fn lemma_repeat_does_not_retrigger(s: ButtonStatesView, code: u32)
    requires
        s.down.contains(code),
    ensures
        after_button(s, code, true).pressed == s.pressed,
        after_button(s, code, true).down.contains(code),
{
}

/// A button that goes down is held and pressed; when it goes up it is
/// released and no longer held.
pub proof fn lemma_press_release_cycle(s: ButtonStatesView, code: u32)
    ensures
        after_button(s, code, true).down.contains(code),
        !s.down.contains(code) ==> after_button(s, code, true).pressed.contains(code),
        !after_button(s, code, false).down.contains(code),
        after_button(s, code, false).released.contains(code),
{
}

} // verus!
