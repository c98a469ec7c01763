//! Per-frame keyboard-press tracking.
//!
//! The host event loop reports each key press as a plain key code; the
//! map collects the presses seen since the frame began.

use vstd::prelude::*;

verus! {

/// The key codes pressed since the current frame began.
#[derive(Debug)]
pub struct KeyMap {
    pressed_keys: Vec<u32>,
}

impl Default for KeyMap {
    /// A map with no presses recorded.
    fn default() -> (m: Self)
        ensures
            m.spec_pressed() == Seq::<u32>::empty(),
    {
        Self::new()
    }
}

impl KeyMap {
    /// The recorded key codes, in press order.
    pub closed spec fn spec_pressed(&self) -> Seq<u32> {
        self.pressed_keys@
    }

    /// A map with no presses recorded.
    pub fn new() -> (m: Self)
        ensures
            m.spec_pressed() == Seq::<u32>::empty(),
    {
        KeyMap { pressed_keys: Vec::new() }
    }

    /// Forgets the previous frame's presses.
    pub fn begin_frame(&mut self)
        ensures
            final(self).spec_pressed() == Seq::<u32>::empty(),
    {
        self.pressed_keys.clear();
    }

    /// Takes one host event, already reduced to the key code it pressed,
    /// if any; other events record nothing.
    pub fn handle_event(&mut self, pressed_key: Option<u32>)
        ensures
            match pressed_key {
                Some(key) => final(self).spec_pressed() == old(self).spec_pressed().push(key),
                None => final(self).spec_pressed() == old(self).spec_pressed(),
            },
    {
        if let Some(key) = pressed_key {
            self.pressed_keys.push(key);
        }
    }

    /// The recorded key codes, in press order.
    pub fn pressed_keys(&self) -> (k: &Vec<u32>)
        ensures
            k@ == self.spec_pressed(),
    {
        &self.pressed_keys
    }
}

} // verus!
