use vstd::prelude::*;

verus! {

/// Which controls are held down.
#[derive(Debug, Copy, Clone)]
pub struct ControlMap {
    pub zoom_in: bool,
    pub zoom_out: bool,
}

impl Default for ControlMap {
    /// No control held.
    fn default() -> (c: Self)
        ensures
            !c.zoom_in,
            !c.zoom_out,
    {
        ControlMap { zoom_in: false, zoom_out: false }
    }
}

/// The keys that the controls listen to.
#[derive(Debug, Copy, Clone, PartialEq, Eq, Structural)]
pub enum Key {
    /// Zooms in while held.
    Z,
    /// Zooms out while held.
    X,
    /// Any other key, or one that cannot be identified.
    Other,
}

/// Which way the view zooms.
#[derive(Debug, Copy, Clone, PartialEq, Eq, Structural)]
pub enum Zoom {
    In,
    Out,
    Hold,
}

/// What a window reports.
#[derive(Debug, Copy, Clone, PartialEq, Eq, Structural)]
pub enum WindowInput {
    CloseRequested,
    Keyboard { key: Key, pressed: bool },
    RedrawRequested,
    Resized { width: u32, height: u32 },
    Other,
}

/// What to do about a window's report.
#[derive(Debug, Copy, Clone, PartialEq, Eq, Structural)]
pub enum Reaction {
    /// Leave the event loop.
    Exit,
    /// Update the camera from the controls, render a frame and ask for the next.
    Redraw,
    /// Resize the frame buffer and surface.
    Resize { width: u32, height: u32 },
    /// Nothing beyond what the controls recorded.
    Nothing,
}

impl ControlMap {
    /// Records that `key` went down (`pressed`) or up: Z holds zoom-in, X
    /// zoom-out; other keys change nothing.
    pub fn set_key(&mut self, key: Key, pressed: bool)
        ensures
            final(self).zoom_in == (if key == Key::Z { pressed } else { old(self).zoom_in }),
            final(self).zoom_out == (if key == Key::X { pressed } else { old(self).zoom_out }),
    {
        match key {
            Key::Z => self.zoom_in = pressed,
            Key::X => self.zoom_out = pressed,
            Key::Other => {},
        }
    }

    /// The zoom that the held controls ask for; zooming in wins when both
    /// are held.
    pub fn zoom(&self) -> (z: Zoom)
        ensures
            z == (if self.zoom_in {
                Zoom::In
            } else if self.zoom_out {
                Zoom::Out
            } else {
                Zoom::Hold
            }),
    {
        if self.zoom_in {
            Zoom::In
        } else if self.zoom_out {
            Zoom::Out
        } else {
            Zoom::Hold
        }
    }

    /// Handles a window's report while the renderer runs: a close request
    /// ends the loop, a key goes to `set_key`, a redraw request and a resize
    /// are passed on; anything else is ignored.
    pub fn react(&mut self, input: WindowInput) -> (r: Reaction)
        ensures
            match input {
                WindowInput::Keyboard { key, pressed } => {
                    &&& r == Reaction::Nothing
                    &&& final(self).zoom_in == (if key == Key::Z { pressed } else { old(self).zoom_in })
                    &&& final(self).zoom_out == (if key == Key::X { pressed } else { old(self).zoom_out })
                },
                _ => *final(self) == *old(self),
            },
            input == WindowInput::CloseRequested ==> r == Reaction::Exit,
            input == WindowInput::RedrawRequested ==> r == Reaction::Redraw,
            input matches WindowInput::Resized { width, height }
                ==> r == (Reaction::Resize { width, height }),
            input == WindowInput::Other ==> r == Reaction::Nothing,
    {
        match input {
            WindowInput::CloseRequested => Reaction::Exit,
            WindowInput::Keyboard { key, pressed } => {
                self.set_key(key, pressed);
                Reaction::Nothing
            },
            WindowInput::RedrawRequested => Reaction::Redraw,
            WindowInput::Resized { width, height } => Reaction::Resize { width, height },
            WindowInput::Other => Reaction::Nothing,
        }
    }
}

} // verus!
