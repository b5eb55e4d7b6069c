//! The local readout: a panel that is dark except for the second after a
//! reading, and that is allowed to stop answering.

use vstd::prelude::*;

verus! {

/// How long a reading stays lit.
pub const DISPLAY_ON_MS: u64 = 1_000;

/// Whether there is a panel that was brought up and has answered since.
#[derive(Clone, Copy, Debug, PartialEq, Eq, Structural)]
pub struct Panel {
    pub up: bool,
}

impl Panel {
    pub fn new() -> (panel: Panel)
        ensures
            !panel.up,
    {
        Panel { up: false }
    }

    /// Whether the panel has to be brought up before it can show anything.
    /// Tried again for every reading: a panel that is silent has lost its
    /// rail or the bus, and both come back.
    pub fn needs_bring_up(&self) -> (yes: bool)
        ensures
            yes == !self.up,
    {
        !self.up
    }

    /// The panel was brought up, or did not answer.
    pub fn brought_up(self, answered: bool) -> (panel: Panel)
        ensures
            panel.up == answered,
    {
        Panel { up: answered }
    }

    /// A frame was drawn and lit, or the panel stopped answering on the way.
    /// One that did comes back reset, and has to be brought up from scratch.
    pub fn shown(self, answered: bool) -> (panel: Panel)
        requires
            self.up,
        ensures
            panel.up == answered,
    {
        Panel { up: answered }
    }

    /// The panel was blanked, or stopped answering. A panel that is not up is
    /// dark already and is not asked.
    pub fn blanked(self, answered: bool) -> (panel: Panel)
        ensures
            panel.up == (self.up && answered),
    {
        Panel { up: self.up && answered }
    }
}

} // verus!
