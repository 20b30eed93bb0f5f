//! Plain shared state that the embedding editor and driver read and write:
//! the tick counter, the tick cadence, and two small display preferences.

use vstd::prelude::*;

verus! {

/// The global tick counter: how many compute-commit cycles have run since
/// the last reset.
#[derive(Clone, Copy, Debug)]
pub struct Tick(pub usize);

impl Tick {
    /// Advance the counter by one tick.
    pub fn incr(&mut self)
        requires
            old(self).0 < usize::MAX,
        ensures
            final(self).0 == old(self).0 + 1,
    {
        self.0 += 1;
    }
}

impl Default for Tick {
    fn default() -> (r: Tick)
        ensures
            r.0 == 0,
    {
        Tick(0)
    }
}

/// The pacing of the simulation: how many host frames pass between ticks.
/// Cadence is a driver concern; the evaluator itself never reads it.
#[derive(Clone, Copy, Debug)]
pub struct TickFrames(pub usize);

impl Default for TickFrames {
    fn default() -> (r: TickFrames)
        ensures
            r.0 == 0,
    {
        TickFrames(0)
    }
}

/// The background grid style the editor draws.  Stored here so the editor
/// panel and the renderer agree on one value; evaluation ignores it.
#[derive(Clone, Copy, Debug, PartialEq, Eq, Structural)]
pub enum GridMode {
    Lines,
    Dots,
    CrossHatches,
    Off,
}

impl Default for GridMode {
    fn default() -> (r: GridMode)
        ensures
            r == GridMode::CrossHatches,
    {
        GridMode::CrossHatches
    }
}

/// The hint line the editor shows for its current interaction mode.
#[derive(Debug)]
pub struct CurrentModeText(pub String);

impl Default for CurrentModeText {
    fn default() -> (r: CurrentModeText)
        ensures
            r.0@ == "Right click a node to add a wire or click on the menu to choose a node"@,
    {
        CurrentModeText(
            "Right click a node to add a wire or click on the menu to choose a node".to_string(),
        )
    }
}

} // verus!
