//! When to step: the decision taken once per audio block from the host's transport.
use vstd::prelude::*;

verus! {

/// Tracks the last quarter-beat boundary at which a step ran.
///
/// Positions come as quarter-beat indices: `floor(position_in_beats * 4)`.
pub struct TransportSync {
    last_tick: Option<i64>,
}

impl TransportSync {
    pub closed spec fn last(&self) -> Option<i64> {
        self.last_tick
    }

    /// No boundary recorded yet: the first block that plays steps.
    pub fn new() -> (r: TransportSync)
        ensures
            r.last() is None,
    {
        TransportSync { last_tick: None }
    }

    pub fn last_boundary(&self) -> (r: Option<i64>)
        ensures
            r == self.last(),
    {
        self.last_tick
    }

    /// Takes one block's transport state and says whether to step.
    ///
    /// While playing, a step is due when `tick` lies past the last recorded boundary (or none
    /// is recorded); `tick` then becomes the recorded boundary. While stopped, nothing steps
    /// and the recorded boundary moves to the current bar's start, so that resuming does not
    /// fire the steps that were missed.
    pub fn on_block(&mut self, playing: bool, tick: i64, bar_start_tick: i64) -> (fire: bool)
        ensures
            !playing ==> !fire && final(self).last() == Some(bar_start_tick),
            playing ==> fire == match old(self).last() {
                None => true,
                Some(t) => tick > t,
            },
            playing && fire ==> final(self).last() == Some(tick),
            playing && !fire ==> final(self).last() == old(self).last(),
    {
        if !playing {
            self.last_tick = Some(bar_start_tick);
            return false;
        }
        let due = match self.last_tick {
            None => true,
            Some(t) => tick > t,
        };
        if due {
            self.last_tick = Some(tick);
        }
        due
    }
}

} // verus!
