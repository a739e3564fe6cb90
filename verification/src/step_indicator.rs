//! What the editor's step indicator shows for each of the 16 steps.

use vstd::prelude::*;

verus! {

/// How a cell of the step indicator is shaded.
#[derive(Debug, Clone, Copy, PartialEq, Eq, Structural)]
pub enum StepShade {
    /// The step that is playing now.
    Current,
    /// A downbeat (every fourth step) that is not playing now.
    Downbeat,
    /// Any other step.
    Inactive,
}

/// The shade of cell `step` when the sequencer is on step `current`: the current step
/// stands out while playing, downbeats are marked, everything else is plain.
pub open spec fn shade_of(step: usize, current: usize, playing: bool) -> StepShade {
    if playing && step == current {
        StepShade::Current
    } else if step % 4 == 0 {
        StepShade::Downbeat
    } else {
        StepShade::Inactive
    }
}

/// Shade of cell `step` of the step indicator.
pub fn step_shade(step: usize, current: usize, playing: bool) -> (shade: StepShade)
    ensures
        shade == shade_of(step, current, playing),
{
    if playing && step == current {
        StepShade::Current
    } else if step % 4 == 0 {
        StepShade::Downbeat
    } else {
        StepShade::Inactive
    }
}

/// A stopped sequencer highlights no step; a playing one highlights exactly the
/// current step. Every other cell is marked as a downbeat exactly on every fourth step,
/// and plain otherwise.
pub proof fn lemma_only_current_step_highlighted(step: usize, current: usize, playing: bool)
    ensures
        (shade_of(step, current, playing) == StepShade::Current) == (playing && step == current),
        !(playing && step == current) ==> ((shade_of(step, current, playing)
            == StepShade::Downbeat) == (step % 4 == 0)),
        !(playing && step == current) ==> ((shade_of(step, current, playing)
            == StepShade::Inactive) == (step % 4 != 0)),
{
}

} // verus!
