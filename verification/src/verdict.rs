use vstd::prelude::*;

verus! {

/// How a scored statement settles under the host's crystallization
/// heuristics: those scores are floating-point arithmetic computed
/// outside this crate, and only their final classification travels
/// beside an image as plain data.
#[derive(Clone, Copy, Debug, PartialEq, Eq, Structural)]
pub enum Verdict {
    /// The statement settled: low stress, coherent.
    Crystal,
    /// Still settling: the scores are middling.
    Annealing,
    /// It fell apart: high stress or destructive interference.
    Dissolved,
}

} // verus!
