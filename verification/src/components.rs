use vstd::prelude::*;

use crate::hex::Axial;

verus! {

/// Position of an entity on the hex grid.
#[derive(Clone, Copy, Debug)]
pub struct Transform {
    pub position: Axial,
}

impl Transform {
    pub fn new(position: Axial) -> (t: Transform)
        ensures
            t.position == position,
    {
        Transform { position }
    }
}

/// Marker for an entity that follows the flow field.
#[derive(Clone, Copy, Debug)]
pub struct Agent {}

impl Agent {
    pub fn new() -> Agent {
        Agent {  }
    }
}

/// A spawn point that releases an agent every `period` ticks; `counter`
/// counts the ticks left until the next release.
#[derive(Clone, Copy, Debug)]
pub struct Spawner {
    pub period: u8,
    pub counter: u8,
}

impl Spawner {
    pub fn new(period: u8) -> (s: Spawner)
        ensures
            s.period == period,
            s.counter == 1,
    {
        Spawner { period, counter: 1 }
    }
}

} // verus!
