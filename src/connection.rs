//! One end of a wire between microcontrollers: an MC index and a port index.
use vstd::prelude::*;

verus! {

/// A port of a microcontroller in a circuit.
#[derive(Copy, Clone, Debug, PartialEq, Eq, Hash, Structural)]
pub struct McConnection {
    pub mc_i: usize,
    pub io_i: usize,
}

impl McConnection {
    pub fn new(mc_i: usize, io_i: usize) -> (r: Self)
        ensures
            r.mc_i == mc_i,
            r.io_i == io_i,
    {
        McConnection { mc_i, io_i }
    }

    pub fn get_mc_i(&self) -> (r: usize)
        ensures
            r == self.mc_i,
    {
        self.mc_i
    }

    pub fn get_io_i(&self) -> (r: usize)
        ensures
            r == self.io_i,
    {
        self.io_i
    }
}

} // verus!
