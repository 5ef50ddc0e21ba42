//! A register allocation interface that hands out one place per value.
use vstd::prelude::*;

verus! {

/// The identifier of a value.
#[derive(Clone, Copy, Debug)]
pub struct VarId(pub u32);

/// Where a value lives.
#[derive(Clone, Debug)]
pub enum Location {
    Reg(&'static str),
    Stack(i32),
    Global(&'static str),
}

/// Hands out places to values and reports the frame size they need.
pub trait RegisterAllocator {
    /// The place of a value.
    fn allocate(&mut self, v: VarId) -> Location;

    /// The frame size in bytes.
    fn stack_size(&self) -> usize;
}

/// Puts every value in the stack slot at offset 0 and asks for no frame.
pub struct NoAlloc;

impl RegisterAllocator for NoAlloc {
    fn allocate(&mut self, v: VarId) -> (r: Location)
        ensures
            r matches Location::Stack(o) && o == 0,
    {
        Location::Stack(0)
    }

    fn stack_size(&self) -> (r: usize)
        ensures
            r == 0,
    {
        0
    }
}

/// A linear-scan allocator with no state of its own yet.
pub struct LinearScan {}

} // verus!
