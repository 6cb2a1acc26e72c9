use vstd::prelude::*;

pub mod charted_bot;
pub mod charted_coordinate;
pub mod charted_map;
pub mod charted_paths;
pub mod charted_tile;
pub mod route_build;
pub mod route_graph;

verus! {

/// How many tools may be handed out at once.
pub const LIMIT: u8 = 3;

/// Builds a fresh tool.
pub trait New: Sized {
    fn new() -> Self;
}

/// A utility that `ChartingTools::tool` hands out.
pub trait ChartingTool: New {
}

/// A bounded pool of tools: at most `LIMIT` are out at any time, and each one handed out
/// must be given back with `release`.
pub struct ChartingTools {
    active: u8,
}

impl ChartingTools {
    /// How many tools are out.
    pub closed spec fn active(&self) -> nat {
        self.active as nat
    }

    pub closed spec fn wf(&self) -> bool {
        self.active <= LIMIT
    }

    /// A pool with no tool out.
    pub fn new() -> (r: Self)
        ensures
            r.wf(),
            r.active() == 0,
    {
        ChartingTools { active: 0 }
    }

    /// Hands out a new tool of type `T` unless `LIMIT` tools are already out, in which case
    /// it returns the number of tools out.
    pub fn tool<T: ChartingTool>(&mut self) -> (r: Result<T, u8>)
        requires
            old(self).wf(),
        ensures
            final(self).wf(),
            old(self).active() < LIMIT ==> r is Ok && final(self).active() == old(self).active() + 1,
            old(self).active() >= LIMIT ==> r == Err::<T, u8>(LIMIT) && final(self).active() == old(
                self,
            ).active(),
    {
        if self.active < LIMIT {
            self.active = self.active + 1;
            Ok(T::new())
        } else {
            Err(self.active)
        }
    }

    /// Gives a tool back to the pool.
    pub fn release(&mut self)
        requires
            old(self).wf(),
        ensures
            final(self).wf(),
            final(self).active() == if old(self).active() > 0 {
                old(self).active() - 1
            } else {
                0
            },
    {
        if self.active > 0 {
            self.active = self.active - 1;
        }
    }
}

} // verus!
