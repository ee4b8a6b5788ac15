//! The store of small GPU-visible scalars: seed position, field
//! dimensions and the current sampling step.  Setters only record the
//! new value and mark it dirty; `flush` uploads every dirty value to
//! the GPU-visible copy exactly once, so any number of input events
//! between two frames coalesce into a single upload per value.

use vstd::prelude::*;

verus! {

pub struct UniformStore {
    /// Latest values written by the control thread.
    pub seed_x: usize,
    pub seed_y: usize,
    pub width: usize,
    pub height: usize,
    pub step: usize,
    /// Whether a pending value differs from what was last uploaded.
    pub seed_dirty: bool,
    pub dims_dirty: bool,
    /// The GPU-visible copies, as of the last `flush`.
    pub gpu_seed_x: usize,
    pub gpu_seed_y: usize,
    pub gpu_width: usize,
    pub gpu_height: usize,
    pub gpu_step: usize,
}

impl UniformStore {
    /// The dirty flags are trustworthy: a value whose flag is clear
    /// agrees with its GPU-visible copy.
    pub open spec fn wf(self) -> bool {
        &&& !self.seed_dirty ==> (self.gpu_seed_x == self.seed_x && self.gpu_seed_y == self.seed_y)
        &&& !self.dims_dirty ==> (self.gpu_width == self.width && self.gpu_height == self.height)
        &&& self.gpu_step == self.step
    }

    /// The GPU-visible copies agree with the pending values and
    /// nothing is marked dirty.
    pub open spec fn synced(self) -> bool {
        &&& self.gpu_seed_x == self.seed_x
        &&& self.gpu_seed_y == self.seed_y
        &&& self.gpu_width == self.width
        &&& self.gpu_height == self.height
        &&& self.gpu_step == self.step
        &&& !self.seed_dirty
        &&& !self.dims_dirty
    }

    /// A fresh store with every value uploaded.
    pub fn new(width: usize, height: usize, seed_x: usize, seed_y: usize) -> (u: Self)
        ensures
            u.wf(),
            u.synced(),
            u.width == width,
            u.height == height,
            u.seed_x == seed_x,
            u.seed_y == seed_y,
            u.step == 0,
    {
        UniformStore {
            seed_x,
            seed_y,
            width,
            height,
            step: 0,
            seed_dirty: false,
            dims_dirty: false,
            gpu_seed_x: seed_x,
            gpu_seed_y: seed_y,
            gpu_width: width,
            gpu_height: height,
            gpu_step: 0,
        }
    }

    /// Records the latest seed coordinate and marks it dirty; the
    /// GPU-visible copy is untouched until the next `flush`.
    pub fn set_seed(&mut self, x: usize, y: usize)
        ensures
            *final(self) == (UniformStore { seed_x: x, seed_y: y, seed_dirty: true, ..*old(self) }),
    {
        self.seed_x = x;
        self.seed_y = y;
        self.seed_dirty = true;
    }

    /// Records new field dimensions and marks them dirty.
    pub fn set_dimensions(&mut self, width: usize, height: usize)
        ensures
            *final(self) == (UniformStore { width, height, dims_dirty: true, ..*old(self) }),
    {
        self.width = width;
        self.height = height;
        self.dims_dirty = true;
    }

    /// Records the sampling step for the next pass.  The step changes
    /// once per pass, never between frames, so it carries no dirty
    /// flag: the sequence uploads it as it runs.
    pub fn set_step(&mut self, step: usize)
        ensures
            *final(self) == (UniformStore { step, gpu_step: step, ..*old(self) }),
    {
        self.step = step;
        self.gpu_step = step;
    }

    /// Uploads every dirty value to its GPU-visible copy and clears
    /// the dirty flags; runs once per frame, before the seed pass.
    pub fn flush(&mut self)
        requires
            old(self).wf(),
        ensures
            final(self).wf(),
            final(self).synced(),
            final(self).seed_x == old(self).seed_x,
            final(self).seed_y == old(self).seed_y,
            final(self).width == old(self).width,
            final(self).height == old(self).height,
            final(self).step == old(self).step,
    {
        if self.seed_dirty {
            self.gpu_seed_x = self.seed_x;
            self.gpu_seed_y = self.seed_y;
            self.seed_dirty = false;
        }
        if self.dims_dirty {
            self.gpu_width = self.width;
            self.gpu_height = self.height;
            self.dims_dirty = false;
        }
    }
}

} // verus!
