//! The pair of same-sized field textures that the passes alternate
//! between.  Exactly one of the two is the read (source) texture and
//! one the write (destination) texture at any time, and the assignment
//! flips once per pass; a swap exchanges roles only, it never copies
//! pixels.

use vstd::prelude::*;
use crate::field::{Cell, Field, MAX_DIM, alloc_empty};

verus! {

pub struct PingPongFieldBuffers {
    pub tex_a: Field,
    pub tex_b: Field,
    pub a_is_source: bool,
}

impl PingPongFieldBuffers {
    /// Both textures are well formed and share one size.
    pub open spec fn wf(self) -> bool {
        &&& self.tex_a.wf()
        &&& self.tex_b.wf()
        &&& self.tex_a.width == self.tex_b.width
        &&& self.tex_a.height == self.tex_b.height
    }

    pub open spec fn width(self) -> int {
        self.tex_a.width as int
    }

    pub open spec fn height(self) -> int {
        self.tex_a.height as int
    }

    /// The texture currently in the read role.
    pub open spec fn source(self) -> Field {
        if self.a_is_source {
            self.tex_a
        } else {
            self.tex_b
        }
    }

    /// The texture currently in the write role.
    pub open spec fn destination(self) -> Field {
        if self.a_is_source {
            self.tex_b
        } else {
            self.tex_a
        }
    }

    /// Creates two equal-sized textures, both initialized to the
    /// sentinel, with texture A in the source role.  In this model
    /// allocation cannot fail; a backend that can run out of texture
    /// memory reports that as `FrameError::ResourceAllocationError`
    /// instead of degrading silently.
    pub fn allocate(width: usize, height: usize) -> (b: Self)
        requires
            1 <= width <= MAX_DIM,
            1 <= height <= MAX_DIM,
        ensures
            b.wf(),
            b.width() == width,
            b.height() == height,
            b.a_is_source,
            forall|j: int| 0 <= j < b.source().cells@.len() ==> b.source().cells@[j] == Cell::Empty,
            forall|j: int|
                0 <= j < b.destination().cells@.len() ==> b.destination().cells@[j] == Cell::Empty,
    {
        PingPongFieldBuffers {
            tex_a: alloc_empty(width, height),
            tex_b: alloc_empty(width, height),
            a_is_source: true,
        }
    }

    /// Borrows the texture currently in the read role.
    pub fn current_source(&self) -> (f: &Field)
        ensures
            *f == self.source(),
    {
        if self.a_is_source {
            &self.tex_a
        } else {
            &self.tex_b
        }
    }

    /// Replaces the contents of the destination texture; the roles and
    /// the source texture stay as they were.
    pub fn write_destination(&mut self, f: Field)
        requires
            old(self).wf(),
            f.wf(),
            f.width as int == old(self).width(),
            f.height as int == old(self).height(),
        ensures
            final(self).wf(),
            final(self).width() == old(self).width(),
            final(self).height() == old(self).height(),
            final(self).a_is_source == old(self).a_is_source,
            final(self).destination() == f,
            final(self).source() == old(self).source(),
    {
        if self.a_is_source {
            self.tex_b = f;
        } else {
            self.tex_a = f;
        }
    }

    /// Exchanges which texture is source and which is destination, in
    /// O(1): only the role flag moves, no pixel is copied.
    pub fn swap_roles(&mut self)
        ensures
            final(self).a_is_source == !old(self).a_is_source,
            final(self).tex_a == old(self).tex_a,
            final(self).tex_b == old(self).tex_b,
            final(self).source() == old(self).destination(),
            final(self).destination() == old(self).source(),
    {
        self.a_is_source = !self.a_is_source;
    }

    /// Tears both textures down and re-allocates them at the new size,
    /// both reset to the sentinel.  The caller sequences this between
    /// frames, never inside one, so no pass ever reads a stale-sized
    /// texture.
    pub fn resize(&mut self, width: usize, height: usize)
        requires
            1 <= width <= MAX_DIM,
            1 <= height <= MAX_DIM,
        ensures
            final(self).wf(),
            final(self).width() == width,
            final(self).height() == height,
            final(self).a_is_source,
            forall|j: int|
                0 <= j < final(self).source().cells@.len() ==> final(self).source().cells@[j]
                    == Cell::Empty,
            forall|j: int|
                0 <= j < final(self).destination().cells@.len()
                    ==> final(self).destination().cells@[j] == Cell::Empty,
    {
        *self = PingPongFieldBuffers::allocate(width, height);
    }
}

} // verus!
