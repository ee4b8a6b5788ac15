//! The frame orchestrator: sequences seed pass, step sequence and
//! composite pass once per frame, applies queued resizes strictly
//! between frames, and classifies backend failures.

use vstd::prelude::*;
use crate::field::{Cell, MAX_DIM};
use crate::passes::{composite, decode_grid, seed_grid, seed_pass};
use crate::pingpong::PingPongFieldBuffers;
use crate::sequence::{
    compute_iterations, exp2, iter_count, lemma_iter_count_bounds, pow2_exec, run_sequence,
    run_upto,
};
use crate::step::clamp_to;
use crate::uniforms::UniformStore;

verus! {

/// How a frame can fail, as the backend reports it.
#[derive(Clone, Copy, PartialEq, Eq, Structural, Debug)]
pub enum FrameError {
    /// Texture or buffer creation failed; fatal to the resize or init
    /// attempt that asked for it, surfaced and never retried.
    ResourceAllocationError,
    /// The presentation target is gone; reconfigure and retry on the
    /// next frame, never the current one.
    SurfaceLost,
    /// The presentation target is stale; handled like a lost surface.
    SurfaceOutdated,
    /// No recovery; the render loop must terminate cleanly.
    DeviceOutOfMemory,
    /// A frame took too long to present; skip it and proceed.
    FrameTimeout,
}

/// What the render loop does about a failed frame.
#[derive(Clone, Copy, PartialEq, Eq, Structural, Debug)]
pub enum Recovery {
    /// Reconfigure the surface and try again on the next frame.
    ReconfigureAndRetry,
    /// Drop this frame's output and proceed to the next.
    SkipFrame,
    /// Stop the render loop.
    Abort,
}

/// The recovery policy, one decision per failure kind.
pub open spec fn recovery_of(e: FrameError) -> Recovery {
    match e {
        FrameError::ResourceAllocationError => Recovery::Abort,
        FrameError::SurfaceLost => Recovery::ReconfigureAndRetry,
        FrameError::SurfaceOutdated => Recovery::ReconfigureAndRetry,
        FrameError::DeviceOutOfMemory => Recovery::Abort,
        FrameError::FrameTimeout => Recovery::SkipFrame,
    }
}

/// Classifies a backend failure; the caller that drives the event
/// loop acts on the returned decision.
pub fn classify_frame_error(e: FrameError) -> (r: Recovery)
    ensures
        r == recovery_of(e),
{
    match e {
        FrameError::ResourceAllocationError => Recovery::Abort,
        FrameError::SurfaceLost => Recovery::ReconfigureAndRetry,
        FrameError::SurfaceOutdated => Recovery::ReconfigureAndRetry,
        FrameError::DeviceOutOfMemory => Recovery::Abort,
        FrameError::FrameTimeout => Recovery::SkipFrame,
    }
}

/// The pass count for a `w` by `h` field.
pub open spec fn dims_iterations(w: int, h: int) -> nat {
    iter_count((if w >= h { w } else { h }) as nat)
}

/// The sampling radius of the first pass: half of `exp2` of the pass
/// count, or zero when no pass runs (a one-by-one field).
pub open spec fn initial_step(w: int, h: int) -> nat {
    if dims_iterations(w, h) == 0 {
        0
    } else {
        exp2((dims_iterations(w, h) - 1) as nat)
    }
}

/// The converged field a frame leaves behind for a given size and
/// seed: the seed pass output run through the full step sequence.
pub open spec fn converged_grid(w: int, h: int, sx: int, sy: int) -> Seq<Cell> {
    run_upto(seed_grid(w, h, sx, sy), w, h, dims_iterations(w, h), dims_iterations(w, h))
}

/// The image a frame displays for a given size and seed.
pub open spec fn frame_image(w: int, h: int, sx: int, sy: int) -> Seq<Option<u64>> {
    decode_grid(converged_grid(w, h, sx, sy), w)
}

/// Sequences the three stages once per displayed frame and owns every
/// piece of state that survives a frame.
pub struct FrameOrchestrator {
    pub uniforms: UniformStore,
    pub buffers: PingPongFieldBuffers,
    /// A resize that arrived since the last frame; applied before the
    /// next frame's first pass, never inside a frame.
    pub pending_resize: Option<(usize, usize)>,
    /// The pass count for the current field size; recomputed on every
    /// applied resize.
    pub iterations: usize,
}

impl FrameOrchestrator {
    pub open spec fn wf(self) -> bool {
        &&& self.buffers.wf()
        &&& self.uniforms.wf()
        &&& self.uniforms.width as int == self.buffers.width()
        &&& self.uniforms.height as int == self.buffers.height()
        &&& self.iterations as nat == dims_iterations(self.buffers.width(), self.buffers.height())
        &&& match self.pending_resize {
            Option::Some(d) => 1 <= d.0 <= MAX_DIM && 1 <= d.1 <= MAX_DIM,
            Option::None => true,
        }
    }

    /// The width the next frame will render at: the queued resize if
    /// one is pending, the allocated width otherwise.
    pub open spec fn effective_width(self) -> int {
        match self.pending_resize {
            Option::Some(d) => d.0 as int,
            Option::None => self.buffers.width(),
        }
    }

    /// The height the next frame will render at.
    pub open spec fn effective_height(self) -> int {
        match self.pending_resize {
            Option::Some(d) => d.1 as int,
            Option::None => self.buffers.height(),
        }
    }

    /// The seed column the next frame will rasterize: the latest
    /// pointer position, clamped into the field.
    pub open spec fn effective_seed_x(self) -> int {
        clamp_to(self.uniforms.seed_x as int, 0, self.effective_width() - 1)
    }

    /// The seed row the next frame will rasterize.
    pub open spec fn effective_seed_y(self) -> int {
        clamp_to(self.uniforms.seed_y as int, 0, self.effective_height() - 1)
    }

    /// The image the next frame will display.
    pub open spec fn frame_spec(self) -> Seq<Option<u64>> {
        frame_image(
            self.effective_width(),
            self.effective_height(),
            self.effective_seed_x(),
            self.effective_seed_y(),
        )
    }

    /// A fresh pipeline: both field textures allocated at the given
    /// size, uniforms uploaded, no resize queued.
    pub fn new(width: usize, height: usize, seed_x: usize, seed_y: usize) -> (p: Self)
        requires
            1 <= width <= MAX_DIM,
            1 <= height <= MAX_DIM,
        ensures
            p.wf(),
            p.buffers.width() == width,
            p.buffers.height() == height,
            p.uniforms.seed_x == seed_x,
            p.uniforms.seed_y == seed_y,
            p.pending_resize.is_none(),
    {
        let iterations = compute_iterations(if width >= height { width } else { height });
        FrameOrchestrator {
            uniforms: UniformStore::new(width, height, seed_x, seed_y),
            buffers: PingPongFieldBuffers::allocate(width, height),
            pending_resize: Option::None,
            iterations,
        }
    }

    /// Updates the pending seed for the next frame.
    pub fn notify_seed(&mut self, x: usize, y: usize)
        requires
            old(self).wf(),
        ensures
            final(self).wf(),
            final(self).uniforms.seed_x == x,
            final(self).uniforms.seed_y == y,
            final(self).uniforms.seed_dirty,
            final(self).buffers == old(self).buffers,
            final(self).pending_resize == old(self).pending_resize,
            final(self).iterations == old(self).iterations,
    {
        self.uniforms.set_seed(x, y);
    }

    /// Queues a buffer reallocation, applied before the next frame's
    /// first pass.  A degenerate or oversized request is ignored, as
    /// the backend would reject such a surface.
    pub fn notify_resize(&mut self, width: usize, height: usize)
        requires
            old(self).wf(),
        ensures
            final(self).wf(),
            1 <= width <= MAX_DIM && 1 <= height <= MAX_DIM ==> final(self).pending_resize
                == Option::Some((width, height)),
            !(1 <= width <= MAX_DIM && 1 <= height <= MAX_DIM) ==> final(self).pending_resize
                == old(self).pending_resize,
            final(self).uniforms == old(self).uniforms,
            final(self).buffers == old(self).buffers,
            final(self).iterations == old(self).iterations,
    {
        if 1 <= width && width <= MAX_DIM && 1 <= height && height <= MAX_DIM {
            self.pending_resize = Option::Some((width, height));
        }
    }

    /// Runs one frame: applies any queued resize, uploads dirty
    /// uniforms once, rasterizes the seed, drives the full step
    /// sequence over the ping-pong pair and decodes the converged
    /// field.  The returned image is exactly `frame_spec` of the state
    /// the frame started from; in this model no backend failure can
    /// occur, so the result is always `Ok`.
    pub fn render_frame(&mut self) -> (r: Result<Vec<Option<u64>>, FrameError>)
        requires
            old(self).wf(),
        ensures
            final(self).wf(),
            final(self).pending_resize.is_none(),
            final(self).buffers.width() == old(self).effective_width(),
            final(self).buffers.height() == old(self).effective_height(),
            final(self).uniforms.synced(),
            final(self).uniforms.seed_x == old(self).uniforms.seed_x,
            final(self).uniforms.seed_y == old(self).uniforms.seed_y,
            final(self).uniforms.step as nat == initial_step(
                old(self).effective_width(),
                old(self).effective_height(),
            ),
            final(self).buffers.source().cells@ == converged_grid(
                old(self).effective_width(),
                old(self).effective_height(),
                old(self).effective_seed_x(),
                old(self).effective_seed_y(),
            ),
            r matches Ok(img) && img@ == old(self).frame_spec(),
    {
        match self.pending_resize {
            Option::Some(d) => {
                let (w, h) = d;
                self.buffers.resize(w, h);
                self.uniforms.set_dimensions(w, h);
                self.iterations = compute_iterations(if w >= h { w } else { h });
                self.pending_resize = Option::None;
            },
            Option::None => {},
        }
        let w = self.uniforms.width;
        let h = self.uniforms.height;
        let sx = if self.uniforms.seed_x > w - 1 { w - 1 } else { self.uniforms.seed_x };
        let sy = if self.uniforms.seed_y > h - 1 { h - 1 } else { self.uniforms.seed_y };
        self.uniforms.flush();
        proof {
            lemma_iter_count_bounds((if w >= h { w } else { h }) as nat);
        }
        if self.iterations > 0 {
            let s0 = pow2_exec(self.iterations - 1);
            self.uniforms.set_step(s0);
        } else {
            self.uniforms.set_step(0);
        }
        let seeded = seed_pass(w, h, sx, sy);
        self.buffers.write_destination(seeded);
        self.buffers.swap_roles();
        run_sequence(&mut self.buffers, self.iterations);
        let img = composite(self.buffers.current_source());
        Ok(img)
    }
}

} // verus!
