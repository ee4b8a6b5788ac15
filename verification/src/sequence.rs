//! The jump-flooding step sequence.
//!
//! A field whose largest dimension is `n` needs `ceil(log2(n))`
//! passes; the first pass samples at half that power of two and every
//! later pass halves the radius again, down to one pixel.  The driver
//! reads the current source texture, writes the destination, then
//! swaps the two roles, so no pass ever reads the texture it writes.

use vstd::prelude::*;
use crate::field::{Cell, MAX_DIM};
use crate::step::{jfa_step, step_grid};
use crate::pingpong::PingPongFieldBuffers;

verus! {

/// Two to the power `e`.
pub open spec fn exp2(e: nat) -> nat
    decreases e,
{
    if e == 0 {
        1
    } else {
        2 * exp2((e - 1) as nat)
    }
}

/// The number of halving passes a field of largest dimension `n`
/// needs: the least `k` with `exp2(k) >= n`.
pub open spec fn iter_count(n: nat) -> nat
    decreases n,
{
    if n <= 1 {
        0
    } else {
        1 + iter_count(((n + 1) / 2) as nat)
    }
}

/// `exp2` is monotonic.
pub proof fn lemma_exp2_le(a: nat, b: nat)
    requires
        a <= b,
    ensures
        exp2(a) <= exp2(b),
    decreases b,
{
    if a < b {
        lemma_exp2_le(a, (b - 1) as nat);
    }
}

/// `exp2(iter_count(n))` covers `n` without overshooting by more than
/// a factor of two: the pass count is neither too small nor wasteful.
pub proof fn lemma_iter_count_bounds(n: nat)
    ensures
        exp2(iter_count(n)) >= n,
        n >= 2 ==> exp2(iter_count(n)) <= 2 * (n - 1),
        iter_count(n) <= n,
    decreases n,
{
    if n >= 2 {
        lemma_iter_count_bounds(((n + 1) / 2) as nat);
    }
}

/// Two to the power `e`, executable.
pub fn pow2_exec(e: usize) -> (r: usize)
    requires
        exp2(e as nat) <= 0x1_0000,
    ensures
        r as nat == exp2(e as nat),
{
    let mut r: usize = 1;
    let mut i: usize = 0;
    while i < e
        invariant
            i <= e,
            r as nat == exp2(i as nat),
            exp2(e as nat) <= 0x1_0000,
        decreases e - i,
    {
        proof {
            lemma_exp2_le((i + 1) as nat, e as nat);
            assert(exp2((i + 1) as nat) == 2 * exp2(i as nat));
        }
        r = 2 * r;
        i = i + 1;
    }
    r
}

/// The pass count for a field of largest dimension `n`.
pub fn compute_iterations(n: usize) -> (k: usize)
    requires
        1 <= n <= MAX_DIM,
    ensures
        k as nat == iter_count(n as nat),
        k <= n,
    decreases n,
{
    if n <= 1 {
        0
    } else {
        1 + compute_iterations((n + 1) / 2)
    }
}

/// The grid after the first `i` of `k` passes: pass number `i`
/// (counting from one) samples at radius `exp2(k - i)`, so the radii
/// run `exp2(k - 1), ..., 2, 1`.
pub open spec fn run_upto(g: Seq<Cell>, w: int, h: int, k: nat, i: nat) -> Seq<Cell>
    decreases i,
{
    if i == 0 {
        g
    } else {
        step_grid(run_upto(g, w, h, k, (i - 1) as nat), w, h, exp2((k - i) as nat) as int)
    }
}

/// Drives `iterations` jump-flooding passes over the ping-pong pair:
/// each pass reads the current source, writes the current destination,
/// then the roles swap, and the sampling radius halves.  Afterwards
/// the converged field sits in the source role, and the role flag has
/// flipped once per pass.
pub fn run_sequence(buffers: &mut PingPongFieldBuffers, iterations: usize)
    requires
        old(buffers).wf(),
        exp2(iterations as nat) <= 2 * MAX_DIM,
    ensures
        final(buffers).wf(),
        final(buffers).width() == old(buffers).width(),
        final(buffers).height() == old(buffers).height(),
        final(buffers).source().cells@ == run_upto(
            old(buffers).source().cells@,
            old(buffers).width(),
            old(buffers).height(),
            iterations as nat,
            iterations as nat,
        ),
        final(buffers).a_is_source == (if iterations % 2 == 0 {
            old(buffers).a_is_source
        } else {
            !old(buffers).a_is_source
        }),
{
    let ghost g0 = old(buffers).source().cells@;
    let ghost wi = old(buffers).width();
    let ghost hi = old(buffers).height();
    let ghost k = iterations as nat;
    if iterations == 0 {
        return;
    }
    proof {
        assert(exp2((iterations - 1) as nat) <= MAX_DIM);
    }
    let mut s: usize = pow2_exec(iterations - 1);
    let mut i: usize = 0;
    while i < iterations
        invariant
            buffers.wf(),
            buffers.width() == wi,
            buffers.height() == hi,
            i <= iterations,
            exp2(iterations as nat) <= 2 * MAX_DIM,
            k == iterations as nat,
            i < iterations ==> s as nat == exp2((iterations - 1 - i) as nat),
            buffers.source().cells@ == run_upto(g0, wi, hi, k, i as nat),
            buffers.a_is_source == (if i % 2 == 0 {
                old(buffers).a_is_source
            } else {
                !old(buffers).a_is_source
            }),
        decreases iterations - i,
    {
        proof {
            lemma_exp2_le(0, (iterations - 1 - i) as nat);
            lemma_exp2_le((iterations - 1 - i) as nat, (iterations - 1) as nat);
            assert(exp2(0) == 1);
            assert(exp2(iterations as nat) == 2 * exp2((iterations - 1) as nat));
            assert(1 <= s <= MAX_DIM);
        }
        let next = jfa_step(buffers.current_source(), s);
        buffers.write_destination(next);
        buffers.swap_roles();
        proof {
            assert(run_upto(g0, wi, hi, k, (i + 1) as nat) == step_grid(
                run_upto(g0, wi, hi, k, i as nat),
                wi,
                hi,
                exp2((k - (i + 1) as nat) as nat) as int,
            ));
            assert((k - (i + 1) as nat) as nat == (iterations - 1 - i) as nat);
        }
        if i + 1 < iterations {
            proof {
                assert(exp2((iterations - 1 - i) as nat) == 2 * exp2((iterations - 2 - i) as nat));
            }
            s = s / 2;
        }
        i = i + 1;
    }
}

} // verus!
