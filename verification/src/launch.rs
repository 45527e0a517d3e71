//! The launch seam. Every kernel in this crate is a *map*: output index `i`
//! is a pure function of the inputs and `i`, so a launcher only has to run
//! the body over an index space and hand each thread its own output slot.

use vstd::arithmetic::div_mod::*;
use vstd::prelude::*;

verus! {

/// Runs a per-index body over an output buffer.
pub trait Launcher {
    /// `out[i] = f(i)` for every `i < out.len()`.
    fn map<T, F>(&self, out: &mut [T], f: F) where
        T: Copy + Send + Sync,
        F: Fn(usize) -> T + Sync,

        requires
            forall|i: usize| i < old(out)@.len() ==> #[trigger] f.requires((i,)),
        ensures
            final(out)@.len() == old(out)@.len(),
            forall|i: usize|
                i < old(out)@.len() ==> f.ensures((i,), #[trigger] final(out)@[i as int]),
    ;
}

/// A single-threaded launcher, for deterministic small tests.
#[derive(Clone, Copy, Debug)]
pub struct SerialLauncher;

impl Launcher for SerialLauncher {
    fn map<T, F>(&self, out: &mut [T], f: F) where T: Copy + Send + Sync, F: Fn(usize) -> T + Sync {
        let n = out.len();
        let mut i: usize = 0;
        while i < n
            invariant
                i <= n,
                out@.len() == n,
                forall|j: usize| j < n ==> #[trigger] f.requires((j,)),
                forall|j: usize| j < i ==> f.ensures((j,), #[trigger] out@[j as int]),
            decreases n - i,
        {
            let v = f(i);
            out[i] = v;
            i = i + 1;
        }
    }
}

impl Default for SerialLauncher {
    fn default() -> (r: Self)
        ensures
            r == SerialLauncher,
    {
        SerialLauncher
    }
}

/// The indices each of up to `threads` threads takes when `n` outputs are cut into equal chunks
/// (the last one may be shorter): every output is in one of at most `threads` chunks.
pub fn chunk_size(n: usize, threads: usize) -> (chunk: usize)
    requires
        n > 0,
    ensures
        ({
            let t = if threads < 1 {
                1
            } else if threads > n {
                n as int
            } else {
                threads as int
            };
            &&& chunk == (n + t - 1) / t
            &&& chunk >= 1
            &&& chunk * t >= n
            &&& (chunk - 1) * t < n
        }),
{
    let t: usize = if threads < 1 {
        1
    } else if threads > n {
        n
    } else {
        threads
    };
    let q = n / t;
    let r = n % t;
    proof {
        lemma_fundamental_div_mod(n as int, t as int);
        assert(t * q == q * t) by (nonlinear_arith);
        if r == 0 {
            assert(n + t - 1 == q * t + (t - 1));
            lemma_fundamental_div_mod_converse(n + t - 1, t as int, q as int, t - 1);
        } else {
            assert((q + 1) * t == q * t + t) by (nonlinear_arith);
            lemma_fundamental_div_mod_converse(n + t - 1, t as int, q + 1, r - 1);
        }
        if r != 0 {
            assert(q * t >= q * 2) by (nonlinear_arith)
                requires
                    t >= 2,
                    q >= 0,
            ;
        }
        assert((q - 1) * t == q * t - t) by (nonlinear_arith);
        if q == 0 {
            assert(q * t == 0) by (nonlinear_arith)
                requires
                    q == 0,
            ;
        }
    }
    if r == 0 {
        q
    } else {
        q + 1
    }
}

} // verus!
