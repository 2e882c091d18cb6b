//! The flat policy/value network's shape: its hidden width and the offsets
//! of each parameter block in its weight vector.

use vstd::prelude::*;

verus! {

/// Width of the flat network's state features.
pub const STATE_FEATURES: usize = 384;

/// Width of the flat network's action features.
pub const ACTION_FEATURES: usize = 24;

/// The hidden width of the flat policy/value network.
#[derive(Clone, Copy, Debug, PartialEq, Eq, Structural)]
pub struct NetworkConfig {
    pub hidden: usize,
}

impl Default for NetworkConfig {
    fn default() -> (r: Self)
        ensures
            r.hidden == 48,
    {
        NetworkConfig { hidden: 48 }
    }
}

/// Start offsets of each parameter block in the flat network's weight
/// vector, and its total length.
#[derive(Clone, Copy, Debug, PartialEq, Eq, Structural)]
pub struct Layout {
    pub w1: usize,
    pub b1: usize,
    pub w2: usize,
    pub b2: usize,
    pub wv: usize,
    pub bv: usize,
    pub wa: usize,
    pub ba: usize,
    pub len: usize,
}

/// Number of weights of a flat network of hidden width `h`.
pub open spec fn flat_len(h: int) -> int {
    h * 384 + h + h * h + h + h + 1 + h * 24 + h
}

impl Layout {
    /// The blocks, in order: input weights, input bias, hidden weights,
    /// hidden bias, value weights, value bias, action weights, action bias.
    pub fn new(hidden: usize) -> (r: Self)
        requires
            flat_len(hidden as int) <= usize::MAX,
        ensures
            r.w1 == 0,
            r.b1 == hidden * STATE_FEATURES,
            r.w2 == r.b1 + hidden,
            r.b2 == r.w2 + hidden * hidden,
            r.wv == r.b2 + hidden,
            r.bv == r.wv + hidden,
            r.wa == r.bv + 1,
            r.ba == r.wa + hidden * ACTION_FEATURES,
            r.len == r.ba + hidden,
            r.len == flat_len(hidden as int),
    {
        proof {
            assert(0 <= hidden * 384 <= flat_len(hidden as int)) by (nonlinear_arith)
                requires
                    flat_len(hidden as int) <= usize::MAX,
                    0 <= hidden,
            ;
            assert(0 <= hidden * hidden) by (nonlinear_arith);
            assert(0 <= hidden * 24) by (nonlinear_arith);
        }
        let w1: usize = 0;
        let b1: usize = w1 + hidden * STATE_FEATURES;
        let w2: usize = b1 + hidden;
        let b2: usize = w2 + hidden * hidden;
        let wv: usize = b2 + hidden;
        let bv: usize = wv + hidden;
        let wa: usize = bv + 1;
        let ba: usize = wa + hidden * ACTION_FEATURES;
        let len: usize = ba + hidden;
        Layout { w1, b1, w2, b2, wv, bv, wa, ba, len }
    }
}

} // verus!
