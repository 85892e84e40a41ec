//! A count of bytes that can go below zero.

use vstd::prelude::*;

verus! {

/// A signed count of bytes, as a magnitude of 128 bits and a sign.
#[derive(Debug, Clone, Copy)]
pub struct ByteBalance {
    pub below_zero: bool,
    pub magnitude: u128,
}

impl ByteBalance {
    /// The count as an unbounded number.
    pub open spec fn view(&self) -> int {
        if self.below_zero {
            -(self.magnitude as int)
        } else {
            self.magnitude as int
        }
    }

    /// The count `bytes`.
    pub fn new(bytes: u128) -> (r: ByteBalance)
        ensures
            r@ == bytes,
    {
        ByteBalance { below_zero: false, magnitude: bytes }
    }

    /// Count `bytes` more.
    pub fn add(&mut self, bytes: u128)
        requires
            old(self)@ + bytes <= u128::MAX,
        ensures
            final(self)@ == old(self)@ + bytes,
    {
        if !self.below_zero {
            self.magnitude = self.magnitude + bytes;
        } else if self.magnitude <= bytes {
            self.below_zero = false;
            self.magnitude = bytes - self.magnitude;
        } else {
            self.magnitude = self.magnitude - bytes;
        }
    }

    /// Count `bytes` fewer, down to the least number that can be held.
    pub fn subtract(&mut self, bytes: u128)
        ensures
            final(self)@ == (if old(self)@ - bytes < -u128::MAX {
                -u128::MAX
            } else {
                old(self)@ - bytes
            }),
    {
        if self.below_zero {
            self.magnitude = self.magnitude.saturating_add(bytes);
        } else if bytes <= self.magnitude {
            self.magnitude = self.magnitude - bytes;
        } else {
            self.below_zero = true;
            self.magnitude = bytes - self.magnitude;
        }
    }
}

} // verus!
