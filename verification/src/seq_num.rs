//! Modular sequence-number counter with a configurable resolution.
//!
//! The counter lives in `[0, resolution)` and wraps on increment. Ordering
//! under wrap uses the half-modulus rule: `b` comes after `a` exactly when
//! `(b - a) mod resolution` lies in `(0, resolution / 2]`. Plain `<` is wrong
//! shortly before a wrap and must never be used on these values.

use vstd::arithmetic::div_mod::{lemma_mod_multiples_vanish, lemma_mod_self_0, lemma_small_mod};
use vstd::prelude::*;

use crate::errors::FragError;

verus! {

/// `b` follows `a` under the half-modulus ordering of a counter with the
/// given resolution: the forward distance from `a` to `b` is positive and at
/// most half the modulus.
pub open spec fn precedes_spec(a: u64, b: u64, resolution: u64) -> bool {
    let d = ((b - a) % (resolution as int) + resolution as int) % (resolution as int);
    0 < d <= resolution as int / 2
}

/// A wrap-around sequence-number counter: `value` in `[0, resolution)`.
#[derive(Clone, Copy, Debug, PartialEq, Eq, Structural)]
pub struct SeqNum {
    value: u64,
    resolution: u64,
}

impl SeqNum {
    /// The counter's invariant: a resolution of at least two, value below it.
    pub open spec fn wf(self) -> bool {
        &&& 2 <= self.spec_resolution()
        &&& self.spec_get() < self.spec_resolution()
    }

    pub closed spec fn spec_get(self) -> u64 {
        self.value
    }

    pub closed spec fn spec_resolution(self) -> u64 {
        self.resolution
    }

    /// Makes a counter, refusing a resolution below two and an initial value
    /// outside `[0, resolution)`.
    pub fn make(initial: u64, resolution: u64) -> (r: Result<SeqNum, FragError>)
        ensures
            resolution < 2 ==> r == Result::<SeqNum, FragError>::Err(
                FragError::InvalidResolution { resolution },
            ),
            resolution >= 2 && initial >= resolution ==> r == Result::<SeqNum, FragError>::Err(
                FragError::ResyncOutOfRange { sn: initial, resolution },
            ),
            resolution >= 2 && initial < resolution ==> r is Ok,
            r is Ok ==> r->Ok_0.wf() && r->Ok_0.spec_get() == initial
                && r->Ok_0.spec_resolution() == resolution,
    {
        if resolution < 2 {
            Err(FragError::InvalidResolution { resolution })
        } else if initial >= resolution {
            Err(FragError::ResyncOutOfRange { sn: initial, resolution })
        } else {
            Ok(SeqNum { value: initial, resolution })
        }
    }

    /// The current value.
    pub fn get(&self) -> (r: u64)
        ensures
            r == self.spec_get(),
    {
        self.value
    }

    /// The wrap modulus the counter was made with.
    pub fn resolution(&self) -> (r: u64)
        ensures
            r == self.spec_resolution(),
    {
        self.resolution
    }

    /// Forcibly resets the value, refusing one outside `[0, resolution)`.
    pub fn set(&mut self, sn: u64) -> (r: Result<(), FragError>)
        requires
            old(self).wf(),
        ensures
            final(self).wf(),
            final(self).spec_resolution() == old(self).spec_resolution(),
            sn < old(self).spec_resolution() ==> r is Ok && final(self).spec_get() == sn,
            sn >= old(self).spec_resolution() ==> r == Result::<(), FragError>::Err(
                FragError::ResyncOutOfRange { sn, resolution: old(self).spec_resolution() },
            ) && final(self).spec_get() == old(self).spec_get(),
    {
        if sn >= self.resolution {
            Err(FragError::ResyncOutOfRange { sn, resolution: self.resolution })
        } else {
            self.value = sn;
            Ok(())
        }
    }

    /// Advances the value by one, wrapping modulo the resolution.
    pub fn increment(&mut self)
        requires
            old(self).wf(),
        ensures
            final(self).wf(),
            final(self).spec_resolution() == old(self).spec_resolution(),
            final(self).spec_get() == (old(self).spec_get() + 1) % (
            old(self).spec_resolution() as int),
    {
        proof {
            let v = self.value as int;
            let r = self.resolution as int;
            if v + 1 == r {
                lemma_mod_self_0(r);
            } else {
                lemma_small_mod((v + 1) as nat, r as nat);
            }
        }
        if self.value + 1 == self.resolution {
            self.value = 0;
        } else {
            self.value = self.value + 1;
        }
    }

    /// Whether `b` comes after `a` under the half-modulus rule of this
    /// counter's resolution.
    pub fn precedes(&self, a: u64, b: u64) -> (r: bool)
        requires
            self.wf(),
            a < self.spec_resolution(),
            b < self.spec_resolution(),
        ensures
            r == precedes_spec(a, b, self.spec_resolution()),
    {
        let d = if b >= a {
            b - a
        } else {
            self.resolution - (a - b)
        };
        proof {
            let ai = a as int;
            let bi = b as int;
            let ri = self.resolution as int;
            let di = d as int;
            lemma_mod_multiples_vanish(1, bi - ai, ri);
            assert((ri + (bi - ai)) % ri == (bi - ai) % ri);
            if b >= a {
                lemma_small_mod((bi - ai) as nat, ri as nat);
            } else {
                lemma_small_mod((ri + (bi - ai)) as nat, ri as nat);
            }
            assert((bi - ai) % ri == di || (bi - ai) % ri == di - ri);
            lemma_mod_multiples_vanish(1, di - ri, ri);
            lemma_mod_multiples_vanish(1, di, ri);
            lemma_small_mod(di as nat, ri as nat);
            assert(((bi - ai) % ri + ri) % ri == di);
        }
        0 < d && d <= self.resolution / 2
    }
}

} // verus!
