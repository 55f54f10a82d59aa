//! A token bucket: bytes may pass as long as there are tokens for them, and
//! tokens come back at a rate.
use crate::arith::{at_most, wrapped, wrapping};
use vstd::prelude::*;

verus! {

/// A bucket by value.
#[verifier::ext_equal]
pub struct BucketModel {
    /// Tokens that are there.
    pub tokens: u64,
    /// Most tokens.
    pub capacity: u64,
    /// Tokens per second.
    pub rate_bps: u64,
    /// Tokens taken since the last look.
    pub consumed: u64,
    /// Tokens refused since the last look.
    pub denied: u64,
    /// How often tokens came back.
    pub refill_ticks: u64,
}

impl BucketModel {
    /// A full bucket.
    pub open spec fn full(rate_bps: u64, capacity: u64) -> BucketModel {
        BucketModel {
            tokens: capacity,
            capacity,
            rate_bps,
            consumed: 0,
            denied: 0,
            refill_ticks: 0,
        }
    }

    /// There are never more tokens than fit.
    pub open spec fn wf(self) -> bool {
        self.tokens <= self.capacity
    }

    /// After an attempt to take tokens.
    pub open spec fn asked(self, bytes: u64) -> BucketModel {
        if bytes <= self.tokens {
            BucketModel {
                tokens: (self.tokens - bytes) as u64,
                consumed: wrapped(self.consumed, bytes),
                ..self
            }
        } else {
            BucketModel { denied: wrapped(self.denied, bytes), ..self }
        }
    }

    /// After tokens came back.
    pub open spec fn granted(self, bytes: u64) -> BucketModel {
        BucketModel {
            tokens: at_most(self.tokens + bytes, self.capacity as int) as u64,
            refill_ticks: wrapped(self.refill_ticks, 1),
            ..self
        }
    }

    /// After a look at the demand.
    pub open spec fn counted(self) -> BucketModel {
        BucketModel { consumed: 0, denied: 0, ..self }
    }
}

/// A token bucket.
#[derive(Debug)]
pub struct TokenBucket {
    tokens: u64,
    capacity: u64,
    rate_bps: u64,
    consumed: u64,
    denied: u64,
    refill_ticks: u64,
}

impl TokenBucket {
    /// The bucket by value.
    pub closed spec fn view(&self) -> BucketModel {
        BucketModel {
            tokens: self.tokens,
            capacity: self.capacity,
            rate_bps: self.rate_bps,
            consumed: self.consumed,
            denied: self.denied,
            refill_ticks: self.refill_ticks,
        }
    }

    /// There are never more tokens than fit.
    pub open spec fn wf(&self) -> bool {
        self@.wf()
    }

    /// A full bucket.
    pub fn new(rate_bps: u64, capacity: u64) -> (r: TokenBucket)
        ensures
            r.wf(),
            r@ == BucketModel::full(rate_bps, capacity),
    {
        TokenBucket {
            tokens: capacity,
            capacity,
            rate_bps,
            consumed: 0,
            denied: 0,
            refill_ticks: 0,
        }
    }

    /// Takes tokens for `bytes`, all or none.
    pub fn try_consume(&mut self, bytes: u64) -> (r: bool)
        ensures
            r == (bytes <= old(self)@.tokens),
            final(self)@ == old(self)@.asked(bytes),
            old(self).wf() ==> final(self).wf(),
    {
        if self.tokens < bytes {
            self.denied = wrapping(self.denied, bytes);
            return false;
        }
        self.tokens = self.tokens - bytes;
        self.consumed = wrapping(self.consumed, bytes);
        true
    }

    /// Gives tokens back, as many as fit.
    pub fn grant(&mut self, bytes: u64)
        requires
            old(self).wf(),
        ensures
            final(self).wf(),
            final(self)@ == old(self)@.granted(bytes),
    {
        self.refill_ticks = wrapping(self.refill_ticks, 1);
        let room: u64 = self.capacity - self.tokens;
        if bytes >= room {
            self.tokens = self.capacity;
        } else {
            self.tokens = self.tokens + bytes;
        }
    }

    /// The demand since the last look: tokens taken, tokens refused.
    pub fn take_demand(&mut self) -> (r: (u64, u64))
        ensures
            r == (old(self)@.consumed, old(self)@.denied),
            final(self)@ == old(self)@.counted(),
            old(self).wf() ==> final(self).wf(),
    {
        let demand = (self.consumed, self.denied);
        self.consumed = 0;
        self.denied = 0;
        demand
    }

    /// Tokens per second.
    pub fn rate_bps(&self) -> (r: u64)
        ensures
            r == self@.rate_bps,
    {
        self.rate_bps
    }

    /// Sets the tokens per second.
    pub fn set_rate_bps(&mut self, rate_bps: u64)
        ensures
            final(self)@ == (BucketModel { rate_bps, ..old(self)@ }),
            old(self).wf() ==> final(self).wf(),
    {
        self.rate_bps = rate_bps;
    }

    /// Tokens that are there.
    pub fn tokens(&self) -> (r: u64)
        ensures
            r == self@.tokens,
    {
        self.tokens
    }

    /// How often tokens came back.
    pub fn refill_ticks(&self) -> (r: u64)
        ensures
            r == self@.refill_ticks,
    {
        self.refill_ticks
    }

    /// Most tokens.
    pub fn capacity(&self) -> (r: u64)
        ensures
            r == self@.capacity,
    {
        self.capacity
    }
}

/// A refused attempt takes nothing, and is counted as demand.
pub proof fn law_refusal_takes_nothing(b: BucketModel, bytes: u64)
    requires
        bytes > b.tokens,
        b.denied + bytes <= u64::MAX,
    ensures
        b.asked(bytes).tokens == b.tokens,
        b.asked(bytes).consumed == b.consumed,
        b.asked(bytes).denied == b.denied + bytes,
{
}

/// Giving back what was taken restores the tokens.
pub proof fn law_grant_restores_tokens(b: BucketModel, bytes: u64)
    requires
        b.wf(),
        bytes <= b.tokens,
    ensures
        b.asked(bytes).granted(bytes).tokens == b.tokens,
{
}

/// Between two looks at the demand no more passes than was there at first and
/// came back in between.
pub proof fn law_tokens_are_conserved(b: BucketModel, grant: u64, bytes: u64)
    requires
        b.wf(),
        bytes <= b.granted(grant).tokens,
    ensures
        b.granted(grant).asked(bytes).tokens + bytes <= b.tokens + grant,
        b.granted(grant).asked(bytes).wf(),
{
}

} // verus!
