//! Points in time, in seconds since the Unix epoch.
//!
//! Stored timestamps are doubles. A timestamp is kept by its bits, which loses
//! nothing of it.
use crate::double::{
    is_nan, is_nearest_quotient, magnitude, nearest_magnitude, nearest_magnitude_of_nanos, rank,
    scaled_magnitude, whole_bits, whole_magnitude,
};
use crate::double::{GIGA, INFINITY_BITS, MINUS_ONE_BITS, SIGN_BIT, ZERO_BITS};
use vstd::prelude::*;

verus! {

/// A number of seconds since the Unix epoch. It is never NaN.
#[derive(Clone, Copy, Debug)]
pub struct Timestamp {
    bits: u64,
}

impl View for Timestamp {
    type V = u64;

    closed spec fn view(&self) -> u64 {
        self.bits
    }
}

/// Whether `bits` are those of the double for `nanos`, divided by a thousand
/// million: of the double nearest to the quotient.
pub open spec fn is_nanos(bits: u64, nanos: i64) -> bool {
    let size = if nanos < 0 { -nanos } else { nanos as int };
    &&& bits >= SIGN_BIT <==> nanos < 0
    &&& is_nearest_quotient(magnitude(bits), scaled_magnitude(whole_magnitude(size as nat)), GIGA as int)
}

/// The size of a number without its sign.
fn unsigned_size(n: i64) -> (size: u64)
    ensures
        size == if n < 0 { -n } else { n as int },
{
    if n < 0 {
        (-(n + 1)) as u64 + 1
    } else {
        n as u64
    }
}

impl Timestamp {
    #[verifier::type_invariant]
    spec fn is_number(self) -> bool {
        !is_nan(self.bits)
    }

    /// The timestamp with the given bits, or `None` where they are NaN.
    pub fn from_bits(bits: u64) -> (stamp: Option<Timestamp>)
        ensures
            stamp is None <==> is_nan(bits),
            stamp matches Some(t) ==> t@ == bits,
    {
        let size: u64 = if bits < SIGN_BIT { bits } else { bits - SIGN_BIT };
        if size > INFINITY_BITS {
            None
        } else {
            Some(Timestamp { bits })
        }
    }

    /// The bits of the timestamp.
    pub fn bits(&self) -> (bits: u64)
        ensures
            bits == self@,
            !is_nan(bits),
    {
        proof {
            use_type_invariant(self);
        }
        self.bits
    }

    /// The epoch itself.
    pub fn zero() -> (stamp: Timestamp)
        ensures
            stamp@ == ZERO_BITS,
    {
        Timestamp { bits: ZERO_BITS }
    }

    /// One second before the epoch, which marks a time that was never observed.
    pub fn minus_one() -> (stamp: Timestamp)
        ensures
            stamp@ == MINUS_ONE_BITS,
    {
        Timestamp { bits: MINUS_ONE_BITS }
    }

    /// The timestamp of a whole number of seconds, rounded to the nearest
    /// double where no double holds it.
    pub fn from_seconds(seconds: i64) -> (stamp: Timestamp)
        ensures
            stamp@ == whole_bits(seconds as int),
    {
        let size = nearest_magnitude(unsigned_size(seconds));
        if seconds < 0 {
            Timestamp { bits: SIGN_BIT + size }
        } else {
            Timestamp { bits: size }
        }
    }

    /// The timestamp of a number of nanoseconds, in seconds. The number is
    /// rounded to a double first, and its quotient is rounded again.
    pub fn from_nanos(nanos: i64) -> (stamp: Timestamp)
        ensures
            is_nanos(stamp@, nanos),
    {
        let size = nearest_magnitude_of_nanos(unsigned_size(nanos));
        if nanos < 0 {
            Timestamp { bits: SIGN_BIT + size }
        } else {
            Timestamp { bits: size }
        }
    }

    /// The place of the timestamp in the order of all times.
    pub fn place(&self) -> (place: i128)
        ensures
            place == rank(self@),
    {
        if self.bits < SIGN_BIT {
            self.bits as i128
        } else {
            -((self.bits - SIGN_BIT) as i128)
        }
    }

    /// Whether this timestamp comes before `other`.
    pub fn precedes(&self, other: &Timestamp) -> (earlier: bool)
        ensures
            earlier == (rank(self@) < rank(other@)),
    {
        if self.bits < SIGN_BIT {
            other.bits < SIGN_BIT && self.bits < other.bits
        } else if other.bits < SIGN_BIT {
            self.bits != SIGN_BIT || other.bits != 0
        } else {
            other.bits < self.bits
        }
    }
}

} // verus!
