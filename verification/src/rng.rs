//! A tiny xorshift generator, seeded from the clock. It only resolves
//! conflicts during an automatic run; the net itself stays deterministic.
use std::time::{Duration, SystemTime, SystemTimeError};
use vstd::prelude::*;

verus! {

// ---------------------------------------------------------------------
// The clock
// ---------------------------------------------------------------------

/// A reading of the system clock.
#[verifier::external_type_specification]
#[verifier::external_body]
pub struct ExSystemTime(SystemTime);

/// The error of a clock that is set to before the epoch.
#[verifier::external_type_specification]
#[verifier::external_body]
pub struct ExSystemTimeError(SystemTimeError);

/// `SystemTime::now` of the standard library. Nothing is claimed of what the
/// clock says.
pub assume_specification[ SystemTime::now ]() -> (r: SystemTime)
;

/// `SystemTime::duration_since` of the standard library, applied to the Unix
/// epoch. Nothing is claimed of the duration, nor of whether the clock is
/// past the epoch.
#[verifier::external_body]
fn since_epoch(now: &SystemTime) -> (r: Result<Duration, SystemTimeError>) {
    now.duration_since(std::time::UNIX_EPOCH)
}

/// `Duration::subsec_nanos` of the standard library: the fraction of a second
/// in nanoseconds, which is less than one billion.
pub assume_specification[ Duration::subsec_nanos ](d: &Duration) -> (n: u32)
    ensures
        n < 1_000_000_000,
;

// ---------------------------------------------------------------------
// The generator
// ---------------------------------------------------------------------

/// The generator: its state.
pub struct Rng(pub u64);

/// The state that follows `x`.
pub open spec fn xorshift(x: u64) -> u64 {
    let a = x ^ (x << 13);
    let b = a ^ (a >> 7);
    b ^ (b << 17)
}

/// The first state: the nanoseconds of the clock, or a constant where there
/// is no reading, made odd.
pub open spec fn seed(nanos: Option<u32>) -> u64 {
    match nanos {
        Some(n) => (n as u64) | 1,
        None => 0x9e37_79b9,
    }
}

/// A seed is odd, so that it is never zero.
pub proof fn law_seed_odd(nanos: Option<u32>)
    ensures
        seed(nanos) % 2 == 1,
        seed(nanos) != 0,
{
    if nanos is Some {
        let n = nanos->0 as u64;
        assert((n | 1) % 2 == 1) by (bit_vector);
    }
}

/// A generator whose state is not zero never gets stuck at zero.
pub proof fn law_xorshift_nonzero(x: u64)
    requires
        x != 0,
    ensures
        xorshift(x) != 0,
{
    law_xorshift_injective(x, 0);
    assert((0u64 ^ (0u64 << 13)) == 0) by (bit_vector);
    assert((0u64 ^ (0u64 >> 7)) == 0) by (bit_vector);
    assert((0u64 ^ (0u64 << 17)) == 0) by (bit_vector);
}

/// Different states are followed by different states.
pub proof fn law_xorshift_injective(x: u64, y: u64)
    requires
        x != y,
    ensures
        xorshift(x) != xorshift(y),
{
    let a = x ^ (x << 13);
    let c = y ^ (y << 13);
    assert(x != y ==> x ^ (x << 13) != y ^ (y << 13)) by (bit_vector);
    let b = a ^ (a >> 7);
    let d = c ^ (c >> 7);
    assert(a != c ==> a ^ (a >> 7) != c ^ (c >> 7)) by (bit_vector);
    assert(b != d ==> b ^ (b << 17) != d ^ (d << 17)) by (bit_vector);
}

/// A step of the generator is three exclusive ors: with the bits moved up by
/// 13, then with those moved down by 7, then with those moved up by 17.
pub proof fn law_xorshift_steps(x: u64, a: u64, b: u64)
    requires
        a == x ^ (x << 13),
        b == a ^ (a >> 7),
    ensures
        xorshift(x) == b ^ (b << 17),
{
}

/// The bits of the state act on their own: a step of two states taken together
/// by exclusive or is their two steps taken together.
pub proof fn law_xorshift_linear(x: u64, y: u64)
    ensures
        xorshift(x ^ y) == xorshift(x) ^ xorshift(y),
{
    assert((x ^ y) ^ ((x ^ y) << 13) == (x ^ (x << 13)) ^ (y ^ (y << 13))) by (bit_vector);
    let a = x ^ (x << 13);
    let c = y ^ (y << 13);
    assert((a ^ c) ^ ((a ^ c) >> 7) == (a ^ (a >> 7)) ^ (c ^ (c >> 7))) by (bit_vector);
    let b = a ^ (a >> 7);
    let d = c ^ (c >> 7);
    assert((b ^ d) ^ ((b ^ d) << 17) == (b ^ (b << 17)) ^ (d ^ (d << 17))) by (bit_vector);
}

/// Every state follows some state.
pub proof fn law_xorshift_onto(y: u64) -> (x: u64)
    ensures
        xorshift(x) == y,
        y != 0 ==> x != 0,
{
    let b = y ^ (y << 17) ^ (y << 34) ^ (y << 51);
    assert(b ^ (b << 17) == y) by (bit_vector)
        requires
            b == y ^ (y << 17) ^ (y << 34) ^ (y << 51),
    ;
    let a = b ^ (b >> 7) ^ (b >> 14) ^ (b >> 21) ^ (b >> 28) ^ (b >> 35) ^ (b >> 42) ^ (b >> 49)
        ^ (b >> 56) ^ (b >> 63);
    assert(a ^ (a >> 7) == b) by (bit_vector)
        requires
            a == b ^ (b >> 7) ^ (b >> 14) ^ (b >> 21) ^ (b >> 28) ^ (b >> 35) ^ (b >> 42) ^ (b
                >> 49) ^ (b >> 56) ^ (b >> 63),
    ;
    let x = a ^ (a << 13) ^ (a << 26) ^ (a << 39) ^ (a << 52);
    assert(x ^ (x << 13) == a) by (bit_vector)
        requires
            x == a ^ (a << 13) ^ (a << 26) ^ (a << 39) ^ (a << 52),
    ;
    assert((0u64 ^ (0u64 << 13)) == 0) by (bit_vector);
    assert((0u64 ^ (0u64 >> 7)) == 0) by (bit_vector);
    assert((0u64 ^ (0u64 << 17)) == 0) by (bit_vector);
    x
}

/// The first state is the reading of the clock, or the next number where the
/// reading is even; without a reading it is a constant.
pub proof fn law_seed(nanos: Option<u32>)
    ensures
        nanos is Some ==> seed(nanos) == (if nanos->0 % 2 == 1 {
            nanos->0 as int
        } else {
            nanos->0 + 1
        }),
        nanos is None ==> seed(nanos) == 0x9e37_79b9,
{
    if nanos is Some {
        let n = nanos->0 as u64;
        assert(n < 0x1_0000_0000 && n % 2 == 1 ==> (n | 1) == n) by (bit_vector);
        assert(n < 0x1_0000_0000 && n % 2 == 0 ==> (n | 1) == n + 1) by (bit_vector);
    }
}

impl Rng {
    /// A generator with the given reading of the clock's nanoseconds.
    pub fn seeded(nanos: Option<u32>) -> (r: Rng)
        ensures
            r.0 == seed(nanos),
    {
        let s: u64 = match nanos {
            Some(n) => (n as u64) | 1,
            None => 0x9e37_79b9,
        };
        Rng(s)
    }

    /// A generator seeded from the clock.
    pub fn new() -> (r: Rng)
        ensures
            exists|nanos: Option<u32>|
                r.0 == #[trigger] seed(nanos) && (nanos is Some ==> nanos->0 < 1_000_000_000),
    {
        let nanos: Option<u32> = match since_epoch(&SystemTime::now()) {
            Ok(d) => Some(d.subsec_nanos()),
            Err(_) => None,
        };
        Rng::seeded(nanos)
    }

    /// The next choice among `n`.
    pub fn next(&mut self, n: usize) -> (r: usize)
        requires
            n > 0,
        ensures
            final(self).0 == xorshift(old(self).0),
            r == final(self).0 % (n as u64),
            r < n,
    {
        self.0 = self.0 ^ (self.0 << 13);
        self.0 = self.0 ^ (self.0 >> 7);
        self.0 = self.0 ^ (self.0 << 17);
        (self.0 % n as u64) as usize
    }
}

} // verus!
