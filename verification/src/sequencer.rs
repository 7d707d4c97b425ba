//! Sequence numbers that wrap around on the wire.

use vstd::prelude::*;

verus! {

/// Unwraps 32-bit sequence numbers: every number is taken as the 64-bit number
/// that it abbreviates and that is nearest to the one before.
#[derive(Clone, Copy, Debug, PartialEq, Eq, Structural)]
pub struct Sequencer {
    last: u64,
}

/// The value that `raw` abbreviates and that is nearest to `last`: the one of
/// its 2^32-long window that starts 2^31 below `last`. Values do not go below
/// zero.
pub open spec fn unwrapped(last: int, raw: u32) -> int {
    let base = last - last % 0x1_0000_0000;
    let same = base + raw;
    if same >= last + 0x8000_0000 && base > 0 {
        same - 0x1_0000_0000
    } else if same < last - 0x8000_0000 {
        same + 0x1_0000_0000
    } else {
        same
    }
}

impl Sequencer {
    /// The number that the next one is compared with.
    pub closed spec fn last(self) -> int {
        self.last as int
    }

    pub fn new() -> (r: Self)
        ensures
            r.last() == 0,
    {
        Sequencer { last: 0 }
    }

    /// Whether the next number is certain to fit.
    pub fn has_room(&self) -> (r: bool)
        ensures
            r == (self.last() < 0x8000_0000_0000_0000),
    {
        self.last < 0x8000_0000_0000_0000
    }

    pub fn seq(&mut self, raw: u32) -> (r: u64)
        requires
            old(self).last() < 0x8000_0000_0000_0000,
        ensures
            r == unwrapped(old(self).last(), raw),
            final(self).last() == r,
    {
        let last: u64 = self.last;
        let base: u64 = last - last % 0x1_0000_0000;
        let same: u64 = base + raw as u64;
        let r: u64 = if same >= last + 0x8000_0000 && base > 0 {
            same - 0x1_0000_0000
        } else if last >= 0x8000_0000 && same < last - 0x8000_0000 {
            same + 0x1_0000_0000
        } else {
            same
        };
        self.last = r;
        r
    }
}

/// The unwrapped number abbreviates to the one received.
pub proof fn lemma_unwrapped_is_congruent(last: int, raw: u32)
    requires
        last >= 0,
    ensures
        unwrapped(last, raw) % 0x1_0000_0000 == raw,
        unwrapped(last, raw) >= 0,
{
}

/// A sender that counts modulo 2^32 is followed: a number that is within 2^31 of
/// the one before is unwrapped to itself.
pub proof fn lemma_unwrapped_follows(last: int, seq: int)
    requires
        last >= 0,
        seq >= 0,
        last - 0x8000_0000 <= seq < last + 0x8000_0000,
    ensures
        unwrapped(last, (seq % 0x1_0000_0000) as u32) == seq,
{
}

/// The unwrapped number is the nearest one: no further below the last one than 2^31, and
/// nearer above. The only other case is at the start, where the nearest number would be
/// below zero: there a number is what it says.
pub proof fn lemma_unwrapped_is_nearest(last: int, raw: u32)
    requires
        last >= 0,
    ensures
        ({
            let n = unwrapped(last, raw);
            ||| last - 0x8000_0000 <= n < last + 0x8000_0000
            ||| n == raw && n >= last + 0x8000_0000 && n - 0x1_0000_0000 < 0
        }),
{
}

} // verus!
