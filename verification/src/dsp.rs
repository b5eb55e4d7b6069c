//! What a captured frame comes to, as far as it takes no real arithmetic: the
//! integer DC pivot that the RMS is formed around, and the spread of recent
//! readings.

use crate::range;
use crate::real32;
use crate::sampler::{ADC_MASK, N};
use vstd::prelude::*;

verus! {

/// Nominal mains frequency.
pub const MAINS_NOM_HZ: u32 = 50;

/// Samples per nominal mains cycle.
pub const SPP_NOM: usize = 80;

/// Samples in half a measurement frame: a whole number of nominal cycles.
pub const HALF: usize = 400;

/// Coarse DC pivot: the mean of the frame, rounded down. It only has to land
/// within a few codes of the bias, so that sums around it stay small.
pub fn coarse_pivot(buf: &[u32; N]) -> (pivot: i32)
    ensures
        pivot == range::mean_of(buf@),
        0 <= pivot <= ADC_MASK,
{
    proof {
        range::lemma_sum_is_bounded(buf@);
    }
    let (mean, _, _) = range::probe_stats(buf.as_slice());
    mean
}

/// A sample's distance from the pivot.
pub fn centred(sample: u32, pivot: i32) -> (d: i32)
    requires
        0 <= pivot <= ADC_MASK,
    ensures
        d == sample as int % 4096 - pivot,
{
    (sample % 4096) as i32 - pivot
}

/// How many recent readings the spread is taken over.
pub const SPREAD_N: usize = 16;

/// The spread of recent readings: bit patterns of `f32` numbers in a ring, of
/// which the first `len` slots are filled.
#[derive(Debug)]
pub struct Spread {
    hist: [u32; SPREAD_N],
    idx: usize,
    len: usize,
}

/// The lowest of a run of readings, as they compare one after the other with
/// the lowest so far.
pub open spec fn low_of(ring: Seq<u32>) -> u32
    decreases ring.len(),
{
    if ring.len() <= 1 {
        ring[0]
    } else if real32::less(ring.last(), low_of(ring.drop_last())) {
        ring.last()
    } else {
        low_of(ring.drop_last())
    }
}

/// The highest of a run of readings, as they compare one after the other with
/// the highest so far.
pub open spec fn high_of(ring: Seq<u32>) -> u32
    decreases ring.len(),
{
    if ring.len() <= 1 {
        ring[0]
    } else if real32::less(high_of(ring.drop_last()), ring.last()) {
        ring.last()
    } else {
        high_of(ring.drop_last())
    }
}

/// A ring after one more reading, and the slot the next one goes to.
pub open spec fn ring_after(ring: Seq<u32>, slot: int, x: u32) -> (Seq<u32>, int) {
    (
        if ring.len() < SPREAD_N {
            ring.push(x)
        } else {
            ring.update(slot, x)
        },
        (slot + 1) % SPREAD_N as int,
    )
}

/// The ring after a run of readings, from an empty one.
pub open spec fn ring_of(readings: Seq<u32>) -> (Seq<u32>, int)
    decreases readings.len(),
{
    if readings.len() == 0 {
        (Seq::empty(), 0)
    } else {
        let (ring, slot) = ring_of(readings.drop_last());
        ring_after(ring, slot, readings.last())
    }
}

impl Spread {
    pub closed spec fn wf(&self) -> bool {
        &&& self.len <= SPREAD_N
        &&& self.idx < SPREAD_N
        &&& self.len < SPREAD_N ==> self.idx == self.len
    }

    /// The filled slots, in the order they are kept in.
    pub closed spec fn ring(&self) -> Seq<u32> {
        self.hist@.take(self.len as int)
    }

    /// The slot the next reading goes to.
    pub closed spec fn next_slot(&self) -> int {
        self.idx as int
    }

    pub fn new() -> (spread: Spread)
        ensures
            spread.wf(),
            spread.ring().len() == 0,
            spread.next_slot() == 0,
    {
        Spread { hist: [0u32; 16], idx: 0, len: 0 }
    }

    /// Records one reading and gives the lowest and the highest of the recent
    /// ones; the spread is their difference. Once the ring is full, a reading
    /// takes the place of the oldest.
    pub fn push(&mut self, x: u32) -> (ends: (u32, u32))
        requires
            old(self).wf(),
        ensures
            final(self).wf(),
            (final(self).ring(), final(self).next_slot()) == ring_after(old(self).ring(), old(self).next_slot(), x),
            final(self).ring() == if old(self).ring().len() < SPREAD_N {
                old(self).ring().push(x)
            } else {
                old(self).ring().update(old(self).next_slot(), x)
            },
            final(self).next_slot() == (old(self).next_slot() + 1) % SPREAD_N as int,
            ends.0 == low_of(final(self).ring()),
            ends.1 == high_of(final(self).ring()),
    {
        let ghost before = self.ring();
        self.hist[self.idx] = x;
        self.idx = (self.idx + 1) % SPREAD_N;
        if self.len < SPREAD_N {
            self.len = self.len + 1;
        }
        assert(self.ring() =~= if before.len() < SPREAD_N {
            before.push(x)
        } else {
            before.update(old(self).next_slot(), x)
        });
        let mut lo: u32 = self.hist[0];
        let mut hi: u32 = self.hist[0];
        let mut i: usize = 1;
        let ghost ring = self.ring();
        assert(ring.take(1) =~= seq![self.hist@[0]]);
        while i < self.len
            invariant
                1 <= i <= self.len <= SPREAD_N,
                ring == self.hist@.take(self.len as int),
                lo == low_of(ring.take(i as int)),
                hi == high_of(ring.take(i as int)),
            decreases self.len - i,
        {
            let v: u32 = self.hist[i];
            assert(ring.take(i + 1).drop_last() =~= ring.take(i as int));
            assert(ring.take(i + 1).last() == v);
            if real32::is_less(v, lo) {
                lo = v;
            }
            if real32::is_less(hi, v) {
                hi = v;
            }
            i += 1;
        }
        assert(ring.take(i as int) =~= ring);
        (lo, hi)
    }
}

/// As long as every recent reading is a number, the ends are two of them, and
/// no reading lies outside.
pub proof fn law_ends_bound_the_readings(ring: Seq<u32>, i: int)
    requires
        0 <= i < ring.len(),
        forall|k: int| 0 <= k < ring.len() ==> !real32::nan(#[trigger] ring[k]),
    ensures
        ring.contains(low_of(ring)),
        ring.contains(high_of(ring)),
        real32::value(low_of(ring)) <= real32::value(ring[i]) <= real32::value(high_of(ring)),
    decreases ring.len(),
{
    if ring.len() > 1 {
        let shorter = ring.drop_last();
        assert forall|k: int| 0 <= k < shorter.len() implies !real32::nan(#[trigger] shorter[k]) by {
            assert(shorter[k] == ring[k]);
        }
        let at = if i < shorter.len() {
            i
        } else {
            0
        };
        law_ends_bound_the_readings(shorter, at);
        assert(shorter[at] == ring[at]);
        let lo = choose|k: int| 0 <= k < shorter.len() && shorter[k] == low_of(shorter);
        let hi = choose|k: int| 0 <= k < shorter.len() && shorter[k] == high_of(shorter);
        assert(ring[lo] == low_of(shorter) && ring[hi] == high_of(shorter));
        assert(!real32::nan(ring[ring.len() - 1]));
        assert(ring.contains(ring[lo]) && ring.contains(ring[hi]) && ring.contains(ring.last()));
    } else {
        assert(ring[0] == low_of(ring));
    }
}

/// The spread is over the last sixteen readings, or over all of them while
/// there are fewer: each of those is in the ring, and nothing else is.
pub proof fn law_ring_holds_the_latest_readings(readings: Seq<u32>)
    ensures
        ring_of(readings).0.len() == if readings.len() < 16 {
            readings.len() as int
        } else {
            16
        },
        ring_of(readings).1 == readings.len() as int % 16,
        forall|i: int|
            0 <= i < readings.len() && readings.len() - 16 <= i ==> ring_of(readings).0[i % 16] == #[trigger] readings[i],
    decreases readings.len(),
{
    if readings.len() > 0 {
        let shorter = readings.drop_last();
        let n = shorter.len() as int;
        law_ring_holds_the_latest_readings(shorter);
        let (ring, slot) = ring_of(shorter);
        let now = ring_of(readings).0;
        lemma_next_slot(n);
        assert(slot == n % 16);
        assert(now == if n < 16 {
            ring.push(readings[n])
        } else {
            ring.update(n % 16, readings[n])
        });
        assert forall|i: int| 0 <= i < readings.len() && readings.len() - 16 <= i implies now[i % 16]
            == #[trigger] readings[i] by {
            if i < n {
                assert(readings[i] == shorter[i]);
                assert(ring[i % 16] == shorter[i]);
                lemma_other_slot(i, n);
            }
        }
    }
}

proof fn lemma_next_slot(n: int)
    requires
        n >= 0,
    ensures
        (n % 16 + 1) % 16 == (n + 1) % 16,
        0 <= n % 16 < 16,
        n < 16 ==> n % 16 == n,
{
}

proof fn lemma_other_slot(i: int, n: int)
    requires
        0 <= i < n,
        n - 16 < i,
    ensures
        i % 16 != n % 16,
        0 <= i % 16 < 16,
        n < 16 ==> i % 16 == i,
{
}

} // verus!
