//! The sampling chain's numbers: timer, ADC and DMA wiring, frame lengths, and
//! how long a capture is waited for. What the samples mean is for `range` and
//! `dsp`.

use vstd::prelude::*;

verus! {

/// Event channel the sample timer publishes on and ADC1 subscribes to.
pub const EVT_CH_ADC1: u8 = 1;

/// ADC1's hardwired DMA request line.
pub const DMA_TRIG_ADC1: u8 = 24;

pub const TIMER_CLK_HZ: u32 = 32_000_000;

pub const SAMPLE_HZ: u32 = 4_000;

/// Timer reload value: one event per sample.
pub const LOAD: u32 = TIMER_CLK_HZ / SAMPLE_HZ - 1;

/// Pin function registers of the signal input and the amplifier's output.
pub const PINCM_PA18: usize = 40;

pub const PINCM_PA16: usize = 38;

/// ADC1 channels of those two pins. The input being a channel in its own
/// right is what makes the unity-gain probe free.
pub const ADC_CH_OPA_OUT: u8 = 1;

pub const ADC_CH_RAW_IN: u8 = 3;

/// ADC1 converts against the internal 2.5 V reference, as the DAC does.
pub const ADC_VRSEL: u8 = 2;

/// Measurement frame: 200 ms, ten nominal mains cycles.
pub const N: usize = 800;

/// Unity-gain probe frame: 40 ms, two nominal mains cycles.
pub const PROBE_N: usize = 160;

/// ADC result width.
pub const ADC_MASK: u32 = 0x0FFF;

/// CPU cycles between two looks at the DMA counter: a millisecond.
pub const POLL_CYCLES: u32 = 32_000;

/// How many milliseconds a capture of `len` samples is given.
pub open spec fn budget_ms(len: int) -> int {
    len * 5 / (SAMPLE_HZ as int / 1000)
}

/// How many milliseconds a capture of `len` samples is given: five times the
/// frame's own duration.
pub fn capture_budget_ms(len: u32) -> (ms: u32)
    requires
        len * 5 <= u32::MAX,
    ensures
        ms == budget_ms(len as int),
        ms == len as int * 5 / (SAMPLE_HZ as int / 1000),
{
    len * 5 / (SAMPLE_HZ / 1000)
}

/// A wait on hardware that never blocks forever: so many looks, then give up.
#[derive(Clone, Copy, Debug, PartialEq, Eq, Structural)]
pub enum Wait {
    /// This many looks are left; take the next one.
    Polling(u32),
    /// The condition was seen.
    Ready,
    /// Every look was spent without seeing it.
    GaveUp,
}

impl Wait {
    pub open spec fn spec_start(budget: u32) -> Wait {
        if budget == 0 {
            Wait::GaveUp
        } else {
            Wait::Polling(budget)
        }
    }

    pub open spec fn spec_look(self, ready: bool) -> Wait {
        match self {
            Wait::Polling(left) => if ready {
                Wait::Ready
            } else if left <= 1 {
                Wait::GaveUp
            } else {
                Wait::Polling((left - 1) as u32)
            },
            done => done,
        }
    }

    /// Where a wait stands after a run of looks.
    pub open spec fn after(budget: u32, looks: Seq<bool>) -> Wait
        decreases looks.len(),
    {
        if looks.len() == 0 {
            Wait::spec_start(budget)
        } else {
            Wait::after(budget, looks.drop_last()).spec_look(looks.last())
        }
    }

    /// A wait of `budget` looks.
    pub fn start(budget: u32) -> (wait: Wait)
        ensures
            wait == Wait::spec_start(budget),
    {
        if budget == 0 {
            Wait::GaveUp
        } else {
            Wait::Polling(budget)
        }
    }

    /// Take one look. A wait that is over stays as it ended.
    pub fn look(self, ready: bool) -> (wait: Wait)
        ensures
            wait == self.spec_look(ready),
    {
        match self {
            Wait::Polling(left) => if ready {
                Wait::Ready
            } else if left <= 1 {
                Wait::GaveUp
            } else {
                Wait::Polling(left - 1)
            },
            Wait::Ready => Wait::Ready,
            Wait::GaveUp => Wait::GaveUp,
        }
    }
}

/// A wait succeeds exactly when the condition shows within its budget, and is
/// over once the budget is spent.
pub proof fn law_wait_is_bounded(budget: u32, looks: Seq<bool>)
    ensures
        Wait::after(budget, looks) == Wait::Ready <==> exists|i: int|
            0 <= i < looks.len() && i < budget && looks[i],
        looks.len() >= budget ==> !(Wait::after(budget, looks) is Polling),
    decreases looks.len(),
{
    lemma_wait_state(budget, looks);
}

proof fn lemma_wait_state(budget: u32, looks: Seq<bool>)
    ensures
        match Wait::after(budget, looks) {
            Wait::Polling(left) => {
                &&& left == budget - looks.len()
                &&& left > 0
                &&& forall|i: int| 0 <= i < looks.len() ==> !looks[i]
            },
            Wait::Ready => exists|i: int| 0 <= i < looks.len() && i < budget && looks[i],
            Wait::GaveUp => {
                &&& looks.len() >= budget
                &&& forall|i: int| 0 <= i < budget ==> !looks[i]
            },
        },
    decreases looks.len(),
{
    if looks.len() > 0 {
        let before = looks.drop_last();
        lemma_wait_state(budget, before);
        assert(forall|i: int| 0 <= i < before.len() ==> before[i] == looks[i]);
        if Wait::after(budget, before) is Ready {
            let i = choose|i: int| 0 <= i < before.len() && i < budget && before[i];
            assert(looks[i]);
        }
        assert(looks.last() == looks[looks.len() - 1]);
    }
}

/// A capture is given five times as long as it takes at four samples to the
/// millisecond, to the millisecond.
pub proof fn law_captures_are_given_five_times_their_length(len: int)
    requires
        len >= 0,
    ensures
        4 * budget_ms(len) <= 5 * len < 4 * (budget_ms(len) + 1),
{
    assert(SAMPLE_HZ as int / 1000 == 4);
    assert(budget_ms(len) == len * 5 / 4);
}

} // verus!
