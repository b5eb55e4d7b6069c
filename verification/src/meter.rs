//! One reading, start to finish: switch the external circuit in, bring the
//! analog blocks up, probe, range, take the frame, and put everything back to
//! sleep.
//!
//! The order of a cycle is not arbitrary: the calibration tables are only
//! valid for readings taken exactly this way. [`Cycle`] is that order; the
//! registers behind its steps are the caller's.

use crate::range::{
    self, apply_range, dac_code_for, next_range, over_range, probe_stats, Gain, Range, RangePlan,
    OUT_CENTER,
};
use crate::sampler::{ADC_CH_RAW_IN, ADC_MASK, PROBE_N};
use vstd::prelude::*;

verus! {

/// Settling allowed after the external circuit is switched in.
pub const AFE_SETTLE_MS: u64 = 20;

/// Settling allowed after the amplifier's gain and bias have moved.
pub const RANGE_SETTLE_MS: u64 = 1;

/// How much a reading is worth, the worst fault first.
#[derive(Clone, Copy, Debug, PartialEq, Eq, Structural)]
pub enum Quality {
    /// The reference never reported ready, so every code in the frame is
    /// scaled by an unknown amount.
    RefBad,
    /// The probe found the input pinned at an end of the converter's scale.
    InputBad,
    /// The signal does not fit even on the range that was chosen: the frame
    /// is clipping.
    OverRange,
    /// A capture never drained, so its buffer is part new and part stale.
    Incomplete,
    Good,
}

/// One measurement. `rms` and `amps` are bit patterns of `f32` numbers.
#[derive(Clone, Copy, Debug)]
pub struct Reading {
    pub amps: u32,
    pub rms: u32,
    pub range: Range,
    /// The probe's mean and peak-to-peak; `None` when its capture never
    /// drained.
    pub probe: Option<(i32, u32)>,
    pub ref_bad: bool,
    pub input_bad: bool,
    pub range_over: bool,
    pub incomplete: bool,
}

impl Reading {
    /// The worst of what is wrong with a reading.
    pub open spec fn worth(self) -> Quality {
        if self.ref_bad {
            Quality::RefBad
        } else if self.input_bad {
            Quality::InputBad
        } else if self.range_over {
            Quality::OverRange
        } else if self.incomplete {
            Quality::Incomplete
        } else {
            Quality::Good
        }
    }

    pub fn quality(&self) -> (quality: Quality)
        ensures
            quality == self.worth(),
    {
        if self.ref_bad {
            Quality::RefBad
        } else if self.input_bad {
            Quality::InputBad
        } else if self.range_over {
            Quality::OverRange
        } else if self.incomplete {
            Quality::Incomplete
        } else {
            Quality::Good
        }
    }
}

/// A level on one of the external circuit's two control lines.
#[derive(Clone, Copy, Debug, PartialEq, Eq, Structural)]
pub enum Line {
    /// The line that is high while measuring.
    Enable(bool),
    /// Its complement.
    EnableN(bool),
}

/// The two writes that switch the external circuit, in order. The lines are a
/// complementary pair, and leaving is the mirror of entering.
pub fn set_measuring(measuring: bool) -> (writes: (Line, Line))
    ensures
        writes == if measuring {
            (Line::Enable(true), Line::EnableN(false))
        } else {
            (Line::EnableN(true), Line::Enable(false))
        },
{
    if measuring {
        (Line::Enable(true), Line::EnableN(false))
    } else {
        (Line::EnableN(true), Line::Enable(false))
    }
}

/// What survives from one cycle to the next.
#[derive(Clone, Copy, Debug)]
pub struct Meter {
    /// Where the next range decision starts from.
    pub range: Range,
    /// The input DC the bias pivot is placed against.
    pub mean_in_last: i32,
}

impl Meter {
    pub open spec fn wf(self) -> bool {
        0 <= self.mean_in_last <= ADC_MASK
    }

    /// The choice that assumes least: the lowest gain step, placed mid-scale.
    pub fn new() -> (meter: Meter)
        ensures
            meter.wf(),
            meter.range == Range::Pga(Gain::X2),
            meter.mean_in_last == OUT_CENTER,
    {
        Meter { range: Range::Pga(Gain::X2), mean_in_last: OUT_CENTER }
    }

    /// The gain field and the bias code a cycle brings the amplifier up at.
    pub open spec fn brings_up(self) -> (u8, u16) {
        range::setting(starting_gain(self.range), self.mean_in_last as int)
    }

    fn setting(&self) -> (setting: (u8, u16))
        requires
            self.wf(),
        ensures
            setting == self.brings_up(),
    {
        let gain: Gain = match self.range {
            Range::Pga(g) => g,
            Range::Direct => Gain::X2,
        };
        proof {
            range::law_every_probe_can_be_planned(self.mean_in_last as int, 0, 0);
            assert(range::fit_computable(Range::Pga(gain), self.mean_in_last as int, 0, 0));
        }
        (gain.code(), dac_code_for(gain, self.mean_in_last))
    }

    /// One complete cycle, from where the last one left off.
    pub fn measure(&self) -> (cycle: Cycle)
        requires
            self.wf(),
        ensures
            cycle == (Cycle {
                stage: Stage::Enter,
                meter: *self,
                regain: None,
                probe: None,
                ref_bad: false,
                input_bad: false,
                range_over: false,
                framed: false,
            }),
            cycle.wf(),
    {
        Cycle {
            stage: Stage::Enter,
            meter: *self,
            regain: None,
            probe: None,
            ref_bad: false,
            input_bad: false,
            range_over: false,
            framed: false,
        }
    }
}

/// The gain step the amplifier is brought up at.
pub open spec fn starting_gain(range: Range) -> Gain {
    match range {
        Range::Pga(g) => g,
        Range::Direct => Gain::X2,
    }
}

/// Where a cycle stands.
#[derive(Clone, Copy, Debug, PartialEq, Eq, Structural)]
pub enum Stage {
    Enter,
    Reference,
    Amplifier,
    Converter,
    Clock,
    Settle,
    ProbeChannel,
    Probe,
    FrameChannel,
    Regain,
    Resettle,
    Frame,
    StopConverter,
    StopAmplifier,
    Leave,
    Over,
}

/// What a cycle asks of the hardware.
#[derive(Clone, Copy, Debug, PartialEq, Eq, Structural)]
pub enum Step {
    /// Switch the external circuit in or out.
    Measuring(bool),
    /// Bring the reference up and say whether it reported ready.
    Reference,
    /// Bring the amplifier up at this gain field and bias code.
    Amplifier(u8, u16),
    /// Bring the converter up.
    Converter,
    /// Bring the sample clock up.
    Clock,
    /// Wait this many milliseconds.
    Wait(u64),
    /// Point the converter at this channel.
    Channel(u8),
    /// Capture the probe frame and say what came of it.
    Probe,
    /// Move the running amplifier to this gain field and bias code.
    Regain(u8, u16),
    /// Capture the measurement frame and say whether it drained.
    Frame,
    /// Stop the converter and the sample clock.
    StopConverter,
    /// Stop the amplifier, then its bias, then the reference.
    StopAmplifier,
    /// Nothing: the cycle is over.
    Nothing,
}

/// One complete cycle.
#[derive(Clone, Copy, Debug)]
pub struct Cycle {
    pub stage: Stage,
    pub meter: Meter,
    /// What the probe moved the amplifier to, if it did.
    pub regain: Option<(u8, u16)>,
    pub probe: Option<(i32, u32)>,
    pub ref_bad: bool,
    pub input_bad: bool,
    pub range_over: bool,
    pub framed: bool,
}

/// The stage after one that has no outcome.
pub open spec fn after(stage: Stage, regain: bool) -> Stage {
    match stage {
        Stage::Enter => Stage::Reference,
        Stage::Reference => Stage::Amplifier,
        Stage::Amplifier => Stage::Converter,
        Stage::Converter => Stage::Clock,
        Stage::Clock => Stage::Settle,
        Stage::Settle => Stage::ProbeChannel,
        Stage::ProbeChannel => Stage::Probe,
        Stage::Probe => Stage::FrameChannel,
        Stage::FrameChannel => if regain {
            Stage::Regain
        } else {
            Stage::Frame
        },
        Stage::Regain => Stage::Resettle,
        Stage::Resettle => Stage::Frame,
        Stage::Frame => Stage::StopConverter,
        Stage::StopConverter => Stage::StopAmplifier,
        Stage::StopAmplifier => Stage::Leave,
        Stage::Leave => Stage::Over,
        Stage::Over => Stage::Over,
    }
}

/// What the probe's samples make of the next measurement.
pub open spec fn probed_range(meter: Meter, frame: Seq<u32>) -> Range {
    range::next(meter.range, range::mean_of(frame), range::pp_of(frame) as u32)
}

/// A cycle once its probe is in, or has failed.
pub open spec fn after_probe(cycle: Cycle, frame: Option<Seq<u32>>) -> Cycle {
    match frame {
        None => Cycle { stage: Stage::FrameChannel, probe: None, input_bad: false, range_over: false, ..cycle },
        Some(samples) => {
            let mean = range::mean_of(samples);
            let pp = range::pp_of(samples);
            let seen = Cycle { stage: Stage::FrameChannel, probe: Some((mean as i32, pp as u32)), ..cycle };
            let next = probed_range(cycle.meter, samples);
            if range::touches_an_end(samples) {
                Cycle { input_bad: true, range_over: false, ..seen }
            } else {
                Cycle {
                    meter: Meter { range: next, mean_in_last: mean as i32 },
                    regain: range::moved(next, mean, cycle.meter.brings_up()),
                    input_bad: false,
                    range_over: !range::within(next, mean, pp as u32, 100),
                    ..seen
                }
            }
        },
    }
}

/// The reading a cycle comes to.
pub open spec fn reading_of(cycle: Cycle, rms: u32, amps: u32) -> Reading {
    Reading {
        amps,
        rms,
        range: cycle.meter.range,
        probe: cycle.probe,
        ref_bad: cycle.ref_bad,
        input_bad: cycle.input_bad,
        range_over: cycle.range_over,
        incomplete: cycle.probe is None || !cycle.framed,
    }
}

impl Cycle {
    pub open spec fn wf(self) -> bool {
        self.meter.wf()
    }

    /// The step this stage asks for.
    pub open spec fn asks(self) -> Step {
        match self.stage {
            Stage::Enter => Step::Measuring(true),
            Stage::Reference => Step::Reference,
            Stage::Amplifier => Step::Amplifier(self.meter.brings_up().0, self.meter.brings_up().1),
            Stage::Converter => Step::Converter,
            Stage::Clock => Step::Clock,
            Stage::Settle => Step::Wait(AFE_SETTLE_MS),
            Stage::ProbeChannel => Step::Channel(ADC_CH_RAW_IN),
            Stage::Probe => Step::Probe,
            Stage::FrameChannel => Step::Channel(
                if self.meter.range == Range::Direct {
                    ADC_CH_RAW_IN
                } else {
                    crate::sampler::ADC_CH_OPA_OUT
                },
            ),
            Stage::Regain => match self.regain {
                Some((gain, bias)) => Step::Regain(gain, bias),
                None => Step::Wait(0),
            },
            Stage::Resettle => Step::Wait(RANGE_SETTLE_MS),
            Stage::Frame => Step::Frame,
            Stage::StopConverter => Step::StopConverter,
            Stage::StopAmplifier => Step::StopAmplifier,
            Stage::Leave => Step::Measuring(false),
            Stage::Over => Step::Nothing,
        }
    }

    /// What to do now.
    pub fn step(&self) -> (step: Step)
        requires
            self.wf(),
        ensures
            step == self.asks(),
    {
        match self.stage {
            Stage::Enter => Step::Measuring(true),
            Stage::Reference => Step::Reference,
            Stage::Amplifier => {
                let (gain, bias) = self.meter.setting();
                Step::Amplifier(gain, bias)
            },
            Stage::Converter => Step::Converter,
            Stage::Clock => Step::Clock,
            Stage::Settle => Step::Wait(AFE_SETTLE_MS),
            Stage::ProbeChannel => Step::Channel(ADC_CH_RAW_IN),
            Stage::Probe => Step::Probe,
            Stage::FrameChannel => Step::Channel(self.meter.range.channel()),
            Stage::Regain => match self.regain {
                Some((gain, bias)) => Step::Regain(gain, bias),
                None => Step::Wait(0),
            },
            Stage::Resettle => Step::Wait(RANGE_SETTLE_MS),
            Stage::Frame => Step::Frame,
            Stage::StopConverter => Step::StopConverter,
            Stage::StopAmplifier => Step::StopAmplifier,
            Stage::Leave => Step::Measuring(false),
            Stage::Over => Step::Nothing,
        }
    }

    fn following(&self) -> (stage: Stage)
        ensures
            stage == after(self.stage, self.regain is Some),
    {
        match self.stage {
            Stage::Enter => Stage::Reference,
            Stage::Reference => Stage::Amplifier,
            Stage::Amplifier => Stage::Converter,
            Stage::Converter => Stage::Clock,
            Stage::Clock => Stage::Settle,
            Stage::Settle => Stage::ProbeChannel,
            Stage::ProbeChannel => Stage::Probe,
            Stage::Probe => Stage::FrameChannel,
            Stage::FrameChannel => if self.regain.is_some() {
                Stage::Regain
            } else {
                Stage::Frame
            },
            Stage::Regain => Stage::Resettle,
            Stage::Resettle => Stage::Frame,
            Stage::Frame => Stage::StopConverter,
            Stage::StopConverter => Stage::StopAmplifier,
            Stage::StopAmplifier => Stage::Leave,
            Stage::Leave => Stage::Over,
            Stage::Over => Stage::Over,
        }
    }

    /// The step was carried out, and has no outcome to report.
    pub fn done(self) -> (cycle: Cycle)
        requires
            self.wf(),
            self.stage != Stage::Reference,
            self.stage != Stage::Probe,
            self.stage != Stage::Frame,
        ensures
            cycle == (Cycle { stage: after(self.stage, self.regain is Some), ..self }),
            cycle.wf(),
    {
        let stage: Stage = self.following();
        Cycle { stage, ..self }
    }

    /// The reference was brought up, and reported ready or did not.
    pub fn reference(self, ready: bool) -> (cycle: Cycle)
        requires
            self.wf(),
            self.stage == Stage::Reference,
        ensures
            cycle == (Cycle { stage: Stage::Amplifier, ref_bad: !ready, ..self }),
            cycle.wf(),
    {
        Cycle { stage: Stage::Amplifier, ref_bad: !ready, ..self }
    }

    /// The probe frame, if its capture drained. A probe that failed, or that
    /// shows the input pinned, leaves the range exactly as it was.
    pub fn probed(self, frame: Option<&[u32; PROBE_N]>) -> (cycle: Cycle)
        requires
            self.wf(),
            self.stage == Stage::Probe,
            self.regain is None,
        ensures
            cycle.wf(),
            cycle == after_probe(
                self,
                match frame {
                    Some(samples) => Some(samples@),
                    None => None,
                },
            ),
            cycle.stage == Stage::FrameChannel,
            cycle.ref_bad == self.ref_bad,
            cycle.framed == self.framed,
            match frame {
                None => {
                    &&& cycle == (Cycle {
                        stage: Stage::FrameChannel,
                        probe: None,
                        input_bad: false,
                        range_over: false,
                        ..self
                    })
                },
                Some(samples) => {
                    let mean = range::mean_of(samples@);
                    let pp = range::pp_of(samples@);
                    &&& cycle.probe == Some((mean as i32, pp as u32))
                    &&& 0 <= mean <= ADC_MASK
                    &&& 0 <= pp <= ADC_MASK
                    &&& cycle.input_bad == range::touches_an_end(samples@)
                    &&& if cycle.input_bad {
                        cycle.meter == self.meter && !cycle.range_over && cycle.regain is None
                    } else {
                        &&& cycle.meter.range == probed_range(self.meter, samples@)
                        &&& cycle.meter.mean_in_last == mean
                        &&& cycle.range_over == !range::within(cycle.meter.range, mean, pp as u32, 100)
                        &&& cycle.regain == range::moved(cycle.meter.range, mean, self.meter.brings_up())
                    }
                },
            },
    {
        match frame {
            None => Cycle {
                stage: Stage::FrameChannel,
                probe: None,
                input_bad: false,
                range_over: false,
                ..self
            },
            Some(samples) => {
                proof {
                    range::lemma_sum_is_bounded(samples@);
                }
                let (mean, pp, railed) = probe_stats(samples.as_slice());
                if railed {
                    return Cycle {
                        stage: Stage::FrameChannel,
                        probe: Some((mean, pp)),
                        input_bad: true,
                        range_over: false,
                        ..self
                    };
                }
                proof {
                    range::law_every_probe_can_be_planned(mean as int, pp, range::RERANGE_HI_PCT as int);
                    range::law_every_probe_can_be_planned(mean as int, pp, range::RERANGE_LO_PCT as int);
                    range::law_every_probe_can_be_planned(mean as int, pp, range::FILL_TARGET_PCT as int);
                    range::law_every_probe_can_be_planned(mean as int, pp, 100);
                }
                let next: Range = next_range(self.meter.range, mean, pp);
                let over: bool = over_range(next, mean, pp);
                assert(range::fit_computable(next, mean as int, pp, 100));
                let plan: RangePlan = apply_range(next, mean, self.meter.setting());
                Cycle {
                    stage: Stage::FrameChannel,
                    meter: Meter { range: next, mean_in_last: mean },
                    regain: plan.amplifier,
                    probe: Some((mean, pp)),
                    input_bad: false,
                    range_over: over,
                    ..self
                }
            },
        }
    }

    /// The measurement frame was captured, or never drained.
    pub fn framed(self, drained: bool) -> (cycle: Cycle)
        requires
            self.wf(),
            self.stage == Stage::Frame,
        ensures
            cycle == (Cycle { stage: Stage::StopConverter, framed: drained, ..self }),
            cycle.wf(),
    {
        Cycle { stage: Stage::StopConverter, framed: drained, ..self }
    }

    /// The reading of a cycle that is over, once its frame has been turned
    /// into numbers.
    pub fn reading(&self, rms: u32, amps: u32) -> (reading: Reading)
        requires
            self.stage == Stage::Over,
        ensures
            reading == reading_of(*self, rms, amps),
            reading == (Reading {
                amps,
                rms,
                range: self.meter.range,
                probe: self.probe,
                ref_bad: self.ref_bad,
                input_bad: self.input_bad,
                range_over: self.range_over,
                incomplete: self.probe is None || !self.framed,
            }),
    {
        Reading {
            amps,
            rms,
            range: self.meter.range,
            probe: self.probe,
            ref_bad: self.ref_bad,
            input_bad: self.input_bad,
            range_over: self.range_over,
            incomplete: self.probe.is_none() || !self.framed,
        }
    }
}

/// How many stages there are at most before the blocks are being stopped.
pub open spec fn distance(stage: Stage) -> nat {
    match stage {
        Stage::Enter => 12,
        Stage::Reference => 11,
        Stage::Amplifier => 10,
        Stage::Converter => 9,
        Stage::Clock => 8,
        Stage::Settle => 7,
        Stage::ProbeChannel => 6,
        Stage::Probe => 5,
        Stage::FrameChannel => 4,
        Stage::Regain => 3,
        Stage::Resettle => 2,
        Stage::Frame => 1,
        _ => 0,
    }
}

/// The stages still to come, from this one on, up to the end.
pub open spec fn remaining(stage: Stage, regain: bool) -> Seq<Stage>
    decreases distance(stage),
{
    if distance(stage) == 0 {
        seq![Stage::StopConverter, Stage::StopAmplifier, Stage::Leave].skip(
            if stage == Stage::StopConverter {
                0
            } else if stage == Stage::StopAmplifier {
                1
            } else if stage == Stage::Leave {
                2
            } else {
                3
            },
        )
    } else {
        seq![stage] + remaining(after(stage, regain), regain)
    }
}

/// Every cycle ends with the converter stopped, then the amplifier and its
/// references, then the external circuit switched out, whatever the probe and
/// the frame came to: from every stage before that, these are the last three,
/// and what follows a stage is what is listed next.
pub proof fn law_every_cycle_powers_down(stage: Stage, regain: bool)
    requires
        distance(stage) > 0,
    ensures
        ({
            let all = remaining(stage, regain);
            &&& all.len() > 3
            &&& all[0] == stage
            &&& all[1] == after(stage, regain)
            &&& all[all.len() - 3] == Stage::StopConverter
            &&& all[all.len() - 2] == Stage::StopAmplifier
            &&& all[all.len() - 1] == Stage::Leave
        }),
        after(Stage::StopConverter, regain) == Stage::StopAmplifier,
        after(Stage::StopAmplifier, regain) == Stage::Leave,
        after(Stage::Leave, regain) == Stage::Over,
    decreases distance(stage),
{
    let next = after(stage, regain);
    let rest = remaining(next, regain);
    let all = remaining(stage, regain);
    assert(all == seq![stage] + rest);
    if distance(next) > 0 {
        law_every_cycle_powers_down(next, regain);
    } else {
        lemma_stopping_stages(regain);
    }
    assert(all[all.len() - 3] == rest[rest.len() - 3]);
    assert(all[all.len() - 2] == rest[rest.len() - 2]);
    assert(all[all.len() - 1] == rest[rest.len() - 1]);
}

proof fn lemma_stopping_stages(regain: bool)
    ensures
        remaining(Stage::StopConverter, regain) == seq![
            Stage::StopConverter,
            Stage::StopAmplifier,
            Stage::Leave,
        ],
{
    let stops = seq![Stage::StopConverter, Stage::StopAmplifier, Stage::Leave];
    assert(stops.skip(0) =~= stops);
}

/// The range converges in one cycle: probing the same signal again changes
/// neither the range nor the pivot.
pub proof fn law_range_converges_in_one_cycle(meter: Meter, frame: Seq<u32>)
    ensures
        ({
            let settled = Meter { range: probed_range(meter, frame), mean_in_last: range::mean_of(frame) as i32 };
            probed_range(settled, frame) == settled.range
        }),
{
    range::law_steady_load_holds_its_range(meter.range, range::mean_of(frame), range::pp_of(frame) as u32);
}

/// A steady load needs no time to settle: the next cycle brings the amplifier
/// up where the same probe would move it.
pub proof fn law_steady_load_needs_no_settling(meter: Meter, frame: Seq<u32>)
    requires
        frame.len() == PROBE_N,
    ensures
        ({
            let settled = Meter { range: probed_range(meter, frame), mean_in_last: range::mean_of(frame) as i32 };
            range::moved(probed_range(settled, frame), range::mean_of(frame), settled.brings_up()) is None
        }),
{
    law_range_converges_in_one_cycle(meter, frame);
    range::lemma_sum_is_bounded(frame);
}

// ---- What a cycle is for ------------------------------------------------

/// A cycle goes through its stages in one order: the reference, the amplifier,
/// the converter and the clock are up and have settled before the probe is
/// taken, the amplifier is moved and settles again only where the probe says
/// so, and the frame comes last before everything is stopped.
pub proof fn law_cycle_goes_in_order(regain: bool)
    ensures
        remaining(Stage::Enter, regain) == seq![
            Stage::Enter,
            Stage::Reference,
            Stage::Amplifier,
            Stage::Converter,
            Stage::Clock,
            Stage::Settle,
            Stage::ProbeChannel,
            Stage::Probe,
            Stage::FrameChannel,
        ] + (if regain {
            seq![Stage::Regain, Stage::Resettle]
        } else {
            Seq::empty()
        }) + seq![Stage::Frame, Stage::StopConverter, Stage::StopAmplifier, Stage::Leave],
{
    reveal_with_fuel(remaining, 14);
    lemma_stopping_stages(regain);
    assert(remaining(Stage::Enter, regain) =~= seq![
        Stage::Enter,
        Stage::Reference,
        Stage::Amplifier,
        Stage::Converter,
        Stage::Clock,
        Stage::Settle,
        Stage::ProbeChannel,
        Stage::Probe,
        Stage::FrameChannel,
    ] + (if regain {
        seq![Stage::Regain, Stage::Resettle]
    } else {
        Seq::empty()
    }) + seq![Stage::Frame, Stage::StopConverter, Stage::StopAmplifier, Stage::Leave]);
}

/// The probe is always of the plain wire; the frame is of the plain wire
/// exactly if that is the range of the reading, and of the amplifier otherwise.
pub proof fn law_frame_is_taken_on_the_range_of_the_reading(cycle: Cycle)
    ensures
        cycle.stage == Stage::ProbeChannel ==> cycle.asks() == Step::Channel(3),
        cycle.stage == Stage::FrameChannel && cycle.meter.range == Range::Direct ==> cycle.asks() == Step::Channel(3),
        cycle.stage == Stage::FrameChannel && cycle.meter.range != Range::Direct ==> cycle.asks() == Step::Channel(1),
{
}

/// The amplifier is brought up at the step of the last reading, or at the
/// lowest where that was on the plain wire, around the last mean; it is moved
/// to what the probe called for, and given its time each time.
pub proof fn law_amplifier_starts_where_it_was(cycle: Cycle, gain: Gain)
    requires
        cycle.wf(),
        cycle.meter.range == Range::Pga(gain) || (cycle.meter.range == Range::Direct && gain == Gain::X2),
    ensures
        cycle.stage == Stage::Amplifier ==> cycle.asks() == Step::Amplifier(
            gain.spec_code() as u8,
            range::pivot(gain, cycle.meter.mean_in_last as int) as u16,
        ),
        cycle.stage == Stage::Regain ==> (cycle.regain matches Some((field, bias)) ==> cycle.asks() == Step::Regain(
            field,
            bias,
        )),
        cycle.stage == Stage::Settle ==> cycle.asks() == Step::Wait(20),
        cycle.stage == Stage::Resettle ==> cycle.asks() == Step::Wait(1),
        cycle.stage == Stage::Enter ==> cycle.asks() == Step::Measuring(true),
        cycle.stage == Stage::Leave ==> cycle.asks() == Step::Measuring(false),
{
}

/// A reading is good exactly if nothing was wrong with it; otherwise it is
/// worth what the worst of its faults leaves, the reference before the input,
/// the input before the range, the range before what is missing.
pub proof fn law_worst_fault_counts(reading: Reading)
    ensures
        reading.worth() == Quality::Good <==> !(reading.ref_bad || reading.input_bad || reading.range_over
            || reading.incomplete),
        reading.worth() == Quality::RefBad <==> reading.ref_bad,
        reading.worth() == Quality::InputBad <==> reading.input_bad && !reading.ref_bad,
        reading.worth() == Quality::OverRange <==> reading.range_over && !reading.ref_bad && !reading.input_bad,
        reading.worth() == Quality::Incomplete <==> reading.incomplete && !reading.range_over && !reading.ref_bad
            && !reading.input_bad,
{
}

/// The range a probe leads to: whichever range the meter was on, it is kept
/// while the signal fills between a quarter and three quarters of its headroom,
/// and is the best for the signal otherwise.
pub proof fn law_probe_decides_the_range(meter: Meter, frame: Seq<u32>)
    ensures
        ({
            let mean = range::mean_of(frame);
            let pp = range::pp_of(frame) as u32;
            let next = probed_range(meter, frame);
            if range::within(meter.range, mean, pp, 75) && !range::within(meter.range, mean, pp, 25) {
                next == meter.range
            } else {
                range::is_best_for(next, mean, pp)
            }
        }),
{
    range::law_fill_decides_the_range(meter.range, range::mean_of(frame), range::pp_of(frame) as u32);
}

/// Every other stage asks for the one thing it is named for.
pub proof fn law_stages_ask_for_what_they_are_named(cycle: Cycle)
    ensures
        cycle.stage == Stage::Reference <==> cycle.asks() == Step::Reference,
        cycle.stage == Stage::Converter <==> cycle.asks() == Step::Converter,
        cycle.stage == Stage::Clock <==> cycle.asks() == Step::Clock,
        cycle.stage == Stage::Probe <==> cycle.asks() == Step::Probe,
        cycle.stage == Stage::Frame <==> cycle.asks() == Step::Frame,
        cycle.stage == Stage::StopConverter <==> cycle.asks() == Step::StopConverter,
        cycle.stage == Stage::StopAmplifier <==> cycle.asks() == Step::StopAmplifier,
        cycle.stage == Stage::Over <==> cycle.asks() == Step::Nothing,
{
}

/// A probe that failed, or that shows the input pinned at an end of the
/// converter's scale, leaves the range and the pivot as they were and moves
/// nothing; which of the two it was is kept.
pub proof fn law_bad_probe_changes_nothing(cycle: Cycle, samples: Seq<u32>, i: int)
    requires
        0 <= i < samples.len(),
        samples[i] % 4096 == 0 || samples[i] % 4096 == 4095,
        cycle.regain is None,
    ensures
        after_probe(cycle, None).meter == cycle.meter && after_probe(cycle, None).regain is None,
        after_probe(cycle, None).probe is None && !after_probe(cycle, None).input_bad,
        after_probe(cycle, Some(samples)).meter == cycle.meter && after_probe(cycle, Some(samples)).regain is None,
        after_probe(cycle, Some(samples)).probe is Some && after_probe(cycle, Some(samples)).input_bad,
        !after_probe(cycle, None).range_over && !after_probe(cycle, Some(samples)).range_over,
        after_probe(cycle, None).stage == Stage::FrameChannel,
        after_probe(cycle, Some(samples)).stage == Stage::FrameChannel,
        after_probe(cycle, None).ref_bad == cycle.ref_bad && after_probe(cycle, Some(samples)).ref_bad == cycle.ref_bad,
{
    range::law_probe_sums_up_its_codes(samples, i, i);
    assert(range::touches_an_end(samples));
}

/// A good probe decides the measurement that follows it: the pivot is placed
/// against its mean, the range is over exactly if the amplified signal leaves
/// the converter's scale on it, and the amplifier is moved exactly if it was
/// brought up anywhere else.
pub proof fn law_good_probe_decides_the_measurement(cycle: Cycle, samples: Seq<u32>)
    requires
        samples.len() == PROBE_N,
        forall|i: int| 0 <= i < samples.len() ==> 0 < #[trigger] samples[i] % 4096 < 4095,
        range::pp_of(samples) > 0,
    ensures
        ({
            let now = after_probe(cycle, Some(samples));
            let mean = range::mean_of(samples);
            let pp = range::pp_of(samples);
            let range = now.meter.range;
            let dc = range::placed_dc(range, mean);
            let half = (range.spec_nominal() * pp) / 2;
            &&& now.stage == Stage::FrameChannel
            &&& now.probe == Some((mean as i32, pp as u32))
            &&& now.meter.mean_in_last == mean
            &&& range == probed_range(cycle.meter, samples)
            &&& !now.input_bad && now.ref_bad == cycle.ref_bad
            &&& now.range_over <==> dc <= 0 || dc >= 4095 || dc - half < 0 || dc + half > 4095
            &&& range == Range::Direct ==> now.regain is None
            &&& range matches Range::Pga(g) ==> {
                &&& now.regain is None <==> cycle.meter.brings_up() == range::setting(g, mean)
                &&& now.regain is Some ==> now.regain == Some(range::setting(g, mean))
            }
        }),
{
    let mean = range::mean_of(samples);
    let pp = range::pp_of(samples);
    range::law_probe_sums_up_its_codes(samples, 0, 0);
    if range::touches_an_end(samples) {
        let a = choose|a: int| 0 <= a < samples.len() && (#[trigger] samples[a] % 4096 == 0 || samples[a] % 4096 == 4095);
        assert(0 < samples[a] % 4096 < 4095);
    }
    let (a, b) = choose|a: int, b: int|
        #![trigger samples[a], samples[b]]
        0 <= a < samples.len() && 0 <= b < samples.len() && pp == samples[a] % 4096 - samples[b] % 4096;
    assert(pp < 4096);
    range::lemma_sum_is_bounded(samples);
    range::law_over_range_is_off_the_scale(probed_range(cycle.meter, samples), mean, pp as u32);
}

/// A reading is of the cycle's own range and probe, and is incomplete exactly
/// if either of its captures never drained.
pub proof fn law_reading_tells_what_went_wrong(cycle: Cycle, rms: u32, amps: u32)
    ensures
        ({
            let reading = reading_of(cycle, rms, amps);
            &&& reading.rms == rms && reading.amps == amps
            &&& reading.range == cycle.meter.range && reading.probe == cycle.probe
            &&& reading.incomplete <==> cycle.probe is None || !cycle.framed
            &&& reading.worth() == Quality::Good <==> cycle.framed && cycle.probe is Some && !(cycle.ref_bad
                || cycle.input_bad || cycle.range_over)
        }),
{
}

} // verus!
