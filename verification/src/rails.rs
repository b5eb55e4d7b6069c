//! Where the amplifier's output clips: the bench survey of both rails, and
//! its report.
//!
//! No single setting of the amplifier's input switches saturates both ends,
//! so each end is driven by the one that can: `Vout = G*Vdac` for the top,
//! `Vout = G*Vin + (1-G)*Vdac` for the bottom. A reading counts as a rail only
//! where the commanded output is far outside the converter's scale; otherwise
//! it is the amplifier working linearly.

use crate::range::{g_nominal, multiplier, Gain, DAC_MAX};
use crate::sampler::ADC_MASK;
use crate::text;
use vstd::prelude::*;

verus! {

/// Serial rate of the console.
pub const CONSOLE_BAUD_RATE: u32 = 115_200;

/// Points in the full-range sweep.
pub const FULL_N: usize = 128;

/// DAC codes per point of the full sweep.
pub const COARSE_STEP: u16 = 32;

/// Points in a shoulder sweep, one DAC code apart.
pub const ZOOM_N: usize = 128;

/// Conversions averaged per point.
pub const AVG_N: usize = 16;

/// Gain steps surveyed.
pub const GAIN_N: usize = 5;

/// How close two points of the coarse sweep count as the same plateau.
pub const FLAT_LSB: i32 = 3;

/// How far outside the converter's scale a commanded output has to be for the
/// reading to be a rail.
pub const CMD_OVERDRIVE: i32 = 512;

/// Settling after a gain change, after a DAC step, and between two passes.
pub const GAIN_SETTLE_MS: u64 = 2;

pub const DAC_SETTLE_MS: u64 = 1;

pub const PASS_MS: u64 = 5_000;

/// The gain steps, from the bottom.
pub open spec fn gain_at(i: int) -> Gain {
    if i <= 0 {
        Gain::X2
    } else if i == 1 {
        Gain::X4
    } else if i == 2 {
        Gain::X8
    } else if i == 3 {
        Gain::X16
    } else {
        Gain::X32
    }
}

fn nth_gain(i: usize) -> (gain: Gain)
    ensures
        gain == gain_at(i as int),
{
    if i == 0 {
        Gain::X2
    } else if i == 1 {
        Gain::X4
    } else if i == 2 {
        Gain::X8
    } else if i == 3 {
        Gain::X16
    } else {
        Gain::X32
    }
}

/// One end's reading at one gain, with the output that was commanded to
/// produce it, where that is known.
#[derive(Clone, Copy, Debug, PartialEq, Eq, Structural)]
pub struct Rail {
    pub out: u16,
    pub cmd: Option<i32>,
}

impl Rail {
    /// The amplifier was demonstrably driven past what it can deliver.
    pub open spec fn is_rail(self) -> bool {
        self.cmd matches Some(c) && (c < -CMD_OVERDRIVE || c > ADC_MASK + CMD_OVERDRIVE)
    }

    /// Whether the amplifier was demonstrably driven past what it can
    /// deliver. Unknown commands count as not proven.
    pub fn saturated(&self) -> (yes: bool)
        ensures
            yes == self.is_rail(),
    {
        match self.cmd {
            Some(c) => c < -512 || c > 4095 + 512,
            None => false,
        }
    }
}

/// The mean of a short capture, if it drained.
pub fn read_mean(drained: bool, buf: &[u32; AVG_N]) -> (mean: Option<u16>)
    ensures
        mean is Some <==> drained,
        mean matches Some(m) ==> m == crate::range::mean_of(buf@) && m <= ADC_MASK,
{
    if !drained {
        return None;
    }
    proof {
        crate::range::lemma_sum_is_bounded(buf@);
    }
    let (mean, _, _) = crate::range::probe_stats(buf.as_slice());
    Some(mean as u16)
}

/// The distance of two readings.
pub open spec fn apart(a: u16, b: u16) -> int {
    if a >= b {
        a - b
    } else {
        b - a
    }
}

/// The point from which on the sweep stays on the plateau it ends on.
pub open spec fn is_shoulder(full: Seq<u16>, i: int) -> bool {
    &&& 0 <= i < full.len()
    &&& forall|j: int| i <= j < full.len() ==> apart(#[trigger] full[j], full.last()) <= FLAT_LSB
    &&& i > 0 ==> apart(full[i - 1], full.last()) > FLAT_LSB
}

/// DAC code where the coarse sweep reaches the high rail, searched from the
/// top down: the last point is saturated by construction.
pub fn top_shoulder(full: &[u16]) -> (code: u16)
    requires
        full@.len() == FULL_N,
    ensures
        code % COARSE_STEP == 0,
        is_shoulder(full@, code as int / COARSE_STEP as int),
{
    let last: u16 = full[FULL_N - 1];
    let mut i: usize = FULL_N - 1;
    while i > 0
        invariant
            full@.len() == FULL_N,
            i < FULL_N,
            last == full@.last(),
            forall|j: int| i <= j < full@.len() ==> apart(#[trigger] full@[j], full@.last()) <= FLAT_LSB,
        decreases i,
    {
        let v: u16 = full[i - 1];
        let gap: u16 = if v >= last { v - last } else { last - v };
        if gap > 3 {
            return i as u16 * COARSE_STEP;
        }
        i -= 1;
    }
    0
}

/// Commanded output for the high rail, `Vout = G*Vdac`.
pub fn cmd_hi(gain: Gain, code: u16) -> (cmd: i32)
    ensures
        cmd == multiplier(gain) * code,
{
    let g: i32 = g_nominal(gain);
    proof {
        assert(0 <= g * code <= 32 * 65535) by (nonlinear_arith)
            requires
                2 <= g <= 32,
                0 <= code <= 65535,
        ;
    }
    g * code as i32
}

/// Commanded output for the low rail, `Vout = G*Vin + (1-G)*Vdac`.
pub fn cmd_lo(gain: Gain, mean_in: i32, code: u16) -> (cmd: i32)
    requires
        crate::range::in_i32(multiplier(gain) * mean_in),
        crate::range::in_i32(multiplier(gain) * mean_in + (1 - multiplier(gain)) * code),
    ensures
        cmd == multiplier(gain) * mean_in + (1 - multiplier(gain)) * code,
{
    let g: i32 = g_nominal(gain);
    proof {
        assert(-32 * 65535 <= (1 - g) * code <= 0) by (nonlinear_arith)
            requires
                2 <= g <= 32,
                0 <= code <= 65535,
        ;
    }
    g * mean_in + (1 - g) * code as i32
}

/// DAC code of the `i`-th point of a sweep, as far as the DAC reaches.
pub open spec fn swept(start: int, step: int, i: int) -> int {
    let code = start + i * step;
    if code > DAC_MAX {
        DAC_MAX as int
    } else {
        code
    }
}

/// Where the high shoulder's sweep starts: half a window below the shoulder,
/// and not below zero.
pub fn high_start(shoulder: u16) -> (start: u16)
    ensures
        start == if shoulder >= 64 {
            shoulder - 64
        } else {
            0
        },
{
    if shoulder >= 64 {
        shoulder - 64
    } else {
        0
    }
}

/// Where the low shoulder's sweep starts: half a window below the DAC code
/// that commands zero volts, `G*Vin/(G-1)` at the lowest gain, inside the
/// DAC's range.
pub open spec fn low_window(mean_in: int) -> int {
    let cross = crate::range::clamped(2 * mean_in, 0, DAC_MAX as int);
    let start = if cross >= 64 {
        cross - 64
    } else {
        0
    };
    if start > DAC_MAX + 1 - ZOOM_N {
        DAC_MAX + 1 - ZOOM_N
    } else {
        start
    }
}

pub fn low_start(mean_in: i32) -> (start: u16)
    requires
        crate::range::in_i32(2 * mean_in),
    ensures
        start == low_window(mean_in as int),
        start + ZOOM_N <= DAC_MAX + 1,
{
    let twice: i32 = 2 * mean_in;
    let cross: i32 = if twice < 0 {
        0
    } else if twice > DAC_MAX {
        DAC_MAX
    } else {
        twice
    };
    let start: i32 = if cross >= 64 { cross - 64 } else { 0 };
    if start > 3968 {
        3968
    } else {
        start as u16
    }
}

// ---- A pass -------------------------------------------------------------

/// Everything one pass measured. A sweep that was cut short is not to be
/// interpreted.
#[derive(Debug)]
pub struct Measurement {
    /// Output at the top of the DAC in the low-rail topology, per gain.
    pub rail_lo: Vec<Option<Rail>>,
    /// Output at the top of the DAC in the high-rail topology, per gain.
    pub rail_hi: Vec<Option<Rail>>,
    /// `Vout = G*Vdac` across the whole DAC range, at the lowest gain.
    pub full: Vec<u16>,
    /// The low shoulder, one DAC code per point.
    pub low: Vec<u16>,
    pub low_start: u16,
    /// The high shoulder, one DAC code per point.
    pub high: Vec<u16>,
    pub high_start: u16,
    /// The amplifier's ready bit in each topology.
    pub rdy_hi: bool,
    pub rdy_lo: bool,
    /// The untouched input.
    pub probe: Option<(i32, u32)>,
}

#[verifier::ext_equal]
pub struct MeasurementView {
    pub rail_lo: Seq<Option<Rail>>,
    pub rail_hi: Seq<Option<Rail>>,
    pub full: Seq<u16>,
    pub low: Seq<u16>,
    pub low_start: u16,
    pub high: Seq<u16>,
    pub high_start: u16,
    pub rdy_hi: bool,
    pub rdy_lo: bool,
    pub probe: Option<(i32, u32)>,
}

impl View for Measurement {
    type V = MeasurementView;

    open spec fn view(&self) -> MeasurementView {
        MeasurementView {
            rail_lo: self.rail_lo@,
            rail_hi: self.rail_hi@,
            full: self.full@,
            low: self.low@,
            low_start: self.low_start,
            high: self.high@,
            high_start: self.high_start,
            rdy_hi: self.rdy_hi,
            rdy_lo: self.rdy_lo,
            probe: self.probe,
        }
    }
}

/// A reading at this gain that is a rail.
pub open spec fn rail_at(rails: Seq<Option<Rail>>, i: int) -> bool {
    0 <= i < rails.len() && (rails[i] matches Some(r) && r.is_rail())
}

/// The reading at this gain.
pub open spec fn out_at(rails: Seq<Option<Rail>>, i: int) -> u16 {
    match rails[i] {
        Some(r) => r.out,
        None => 0,
    }
}

/// The tightest low end: the highest reading among the rails.
pub open spec fn is_floor(rails: Seq<Option<Rail>>, end: Option<u16>) -> bool {
    match end {
        Some(v) => {
            &&& exists|i: int| #[trigger] rail_at(rails, i) && out_at(rails, i) == v
            &&& forall|i: int| #[trigger] rail_at(rails, i) ==> out_at(rails, i) <= v
        },
        None => forall|i: int| !#[trigger] rail_at(rails, i),
    }
}

/// The tightest high end: the lowest reading among the rails.
pub open spec fn is_ceiling(rails: Seq<Option<Rail>>, end: Option<u16>) -> bool {
    match end {
        Some(v) => {
            &&& exists|i: int| #[trigger] rail_at(rails, i) && out_at(rails, i) == v
            &&& forall|i: int| #[trigger] rail_at(rails, i) ==> out_at(rails, i) >= v
        },
        None => forall|i: int| !#[trigger] rail_at(rails, i),
    }
}

fn tightest(rails: &Vec<Option<Rail>>, floor: bool) -> (end: Option<u16>)
    ensures
        floor ==> is_floor(rails@, end),
        !floor ==> is_ceiling(rails@, end),
{
    let mut end: Option<u16> = None;
    let ghost mut at: int = 0;
    let mut i: usize = 0;
    while i < rails.len()
        invariant
            i <= rails@.len(),
            end is None ==> forall|k: int| 0 <= k < i ==> !#[trigger] rail_at(rails@, k),
            end matches Some(v) ==> {
                &&& rail_at(rails@, at)
                &&& out_at(rails@, at) == v
                &&& forall|k: int|
                    0 <= k < i && #[trigger] rail_at(rails@, k) ==> if floor {
                        out_at(rails@, k) <= v
                    } else {
                        out_at(rails@, k) >= v
                    }
            },
        decreases rails@.len() - i,
    {
        if let Some(r) = rails[i] {
            if r.saturated() {
                assert(rail_at(rails@, i as int));
                let better: bool = match end {
                    None => true,
                    Some(v) => if floor { r.out > v } else { r.out < v },
                };
                if better {
                    end = Some(r.out);
                    proof {
                        at = i as int;
                    }
                }
            } else {
                assert(!rail_at(rails@, i as int));
            }
        } else {
            assert(!rail_at(rails@, i as int));
        }
        i += 1;
    }
    end
}

impl Measurement {
    /// The window that holds on every gain: the tightest end observed,
    /// counting only readings whose command proves them saturated.
    pub fn window(&self) -> (window: (Option<u16>, Option<u16>))
        ensures
            is_floor(self@.rail_lo, window.0),
            is_ceiling(self@.rail_hi, window.1),
    {
        (tightest(&self.rail_lo, true), tightest(&self.rail_hi, false))
    }
}

/// The readings track the gain instead of agreeing with each other, which is
/// the signature of an end that was not saturated: one is more than twice
/// another, a zero counting as one.
pub open spec fn follows_gain(reads: Seq<Option<Rail>>) -> bool {
    exists|i: int, j: int|
        #![trigger reads[i], reads[j]]
        {
            &&& 0 <= i < reads.len()
            &&& 0 <= j < reads.len()
            &&& reads[i] is Some
            &&& reads[j] is Some
            &&& out_at(reads, i) > 2 * (if out_at(reads, j) == 0 {
                1
            } else {
                out_at(reads, j) as int
            })
        }
}

/// Whether the readings track the gain, judged by the readings alone.
pub fn tracks_gain(reads: &Vec<Option<Rail>>) -> (yes: bool)
    ensures
        yes == follows_gain(reads@),
{
    let mut bounds: Option<(u16, u16)> = None;
    let ghost mut lo_at: int = 0;
    let ghost mut hi_at: int = 0;
    let mut i: usize = 0;
    while i < reads.len()
        invariant
            i <= reads@.len(),
            bounds is None ==> forall|k: int| 0 <= k < i ==> #[trigger] reads@[k] is None,
            bounds matches Some(b) ==> {
                &&& 0 <= lo_at < i && reads@[lo_at] is Some && out_at(reads@, lo_at) == b.0
                &&& 0 <= hi_at < i && reads@[hi_at] is Some && out_at(reads@, hi_at) == b.1
                &&& forall|k: int|
                    0 <= k < i && #[trigger] reads@[k] is Some ==> b.0 <= out_at(reads@, k) <= b.1
            },
        decreases reads@.len() - i,
    {
        if let Some(r) = reads[i] {
            match bounds {
                None => {
                    bounds = Some((r.out, r.out));
                    proof {
                        lo_at = i as int;
                        hi_at = i as int;
                    }
                },
                Some((lo, hi)) => {
                    let new_lo: u16 = if r.out < lo { r.out } else { lo };
                    let new_hi: u16 = if r.out > hi { r.out } else { hi };
                    proof {
                        if r.out < lo {
                            lo_at = i as int;
                        }
                        if r.out > hi {
                            hi_at = i as int;
                        }
                    }
                    bounds = Some((new_lo, new_hi));
                },
            }
        }
        i += 1;
    }
    match bounds {
        Some((lo, hi)) => {
            let base: u32 = if lo == 0 { 1 } else { lo as u32 };
            let yes: bool = hi as u32 > 2 * base;
            if yes {
                assert(reads@[hi_at] is Some && reads@[lo_at] is Some);
                assert(follows_gain(reads@));
            }
            yes
        },
        None => false,
    }
}

/// Where a pass stands.
#[derive(Clone, Copy, Debug, PartialEq, Eq, Structural)]
pub enum Phase {
    Probe,
    SetupHigh,
    RailHi(usize),
    RestoreHi,
    Full,
    High,
    SetupLow,
    RailLo(usize),
    RestoreLo,
    Low,
    Done,
}

/// What a pass asks of the hardware.
#[derive(Clone, Copy, Debug, PartialEq, Eq, Structural)]
pub enum Action {
    /// Capture the untouched input.
    Probe,
    /// Set the amplifier up in this topology, at the lowest gain, and point
    /// the converter at its output.
    Setup { high: bool },
    /// Move the amplifier to this gain field, let it settle, and read its
    /// output with the DAC at the top.
    Rail { gain: u8 },
    /// Move the amplifier back to the lowest gain, and let it settle.
    Restore { gain: u8 },
    /// Read the output with the DAC at this code.
    Read { code: u16 },
    /// The pass is over.
    Finished,
}

/// What came of it.
#[derive(Clone, Copy, Debug, PartialEq, Eq)]
pub enum Outcome {
    /// Mean and peak-to-peak of the input, if the capture drained.
    Probed(Option<(i32, u32)>),
    /// The amplifier's ready bit.
    Ready(bool),
    /// Carried out.
    Restored,
    /// The output, if the capture drained.
    Read(Option<u16>),
}

/// A pass in progress.
#[derive(Debug)]
pub struct Survey {
    phase: Phase,
    found: Measurement,
}

#[verifier::ext_equal]
pub struct SurveyView {
    pub phase: Phase,
    pub found: MeasurementView,
}

impl View for Survey {
    type V = SurveyView;

    closed spec fn view(&self) -> SurveyView {
        SurveyView { phase: self.phase, found: self.found@ }
    }
}

/// The shoulder of a complete coarse sweep.
pub open spec fn shoulder_of(full: Seq<u16>) -> int {
    choose|i: int| is_shoulder(full, i)
}

/// Where the high shoulder's sweep starts.
pub open spec fn high_window(full: Seq<u16>) -> int {
    let code = shoulder_of(full) * COARSE_STEP;
    if code >= 64 {
        code - 64
    } else {
        0
    }
}

proof fn lemma_one_shoulder(full: Seq<u16>, i: int)
    requires
        is_shoulder(full, i),
    ensures
        shoulder_of(full) == i,
{
    let j = shoulder_of(full);
    assert(is_shoulder(full, j));
    if i < j {
        assert(apart(full[j - 1], full.last()) <= FLAT_LSB);
    } else if j < i {
        assert(apart(full[i - 1], full.last()) <= FLAT_LSB);
    }
}

impl SurveyView {
    pub open spec fn start() -> SurveyView {
        SurveyView {
            phase: Phase::Probe,
            found: MeasurementView {
                rail_lo: Seq::empty(),
                rail_hi: Seq::empty(),
                full: Seq::empty(),
                low: Seq::empty(),
                low_start: 0,
                high: Seq::empty(),
                high_start: 0,
                rdy_hi: false,
                rdy_lo: false,
                probe: None,
            },
        }
    }

    /// How far the pass has come.
    pub open spec fn rank(self) -> int {
        match self.phase {
            Phase::Probe => 0,
            Phase::SetupHigh => 1,
            Phase::RailHi(_) => 2,
            Phase::RestoreHi => 3,
            Phase::Full => 4,
            Phase::High => 5,
            Phase::SetupLow => 6,
            Phase::RailLo(_) => 7,
            Phase::RestoreLo => 8,
            Phase::Low => 9,
            Phase::Done => 10,
        }
    }

    pub open spec fn wf(self) -> bool {
        &&& self.rank() < 2 ==> self.found.rail_hi.len() == 0
        &&& self.rank() < 4 ==> self.found.full.len() == 0
        &&& self.rank() < 5 ==> self.found.high.len() == 0
        &&& self.rank() < 7 ==> self.found.rail_lo.len() == 0
        &&& self.rank() < 9 ==> self.found.low.len() == 0
        &&& self.rank() > 2 ==> self.found.rail_hi.len() == GAIN_N
        &&& self.rank() > 7 ==> self.found.rail_lo.len() == GAIN_N
        &&& self.found.probe matches Some((mean, _)) ==> 0 <= mean <= ADC_MASK
        &&& self.phase matches Phase::RailHi(i) ==> i < GAIN_N && self.found.rail_hi.len() == i
        &&& self.phase matches Phase::RailLo(i) ==> i < GAIN_N && self.found.rail_lo.len() == i
        &&& self.phase == Phase::Full ==> self.found.full.len() < FULL_N
        &&& self.phase == Phase::High ==> self.found.full.len() == FULL_N && self.found.high.len() < ZOOM_N
            && self.found.high_start <= DAC_MAX
        &&& self.phase == Phase::Low ==> self.found.low.len() < ZOOM_N && self.found.low_start + ZOOM_N <= DAC_MAX + 1
    }

    /// What the phase asks for.
    pub open spec fn asks(self) -> Action {
        match self.phase {
            Phase::Probe => Action::Probe,
            Phase::SetupHigh => Action::Setup { high: true },
            Phase::RailHi(i) => Action::Rail { gain: gain_at(i as int).spec_code() as u8 },
            Phase::RestoreHi => Action::Restore { gain: 1 },
            Phase::Full => Action::Read { code: swept(0, COARSE_STEP as int, self.found.full.len() as int) as u16 },
            Phase::High => Action::Read {
                code: swept(self.found.high_start as int, 1, self.found.high.len() as int) as u16,
            },
            Phase::SetupLow => Action::Setup { high: false },
            Phase::RailLo(i) => Action::Rail { gain: gain_at(i as int).spec_code() as u8 },
            Phase::RestoreLo => Action::Restore { gain: 1 },
            Phase::Low => Action::Read {
                code: swept(self.found.low_start as int, 1, self.found.low.len() as int) as u16,
            },
            Phase::Done => Action::Finished,
        }
    }

    /// What is said before a step that opens a new part of the pass.
    pub open spec fn announces(self) -> Option<Seq<char>> {
        match self.phase {
            Phase::RailHi(0) => Some("# high rails, each gain"@),
            Phase::Full if self.found.full.len() == 0 => Some("# full sweep"@),
            Phase::High if self.found.high.len() == 0 => Some(
                "# high shoulder from "@ + text::decimal(self.found.high_start as int),
            ),
            Phase::RailLo(0) => Some("# low rails, each gain"@),
            Phase::Low if self.found.low.len() == 0 => Some(
                "# low shoulder from "@ + text::decimal(self.found.low_start as int),
            ),
            _ => None,
        }
    }

    /// How far the pass has come, down to the single reading.
    pub open spec fn progress(self) -> int {
        self.rank() * 1000 + match self.phase {
            Phase::RailHi(i) => i as int,
            Phase::Full => self.found.full.len() as int,
            Phase::High => self.found.high.len() as int,
            Phase::RailLo(i) => i as int,
            Phase::Low => self.found.low.len() as int,
            _ => 0,
        }
    }

    /// Whether an outcome is one the phase waits for.
    pub open spec fn awaits(self, outcome: Outcome) -> bool {
        match self.phase {
            Phase::Probe => outcome matches Outcome::Probed(p) && (p matches Some((mean, _)) ==> 0 <= mean
                <= ADC_MASK),
            Phase::SetupHigh | Phase::SetupLow => outcome is Ready,
            Phase::RestoreHi | Phase::RestoreLo => outcome is Restored,
            Phase::Done => false,
            _ => outcome is Read,
        }
    }

    /// The command a low rail is read at: known only where the input is.
    pub open spec fn low_command(self, i: int) -> Option<i32> {
        match self.found.probe {
            Some((mean, _)) => Some(
                (multiplier(gain_at(i)) * mean + (1 - multiplier(gain_at(i))) * DAC_MAX) as i32,
            ),
            None => None,
        }
    }

    /// After an outcome.
    pub open spec fn recorded(self, outcome: Outcome) -> SurveyView {
        let found = self.found;
        match (self.phase, outcome) {
            (Phase::Probe, Outcome::Probed(probe)) => SurveyView {
                phase: Phase::SetupHigh,
                found: MeasurementView { probe, ..found },
            },
            (Phase::SetupHigh, Outcome::Ready(ready)) => SurveyView {
                phase: Phase::RailHi(0),
                found: MeasurementView { rdy_hi: ready, ..found },
            },
            (Phase::RailHi(i), Outcome::Read(read)) => SurveyView {
                phase: if i + 1 < GAIN_N {
                    Phase::RailHi((i + 1) as usize)
                } else {
                    Phase::RestoreHi
                },
                found: MeasurementView {
                    rail_hi: found.rail_hi.push(
                        match read {
                            Some(out) => Some(
                                Rail { out, cmd: Some((multiplier(gain_at(i as int)) * DAC_MAX) as i32) },
                            ),
                            None => None,
                        },
                    ),
                    ..found
                },
            },
            (Phase::RestoreHi, Outcome::Restored) => SurveyView { phase: Phase::Full, ..self },
            (Phase::Full, Outcome::Read(Some(v))) => {
                let full = found.full.push(v);
                if full.len() < FULL_N {
                    SurveyView { found: MeasurementView { full, ..found }, ..self }
                } else {
                    SurveyView {
                        phase: Phase::High,
                        found: MeasurementView { full, high_start: high_window(full) as u16, ..found },
                    }
                }
            },
            (Phase::High, Outcome::Read(Some(v))) => {
                let high = found.high.push(v);
                SurveyView {
                    phase: if high.len() < ZOOM_N {
                        Phase::High
                    } else {
                        Phase::SetupLow
                    },
                    found: MeasurementView { high, ..found },
                }
            },
            (Phase::Full, Outcome::Read(None)) | (Phase::High, Outcome::Read(None)) => SurveyView {
                phase: Phase::SetupLow,
                ..self
            },
            (Phase::SetupLow, Outcome::Ready(ready)) => SurveyView {
                phase: Phase::RailLo(0),
                found: MeasurementView { rdy_lo: ready, ..found },
            },
            (Phase::RailLo(i), Outcome::Read(read)) => SurveyView {
                phase: if i + 1 < GAIN_N {
                    Phase::RailLo((i + 1) as usize)
                } else {
                    Phase::RestoreLo
                },
                found: MeasurementView {
                    rail_lo: found.rail_lo.push(
                        match read {
                            Some(out) => Some(Rail { out, cmd: self.low_command(i as int) }),
                            None => None,
                        },
                    ),
                    ..found
                },
            },
            (Phase::RestoreLo, Outcome::Restored) => match found.probe {
                Some((mean, _)) => SurveyView {
                    phase: Phase::Low,
                    found: MeasurementView { low_start: low_window(mean as int) as u16, ..found },
                },
                None => SurveyView { phase: Phase::Done, ..self },
            },
            (Phase::Low, Outcome::Read(Some(v))) => {
                let low = found.low.push(v);
                SurveyView {
                    phase: if low.len() < ZOOM_N {
                        Phase::Low
                    } else {
                        Phase::Done
                    },
                    found: MeasurementView { low, ..found },
                }
            },
            (Phase::Low, Outcome::Read(None)) => SurveyView { phase: Phase::Done, ..self },
            _ => self,
        }
    }
}

impl Survey {
    pub fn new() -> (survey: Survey)
        ensures
            survey@ == SurveyView::start(),
            survey@.wf(),
    {
        let survey: Survey = Survey {
            phase: Phase::Probe,
            found: Measurement {
                rail_lo: Vec::new(),
                rail_hi: Vec::new(),
                full: Vec::new(),
                low: Vec::new(),
                low_start: 0,
                high: Vec::new(),
                high_start: 0,
                rdy_hi: false,
                rdy_lo: false,
                probe: None,
            },
        };
        assert(survey@ =~= SurveyView::start());
        survey
    }

    /// What to do now.
    pub fn action(&self) -> (action: Action)
        requires
            self@.wf(),
        ensures
            action == self@.asks(),
    {
        match self.phase {
            Phase::Probe => Action::Probe,
            Phase::SetupHigh => Action::Setup { high: true },
            Phase::RailHi(i) => Action::Rail { gain: nth_gain(i).code() },
            Phase::RestoreHi => Action::Restore { gain: Gain::X2.code() },
            Phase::Full => Action::Read { code: self.found.full.len() as u16 * COARSE_STEP },
            Phase::High => {
                let code: u16 = self.found.high_start + self.found.high.len() as u16;
                Action::Read { code: if code > 4095 { 4095 } else { code } }
            },
            Phase::SetupLow => Action::Setup { high: false },
            Phase::RailLo(i) => Action::Rail { gain: nth_gain(i).code() },
            Phase::RestoreLo => Action::Restore { gain: Gain::X2.code() },
            Phase::Low => Action::Read { code: self.found.low_start + self.found.low.len() as u16 },
            Phase::Done => Action::Finished,
        }
    }

    /// Take what came of it.
    pub fn record(&mut self, outcome: Outcome)
        requires
            old(self)@.wf(),
            old(self)@.awaits(outcome),
        ensures
            final(self)@ == old(self)@.recorded(outcome),
            final(self)@.wf(),
    {
        match outcome {
            Outcome::Probed(probe) => {
                self.found.probe = probe;
                self.phase = Phase::SetupHigh;
            },
            Outcome::Ready(ready) => {
                if let Phase::SetupHigh = self.phase {
                    self.found.rdy_hi = ready;
                    self.phase = Phase::RailHi(0);
                } else {
                    self.found.rdy_lo = ready;
                    self.phase = Phase::RailLo(0);
                }
            },
            Outcome::Restored => {
                if let Phase::RestoreHi = self.phase {
                    self.phase = Phase::Full;
                } else {
                    match self.found.probe {
                        Some((mean, _)) => {
                            self.found.low_start = low_start(mean);
                            self.phase = Phase::Low;
                        },
                        None => {
                            self.phase = Phase::Done;
                        },
                    }
                }
            },
            Outcome::Read(read) => {
                self.take_read(read);
            },
        }
        assert(self@ =~= old(self)@.recorded(outcome));
    }

    fn take_read(&mut self, read: Option<u16>)
        requires
            old(self)@.wf(),
            old(self)@.awaits(Outcome::Read(read)),
        ensures
            final(self)@ == old(self)@.recorded(Outcome::Read(read)),
            final(self)@.wf(),
    {
        match self.phase {
            Phase::RailHi(i) => {
                let rail: Option<Rail> = match read {
                    Some(out) => Some(Rail { out, cmd: Some(cmd_hi(nth_gain(i), 4095)) }),
                    None => None,
                };
                self.found.rail_hi.push(rail);
                self.phase = if i + 1 < GAIN_N { Phase::RailHi(i + 1) } else { Phase::RestoreHi };
            },
            Phase::RailLo(i) => {
                let cmd: Option<i32> = match self.found.probe {
                    Some((mean, _)) => {
                        proof {
                            lemma_low_command(gain_at(i as int), mean as int);
                        }
                        Some(cmd_lo(nth_gain(i), mean, 4095))
                    },
                    None => None,
                };
                let rail: Option<Rail> = match read {
                    Some(out) => Some(Rail { out, cmd }),
                    None => None,
                };
                self.found.rail_lo.push(rail);
                self.phase = if i + 1 < GAIN_N { Phase::RailLo(i + 1) } else { Phase::RestoreLo };
            },
            Phase::Full => match read {
                Some(v) => {
                    self.found.full.push(v);
                    if self.found.full.len() == FULL_N {
                        let code: u16 = top_shoulder(self.found.full.as_slice());
                        proof {
                            lemma_one_shoulder(self.found.full@, code as int / COARSE_STEP as int);
                        }
                        self.found.high_start = high_start(code);
                        self.phase = Phase::High;
                    }
                },
                None => {
                    self.phase = Phase::SetupLow;
                },
            },
            Phase::High => match read {
                Some(v) => {
                    self.found.high.push(v);
                    if self.found.high.len() == ZOOM_N {
                        self.phase = Phase::SetupLow;
                    }
                },
                None => {
                    self.phase = Phase::SetupLow;
                },
            },
            Phase::Low => match read {
                Some(v) => {
                    self.found.low.push(v);
                    if self.found.low.len() == ZOOM_N {
                        self.phase = Phase::Done;
                    }
                },
                None => {
                    self.phase = Phase::Done;
                },
            },
            _ => {},
        }
        assert(self@ =~= old(self)@.recorded(Outcome::Read(read)));
    }

    /// What is said before this step, if it opens a new part of the pass.
    pub fn announcement(&self) -> (line: Option<String>)
        requires
            self@.wf(),
        ensures
            line is Some <==> self@.announces() is Some,
            line matches Some(l) ==> self@.announces() == Some(l@),
    {
        match self.phase {
            Phase::RailHi(0) => Some("# high rails, each gain".to_owned()),
            Phase::Full => if self.found.full.len() == 0 {
                Some("# full sweep".to_owned())
            } else {
                None
            },
            Phase::High => if self.found.high.len() == 0 {
                let mut line: String = "# high shoulder from ".to_owned();
                text::push_decimal(&mut line, self.found.high_start as u64);
                Some(line)
            } else {
                None
            },
            Phase::RailLo(0) => Some("# low rails, each gain".to_owned()),
            Phase::Low => if self.found.low.len() == 0 {
                let mut line: String = "# low shoulder from ".to_owned();
                text::push_decimal(&mut line, self.found.low_start as u64);
                Some(line)
            } else {
                None
            },
            _ => None,
        }
    }

    /// What was found, once the pass is over.
    pub fn into_measurement(self) -> (found: Measurement)
        ensures
            found@ == self@.found,
    {
        self.found
    }
}

proof fn lemma_low_command(gain: Gain, mean: int)
    requires
        0 <= mean <= ADC_MASK,
    ensures
        crate::range::in_i32(multiplier(gain) * mean),
        crate::range::in_i32(multiplier(gain) * mean + (1 - multiplier(gain)) * 4095),
{
    let g = multiplier(gain);
    assert(0 <= g * mean <= 32 * 4095) by (nonlinear_arith)
        requires
            2 <= g <= 32,
            0 <= mean <= 4095,
    ;
}

/// Every outcome moves the pass on, good or bad, so a pass always ends.
pub proof fn law_every_outcome_moves_on(survey: SurveyView, outcome: Outcome)
    requires
        survey.wf(),
        survey.awaits(outcome),
    ensures
        survey.progress() < survey.recorded(outcome).progress() <= 10_000,
{
}

// ---- The report ---------------------------------------------------------

/// The tightest low end of a pass.
pub open spec fn floor_of(rails: Seq<Option<Rail>>) -> Option<u16> {
    choose|end: Option<u16>| is_floor(rails, end)
}

/// The tightest high end of a pass.
pub open spec fn ceiling_of(rails: Seq<Option<Rail>>) -> Option<u16> {
    choose|end: Option<u16>| is_ceiling(rails, end)
}

proof fn lemma_one_floor(rails: Seq<Option<Rail>>, end: Option<u16>)
    requires
        is_floor(rails, end),
    ensures
        floor_of(rails) == end,
{
    let other = floor_of(rails);
    assert(is_floor(rails, other));
    if let (Some(a), Some(b)) = (end, other) {
        let i = choose|i: int| #[trigger] rail_at(rails, i) && out_at(rails, i) == a;
        let j = choose|j: int| #[trigger] rail_at(rails, j) && out_at(rails, j) == b;
        assert(rail_at(rails, i) && rail_at(rails, j));
    }
}

proof fn lemma_one_ceiling(rails: Seq<Option<Rail>>, end: Option<u16>)
    requires
        is_ceiling(rails, end),
    ensures
        ceiling_of(rails) == end,
{
    let other = ceiling_of(rails);
    assert(is_ceiling(rails, other));
    if let (Some(a), Some(b)) = (end, other) {
        let i = choose|i: int| #[trigger] rail_at(rails, i) && out_at(rails, i) == a;
        let j = choose|j: int| #[trigger] rail_at(rails, j) && out_at(rails, j) == b;
        assert(rail_at(rails, i) && rail_at(rails, j));
    }
}

/// A flag in the report.
pub open spec fn bit_text(on: bool) -> Seq<char> {
    if on {
        "1"@
    } else {
        "0"@
    }
}

fn bit_str(on: bool) -> (text: &'static str)
    ensures
        text@ == bit_text(on),
{
    if on {
        "1"
    } else {
        "0"
    }
}

fn put(list: &mut Vec<String>, line: String)
    ensures
        text::views(final(list)@) == text::views(old(list)@).push(line@),
{
    list.push(line);
    assert(text::views(list@) =~= text::views(old(list)@).push(line@));
}

/// One gain's line: the reading, and the output that was commanded to produce
/// it.
pub open spec fn rail_line(tag: Seq<char>, i: int, read: Option<Rail>) -> Seq<char> {
    let gain = text::decimal(multiplier(gain_at(i)));
    match read {
        Some(r) => match r.cmd {
            Some(c) => tag + " x"@ + gain + " out="@ + text::decimal(r.out as int) + " cmd="@ + text::signed_decimal(
                c as int,
            ) + " saturated="@ + bit_text(r.is_rail()),
            None => tag + " x"@ + gain + " out="@ + text::decimal(r.out as int) + " cmd=? saturated=?"@,
        },
        None => "# "@ + tag + " x"@ + gain + " skipped"@,
    }
}

pub open spec fn rail_lines(tag: Seq<char>, reads: Seq<Option<Rail>>) -> Seq<Seq<char>> {
    Seq::new(reads.len(), |i: int| rail_line(tag, i, reads[i]))
}

fn report_rails(list: &mut Vec<String>, tag: &str, reads: &Vec<Option<Rail>>)
    ensures
        text::views(final(list)@) == text::views(old(list)@) + rail_lines(tag@, reads@),
{
    let ghost before = text::views(list@);
    let mut i: usize = 0;
    while i < reads.len()
        invariant
            i <= reads@.len(),
            text::views(list@) == before + rail_lines(tag@, reads@).take(i as int),
        decreases reads@.len() - i,
    {
        let n: i32 = g_nominal(nth_gain(i));
        let line: String = match reads[i] {
            Some(r) => {
                let mut line: String = tag.to_owned();
                line.append(" x");
                text::push_decimal(&mut line, n as u64);
                line.append(" out=");
                text::push_decimal(&mut line, r.out as u64);
                match r.cmd {
                    Some(c) => {
                        line.append(" cmd=");
                        text::push_signed(&mut line, c);
                        line.append(" saturated=");
                        line.append(bit_str(r.saturated()));
                    },
                    None => {
                        line.append(" cmd=? saturated=?");
                    },
                }
                line
            },
            None => {
                let mut line: String = "# ".to_owned();
                line.append(tag);
                line.append(" x");
                text::push_decimal(&mut line, n as u64);
                line.append(" skipped");
                line
            },
        };
        assert(line@ == rail_line(tag@, i as int, reads@[i as int]));
        put(list, line);
        assert(rail_lines(tag@, reads@).take(i + 1) =~= rail_lines(tag@, reads@).take(i as int).push(line@));
        i += 1;
    }
    assert(rail_lines(tag@, reads@).take(i as int) =~= rail_lines(tag@, reads@));
}

/// One point of a sweep.
pub open spec fn sweep_line(tag: Seq<char>, code: int, out: u16) -> Seq<char> {
    tag + ","@ + text::decimal(code) + ","@ + text::decimal(out as int)
}

/// One swept section, or a single comment if it was cut short.
pub open spec fn sweep_lines(tag: Seq<char>, out: Seq<u16>, start: int, step: int, complete: bool) -> Seq<Seq<char>> {
    if complete {
        Seq::new(out.len(), |i: int| sweep_line(tag, start + i * step, out[i]))
    } else {
        seq!["# "@ + tag + " skipped"@]
    }
}

fn report_sweep(list: &mut Vec<String>, tag: &str, out: &Vec<u16>, start: u16, step: u16, complete: bool)
    requires
        out@.len() <= 0x1_0000,
    ensures
        text::views(final(list)@) == text::views(old(list)@) + sweep_lines(
            tag@,
            out@,
            start as int,
            step as int,
            complete,
        ),
{
    let ghost before = text::views(list@);
    let ghost want = sweep_lines(tag@, out@, start as int, step as int, complete);
    if !complete {
        let mut line: String = "# ".to_owned();
        line.append(tag);
        line.append(" skipped");
        put(list, line);
        assert(text::views(list@) =~= before + want);
        return;
    }
    let mut i: usize = 0;
    while i < out.len()
        invariant
            i <= out@.len(),
            out@.len() <= 0x1_0000,
            complete,
            want == sweep_lines(tag@, out@, start as int, step as int, complete),
            text::views(list@) == before + want.take(i as int),
        decreases out@.len() - i,
    {
        let mut line: String = tag.to_owned();
        line.append(",");
        proof {
            assert(0 <= i * step <= 0x1_0000 * 0xFFFF) by (nonlinear_arith)
                requires
                    0 <= i <= 0x1_0000,
                    0 <= step <= 0xFFFF,
            ;
        }
        let code: u64 = start as u64 + i as u64 * step as u64;
        text::push_decimal(&mut line, code);
        line.append(",");
        text::push_decimal(&mut line, out[i] as u64);
        put(list, line);
        assert(want.take(i + 1) =~= want.take(i as int).push(want[i as int]));
        i += 1;
    }
    assert(want.take(i as int) =~= want);
}

/// What the report says of the input.
pub open spec fn probe_line(probe: Option<(i32, u32)>) -> Seq<char> {
    match probe {
        Some((mean, pp)) => "probe vin="@ + text::signed_decimal(mean as int) + " pp="@ + text::decimal(pp as int),
        None => "# probe skipped, so the low rail could not be driven"@,
    }
}

/// The warnings: an end whose readings track the gain was not saturated.
pub open spec fn warning_lines(m: MeasurementView) -> Seq<Seq<char>> {
    (if follows_gain(m.rail_hi) {
        seq!["warn rail_hi tracks gain: not saturated, G*Vin not VOH"@]
    } else {
        Seq::empty()
    }) + (if follows_gain(m.rail_lo) {
        seq!["warn rail_lo tracks gain: not saturated, G*Vos not VOL"@]
    } else {
        Seq::empty()
    })
}

/// Whether an end is at the converter's own limit.
pub open spec fn verdict(at_limit: bool) -> Seq<char> {
    if at_limit {
        "adc"@
    } else {
        "opa"@
    }
}

/// The window, and for each end whether the converter can resolve it.
pub open spec fn window_lines(lo: Option<u16>, hi: Option<u16>) -> Seq<Seq<char>> {
    match (lo, hi) {
        (Some(l), Some(h)) => seq![
            "window lo="@ + text::decimal(l as int) + " hi="@ + text::decimal(h as int),
            "verdict lo="@ + verdict(l <= 1) + " hi="@ + verdict(h >= ADC_MASK - 1),
        ],
        _ => seq!["# window unknown: an end produced no reading"@],
    }
}

/// The constants a good pass comes to.
pub open spec fn constant_lines(lo: Option<u16>, hi: Option<u16>) -> Seq<Seq<char>> {
    match (lo, hi) {
        (Some(l), Some(h)) => seq![
            "# range.rs: OUT_LO: i32 = "@ + text::decimal(l as int) + "; OUT_HI: i32 = "@ + text::decimal(h as int)
                + ";"@,
        ],
        _ => Seq::empty(),
    }
}

/// The report of one pass, line by line.
pub open spec fn report_lines(pass: u32, m: MeasurementView) -> Seq<Seq<char>> {
    let lo = floor_of(m.rail_lo);
    let hi = ceiling_of(m.rail_hi);
    seq![
        "# --- pass "@ + text::decimal(pass as int) + " ---"@,
        "rdy_hi="@ + bit_text(m.rdy_hi) + " rdy_lo="@ + bit_text(m.rdy_lo),
        probe_line(m.probe),
    ] + rail_lines("rail_hi"@, m.rail_hi) + rail_lines("rail_lo"@, m.rail_lo) + warning_lines(m) + window_lines(lo, hi)
        + seq!["# section,dac,out"@] + sweep_lines("full"@, m.full, 0, COARSE_STEP as int, m.full.len() == FULL_N)
        + sweep_lines("low"@, m.low, m.low_start as int, 1, m.low.len() == ZOOM_N) + sweep_lines(
        "high"@,
        m.high,
        m.high_start as int,
        1,
        m.high.len() == ZOOM_N,
    ) + constant_lines(lo, hi) + seq!["# --- end pass "@ + text::decimal(pass as int) + " ---"@]
}

fn probe_text(probe: Option<(i32, u32)>) -> (line: String)
    ensures
        line@ == probe_line(probe),
{
    match probe {
        Some((mean, pp)) => {
            let mut line: String = "probe vin=".to_owned();
            text::push_signed(&mut line, mean);
            line.append(" pp=");
            text::push_decimal(&mut line, pp as u64);
            line
        },
        None => "# probe skipped, so the low rail could not be driven".to_owned(),
    }
}

fn verdict_str(at_limit: bool) -> (text: &'static str)
    ensures
        text@ == verdict(at_limit),
{
    if at_limit {
        "adc"
    } else {
        "opa"
    }
}

fn report_warnings(list: &mut Vec<String>, m: &Measurement)
    ensures
        text::views(final(list)@) == text::views(old(list)@) + warning_lines(m@),
{
    let ghost before = text::views(list@);
    if tracks_gain(&m.rail_hi) {
        put(list, "warn rail_hi tracks gain: not saturated, G*Vin not VOH".to_owned());
    }
    if tracks_gain(&m.rail_lo) {
        put(list, "warn rail_lo tracks gain: not saturated, G*Vos not VOL".to_owned());
    }
    assert(text::views(list@) =~= before + warning_lines(m@));
}

fn report_window(list: &mut Vec<String>, lo: Option<u16>, hi: Option<u16>)
    ensures
        text::views(final(list)@) == text::views(old(list)@) + window_lines(lo, hi),
{
    let ghost before = text::views(list@);
    match (lo, hi) {
        (Some(l), Some(h)) => {
            let mut window: String = "window lo=".to_owned();
            text::push_decimal(&mut window, l as u64);
            window.append(" hi=");
            text::push_decimal(&mut window, h as u64);
            put(list, window);
            let mut judged: String = "verdict lo=".to_owned();
            judged.append(verdict_str(l <= 1));
            judged.append(" hi=");
            judged.append(verdict_str(h >= 4094));
            put(list, judged);
        },
        _ => {
            put(list, "# window unknown: an end produced no reading".to_owned());
        },
    }
    assert(text::views(list@) =~= before + window_lines(lo, hi));
}

fn report_constants(list: &mut Vec<String>, lo: Option<u16>, hi: Option<u16>)
    ensures
        text::views(final(list)@) == text::views(old(list)@) + constant_lines(lo, hi),
{
    let ghost before = text::views(list@);
    if let (Some(l), Some(h)) = (lo, hi) {
        let mut line: String = "# range.rs: OUT_LO: i32 = ".to_owned();
        text::push_decimal(&mut line, l as u64);
        line.append("; OUT_HI: i32 = ");
        text::push_decimal(&mut line, h as u64);
        line.append(";");
        put(list, line);
    }
    assert(text::views(list@) =~= before + constant_lines(lo, hi));
}

/// The report of one pass, line by line.
pub fn report(pass: u32, m: &Measurement) -> (list: Vec<String>)
    requires
        m@.full.len() <= FULL_N,
        m@.low.len() <= ZOOM_N,
        m@.high.len() <= ZOOM_N,
    ensures
        text::views(list@) == report_lines(pass, m@),
{
    let mut list: Vec<String> = Vec::new();
    let mut head: String = "# --- pass ".to_owned();
    text::push_decimal(&mut head, pass as u64);
    head.append(" ---");
    put(&mut list, head);
    let mut ready: String = "rdy_hi=".to_owned();
    ready.append(bit_str(m.rdy_hi));
    ready.append(" rdy_lo=");
    ready.append(bit_str(m.rdy_lo));
    put(&mut list, ready);
    put(&mut list, probe_text(m.probe));
    assert(text::views(list@) =~= seq![
        "# --- pass "@ + text::decimal(pass as int) + " ---"@,
        "rdy_hi="@ + bit_text(m@.rdy_hi) + " rdy_lo="@ + bit_text(m@.rdy_lo),
        probe_line(m@.probe),
    ]);

    report_rails(&mut list, "rail_hi", &m.rail_hi);
    report_rails(&mut list, "rail_lo", &m.rail_lo);
    report_warnings(&mut list, m);
    let (lo, hi) = m.window();
    proof {
        lemma_one_floor(m@.rail_lo, lo);
        lemma_one_ceiling(m@.rail_hi, hi);
    }
    report_window(&mut list, lo, hi);
    let ghost before = text::views(list@);
    put(&mut list, "# section,dac,out".to_owned());
    assert(text::views(list@) =~= before + seq!["# section,dac,out"@]);
    report_sweep(&mut list, "full", &m.full, 0, COARSE_STEP, m.full.len() == FULL_N);
    report_sweep(&mut list, "low", &m.low, m.low_start, 1, m.low.len() == ZOOM_N);
    report_sweep(&mut list, "high", &m.high, m.high_start, 1, m.high.len() == ZOOM_N);
    report_constants(&mut list, lo, hi);
    let ghost most = text::views(list@);
    let mut tail: String = "# --- end pass ".to_owned();
    text::push_decimal(&mut tail, pass as u64);
    tail.append(" ---");
    put(&mut list, tail);
    assert(text::views(list@) =~= most + seq!["# --- end pass "@ + text::decimal(pass as int) + " ---"@]);
    list
}

// ---- What a survey is for -----------------------------------------------

/// The gain steps of a survey double, from two up.
pub proof fn law_gains_double(i: int)
    requires
        0 <= i < 4,
    ensures
        multiplier(gain_at(0)) == 2,
        multiplier(gain_at(i + 1)) == 2 * multiplier(gain_at(i)),
        gain_at(i).spec_code() == i + 1 && gain_at(4).spec_code() == 5,
{
}

/// A reading is a rail exactly if the output was commanded more than 512 codes
/// off the converter's scale, on either side of it.
pub proof fn law_rails_are_overdriven(rail: Rail)
    ensures
        rail.cmd is None ==> !rail.is_rail(),
        rail.cmd matches Some(c) ==> (rail.is_rail() <==> c + 512 < 0 || c - 512 > 4095),
{
}

/// The window holds on every gain: no rail reads above its floor or below its
/// ceiling, both were read on a rail, and there is none only where no reading
/// was one.
pub proof fn law_window_holds_on_every_gain(rails: Seq<Option<Rail>>, end: Option<u16>, i: int, out: u16, c: i32)
    requires
        0 <= i < rails.len(),
        rails[i] == Some(Rail { out, cmd: Some(c) }),
        c < -512 || c > 4607,
    ensures
        is_floor(rails, end) ==> (end matches Some(v) && out <= v && exists|k: int|
            #![trigger rails[k]]
            0 <= k < rails.len() && (rails[k] matches Some(r) && r.out == v && r.is_rail())),
        is_ceiling(rails, end) ==> (end matches Some(v) && v <= out && exists|k: int|
            #![trigger rails[k]]
            0 <= k < rails.len() && (rails[k] matches Some(r) && r.out == v && r.is_rail())),
{
    assert(rail_at(rails, i) && out_at(rails, i) == out);
    if is_floor(rails, end) || is_ceiling(rails, end) {
        let v = end.unwrap();
        let k = choose|k: int| #[trigger] rail_at(rails, k) && out_at(rails, k) == v;
        assert(rail_at(rails, k) && out_at(rails, k) == v);
        assert(rails[k] matches Some(r) && r.out == v && r.is_rail());
    }
}

/// An end that no reading proved has no window.
pub proof fn law_no_window_without_a_rail(rails: Seq<Option<Rail>>, end: Option<u16>)
    requires
        forall|i: int| 0 <= i < rails.len() ==> (#[trigger] rails[i] matches Some(r) ==> !r.is_rail()),
    ensures
        is_floor(rails, end) || is_ceiling(rails, end) ==> end is None,
{
    if (is_floor(rails, end) || is_ceiling(rails, end)) && end is Some {
        let k = choose|k: int| #[trigger] rail_at(rails, k) && out_at(rails, k) == end.unwrap();
        assert(rail_at(rails, k));
        assert(rails[k] is Some);
    }
}

/// The sweep of the high shoulder has the shoulder in it, half a window from
/// its start unless the DAC ends before that.
pub proof fn law_high_sweep_is_around_the_shoulder(full: Seq<u16>, i: int)
    requires
        full.len() == 128,
        is_shoulder(full, i),
    ensures
        high_window(full) <= 32 * i < high_window(full) + 128,
        32 * i >= 64 ==> high_window(full) == 32 * i - 64,
        forall|j: int| i <= j < 128 ==> -3 <= #[trigger] full[j] - full[127] <= 3,
        i > 0 ==> full[i - 1] - full[127] > 3 || full[127] - full[i - 1] > 3,
{
    lemma_one_shoulder(full, i);
    assert forall|j: int| i <= j < 128 implies -3 <= #[trigger] full[j] - full[127] <= 3 by {
        assert(apart(full[j], full.last()) <= FLAT_LSB);
    }
}

/// The sweep of the low shoulder stays inside the DAC's range and has the code
/// in it that commands zero volts at a gain of two, half a window from its
/// start unless the DAC ends before that.
pub proof fn law_low_sweep_is_around_the_crossing(mean_in: int)
    ensures
        0 <= low_window(mean_in) <= 4096 - 128,
        0 <= 2 * mean_in <= 4095 ==> low_window(mean_in) <= 2 * mean_in < low_window(mean_in) + 128,
        64 <= 2 * mean_in <= 4096 - 64 ==> low_window(mean_in) == 2 * mean_in - 64,
{
}

/// A sweep goes over the DAC a step at a time, from its start, and stays at the
/// top once it is there.
pub proof fn law_sweeps_climb(start: int, step: int, i: int)
    requires
        start >= 0,
        step > 0,
        i >= 0,
    ensures
        swept(start, step, i) <= 4095,
        start + i * step <= 4095 ==> swept(start, step, i) == start + i * step,
        start + i * step >= 4095 ==> swept(start, step, i) == 4095,
{
}

/// What is read where: the whole range in steps of 32 codes, and each shoulder
/// code by code from the start of its window. A reading joins the sweep that
/// asked for it, at its end, and nothing else that was found changes.
pub proof fn law_readings_join_their_sweep(survey: SurveyView, v: u16)
    requires
        survey.wf(),
    ensures
        survey.phase == Phase::Full ==> {
            &&& survey.asks() == (Action::Read { code: (32 * survey.found.full.len()) as u16 })
            &&& survey.recorded(Outcome::Read(Some(v))).found.full == survey.found.full.push(v)
            &&& survey.recorded(Outcome::Read(Some(v))).found.low == survey.found.low
            &&& survey.recorded(Outcome::Read(Some(v))).found.high == survey.found.high
        },
        survey.phase == Phase::High ==> {
            &&& survey.found.high_start + survey.found.high.len() <= 4095 ==> survey.asks() == (Action::Read {
                code: (survey.found.high_start + survey.found.high.len()) as u16,
            })
            &&& survey.recorded(Outcome::Read(Some(v))).found == (MeasurementView {
                high: survey.found.high.push(v),
                ..survey.found
            })
        },
        survey.phase == Phase::Low ==> {
            &&& survey.asks() == (Action::Read { code: (survey.found.low_start + survey.found.low.len()) as u16 })
            &&& survey.recorded(Outcome::Read(Some(v))).found == (MeasurementView {
                low: survey.found.low.push(v),
                ..survey.found
            })
        },
        survey.phase == Phase::Full || survey.phase == Phase::High || survey.phase == Phase::Low ==> survey.recorded(
            Outcome::Read(None),
        ).found == survey.found,
{
}

/// A rail is kept with what was commanded to produce it: the gain times the top
/// of the DAC for a high one, and for a low one the gain times the input less
/// one gain less of the DAC, where the input is known. A gain that could not be
/// read is kept as such.
pub proof fn law_rails_are_kept_with_their_commands(survey: SurveyView, out: u16, i: usize)
    requires
        survey.wf(),
    ensures
        survey.phase == Phase::RailHi(i) ==> ({
            let g = multiplier(gain_at(i as int));
            &&& survey.asks() == (Action::Rail { gain: (i + 1) as u8 })
            &&& survey.recorded(Outcome::Read(Some(out))).found.rail_hi == survey.found.rail_hi.push(
                Some(Rail { out, cmd: Some((4095 * g) as i32) }),
            )
            &&& survey.recorded(Outcome::Read(None)).found.rail_hi == survey.found.rail_hi.push(None)
        }),
        survey.phase == Phase::RailLo(i) ==> ({
            let g = multiplier(gain_at(i as int));
            &&& survey.asks() == (Action::Rail { gain: (i + 1) as u8 })
            &&& survey.recorded(Outcome::Read(Some(out))).found.rail_lo == survey.found.rail_lo.push(
                Some(
                    Rail {
                        out,
                        cmd: match survey.found.probe {
                            Some((mean, _)) => Some((g * mean - (g - 1) * 4095) as i32),
                            None => None,
                        },
                    },
                ),
            )
            &&& survey.recorded(Outcome::Read(None)).found.rail_lo == survey.found.rail_lo.push(None)
        }),
{
    let g = multiplier(gain_at(i as int));
    if let Some((mean, _)) = survey.found.probe {
        assert(g * mean + (1 - g) * 4095 == g * mean - (g - 1) * 4095) by (nonlinear_arith);
    }
    assert(g * 4095 == 4095 * g);
}

/// Readings that agree within a factor of two raise no warning, and two that do
/// not raise one.
pub proof fn law_warnings_are_of_readings_that_disagree(reads: Seq<Option<Rail>>, i: int, j: int, a: Rail, b: Rail)
    requires
        0 <= i < reads.len(),
        0 <= j < reads.len(),
        reads[i] == Some(a),
        reads[j] == Some(b),
    ensures
        a.out > 2 * b.out && a.out > 2 ==> follows_gain(reads),
        (forall|k: int, l: int|
            #![trigger reads[k], reads[l]]
            0 <= k < reads.len() && 0 <= l < reads.len() && reads[k] is Some && reads[l] is Some ==> reads[k].unwrap().out
                <= 2 * reads[l].unwrap().out) ==> !follows_gain(reads),
{
    if a.out > 2 * b.out && a.out > 2 {
        assert(out_at(reads, i) == a.out && out_at(reads, j) == b.out);
        assert(reads[i] is Some && reads[j] is Some);
    }
    if follows_gain(reads) {
        let (k, l) = choose|k: int, l: int|
            #![trigger reads[k], reads[l]]
            {
                &&& 0 <= k < reads.len()
                &&& 0 <= l < reads.len()
                &&& reads[k] is Some
                &&& reads[l] is Some
                &&& out_at(reads, k) > 2 * (if out_at(reads, l) == 0 {
                    1
                } else {
                    out_at(reads, l) as int
                })
            };
        assert(reads[k].unwrap().out > 2 * reads[l].unwrap().out);
    }
}

/// A sweep that is complete is reported point by point, each with the code it
/// was read at and the reading; one that was cut short is reported as skipped.
pub proof fn law_sweeps_are_reported_in_full(tag: Seq<char>, out: Seq<u16>, start: int, step: int, i: int)
    requires
        0 <= i < out.len(),
    ensures
        sweep_lines(tag, out, start, step, true).len() == out.len(),
        sweep_lines(tag, out, start, step, true)[i] == tag + ","@ + text::decimal(start + i * step) + ","@
            + text::decimal(out[i] as int),
        sweep_lines(tag, out, start, step, false) == seq!["# "@ + tag + " skipped"@],
{
}

/// The report gives the window where both ends are known, and says of each end
/// whether the converter stops there before the amplifier does: within a code
/// of its own limit.
pub proof fn law_report_gives_the_window(lo: u16, hi: u16)
    ensures
        window_lines(Some(lo), Some(hi))[0] == "window lo="@ + text::decimal(lo as int) + " hi="@ + text::decimal(
            hi as int,
        ),
        lo <= 1 && hi >= 4094 ==> window_lines(Some(lo), Some(hi))[1] == "verdict lo="@ + "adc"@ + " hi="@ + "adc"@,
        lo > 1 && hi >= 4094 ==> window_lines(Some(lo), Some(hi))[1] == "verdict lo="@ + "opa"@ + " hi="@ + "adc"@,
        lo <= 1 && hi < 4094 ==> window_lines(Some(lo), Some(hi))[1] == "verdict lo="@ + "adc"@ + " hi="@ + "opa"@,
        lo > 1 && hi < 4094 ==> window_lines(Some(lo), Some(hi))[1] == "verdict lo="@ + "opa"@ + " hi="@ + "opa"@,
        window_lines(Some(lo), Some(hi)).len() == 2,
        window_lines(None, Some(hi)) == window_lines(None, None),
        window_lines(Some(lo), None) == window_lines(None, None),
        constant_lines(None, Some(hi)).len() == 0 && constant_lines(Some(lo), None).len() == 0,
{
}

/// A pass goes in one order, and a reading that fails ends its sweep, not the
/// pass: the probe, every gain at the top, the whole range, the high shoulder,
/// every gain at the bottom, and the low shoulder where the input is known.
pub proof fn law_survey_goes_in_order(survey: SurveyView, outcome: Outcome)
    requires
        survey.wf(),
        survey.awaits(outcome),
    ensures
        survey.recorded(outcome).phase == match survey.phase {
            Phase::Probe => Phase::SetupHigh,
            Phase::SetupHigh => Phase::RailHi(0),
            Phase::RailHi(i) => if i < 4 {
                Phase::RailHi((i + 1) as usize)
            } else {
                Phase::RestoreHi
            },
            Phase::RestoreHi => Phase::Full,
            Phase::Full => if outcome == Outcome::Read(None) {
                Phase::SetupLow
            } else if survey.found.full.len() < 127 {
                Phase::Full
            } else {
                Phase::High
            },
            Phase::High => if outcome == Outcome::Read(None) || survey.found.high.len() >= 127 {
                Phase::SetupLow
            } else {
                Phase::High
            },
            Phase::SetupLow => Phase::RailLo(0),
            Phase::RailLo(i) => if i < 4 {
                Phase::RailLo((i + 1) as usize)
            } else {
                Phase::RestoreLo
            },
            Phase::RestoreLo => if survey.found.probe is None {
                Phase::Done
            } else {
                Phase::Low
            },
            Phase::Low => if outcome == Outcome::Read(None) || survey.found.low.len() >= 127 {
                Phase::Done
            } else {
                Phase::Low
            },
            Phase::Done => Phase::Done,
        },
{
}

/// What a pass asks for besides readings: the untouched input first, the
/// topology of each end before it is read, and the lowest gain before a sweep.
pub proof fn law_survey_sets_up_each_end(survey: SurveyView)
    ensures
        survey.phase == Phase::Probe ==> survey.asks() == Action::Probe,
        survey.phase == Phase::SetupHigh ==> survey.asks() == (Action::Setup { high: true }),
        survey.phase == Phase::SetupLow ==> survey.asks() == (Action::Setup { high: false }),
        survey.phase == Phase::RestoreHi || survey.phase == Phase::RestoreLo ==> survey.asks() == (Action::Restore {
            gain: 1,
        }),
        survey.phase == Phase::Done <==> survey.asks() == Action::Finished,
{
}

/// What a pass is told besides readings is kept: the probe, and the ready bit
/// of each topology.
pub proof fn law_survey_keeps_what_it_is_told(survey: SurveyView, probe: Option<(i32, u32)>, ready: bool)
    ensures
        survey.phase == Phase::Probe ==> survey.recorded(Outcome::Probed(probe)).found == (MeasurementView {
            probe,
            ..survey.found
        }),
        survey.phase == Phase::SetupHigh ==> survey.recorded(Outcome::Ready(ready)).found == (MeasurementView {
            rdy_hi: ready,
            ..survey.found
        }),
        survey.phase == Phase::SetupLow ==> survey.recorded(Outcome::Ready(ready)).found == (MeasurementView {
            rdy_lo: ready,
            ..survey.found
        }),
{
}

/// Once the whole range is in, the high sweep starts around its shoulder, and
/// once the low gains are in, the low sweep starts around the crossing.
pub proof fn law_sweeps_start_where_they_should(survey: SurveyView, v: u16, i: int)
    requires
        survey.wf(),
    ensures
        survey.phase == Phase::Full && survey.found.full.len() == 127 && is_shoulder(survey.found.full.push(v), i)
            ==> survey.recorded(Outcome::Read(Some(v))).found.high_start == if 32 * i >= 64 {
            32 * i - 64
        } else {
            0
        },
        survey.phase == Phase::RestoreLo ==> (survey.found.probe matches Some((mean, _)) ==> survey.recorded(
            Outcome::Restored,
        ).found.low_start == low_window(mean as int)),
{
    if survey.phase == Phase::Full && survey.found.full.len() == 127 && is_shoulder(survey.found.full.push(v), i) {
        law_high_sweep_is_around_the_shoulder(survey.found.full.push(v), i);
        lemma_one_shoulder(survey.found.full.push(v), i);
    }
}

/// A rail is reported with its gain, its reading, what was commanded, and
/// whether that proves it; one that was not read is reported as skipped.
pub proof fn law_rails_are_reported(tag: Seq<char>, reads: Seq<Option<Rail>>, i: int)
    requires
        0 <= i < reads.len() <= 5,
    ensures
        rail_lines(tag, reads).len() == reads.len(),
        ({
            let line = rail_lines(tag, reads)[i];
            let name = tag + " x"@ + text::decimal(multiplier(gain_at(i)));
            match reads[i] {
                Some(Rail { out, cmd: Some(c) }) => line == name + " out="@ + text::decimal(out as int) + " cmd="@
                    + text::signed_decimal(c as int) + " saturated="@ + if c < -512 || c > 4607 {
                    "1"@
                } else {
                    "0"@
                },
                Some(Rail { out, cmd: None }) => line == name + " out="@ + text::decimal(out as int)
                    + " cmd=? saturated=?"@,
                None => line == "# "@ + tag + " x"@ + text::decimal(multiplier(gain_at(i))) + " skipped"@,
            }
        }),
{
}

} // verus!
