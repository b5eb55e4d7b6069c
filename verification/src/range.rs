//! The autoranger: which gain step a signal is measured on, and where the
//! amplified signal is placed.
//!
//! Everything here is integer arithmetic on what the unity-gain probe saw of
//! the input -- its mean and its peak-to-peak excursion, in ADC codes. The
//! registers behind a range are written elsewhere, from a [`RangePlan`].

use crate::sampler::{ADC_CH_OPA_OUT, ADC_CH_RAW_IN, ADC_MASK};
use vstd::prelude::*;

verus! {

/// Gain steps of the amplifier's resistor ladder. There is no step below 2x:
/// unity is a separate topology, which is what [`Range::Direct`] is for.
#[derive(Clone, Copy, Debug, PartialEq, Eq, Structural)]
pub enum Gain {
    X2,
    X4,
    X8,
    X16,
    X32,
}

/// A measurement range: either the amplifier, or no amplifier.
#[derive(Clone, Copy, Debug, PartialEq, Eq, Structural)]
pub enum Range {
    /// The converter reads the input pin straight. No gain, no bias pivot.
    Direct,
    /// The amplifier at this ladder step.
    Pga(Gain),
}

/// Window the samples must stay inside, in ADC codes: the converter's full
/// scale, whatever the range.
pub const OUT_LO: i32 = 0;

pub const OUT_HI: i32 = 4095;

/// Where [`dac_code_for`] places the amplified DC: furthest from both ends.
pub const OUT_CENTER: i32 = 2047;

/// DAC full-scale code.
pub const DAC_MAX: i32 = 4095;

/// Percentage of the available headroom the chosen range aims to fill.
pub const FILL_TARGET_PCT: i32 = 65;

/// Percentages of headroom outside which the current range is given up.
pub const RERANGE_HI_PCT: i32 = 75;

pub const RERANGE_LO_PCT: i32 = 25;

impl Gain {
    /// The position on the ladder, 1 to 5.
    pub open spec fn spec_code(self) -> int {
        match self {
            Gain::X2 => 1,
            Gain::X4 => 2,
            Gain::X8 => 3,
            Gain::X16 => 4,
            Gain::X32 => 5,
        }
    }

    /// The value of the amplifier's gain field for this step. Never 0, which
    /// is the one setting that cannot be changed to while it is enabled.
    pub fn code(self) -> (code: u8)
        ensures
            code == self.spec_code(),
            1 <= code <= 5,
    {
        match self {
            Gain::X2 => 1,
            Gain::X4 => 2,
            Gain::X8 => 3,
            Gain::X16 => 4,
            Gain::X32 => 5,
        }
    }
}

/// The multiplier a step is named for.
pub open spec fn multiplier(gain: Gain) -> int {
    match gain {
        Gain::X2 => 2,
        Gain::X4 => 4,
        Gain::X8 => 8,
        Gain::X16 => 16,
        Gain::X32 => 32,
    }
}

/// The ranges in ascending order.
pub open spec fn ladder(i: int) -> Range {
    if i <= 0 {
        Range::Direct
    } else if i == 1 {
        Range::Pga(Gain::X2)
    } else if i == 2 {
        Range::Pga(Gain::X4)
    } else if i == 3 {
        Range::Pga(Gain::X8)
    } else if i == 4 {
        Range::Pga(Gain::X16)
    } else {
        Range::Pga(Gain::X32)
    }
}

impl Range {
    /// The range's multiplier; 1 for the plain wire.
    pub open spec fn spec_nominal(self) -> int {
        match self {
            Range::Direct => 1,
            Range::Pga(g) => multiplier(g),
        }
    }

    /// Nominal multiplier, used for range arithmetic and the bias pivot only:
    /// a reading is scaled by the range's own calibration table instead.
    pub fn nominal(self) -> (n: i32)
        ensures
            n == self.spec_nominal(),
            1 <= n <= 32,
    {
        match self {
            Range::Direct => 1,
            Range::Pga(g) => g_nominal(g),
        }
    }

    /// Which ADC channel carries this range's signal.
    pub fn channel(self) -> (ch: u8)
        ensures
            ch == if self == Range::Direct { ADC_CH_RAW_IN } else { ADC_CH_OPA_OUT },
    {
        match self {
            Range::Direct => ADC_CH_RAW_IN,
            Range::Pga(_) => ADC_CH_OPA_OUT,
        }
    }

    /// The `i`-th range from the bottom of the ladder.
    fn at(i: usize) -> (range: Range)
        requires
            i < 6,
        ensures
            range == ladder(i as int),
    {
        match i {
            0 => Range::Direct,
            1 => Range::Pga(Gain::X2),
            2 => Range::Pga(Gain::X4),
            3 => Range::Pga(Gain::X8),
            4 => Range::Pga(Gain::X16),
            _ => Range::Pga(Gain::X32),
        }
    }
}

/// [`Range::nominal`] for a bare ladder step.
pub fn g_nominal(g: Gain) -> (n: i32)
    ensures
        n == multiplier(g),
        2 <= n <= 32,
{
    match g {
        Gain::X2 => 2,
        Gain::X4 => 4,
        Gain::X8 => 8,
        Gain::X16 => 16,
        Gain::X32 => 32,
    }
}

pub open spec fn clamped(x: int, lo: int, hi: int) -> int {
    if x < lo {
        lo
    } else if x > hi {
        hi
    } else {
        x
    }
}

/// Whether a number fits in an `i32`.
pub open spec fn in_i32(x: int) -> bool {
    i32::MIN <= x <= i32::MAX
}

/// The bias code that puts the output DC on `OUT_CENTER`:
/// `Vout = G*Vin + (1-G)*Vdac` solved for `Vdac`, as far as the DAC reaches.
pub open spec fn pivot(gain: Gain, mean_in: int) -> int {
    clamped((multiplier(gain) * mean_in - OUT_CENTER) / (multiplier(gain) - 1), 0, DAC_MAX as int)
}

/// Where the output DC lands on a range.
pub open spec fn placed_dc(range: Range, mean_in: int) -> int {
    match range {
        Range::Direct => mean_in,
        Range::Pga(g) => pivot(g, mean_in) + multiplier(g) * (mean_in - pivot(g, mean_in)),
    }
}

/// Distance from that DC to the nearer end of the window.
pub open spec fn room(range: Range, mean_in: int) -> int {
    let dc = placed_dc(range, mean_in);
    let nearer = if dc - OUT_LO <= OUT_HI - dc {
        dc - OUT_LO
    } else {
        OUT_HI - dc
    };
    if nearer < 0 {
        0
    } else {
        nearer
    }
}

/// The excursion as the planner takes it: at least one code, and a signed
/// 32-bit number.
pub open spec fn excursion(pp_in: u32) -> int {
    if pp_in == 0 {
        1
    } else if pp_in < 0x8000_0000 {
        pp_in as int
    } else {
        pp_in - 0x1_0000_0000
    }
}

/// Half of the amplified excursion, rounded toward zero.
pub open spec fn half_swing(range: Range, pp_in: u32) -> int {
    let swing = range.spec_nominal() * excursion(pp_in);
    if swing >= 0 {
        swing / 2
    } else {
        -((-swing) / 2)
    }
}

/// Whether there is room at all, and the half swing is within `fill_pct`
/// percent of it.
pub open spec fn within(range: Range, mean_in: int, pp_in: u32, fill_pct: int) -> bool {
    &&& room(range, mean_in) > 0
    &&& half_swing(range, pp_in) * 100 <= room(range, mean_in) * fill_pct
}

/// The pivot can be computed in 32 bits.
pub open spec fn pivot_computable(gain: Gain, mean_in: int) -> bool {
    in_i32(multiplier(gain) * mean_in) && in_i32(multiplier(gain) * mean_in - OUT_CENTER)
}

/// The DC placement can be computed in 32 bits.
pub open spec fn dc_computable(range: Range, mean_in: int) -> bool {
    match range {
        Range::Direct => true,
        Range::Pga(g) => {
            &&& pivot_computable(g, mean_in)
            &&& in_i32(mean_in - pivot(g, mean_in))
            &&& in_i32(multiplier(g) * (mean_in - pivot(g, mean_in)))
            &&& in_i32(placed_dc(range, mean_in))
        },
    }
}

/// The headroom can be computed in 32 bits.
pub open spec fn room_computable(range: Range, mean_in: int) -> bool {
    dc_computable(range, mean_in) && in_i32(OUT_HI - placed_dc(range, mean_in))
}

/// The fill test can be computed in 32 bits.
pub open spec fn fit_computable(range: Range, mean_in: int, pp_in: u32, fill_pct: int) -> bool {
    &&& room_computable(range, mean_in)
    &&& in_i32(2 * half_swing(range, pp_in))
    &&& in_i32(half_swing(range, pp_in) * 100)
    &&& in_i32(room(range, mean_in) * fill_pct)
}

/// The fill test can be computed in 32 bits on every range.
pub open spec fn plan_computable(mean_in: int, pp_in: u32, fill_pct: int) -> bool {
    forall|i: int| 0 <= i < 6 ==> fit_computable(#[trigger] ladder(i), mean_in, pp_in, fill_pct)
}

/// DAC code that places the amplified output's DC on `OUT_CENTER`, or as
/// close to it as the DAC reaches.
pub fn dac_code_for(gain: Gain, mean_in: i32) -> (code: u16)
    requires
        pivot_computable(gain, mean_in as int),
    ensures
        code == pivot(gain, mean_in as int),
        code <= DAC_MAX,
{
    let g: i32 = g_nominal(gain);
    let top: i32 = g * mean_in - OUT_CENTER;
    if top < 0 {
        proof {
            lemma_negative_quotient(top as int, g - 1);
        }
        return 0;
    }
    let code: i32 = top / (g - 1);
    if code > DAC_MAX {
        DAC_MAX as u16
    } else {
        code as u16
    }
}

proof fn lemma_negative_quotient(a: int, b: int)
    by (nonlinear_arith)
    requires
        a < 0,
        b > 0,
    ensures
        a / b < 0,
{
}

/// Where this range's DC lands: the input's own for `Direct`, and for the
/// amplifier `OUT_CENTER`, except where the pivot had to be clamped.
pub fn dc_for(range: Range, mean_in: i32) -> (dc: i32)
    requires
        dc_computable(range, mean_in as int),
    ensures
        dc == placed_dc(range, mean_in as int),
{
    match range {
        Range::Direct => mean_in,
        Range::Pga(g) => {
            let d: i32 = dac_code_for(g, mean_in) as i32;
            d + g_nominal(g) * (mean_in - d)
        },
    }
}

/// Usable half-swing on this range; zero when its DC is outside the window.
pub fn headroom(range: Range, mean_in: i32) -> (free: i32)
    requires
        room_computable(range, mean_in as int),
    ensures
        free == room(range, mean_in as int),
{
    let dc: i32 = dc_for(range, mean_in);
    let below: i32 = dc - OUT_LO;
    let above: i32 = OUT_HI - dc;
    let nearer: i32 = if below <= above { below } else { above };
    if nearer < 0 { 0 } else { nearer }
}

/// Does this range's signal fit inside `fill_pct` of the headroom it has?
/// Without headroom no signal fits at all.
pub fn fits(range: Range, mean_in: i32, pp_in: u32, fill_pct: i32) -> (yes: bool)
    requires
        fit_computable(range, mean_in as int, pp_in, fill_pct as int),
    ensures
        yes == within(range, mean_in as int, pp_in, fill_pct as int),
{
    let n: i64 = range.nominal() as i64;
    let pp: i64 = if pp_in == 0 {
        1
    } else if pp_in < 0x8000_0000 {
        pp_in as i64
    } else {
        pp_in as i64 - 0x1_0000_0000
    };
    let swing: i64 = n * pp;
    let half: i64 = if swing >= 0 { swing / 2 } else { -((-swing) / 2) };
    let free: i32 = headroom(range, mean_in);
    free > 0 && half as i32 * 100 <= free * fill_pct
}

/// The largest range whose signal stays within the fill target, or `Direct`
/// when none does.
pub open spec fn picked(mean_in: int, pp_in: u32) -> Range {
    let fit = |i: int| within(ladder(i), mean_in, pp_in, FILL_TARGET_PCT as int);
    if fit(5) {
        ladder(5)
    } else if fit(4) {
        ladder(4)
    } else if fit(3) {
        ladder(3)
    } else if fit(2) {
        ladder(2)
    } else if fit(1) {
        ladder(1)
    } else {
        ladder(0)
    }
}

/// Largest range that fits, falling back to `Direct` when none does.
pub fn pick_range(mean_in: i32, pp_in: u32) -> (range: Range)
    requires
        plan_computable(mean_in as int, pp_in, FILL_TARGET_PCT as int),
    ensures
        range == picked(mean_in as int, pp_in),
{
    let mut best: Range = Range::Direct;
    let mut i: usize = 0;
    while i < 6
        invariant
            i <= 6,
            plan_computable(mean_in as int, pp_in, FILL_TARGET_PCT as int),
            exists|b: int|
                #![trigger ladder(b)]
                {
                    &&& 0 <= b < 6
                    &&& best == ladder(b)
                    &&& b == 0 || b < i && within(ladder(b), mean_in as int, pp_in, FILL_TARGET_PCT as int)
                    &&& forall|j: int|
                        b < j < i ==> !within(#[trigger] ladder(j), mean_in as int, pp_in, FILL_TARGET_PCT as int)
                },
        decreases 6 - i,
    {
        assert(fit_computable(ladder(i as int), mean_in as int, pp_in, FILL_TARGET_PCT as int));
        let range: Range = Range::at(i);
        if fits(range, mean_in, pp_in, FILL_TARGET_PCT) {
            best = range;
        }
        i += 1;
    }
    proof {
        let b = choose|b: int|
            #![trigger ladder(b)]
            {
                &&& 0 <= b < 6
                &&& best == ladder(b)
                &&& b == 0 || b < 6 && within(ladder(b), mean_in as int, pp_in, FILL_TARGET_PCT as int)
                &&& forall|j: int|
                    b < j < 6 ==> !within(#[trigger] ladder(j), mean_in as int, pp_in, FILL_TARGET_PCT as int)
            };
        let at1 = ladder(1);
        let at2 = ladder(2);
        let at3 = ladder(3);
        let at4 = ladder(4);
        let at5 = ladder(5);
    }
    best
}

/// Whether the signal genuinely leaves the window on this range, as opposed
/// to merely exceeding the fill target.
pub fn over_range(range: Range, mean_in: i32, pp_in: u32) -> (over: bool)
    requires
        fit_computable(range, mean_in as int, pp_in, 100),
    ensures
        over == !within(range, mean_in as int, pp_in, 100),
{
    !fits(range, mean_in, pp_in, 100)
}

/// Whether a range is worth keeping: its fill is between the two re-range
/// thresholds.
pub open spec fn settled(range: Range, mean_in: int, pp_in: u32) -> bool {
    &&& within(range, mean_in, pp_in, RERANGE_HI_PCT as int)
    &&& !within(range, mean_in, pp_in, RERANGE_LO_PCT as int)
}

/// The range decision with hysteresis.
pub open spec fn next(current: Range, mean_in: int, pp_in: u32) -> Range {
    if settled(current, mean_in, pp_in) {
        current
    } else {
        picked(mean_in, pp_in)
    }
}

/// Range decision with hysteresis: the current range is held while its fill
/// stays inside the band, so a hop is a real change and not dither.
pub fn next_range(current: Range, mean_in: i32, pp_in: u32) -> (range: Range)
    requires
        fit_computable(current, mean_in as int, pp_in, RERANGE_HI_PCT as int),
        fit_computable(current, mean_in as int, pp_in, RERANGE_LO_PCT as int),
        !settled(current, mean_in as int, pp_in) ==> plan_computable(
            mean_in as int,
            pp_in,
            FILL_TARGET_PCT as int,
        ),
    ensures
        range == next(current, mean_in as int, pp_in),
{
    let too_hot: bool = !fits(current, mean_in, pp_in, RERANGE_HI_PCT);
    let too_cold: bool = fits(current, mean_in, pp_in, RERANGE_LO_PCT);
    if too_hot || too_cold {
        pick_range(mean_in, pp_in)
    } else {
        current
    }
}

/// The codes of a captured frame: each word's low twelve bits.
pub open spec fn codes(buf: Seq<u32>) -> Seq<int> {
    buf.map_values(|x: u32| x as int % 4096)
}

pub open spec fn sum(samples: Seq<int>) -> int
    decreases samples.len(),
{
    if samples.len() == 0 {
        0
    } else {
        sum(samples.drop_last()) + samples.last()
    }
}

/// `v` is a smallest element.
pub open spec fn is_lowest(samples: Seq<int>, v: int) -> bool {
    samples.contains(v) && forall|i: int| 0 <= i < samples.len() ==> v <= #[trigger] samples[i]
}

/// `v` is a largest element.
pub open spec fn is_highest(samples: Seq<int>, v: int) -> bool {
    samples.contains(v) && forall|i: int| 0 <= i < samples.len() ==> #[trigger] samples[i] <= v
}

/// The smallest element.
pub open spec fn lowest(samples: Seq<int>) -> int {
    choose|v: int| is_lowest(samples, v)
}

/// The largest element.
pub open spec fn highest(samples: Seq<int>) -> int {
    choose|v: int| is_highest(samples, v)
}

/// The mean of a frame, rounded down.
pub open spec fn mean_of(buf: Seq<u32>) -> int {
    sum(codes(buf)) / buf.len() as int
}

/// The peak-to-peak excursion of a frame.
pub open spec fn pp_of(buf: Seq<u32>) -> int {
    highest(codes(buf)) - lowest(codes(buf))
}

/// A sample sits on an end of the converter's scale, so the frame shows a
/// flat top or bottom instead of the signal.
pub open spec fn touches_an_end(buf: Seq<u32>) -> bool {
    exists|i: int| 0 <= i < buf.len() && (#[trigger] codes(buf)[i] == 0 || codes(buf)[i] == ADC_MASK)
}

/// Mean (rounded down), peak-to-peak, and whether a sample sits on either end
/// of the converter's scale, for one probe frame.
///
/// A frame that touches an end shows a flat top or bottom, not the signal, so
/// neither of the other two numbers is to be acted on.
pub fn probe_stats(buf: &[u32]) -> (stats: (i32, u32, bool))
    requires
        buf@.len() > 0,
        sum(codes(buf@)) <= u64::MAX,
    ensures
        stats.0 == mean_of(buf@),
        stats.1 == pp_of(buf@),
        stats.2 == touches_an_end(buf@),
        0 <= stats.0 <= ADC_MASK,
        stats.1 <= ADC_MASK,
        is_lowest(codes(buf@), lowest(codes(buf@))),
        is_highest(codes(buf@), highest(codes(buf@))),
{
    let mut lo: u32 = u32::MAX;
    let mut hi: u32 = 0;
    let mut total: u64 = 0;
    let mut i: usize = 0;
    let ghost all = codes(buf@);
    while i < buf.len()
        invariant
            all == codes(buf@),
            i <= buf@.len(),
            total == sum(all.take(i as int)),
            sum(all) <= u64::MAX,
            i == 0 ==> lo == u32::MAX && hi == 0,
            i > 0 ==> is_lowest(all.take(i as int), lo as int) && is_highest(all.take(i as int), hi as int),
            i > 0 ==> hi <= 4095,
            total <= 4095 * i,
        decreases buf@.len() - i,
    {
        let x: u32 = buf[i];
        assert(x & 0x0FFF == x % 4096) by (bit_vector);
        let v: u32 = x & ADC_MASK;
        proof {
            let before = all.take(i as int);
            let after = all.take(i + 1);
            assert(after.drop_last() =~= before);
            assert(after.last() == v);
            lemma_sum_grows(buf@, i + 1);
            assert(after =~= before.push(v as int));
            assert(after[i as int] == v);
            assert forall|k: int| 0 <= k < i implies after.contains(before[k]) by {
                assert(after[k] == before[k]);
            }
            if i > 0 {
                assert(after.contains(lo as int));
                assert(after.contains(hi as int));
            }
            assert(after.contains(v as int));
        }
        total = total + v as u64;
        if v < lo {
            lo = v;
        }
        if v > hi {
            hi = v;
        }
        if i == 0 {
            assert(lo == v && hi == v || v == 0 && hi == 0 && lo == 0);
        }
        i += 1;
    }
    assert(all.take(i as int) =~= all);
    let railed: bool = lo == 0 || hi >= ADC_MASK;
    proof {
        let n = buf@.len() as int;
        assert(0 <= total as int / n <= 4095) by (nonlinear_arith)
            requires
                0 <= total <= 4095 * n,
                n > 0,
        ;
        assert(is_lowest(all, lo as int) && is_highest(all, hi as int));
        assert(lowest(all) == lo) by {
            assert(is_lowest(all, lowest(all)));
        }
        assert(highest(all) == hi) by {
            assert(is_highest(all, highest(all)));
        }
        let at_lo = choose|i: int| 0 <= i < all.len() && all[i] == lo;
        let at_hi = choose|i: int| 0 <= i < all.len() && all[i] == hi;
        assert(all[at_lo] == lo && all[at_hi] == hi);
    }
    let mean: u64 = total / buf.len() as u64;
    (mean as i32, hi - lo, railed)
}

/// A frame of so many samples sums to no more than so many full scales.
pub proof fn lemma_sum_is_bounded(buf: Seq<u32>)
    ensures
        0 <= sum(codes(buf)) <= 4095 * buf.len(),
    decreases buf.len(),
{
    if buf.len() > 0 {
        lemma_sum_is_bounded(buf.drop_last());
        assert(codes(buf).drop_last() =~= codes(buf.drop_last()));
    }
}

proof fn lemma_sum_grows(buf: Seq<u32>, n: int)
    requires
        0 <= n <= buf.len(),
    ensures
        sum(codes(buf).take(n)) <= sum(codes(buf)),
    decreases buf.len() - n,
{
    if n < buf.len() {
        lemma_sum_grows(buf, n + 1);
        assert(codes(buf).take(n + 1).drop_last() =~= codes(buf).take(n));
    } else {
        assert(codes(buf).take(n) =~= codes(buf));
    }
}

/// What selecting a range writes to the analog path.
#[derive(Clone, Copy, Debug, PartialEq, Eq)]
pub struct RangePlan {
    /// ADC channel to convert.
    pub channel: u8,
    /// Gain field and bias code to write, where the amplifier is in the path
    /// and they are not in place already. Without them the path is left as it
    /// is, and needs no time to settle.
    pub amplifier: Option<(u8, u16)>,
}

/// The gain field and the bias code of an amplifier step around a mean.
pub open spec fn setting(gain: Gain, mean_in: int) -> (u8, u16) {
    (gain.spec_code() as u8, pivot(gain, mean_in) as u16)
}

/// What has to be written to move the amplifier from what is in place to a
/// range: nothing, unless the path changes.
pub open spec fn moved(range: Range, mean_in: int, in_place: (u8, u16)) -> Option<(u8, u16)> {
    match range {
        Range::Direct => None,
        Range::Pga(g) => if setting(g, mean_in) == in_place {
            None
        } else {
            Some(setting(g, mean_in))
        },
    }
}

/// What to write to select a measurement range around the input's mean, given
/// the amplifier's gain field and bias code that are in place.
pub fn apply_range(range: Range, mean_in: i32, in_place: (u8, u16)) -> (plan: RangePlan)
    requires
        range matches Range::Pga(g) ==> pivot_computable(g, mean_in as int),
    ensures
        plan.channel == if range == Range::Direct {
            ADC_CH_RAW_IN
        } else {
            ADC_CH_OPA_OUT
        },
        plan.amplifier == moved(range, mean_in as int, in_place),
{
    let channel: u8 = range.channel();
    match range {
        Range::Direct => RangePlan { channel, amplifier: None },
        Range::Pga(g) => {
            let gain: u8 = g.code();
            let bias: u16 = dac_code_for(g, mean_in);
            if gain == in_place.0 && bias == in_place.1 {
                RangePlan { channel, amplifier: None }
            } else {
                RangePlan { channel, amplifier: Some((gain, bias)) }
            }
        },
    }
}

/// A range that has just been applied is in place: applying it again moves
/// nothing.
pub proof fn law_applied_range_is_in_place(range: Range, mean_in: int, in_place: (u8, u16))
    ensures
        ({
            let now = match moved(range, mean_in, in_place) {
                Some(setting) => setting,
                None => in_place,
            };
            moved(range, mean_in, now) is None
        }),
{
}

/// The DAC takes away from the amplified input and never adds to it: at any
/// gain the output's DC is at most the gain times the input's, counted from
/// either end of the converter.
pub proof fn law_output_is_bounded_by_the_input(gain: Gain, mean_in: int)
    ensures
        placed_dc(Range::Pga(gain), mean_in) <= multiplier(gain) * mean_in,
        OUT_HI - placed_dc(Range::Pga(gain), mean_in) <= multiplier(gain) * (OUT_HI - mean_in),
{
    let g = multiplier(gain);
    let d = pivot(gain, mean_in);
    let high = OUT_HI as int;
    assert(d + g * (mean_in - d) <= g * mean_in && high - (d + g * (mean_in - d)) <= g * (high - mean_in))
        by (nonlinear_arith)
        requires
            g >= 2,
            0 <= d <= high,
    ;
}

/// How far a DC lies from the middle of the converter.
pub open spec fn off_centre(dc: int) -> int {
    if dc >= OUT_CENTER {
        dc - OUT_CENTER
    } else {
        OUT_CENTER - dc
    }
}

/// The bias centres the output as closely as the part allows: no DAC code
/// brings its DC closer to the middle by a whole DAC step, which moves the
/// output by the gain less one. Where the middle can be reached from both
/// ends, the output lands within a step of it.
pub proof fn law_bias_centres_the_output(gain: Gain, mean_in: int, code: int)
    requires
        0 <= code <= DAC_MAX,
    ensures
        ({
            let g = multiplier(gain);
            let off = off_centre(placed_dc(Range::Pga(gain), mean_in));
            &&& off < off_centre(code + g * (mean_in - code)) + (g - 1)
            &&& g * mean_in >= OUT_CENTER && g * (DAC_MAX - mean_in) >= DAC_MAX - OUT_CENTER ==> off < g - 1
        }),
{
    let g = multiplier(gain);
    let step = g - 1;
    let d = pivot(gain, mean_in);
    let x = g * mean_in - OUT_CENTER;
    let q = x / step;
    let top = DAC_MAX as int;
    vstd::arithmetic::div_mod::lemma_fundamental_div_mod(x, step);
    vstd::arithmetic::div_mod::lemma_mod_bound(x, step);
    assert(d + g * (mean_in - d) == g * mean_in - step * d) by (nonlinear_arith)
        requires
            step == g - 1,
    ;
    assert(code + g * (mean_in - code) == g * mean_in - step * code) by (nonlinear_arith)
        requires
            step == g - 1,
    ;
    assert(step * code >= 0 && step * code <= step * top) by (nonlinear_arith)
        requires
            step >= 1,
            0 <= code <= top,
    ;
    assert(q < 0 ==> step * q <= -step) by (nonlinear_arith)
        requires
            step >= 1,
    ;
    assert(q > top ==> step * q >= step * top + step) by (nonlinear_arith)
        requires
            step >= 1,
    ;
    assert(q >= 0 ==> step * q >= 0) by (nonlinear_arith)
        requires
            step >= 1,
    ;
    assert(g * (top - mean_in) == g * top - g * mean_in) by (nonlinear_arith);
    assert(g * top == step * top + top) by (nonlinear_arith)
        requires
            step == g - 1,
    ;
    if 0 <= q <= top {
        assert(d == q);
    } else if q < 0 {
        assert(d == 0);
        assert(step * d == 0) by (nonlinear_arith)
            requires
                d == 0,
        ;
    } else {
        assert(d == top);
    }
}

/// `Direct` is the least demanding range: wherever a step of the ladder fits a
/// fill percentage, so does the plain wire.
pub proof fn law_direct_is_least_demanding(range: Range, mean_in: int, pp_in: u32, fill_pct: int)
    requires
        fill_pct >= 0,
        within(range, mean_in, pp_in, fill_pct),
    ensures
        within(Range::Direct, mean_in, pp_in, fill_pct),
{
    match range {
        Range::Direct => {},
        Range::Pga(gain) => {
            let g = multiplier(gain);
            let pp = excursion(pp_in);
            let wide = half_swing(range, pp_in);
            let narrow = half_swing(Range::Direct, pp_in);
            let r = room(range, mean_in);
            let r1 = room(Range::Direct, mean_in);
            law_output_is_bounded_by_the_input(gain, mean_in);
            lemma_swing_scales(range, pp_in);
            lemma_swing_scales(Range::Direct, pp_in);
            lemma_room_scales(gain, mean_in);
            assert(r1 > 0) by (nonlinear_arith)
                requires
                    0 < r <= g * r1,
                    g >= 2,
            ;
            assert(r1 * fill_pct >= 0) by (nonlinear_arith)
                requires
                    r1 >= 0,
                    fill_pct >= 0,
            ;
            if pp >= 0 {
                assert((g * pp) / 2 >= g * (pp / 2)) by (nonlinear_arith)
                    requires
                        g >= 2,
                        pp >= 0,
                ;
                assert(narrow * 100 <= r1 * fill_pct) by (nonlinear_arith)
                    requires
                        wide * 100 <= r * fill_pct,
                        wide >= g * narrow,
                        r <= g * r1,
                        fill_pct >= 0,
                        g >= 2,
                ;
            }
        },
    }
}

proof fn lemma_room_scales(gain: Gain, mean_in: int)
    ensures
        room(Range::Pga(gain), mean_in) <= multiplier(gain) * room(Range::Direct, mean_in),
{
    let g = multiplier(gain);
    let high = OUT_HI as int;
    let r1 = room(Range::Direct, mean_in);
    law_output_is_bounded_by_the_input(gain, mean_in);
    assert(g * r1 >= 0) by (nonlinear_arith)
        requires
            g >= 2,
            r1 >= 0,
    ;
    assert(mean_in < 0 ==> g * mean_in < 0) by (nonlinear_arith)
        requires
            g >= 2,
    ;
    assert(mean_in > high ==> g * (high - mean_in) < 0) by (nonlinear_arith)
        requires
            g >= 2,
    ;
}

/// Falling back on the plain wire is no guess: if it does not fit, nothing
/// would have.
pub proof fn law_fallback_is_the_best_there_is(mean_in: int, pp_in: u32, range: Range)
    requires
        !within(Range::Direct, mean_in, pp_in, FILL_TARGET_PCT as int),
    ensures
        picked(mean_in, pp_in) == Range::Direct,
        !within(range, mean_in, pp_in, FILL_TARGET_PCT as int),
{
    if within(range, mean_in, pp_in, FILL_TARGET_PCT as int) {
        law_direct_is_least_demanding(range, mean_in, pp_in, FILL_TARGET_PCT as int);
    }
    if picked(mean_in, pp_in) != Range::Direct {
        law_direct_is_least_demanding(picked(mean_in, pp_in), mean_in, pp_in, FILL_TARGET_PCT as int);
    }
}

proof fn lemma_swing_scales(range: Range, pp_in: u32)
    ensures
        excursion(pp_in) >= 0 ==> half_swing(range, pp_in) == (range.spec_nominal() * excursion(pp_in)) / 2,
        excursion(pp_in) < 0 ==> half_swing(range, pp_in) <= 0,
        range == Range::Direct ==> range.spec_nominal() * excursion(pp_in) == excursion(pp_in),
        0 <= excursion(pp_in) <= 4095 ==> 0 <= half_swing(range, pp_in) <= 16 * 4095,
{
    let n = range.spec_nominal();
    let pp = excursion(pp_in);
    assert((pp >= 0 ==> n * pp >= 0) && (pp < 0 ==> n * pp < 0) && (n == 1 ==> n * pp == pp) && (0 <= pp <= 4095 ==> n * pp <= 32 * 4095)) by (nonlinear_arith)
        requires
            1 <= n <= 32,
    ;
}

/// A range that fits is never passed over for a smaller one, and nothing
/// larger than the pick fits.
pub proof fn law_pick_is_the_largest_fit(mean_in: int, pp_in: u32, i: int)
    requires
        0 <= i < 6,
        within(ladder(i), mean_in, pp_in, FILL_TARGET_PCT as int),
    ensures
        ladder(i).spec_nominal() <= picked(mean_in, pp_in).spec_nominal(),
        within(picked(mean_in, pp_in), mean_in, pp_in, FILL_TARGET_PCT as int),
{
}

/// A steady load cannot make the range ping-pong: deciding again on the same
/// signal changes nothing.
pub proof fn law_steady_load_holds_its_range(current: Range, mean_in: int, pp_in: u32)
    ensures
        next(next(current, mean_in, pp_in), mean_in, pp_in) == next(current, mean_in, pp_in),
{
}

/// Every mean and excursion a twelve-bit probe can report is within what the
/// planner can compute.
pub proof fn law_every_probe_can_be_planned(mean_in: int, pp_in: u32, fill_pct: int)
    requires
        0 <= mean_in <= ADC_MASK,
        pp_in <= ADC_MASK,
        0 <= fill_pct <= 100,
    ensures
        plan_computable(mean_in, pp_in, fill_pct),
        forall|range: Range| #[trigger] fit_computable(range, mean_in, pp_in, fill_pct),
{
    assert forall|range: Range| #[trigger] fit_computable(range, mean_in, pp_in, fill_pct) by {
        lemma_probe_fits(range, mean_in, pp_in, fill_pct);
    }
}

proof fn lemma_probe_fits(range: Range, mean_in: int, pp_in: u32, fill_pct: int)
    requires
        0 <= mean_in <= ADC_MASK,
        pp_in <= ADC_MASK,
        0 <= fill_pct <= 100,
    ensures
        fit_computable(range, mean_in, pp_in, fill_pct),
{
    let r = room(range, mean_in);
    lemma_swing_scales(range, pp_in);
    if let Range::Pga(g) = range {
        let n = multiplier(g);
        let d = pivot(g, mean_in);
        assert(-32 * 4095 <= n * mean_in <= 32 * 4095 && -32 * 4095 <= n * (mean_in - d) <= 32 * 4095)
            by (nonlinear_arith)
            requires
                2 <= n <= 32,
                0 <= mean_in <= 4095,
                0 <= d <= 4095,
        ;
    }
    assert(0 <= r * fill_pct <= 4095 * 100) by (nonlinear_arith)
        requires
            0 <= r <= 4095,
            0 <= fill_pct <= 100,
    ;
}

// ---- What the planner is for --------------------------------------------

/// Each range amplifies twice as much as the one below it, from the plain wire
/// up, and the gain field is how often the plain wire was doubled.
pub proof fn law_each_range_doubles(range: Range, i: int)
    requires
        0 <= i < 5,
    ensures
        ladder(0) == Range::Direct && ladder(0).spec_nominal() == 1,
        ladder(i + 1).spec_nominal() == 2 * ladder(i).spec_nominal(),
        ladder(i + 1) matches Range::Pga(g) && g.spec_code() == i + 1,
        exists|k: int| 0 <= k < 6 && range == #[trigger] ladder(k),
{
    let k: int = match range {
        Range::Direct => 0,
        Range::Pga(g) => g.spec_code(),
    };
    assert(range == ladder(k));
}

/// The bias code solves `G*Vin + (1-G)*Vdac = 2047` for `Vdac`, rounded down:
/// it is the largest DAC code that does not take the output below the middle
/// of the converter, or an end of the DAC where there is none in reach. The
/// output follows from it, and the plain wire adds nothing.
pub proof fn law_bias_solves_for_the_middle(gain: Gain, mean_in: int)
    ensures
        ({
            let g = Range::Pga(gain).spec_nominal();
            let code = pivot(gain, mean_in);
            &&& 0 <= code <= 4095
            &&& code > 0 ==> g * mean_in - (g - 1) * code >= 2047
            &&& code < 4095 ==> g * mean_in - (g - 1) * (code + 1) < 2047
            &&& placed_dc(Range::Pga(gain), mean_in) == g * mean_in - (g - 1) * code
        }),
        placed_dc(Range::Direct, mean_in) == mean_in,
{
    let g = multiplier(gain);
    let step = g - 1;
    let x = g * mean_in - 2047;
    let q = x / step;
    let code = pivot(gain, mean_in);
    vstd::arithmetic::div_mod::lemma_fundamental_div_mod(x, step);
    vstd::arithmetic::div_mod::lemma_mod_bound(x, step);
    assert(step * (code + 1) == step * code + step) by (nonlinear_arith);
    assert(code + g * (mean_in - code) == g * mean_in - step * code) by (nonlinear_arith)
        requires
            step == g - 1,
    ;
    assert(code <= q ==> step * code <= step * q) by (nonlinear_arith)
        requires
            step >= 1,
    ;
    assert(code + 1 > q ==> step * (code + 1) >= step * q + step) by (nonlinear_arith)
        requires
            step >= 1,
    ;
    assert(step * code == (g - 1) * code && step * (code + 1) == (g - 1) * (code + 1));
}

/// A signal fits a share of a range exactly if the output's DC is inside the
/// converter's scale, and half of the amplified swing is no more than that
/// share of the way to either end of it.
pub proof fn law_fit_is_a_share_of_the_way_to_the_ends(range: Range, mean_in: int, pp_in: u32, fill_pct: int)
    requires
        0 < pp_in < 0x8000_0000,
        fill_pct >= 0,
    ensures
        ({
            let dc = placed_dc(range, mean_in);
            let half = (range.spec_nominal() * pp_in) / 2;
            within(range, mean_in, pp_in, fill_pct) <==> {
                &&& 0 < dc < 4095
                &&& half * 100 <= dc * fill_pct
                &&& half * 100 <= (4095 - dc) * fill_pct
            }
        }),
        within(range, mean_in, 0, fill_pct) == within(range, mean_in, 1, fill_pct),
{
    let dc = placed_dc(range, mean_in);
    let n = range.spec_nominal();
    lemma_swing_scales(range, pp_in);
    assert((dc <= 4095 - dc ==> dc * fill_pct <= (4095 - dc) * fill_pct) && (4095 - dc <= dc ==> (4095 - dc)
        * fill_pct <= dc * fill_pct)) by (nonlinear_arith)
        requires
            fill_pct >= 0,
    ;
}

/// A signal is over range exactly if its output leaves the converter's scale,
/// counted half a swing to either side of a DC that is inside it.
pub proof fn law_over_range_is_off_the_scale(range: Range, mean_in: int, pp_in: u32)
    requires
        0 < pp_in < 0x8000_0000,
    ensures
        ({
            let dc = placed_dc(range, mean_in);
            let half = (range.spec_nominal() * pp_in) / 2;
            !within(range, mean_in, pp_in, 100) <==> dc <= 0 || dc >= 4095 || dc - half < 0 || dc + half > 4095
        }),
{
    law_fit_is_a_share_of_the_way_to_the_ends(range, mean_in, pp_in, 100);
}

/// The range a signal is given: none that fits 65 % of its headroom amplifies
/// more, it fits so itself, and the plain wire is what is left where none does.
pub open spec fn is_best_for(range: Range, mean_in: int, pp_in: u32) -> bool {
    &&& forall|other: Range| #[trigger]
        within(other, mean_in, pp_in, 65) ==> other.spec_nominal() <= range.spec_nominal() && within(
            range,
            mean_in,
            pp_in,
            65,
        )
    &&& (forall|other: Range| !#[trigger] within(other, mean_in, pp_in, 65)) ==> range == Range::Direct
}

/// Whichever range the meter is on, a signal that fills less than a quarter of
/// its headroom, or more than three quarters, moves it to the largest range
/// that holds the signal; any other leaves it where it is.
pub proof fn law_fill_decides_the_range(current: Range, mean_in: int, pp_in: u32)
    ensures
        within(current, mean_in, pp_in, 25) || !within(current, mean_in, pp_in, 75) ==> is_best_for(
            next(current, mean_in, pp_in),
            mean_in,
            pp_in,
        ),
        !within(current, mean_in, pp_in, 25) && within(current, mean_in, pp_in, 75) ==> next(current, mean_in, pp_in)
            == current,
{
    law_pick_is_best(mean_in, pp_in);
}

/// The pick is the best range for its signal, and the only one.
pub proof fn law_pick_is_best(mean_in: int, pp_in: u32)
    ensures
        is_best_for(picked(mean_in, pp_in), mean_in, pp_in),
        forall|range: Range| #[trigger] is_best_for(range, mean_in, pp_in) ==> range == picked(mean_in, pp_in),
{
    let best = picked(mean_in, pp_in);
    assert forall|other: Range| #[trigger] within(other, mean_in, pp_in, 65) implies other.spec_nominal()
        <= best.spec_nominal() && within(best, mean_in, pp_in, 65) by {
        law_each_range_doubles(other, 0);
        let k = choose|k: int| 0 <= k < 6 && other == #[trigger] ladder(k);
        law_pick_is_the_largest_fit(mean_in, pp_in, k);
    }
    assert forall|range: Range| #[trigger] is_best_for(range, mean_in, pp_in) implies range == best by {
        if exists|other: Range| within(other, mean_in, pp_in, 65) {
            let other = choose|other: Range| within(other, mean_in, pp_in, 65);
            assert(within(best, mean_in, pp_in, 65) && within(range, mean_in, pp_in, 65));
            assert(range.spec_nominal() == best.spec_nominal());
        }
    }
}

/// Around the same mean, a smaller swing is never given a smaller range.
pub proof fn law_smaller_signals_get_no_smaller_range(mean_in: int, smaller: u32, larger: u32)
    requires
        0 < smaller <= larger < 0x8000_0000,
    ensures
        picked(mean_in, larger).spec_nominal() <= picked(mean_in, smaller).spec_nominal(),
{
    let range = picked(mean_in, larger);
    law_pick_is_best(mean_in, smaller);
    law_pick_is_best(mean_in, larger);
    if within(range, mean_in, larger, 65) {
        law_fit_is_a_share_of_the_way_to_the_ends(range, mean_in, larger, 65);
        law_fit_is_a_share_of_the_way_to_the_ends(range, mean_in, smaller, 65);
        let n = range.spec_nominal();
        assert(n * smaller <= n * larger) by (nonlinear_arith)
            requires
                n >= 1,
                smaller <= larger,
        ;
        assert(within(range, mean_in, smaller, 65));
    } else {
        assert(range == Range::Direct);
    }
}

/// What is written to the amplifier is its gain field and the bias code, in
/// one go, and only where one of them differs from what is in place; the plain
/// wire needs neither.
pub proof fn law_amplifier_is_written_only_to_change_it(range: Range, mean_in: int, in_place: (u8, u16))
    ensures
        range == Range::Direct ==> moved(range, mean_in, in_place) is None,
        range matches Range::Pga(g) ==> {
            &&& moved(range, mean_in, in_place) is None <==> in_place.0 == g.spec_code() && in_place.1 == pivot(
                g,
                mean_in,
            )
            &&& moved(range, mean_in, in_place) matches Some((field, bias)) ==> field == g.spec_code() && bias == pivot(
                g,
                mean_in,
            )
        },
{
}

/// A frame's mean is the sum of its twelve-bit codes over their number,
/// rounded down, and its excursion is the largest difference of two of them.
pub proof fn law_probe_sums_up_its_codes(buf: Seq<u32>, i: int, j: int)
    requires
        0 <= i < buf.len(),
        0 <= j < buf.len(),
    ensures
        ({
            let total = buf.fold_left(0int, |sum: int, x: u32| sum + x % 4096);
            buf.len() * mean_of(buf) <= total < buf.len() * (mean_of(buf) + 1)
        }),
        buf[i] % 4096 - buf[j] % 4096 <= pp_of(buf),
        exists|a: int, b: int|
            #![trigger buf[a], buf[b]]
            0 <= a < buf.len() && 0 <= b < buf.len() && pp_of(buf) == buf[a] % 4096 - buf[b] % 4096,
        touches_an_end(buf) <==> exists|a: int| 0 <= a < buf.len() && (#[trigger] buf[a] % 4096 == 0 || buf[a] % 4096 == 4095),
{
    let n = buf.len() as int;
    let all = codes(buf);
    lemma_sum_folds(buf);
    vstd::arithmetic::div_mod::lemma_fundamental_div_mod(sum(all), n);
    vstd::arithmetic::div_mod::lemma_mod_bound(sum(all), n);
    assert(n * (mean_of(buf) + 1) == n * mean_of(buf) + n) by (nonlinear_arith);
    lemma_ends_exist(all);
    assert(is_lowest(all, lowest(all)) && is_highest(all, highest(all)));
    assert(all[i] == buf[i] % 4096 && all[j] == buf[j] % 4096);
    let a = choose|a: int| 0 <= a < all.len() && all[a] == highest(all);
    let b = choose|b: int| 0 <= b < all.len() && all[b] == lowest(all);
    assert(all[a] == buf[a] % 4096 && all[b] == buf[b] % 4096);
    assert forall|a: int| 0 <= a < buf.len() implies all[a] == #[trigger] buf[a] % 4096 by {}
    if touches_an_end(buf) {
        let a = choose|a: int| 0 <= a < buf.len() && (#[trigger] codes(buf)[a] == 0 || codes(buf)[a] == ADC_MASK);
        assert(all[a] == buf[a] % 4096);
    }
    if exists|a: int| 0 <= a < buf.len() && (#[trigger] buf[a] % 4096 == 0 || buf[a] % 4096 == 4095) {
        let a = choose|a: int| 0 <= a < buf.len() && (#[trigger] buf[a] % 4096 == 0 || buf[a] % 4096 == 4095);
        assert(codes(buf)[a] == buf[a] % 4096);
    }
}

proof fn lemma_sum_folds(buf: Seq<u32>)
    ensures
        sum(codes(buf)) == buf.fold_left(0int, |sum: int, x: u32| sum + x % 4096),
    decreases buf.len(),
{
    if buf.len() > 0 {
        lemma_sum_folds(buf.drop_last());
        assert(codes(buf).drop_last() =~= codes(buf.drop_last()));
    }
}

proof fn lemma_ends_exist(samples: Seq<int>)
    requires
        samples.len() > 0,
    ensures
        exists|v: int| is_lowest(samples, v),
        exists|v: int| is_highest(samples, v),
    decreases samples.len(),
{
    let last = samples.last();
    assert(samples[samples.len() - 1] == last);
    if samples.len() == 1 {
        assert(is_lowest(samples, last) && is_highest(samples, last));
    } else {
        let shorter = samples.drop_last();
        lemma_ends_exist(shorter);
        let lo = choose|v: int| is_lowest(shorter, v);
        let hi = choose|v: int| is_highest(shorter, v);
        let at_lo = choose|k: int| 0 <= k < shorter.len() && shorter[k] == lo;
        let at_hi = choose|k: int| 0 <= k < shorter.len() && shorter[k] == hi;
        assert(samples[at_lo] == lo && samples[at_hi] == hi);
        assert forall|k: int| 0 <= k < samples.len() - 1 implies samples[k] == #[trigger] shorter[k] by {}
        let low = if last < lo {
            last
        } else {
            lo
        };
        let high = if last > hi {
            last
        } else {
            hi
        };
        assert forall|k: int| 0 <= k < samples.len() implies low <= #[trigger] samples[k] <= high by {
            if k < samples.len() - 1 {
                assert(shorter[k] == samples[k]);
            }
        }
        assert(is_lowest(samples, low) && is_highest(samples, high));
    }
}

} // verus!
