use ammeter::range::{
    apply_range, dac_code_for, dc_for, fits, g_nominal, headroom, next_range, over_range, pick_range, probe_stats,
    Gain, Range, RangePlan, OUT_CENTER, OUT_HI,
};

#[test]
fn gains_are_powers_of_two() {
    let steps = [(Gain::X2, 1, 2), (Gain::X4, 2, 4), (Gain::X8, 3, 8), (Gain::X16, 4, 16), (Gain::X32, 5, 32)];
    for (gain, code, nominal) in steps {
        assert_eq!(gain.code(), code);
        assert_eq!(g_nominal(gain), nominal);
        assert_eq!(Range::Pga(gain).nominal(), nominal);
        assert_eq!(Range::Pga(gain).channel(), 1);
    }
    assert_eq!(Range::Direct.nominal(), 1);
    assert_eq!(Range::Direct.channel(), 3);
}

#[test]
fn the_output_is_centred_on_the_middle_of_the_converter() {
    assert_eq!(OUT_HI, 4095);
    assert_eq!(OUT_CENTER, 2047);
}

#[test]
fn the_pivot_centres_the_amplifier() {
    assert_eq!(dac_code_for(Gain::X2, 2047), 2047);
    assert_eq!(dac_code_for(Gain::X2, 1500), 953);
    assert_eq!(dac_code_for(Gain::X4, 1500), 1317);
    assert_eq!(dac_code_for(Gain::X32, 1500), 1482);
    assert_eq!(dc_for(Range::Pga(Gain::X2), 1500), 2047);
    assert_eq!(dc_for(Range::Pga(Gain::X4), 1500), 2049);
}

#[test]
fn the_pivot_stays_within_the_converter() {
    assert_eq!(dac_code_for(Gain::X2, 500), 0);
    assert_eq!(dac_code_for(Gain::X2, 4000), 4095);
    assert_eq!(dac_code_for(Gain::X2, 1023), 0);
    assert_eq!(dc_for(Range::Pga(Gain::X2), 500), 1000);
}

#[test]
fn the_pivot_is_rounded_towards_zero() {
    assert_eq!(dac_code_for(Gain::X4, 511), 0);
    assert_eq!(dac_code_for(Gain::X4, 513), 1);
}

#[test]
fn the_plain_wire_keeps_the_input_where_it_is() {
    assert_eq!(dc_for(Range::Direct, 1234), 1234);
    assert_eq!(headroom(Range::Direct, 1234), 1234);
    assert_eq!(headroom(Range::Direct, 3000), 1095);
    assert_eq!(headroom(Range::Direct, 0), 0);
    assert_eq!(headroom(Range::Direct, 4095), 0);
}

#[test]
fn headroom_is_never_negative() {
    assert_eq!(headroom(Range::Direct, -5), 0);
    assert_eq!(headroom(Range::Direct, 5000), 0);
}

#[test]
fn a_signal_fits_as_long_as_half_its_swing_is_in_the_headroom() {
    assert!(fits(Range::Direct, 2047, 4094, 100));
    assert!(fits(Range::Direct, 2047, 4095, 100));
    assert!(!fits(Range::Direct, 2047, 4096, 100));
    assert!(fits(Range::Pga(Gain::X2), 2047, 1330, 65));
    assert!(!fits(Range::Pga(Gain::X2), 2047, 1331, 65));
}

#[test]
fn without_headroom_no_signal_fits() {
    assert_eq!(headroom(Range::Direct, 0), 0);
    assert!(!fits(Range::Direct, 0, 1, 100));
    assert!(!fits(Range::Direct, 4095, 0, 100));
    assert!(over_range(Range::Direct, 0, 1));
    assert!(fits(Range::Direct, 1, 1, 100));
}

#[test]
fn a_flat_input_still_has_a_swing() {
    assert_eq!(fits(Range::Pga(Gain::X32), 2047, 0, 0), fits(Range::Pga(Gain::X32), 2047, 1, 0));
    assert!(!fits(Range::Pga(Gain::X32), 2047, 0, 0));
}

#[test]
fn a_small_centred_signal_gets_the_largest_gain() {
    assert_eq!(pick_range(2047, 40), Range::Pga(Gain::X32));
}

#[test]
fn each_range_is_picked_up_to_its_fill() {
    assert_eq!(pick_range(2047, 83), Range::Pga(Gain::X32));
    assert_eq!(pick_range(2047, 84), Range::Pga(Gain::X16));
    assert_eq!(pick_range(2047, 166), Range::Pga(Gain::X16));
    assert_eq!(pick_range(2047, 167), Range::Pga(Gain::X8));
    assert_eq!(pick_range(2047, 1330), Range::Pga(Gain::X2));
    assert_eq!(pick_range(2047, 1331), Range::Direct);
}

#[test]
fn a_signal_that_fits_nowhere_gets_the_plain_wire() {
    assert_eq!(pick_range(2047, 4095), Range::Direct);
    assert_eq!(pick_range(0, 100), Range::Direct);
}

#[test]
fn over_range_is_more_than_the_converter_holds() {
    assert!(!over_range(Range::Direct, 2047, 4095));
    assert!(over_range(Range::Direct, 2047, 4096));
    assert!(over_range(Range::Direct, 100, 400));
}

#[test]
fn a_range_is_kept_between_its_two_limits() {
    // Half swings of the amplifier at two: its limits are 25% and 75% of 2047.
    assert_eq!(next_range(Range::Pga(Gain::X2), 2047, 1200), Range::Pga(Gain::X2));
    assert_eq!(next_range(Range::Pga(Gain::X2), 2047, 1535), Range::Pga(Gain::X2));
    assert_eq!(next_range(Range::Pga(Gain::X2), 2047, 1536), Range::Direct);
    assert_eq!(next_range(Range::Pga(Gain::X2), 2047, 511), Range::Pga(Gain::X4));
    assert_eq!(next_range(Range::Pga(Gain::X2), 2047, 512), Range::Pga(Gain::X2));
}

#[test]
fn a_range_that_was_picked_is_kept() {
    for pp in [10, 84, 167, 400, 900, 1331, 2600] {
        let picked = pick_range(2047, pp);
        assert_eq!(next_range(picked, 2047, pp), picked);
    }
}

#[test]
fn the_probe_is_summed_up() {
    assert_eq!(probe_stats(&[1000, 2000, 3001]), (2000, 2001, false));
    assert_eq!(probe_stats(&[7]), (7, 0, false));
    assert_eq!(probe_stats(&[0xF000 | 100, 200]), (150, 100, false));
}

#[test]
fn a_probe_that_touches_an_end_is_railed() {
    assert_eq!(probe_stats(&[0, 100]), (50, 100, true));
    assert_eq!(probe_stats(&[4095, 4093]), (4094, 2, true));
    assert_eq!(probe_stats(&[4094, 1]), (2047, 4093, false));
}

#[test]
fn a_range_is_applied_by_its_channel_and_its_pivot() {
    assert_eq!(apply_range(Range::Direct, 1500, (1, 2047)), RangePlan { channel: 3, amplifier: None });
    assert_eq!(
        apply_range(Range::Pga(Gain::X4), 1500, (1, 2047)),
        RangePlan { channel: 1, amplifier: Some((2, 1317)) },
    );
}

#[test]
fn a_range_that_is_in_place_moves_nothing() {
    let unmoved = RangePlan { channel: 1, amplifier: None };
    assert_eq!(apply_range(Range::Pga(Gain::X4), 1500, (2, 1317)), unmoved);
    assert_ne!(apply_range(Range::Pga(Gain::X4), 1500, (3, 1317)), unmoved);
    assert_ne!(apply_range(Range::Pga(Gain::X4), 1500, (2, 1318)), unmoved);
}

#[test]
fn no_bias_centres_the_output_better_by_a_step() {
    for gain in [Gain::X2, Gain::X4, Gain::X32] {
        for mean in [0, 300, 1023, 1500, 2047, 3000, 4095] {
            let off = (dc_for(Range::Pga(gain), mean) - OUT_CENTER).abs();
            for code in 0..=4095 {
                let other = (code + g_nominal(gain) * (mean - code) - OUT_CENTER).abs();
                assert!(off < other + g_nominal(gain) - 1);
            }
        }
    }
}

#[test]
fn twice_the_input_is_all_the_first_step_can_reach() {
    assert_eq!(dc_for(Range::Pga(Gain::X2), 700), 1400);
    assert_eq!(dc_for(Range::Pga(Gain::X2), 3900), 3705);
}

#[test]
fn where_the_plain_wire_does_not_fit_nothing_does() {
    for range in [Range::Pga(Gain::X2), Range::Pga(Gain::X8), Range::Pga(Gain::X32)] {
        assert!(!fits(Range::Direct, 100, 140, 65));
        assert!(!fits(range, 100, 140, 65));
    }
    assert_eq!(pick_range(100, 140), Range::Direct);
}
