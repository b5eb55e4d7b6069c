use ammeter::meter::{set_measuring, Cycle, Line, Meter, Quality, Reading, Stage, Step, AFE_SETTLE_MS, RANGE_SETTLE_MS};
use ammeter::range::{Gain, Range};
use ammeter::sampler::{capture_budget_ms, Wait, ADC_VRSEL, LOAD, N, PROBE_N};

/// A square wave between two levels.
fn probe(lo: u32, hi: u32) -> [u32; PROBE_N] {
    let mut frame = [lo; PROBE_N];
    for i in 0..PROBE_N / 2 {
        frame[2 * i] = hi;
    }
    frame
}

/// Runs a cycle to its end, with what its three outcomes are, and lists its
/// steps.
fn run(meter: &Meter, ready: bool, frame: Option<[u32; PROBE_N]>, drained: bool) -> (Vec<Step>, Cycle) {
    let mut cycle = meter.measure();
    let mut steps = Vec::new();
    while cycle.stage != Stage::Over {
        steps.push(cycle.step());
        cycle = match cycle.stage {
            Stage::Reference => cycle.reference(ready),
            Stage::Probe => cycle.probed(frame.as_ref()),
            Stage::Frame => cycle.framed(drained),
            _ => cycle.done(),
        };
    }
    (steps, cycle)
}

#[test]
fn a_cycle_brings_everything_up_and_down_again() {
    let (steps, cycle) = run(&Meter::new(), true, Some(probe(547, 3547)), true);
    assert_eq!(
        steps,
        vec![
            Step::Measuring(true),
            Step::Reference,
            Step::Amplifier(1, 2047),
            Step::Converter,
            Step::Clock,
            Step::Wait(AFE_SETTLE_MS),
            Step::Channel(3),
            Step::Probe,
            Step::Channel(3),
            Step::Frame,
            Step::StopConverter,
            Step::StopAmplifier,
            Step::Measuring(false),
        ],
    );
    assert_eq!(cycle.step(), Step::Nothing);
    let reading = cycle.reading(7, 8);
    assert_eq!(reading.quality(), Quality::Good);
    assert_eq!(reading.probe, Some((2047, 3000)));
    assert_eq!((reading.rms, reading.amps), (7, 8));
}

#[test]
fn a_small_signal_is_amplified_in_the_same_cycle() {
    let (steps, cycle) = run(&Meter::new(), true, Some(probe(2027, 2067)), true);
    assert_eq!(steps[8], Step::Channel(1));
    assert_eq!(steps[9], Step::Regain(5, 2047));
    assert_eq!(steps[10], Step::Wait(RANGE_SETTLE_MS));
    assert_eq!(steps[11], Step::Frame);
    assert_eq!(cycle.meter.range, Range::Pga(Gain::X32));
    assert_eq!(cycle.meter.mean_in_last, 2047);
    assert_eq!(cycle.reading(0, 0).quality(), Quality::Good);
}

#[test]
fn the_next_cycle_starts_in_the_range_of_the_last() {
    let (_, first) = run(&Meter::new(), true, Some(probe(2027, 2067)), true);
    let (steps, second) = run(&first.meter, true, Some(probe(2027, 2067)), true);
    assert_eq!(steps[2], Step::Amplifier(5, 2047));
    assert_eq!(second.meter.range, first.meter.range);
}

#[test]
fn a_steady_load_needs_no_settling() {
    let (_, first) = run(&Meter::new(), true, Some(probe(2027, 2067)), true);
    let (steps, _) = run(&first.meter, true, Some(probe(2027, 2067)), true);
    assert_eq!(steps[8..10], [Step::Channel(1), Step::Frame]);
    let (steps, moved) = run(&first.meter, true, Some(probe(2028, 2068)), true);
    assert_eq!(moved.meter.range, Range::Pga(Gain::X32));
    assert_eq!(steps[8..12], [Step::Channel(1), Step::Regain(5, 2048), Step::Wait(RANGE_SETTLE_MS), Step::Frame]);
}

#[test]
fn a_probe_that_failed_leaves_the_range_alone() {
    let (_, first) = run(&Meter::new(), true, Some(probe(2027, 2067)), true);
    let (steps, second) = run(&first.meter, true, None, true);
    assert_eq!(second.meter.range, Range::Pga(Gain::X32));
    assert_eq!(steps[8], Step::Channel(1));
    assert_eq!(second.reading(0, 0).quality(), Quality::Incomplete);
    assert_eq!(second.reading(0, 0).probe, None);
}

#[test]
fn a_pinned_input_leaves_the_range_alone() {
    let (_, first) = run(&Meter::new(), true, Some(probe(2027, 2067)), true);
    let (steps, second) = run(&first.meter, true, Some(probe(0, 4095)), true);
    assert_eq!(second.meter.range, Range::Pga(Gain::X32));
    assert_eq!(second.meter.mean_in_last, 2047);
    assert_eq!(steps[8], Step::Channel(1));
    assert_eq!(second.reading(0, 0).quality(), Quality::InputBad);
    assert_eq!(second.reading(0, 0).probe, Some((2047, 4095)));
}

#[test]
fn the_worst_fault_names_a_reading() {
    let mut reading = Reading {
        amps: 0,
        rms: 0,
        range: Range::Direct,
        probe: None,
        ref_bad: true,
        input_bad: true,
        range_over: true,
        incomplete: true,
    };
    assert_eq!(reading.quality(), Quality::RefBad);
    reading.ref_bad = false;
    assert_eq!(reading.quality(), Quality::InputBad);
    reading.input_bad = false;
    assert_eq!(reading.quality(), Quality::OverRange);
    reading.range_over = false;
    assert_eq!(reading.quality(), Quality::Incomplete);
    reading.incomplete = false;
    assert_eq!(reading.quality(), Quality::Good);
}

#[test]
fn a_reference_that_is_not_ready_is_said() {
    let (_, cycle) = run(&Meter::new(), false, Some(probe(547, 3547)), true);
    assert_eq!(cycle.reading(0, 0).quality(), Quality::RefBad);
}

#[test]
fn a_swing_that_no_range_holds_is_over_range() {
    let (_, cycle) = run(&Meter::new(), true, Some(probe(1, 1001)), true);
    assert_eq!(cycle.reading(0, 0).quality(), Quality::Good);
    let mut lopsided = [10; PROBE_N];
    lopsided[0] = 4000;
    let (_, cycle) = run(&Meter::new(), true, Some(lopsided), true);
    assert_eq!(cycle.meter.range, Range::Direct);
    assert_eq!(cycle.reading(0, 0).quality(), Quality::OverRange);
}

#[test]
fn a_frame_that_never_drained_is_incomplete() {
    let (steps, cycle) = run(&Meter::new(), true, Some(probe(547, 3547)), false);
    assert_eq!(cycle.reading(0, 0).quality(), Quality::Incomplete);
    assert_eq!(steps[steps.len() - 3..], [Step::StopConverter, Step::StopAmplifier, Step::Measuring(false)]);
}

#[test]
fn the_two_enable_lines_are_never_active_together() {
    let on = set_measuring(true);
    let off = set_measuring(false);
    assert_ne!(on, off);
    for (writes, measuring) in [(on, true), (off, false)] {
        let mut enable = None;
        let mut enable_n = None;
        for line in [writes.0, writes.1] {
            match line {
                Line::Enable(high) => enable = Some(high),
                Line::EnableN(high) => enable_n = Some(high),
            }
        }
        assert_eq!(enable, Some(measuring));
        assert_eq!(enable_n, Some(!measuring));
    }
}

#[test]
fn captures_are_waited_for_within_a_budget() {
    assert_eq!(LOAD, 7_999);
    assert_eq!(ADC_VRSEL, 2);
    assert_eq!(capture_budget_ms(N as u32), 1_000);
    let mut wait = Wait::start(3);
    assert_eq!(wait, Wait::Polling(3));
    for _ in 0..3 {
        wait = wait.look(false);
    }
    assert_eq!(wait, Wait::GaveUp);
    assert_eq!(Wait::start(0), Wait::GaveUp);
    assert_eq!(Wait::start(3).look(false).look(true), Wait::Ready);
    assert_eq!(Wait::GaveUp.look(true), Wait::GaveUp);
}
