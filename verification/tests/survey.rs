use ammeter::range::Gain;
use ammeter::rails::{
    cmd_hi, cmd_lo, high_start, low_start, read_mean, report, top_shoulder, tracks_gain, Action, Measurement, Outcome,
    Rail, Survey, AVG_N, FULL_N, ZOOM_N,
};

/// What the amplifier's output reads at a DAC code, for a made-up part.
fn output(code: u16) -> u16 {
    (2 * code).clamp(5, 4000)
}

/// Runs a pass, with a fault at the given reading if there is one, and gives
/// what was measured and what was announced.
fn pass(probe: Option<(i32, u32)>, fault: Option<usize>) -> (Measurement, Vec<String>, Vec<Action>) {
    let mut survey = Survey::new();
    let mut announced = Vec::new();
    let mut actions = Vec::new();
    let mut reads = 0;
    loop {
        if let Some(line) = survey.announcement() {
            announced.push(line);
        }
        let action = survey.action();
        actions.push(action);
        let outcome = match action {
            Action::Probe => Outcome::Probed(probe),
            Action::Setup { .. } => Outcome::Ready(true),
            Action::Restore { .. } => Outcome::Restored,
            Action::Rail { gain } => Outcome::Read(Some(if actions.len() < 20 { 4000 } else { 5 + gain as u16 })),
            Action::Read { code } => {
                reads += 1;
                Outcome::Read(if fault == Some(reads) { None } else { Some(output(code)) })
            }
            Action::Finished => break,
        };
        survey.record(outcome);
    }
    (survey.into_measurement(), announced, actions)
}

#[test]
fn a_pass_visits_both_rails_and_their_shoulders() {
    let (found, announced, actions) = pass(Some((100, 3)), None);
    assert_eq!(
        announced,
        vec![
            "# high rails, each gain",
            "# full sweep",
            "# high shoulder from 1952",
            "# low rails, each gain",
            "# low shoulder from 136",
        ],
    );
    assert_eq!(actions[0], Action::Probe);
    assert_eq!(actions[1], Action::Setup { high: true });
    assert_eq!(actions[2], Action::Rail { gain: 1 });
    assert_eq!(actions[6], Action::Rail { gain: 5 });
    assert_eq!(actions[7], Action::Restore { gain: 1 });
    assert_eq!(actions[8], Action::Read { code: 0 });
    assert_eq!(actions[9], Action::Read { code: 32 });
    assert_eq!(actions[8 + FULL_N - 1], Action::Read { code: 4064 });
    assert_eq!(actions[8 + FULL_N], Action::Read { code: 1952 });
    assert_eq!(found.full.len(), FULL_N);
    assert_eq!(found.high.len(), ZOOM_N);
    assert_eq!(found.low.len(), ZOOM_N);
    assert_eq!(found.low_start, 136);
    assert_eq!(found.probe, Some((100, 3)));
}

#[test]
fn rails_are_read_with_their_commands() {
    let (found, _, _) = pass(Some((100, 3)), None);
    assert_eq!(found.rail_hi[0], Some(Rail { out: 4000, cmd: Some(8190) }));
    assert_eq!(found.rail_hi[4], Some(Rail { out: 4000, cmd: Some(131_040) }));
    assert_eq!(found.rail_lo[0], Some(Rail { out: 6, cmd: Some(-3_895) }));
    assert_eq!(found.rail_lo[4], Some(Rail { out: 10, cmd: Some(-123_745) }));
    assert_eq!(found.window(), (Some(10), Some(4000)));
}

#[test]
fn a_fault_in_a_sweep_goes_on_with_the_low_end() {
    let (found, announced, _) = pass(Some((100, 3)), Some(3));
    assert_eq!(found.full.len(), 2);
    assert!(found.high.is_empty());
    assert_eq!(found.low.len(), ZOOM_N);
    assert_eq!(announced.len(), 4);
}

#[test]
fn an_unknown_input_leaves_the_low_rail_unproven() {
    let (found, _, _) = pass(None, None);
    assert_eq!(found.rail_lo[0], Some(Rail { out: 6, cmd: None }));
    assert_eq!(found.window().0, None);
    assert!(found.low.is_empty());
}

#[test]
fn a_rail_is_one_that_was_driven_past() {
    assert!(!Rail { out: 0, cmd: None }.saturated());
    assert!(!Rail { out: 0, cmd: Some(-512) }.saturated());
    assert!(Rail { out: 0, cmd: Some(-513) }.saturated());
    assert!(!Rail { out: 0, cmd: Some(4607) }.saturated());
    assert!(Rail { out: 0, cmd: Some(4608) }.saturated());
}

#[test]
fn commands_follow_the_amplifier() {
    assert_eq!(cmd_hi(Gain::X8, 4095), 32_760);
    assert_eq!(cmd_lo(Gain::X4, 100, 4095), 400 - 3 * 4095);
}

#[test]
fn a_short_capture_is_averaged() {
    let mut buf = [100u32; AVG_N];
    buf[0] = 0xF000 | 116;
    assert_eq!(read_mean(true, &buf), Some(101));
    assert_eq!(read_mean(false, &buf), None);
}

#[test]
fn the_shoulder_is_where_the_plateau_begins() {
    let mut full: Vec<u16> = (0..FULL_N as u16).map(|i| output(32 * i)).collect();
    assert_eq!(top_shoulder(&full), 2016);
    full[FULL_N - 2] = 0;
    assert_eq!(top_shoulder(&full), 4064);
    assert_eq!(top_shoulder(&[7; FULL_N]), 0);
    assert_eq!(high_start(2016), 1952);
    assert_eq!(high_start(32), 0);
}

#[test]
fn the_low_window_stays_on_the_converter() {
    assert_eq!(low_start(100), 136);
    assert_eq!(low_start(0), 0);
    assert_eq!(low_start(-5), 0);
    assert_eq!(low_start(4095), 3968);
}

#[test]
fn readings_that_track_the_gain_are_noticed() {
    let rail = |out| Some(Rail { out, cmd: None });
    assert!(!tracks_gain(&vec![rail(100), rail(200), None]));
    assert!(tracks_gain(&vec![rail(201), rail(100)]));
    assert!(!tracks_gain(&vec![rail(2), rail(0)]));
    assert!(tracks_gain(&vec![rail(3), rail(0)]));
    assert!(!tracks_gain(&vec![]));
}

#[test]
fn a_good_pass_is_reported_with_its_window() {
    let (found, _, _) = pass(Some((100, 3)), None);
    let lines = report(7, &found);
    assert_eq!(lines[0], "# --- pass 7 ---");
    assert_eq!(lines[1], "rdy_hi=1 rdy_lo=1");
    assert_eq!(lines[2], "probe vin=100 pp=3");
    assert_eq!(lines[3], "rail_hi x2 out=4000 cmd=8190 saturated=1");
    assert_eq!(lines[8], "rail_lo x2 out=6 cmd=-3895 saturated=1");
    assert_eq!(lines[13], "window lo=10 hi=4000");
    assert_eq!(lines[14], "verdict lo=opa hi=opa");
    assert_eq!(lines[15], "# section,dac,out");
    assert_eq!(lines[16], "full,0,5");
    assert_eq!(lines[16 + FULL_N], "low,136,272");
    assert_eq!(lines[16 + FULL_N + ZOOM_N], "high,1952,3904");
    assert_eq!(lines[lines.len() - 2], "# range.rs: OUT_LO: i32 = 10; OUT_HI: i32 = 4000;");
    assert_eq!(lines[lines.len() - 1], "# --- end pass 7 ---");
    assert_eq!(lines.len(), 18 + FULL_N + 2 * ZOOM_N);
}

#[test]
fn what_a_pass_did_not_reach_is_said() {
    let nothing = Measurement {
        rail_lo: vec![Some(Rail { out: 3, cmd: None }), None],
        rail_hi: vec![Some(Rail { out: 9, cmd: Some(8190) }), Some(Rail { out: 30, cmd: Some(100) })],
        full: Vec::new(),
        low: Vec::new(),
        low_start: 0,
        high: Vec::new(),
        high_start: 0,
        rdy_hi: false,
        rdy_lo: true,
        probe: None,
    };
    assert_eq!(
        report(1, &nothing),
        vec![
            "# --- pass 1 ---",
            "rdy_hi=0 rdy_lo=1",
            "# probe skipped, so the low rail could not be driven",
            "rail_hi x2 out=9 cmd=8190 saturated=1",
            "rail_hi x4 out=30 cmd=100 saturated=0",
            "rail_lo x2 out=3 cmd=? saturated=?",
            "# rail_lo x4 skipped",
            "warn rail_hi tracks gain: not saturated, G*Vin not VOH",
            "# window unknown: an end produced no reading",
            "# section,dac,out",
            "# full skipped",
            "# low skipped",
            "# high skipped",
            "# --- end pass 1 ---",
        ],
    );
}
