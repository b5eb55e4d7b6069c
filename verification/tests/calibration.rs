use ammeter::cal::{
    cal_for, cal_strictly_ascending, CalError, Calibration, Lookup, Pending, Table, CAL_FALLBACK_A_PER_LSB,
    CAL_FALLBACK_GAIN, CAL_X1, FIELD_MAX,
};
use ammeter::nvcal::StoreError;
use ammeter::range::{Gain, Range};

/// The bench readings of the direct range: raw RMS in LSB, amps.
const BENCH: [(f32, f32); 68] = [
    (2.27, 0.0880),
    (2.64, 0.0893),
    (3.77, 0.0909),
    (4.30, 0.0944),
    (5.74, 0.0988),
    (7.40, 0.1029),
    (9.28, 0.1067),
    (9.48, 0.1078),
    (10.21, 0.1095),
    (10.96, 0.1101),
    (13.28, 0.1143),
    (14.26, 0.1169),
    (15.90, 0.1191),
    (17.60, 0.1227),
    (20.20, 0.1271),
    (21.60, 0.1282),
    (22.37, 0.1305),
    (24.47, 0.1337),
    (25.62, 0.1362),
    (29.49, 0.1421),
    (37.66, 0.1592),
    (39.68, 0.1628),
    (41.27, 0.1671),
    (44.61, 0.1720),
    (46.28, 0.1759),
    (50.50, 0.1833),
    (51.97, 0.1857),
    (58.45, 0.1871),
    (63.23, 0.2068),
    (66.75, 0.2141),
    (68.11, 0.2154),
    (72.36, 0.2235),
    (80.26, 0.2366),
    (88.15, 0.2517),
    (105.09, 0.2862),
    (108.72, 0.2990),
    (111.93, 0.2998),
    (125.07, 0.3259),
    (145.02, 0.3668),
    (151.59, 0.3893),
    (156.98, 0.3920),
    (174.03, 0.4281),
    (180.54, 0.4391),
    (214.61, 0.5170),
    (234.26, 0.5561),
    (239.65, 0.5699),
    (283.56, 0.6612),
    (354.30, 0.8161),
    (372.74, 0.8571),
    (386.11, 0.8928),
    (395.20, 0.9024),
    (444.27, 1.0044),
    (478.03, 1.0837),
    (489.56, 1.0972),
    (499.72, 1.1298),
    (512.25, 1.1520),
    (558.70, 1.2566),
    (593.30, 1.3241),
    (695.66, 1.5441),
    (735.20, 1.6659),
    (752.66, 1.6703),
    (799.88, 1.7617),
    (820.14, 1.8176),
    (867.90, 1.8660),
    (887.65, 1.9574),
    (997.20, 2.2043),
    (1021.62, 2.2281),
    (1218.58, 2.6763),
];

fn bits(points: &[(f32, f32)]) -> Vec<(u32, u32)> {
    points.iter().map(|p| (p.0.to_bits(), p.1.to_bits())).collect()
}

fn push(cal: &mut Calibration, points: &[(f32, f32)]) {
    for (i, p) in points.iter().enumerate() {
        assert_eq!(cal.stage_point(i, p.0.to_bits(), p.1.to_bits()), Ok(()));
    }
}

fn installed(points: &[(f32, f32)]) -> Calibration {
    let mut cal = Calibration::new();
    push(&mut cal, points);
    let pending = cal.commit_field(points.len()).unwrap();
    assert_eq!(cal.settle(pending, Ok(())), Ok(()));
    cal
}

#[test]
fn the_direct_table_is_the_bench_run() {
    assert_eq!(CAL_X1.to_vec(), bits(&BENCH));
    assert_eq!(cal_for(Range::Direct), bits(&BENCH));
    assert!(cal_strictly_ascending(&CAL_X1));
}

#[test]
fn the_bench_run_ascends_in_both_columns() {
    for w in BENCH.windows(2) {
        assert!(w[0].0 < w[1].0);
        assert!(w[0].1 < w[1].1);
        assert!(w[1].0 >= 1.02 * w[0].0 - 0.011);
    }
}

#[test]
fn the_other_ranges_have_no_table() {
    for gain in [Gain::X2, Gain::X4, Gain::X8, Gain::X16, Gain::X32] {
        assert!(cal_for(Range::Pga(gain)).is_empty());
        assert_eq!(
            Calibration::new().lsb_to_amps(100.0f32.to_bits(), Range::Pga(gain)),
            Lookup::Scale { nominal: Range::Pga(gain).nominal() },
        );
    }
}

#[test]
fn the_fallback_scale_is_the_one_of_the_front_end() {
    assert_eq!(CAL_FALLBACK_A_PER_LSB, 0.002685222f32.to_bits());
    assert_eq!(CAL_FALLBACK_GAIN, 1.0f32.to_bits());
}

#[test]
fn ascent_is_strict_and_in_both_columns() {
    assert!(cal_strictly_ascending(&[]));
    assert!(cal_strictly_ascending(&bits(&[(1.0, 5.0)])));
    assert!(cal_strictly_ascending(&bits(&[(1.0, 5.0), (2.0, 6.0)])));
    assert!(!cal_strictly_ascending(&bits(&[(1.0, 5.0), (2.0, 4.0)])));
    assert!(!cal_strictly_ascending(&bits(&[(1.0, 5.0), (1.0, 6.0)])));
    assert!(!cal_strictly_ascending(&bits(&[(2.0, 5.0), (1.0, 6.0)])));
    assert!(!cal_strictly_ascending(&bits(&[(1.0, 5.0), (f32::NAN, 6.0)])));
    assert!(!cal_strictly_ascending(&bits(&[(1.0, 5.0), (2.0, f32::NAN)])));
    assert!(!cal_strictly_ascending(&bits(&[(f32::NAN, 1.0)])));
    assert!(!cal_strictly_ascending(&bits(&[(1.0, -f32::NAN)])));
    assert!(cal_strictly_ascending(&bits(&[(f32::NEG_INFINITY, 1.0), (0.0, f32::INFINITY)])));
    assert!(cal_strictly_ascending(&bits(&[(-2.0, 5.0), (-1.0, 6.0), (0.0, 7.0)])));
    assert!(!cal_strictly_ascending(&bits(&[(-0.0, 5.0), (0.0, 6.0)])));
}

#[test]
fn a_reading_is_looked_up_between_its_neighbours() {
    let cal = Calibration::new();
    assert_eq!(
        cal.lsb_to_amps(3.0f32.to_bits(), Range::Direct),
        Lookup::Line { from: bits(&BENCH)[1], to: bits(&BENCH)[2] },
    );
}

#[test]
fn a_reading_on_a_point_comes_to_that_point() {
    let cal = Calibration::new();
    let found = cal.lsb_to_amps(BENCH[5].0.to_bits(), Range::Direct);
    match found {
        Lookup::Line { from, to } => {
            let (x0, y0) = (f32::from_bits(from.0), f32::from_bits(from.1));
            let (x1, y1) = (f32::from_bits(to.0), f32::from_bits(to.1));
            let y = y0 + (y1 - y0) * (BENCH[5].0 - x0) / (x1 - x0);
            assert!((y - BENCH[5].1).abs() < 1e-6);
        }
        Lookup::Scale { .. } => panic!("the direct range has a table"),
    }
}

#[test]
fn the_end_segments_are_extended() {
    let cal = Calibration::new();
    assert_eq!(
        cal.lsb_to_amps(0.5f32.to_bits(), Range::Direct),
        Lookup::Line { from: bits(&BENCH)[0], to: bits(&BENCH)[1] },
    );
    assert_eq!(
        cal.lsb_to_amps(5000.0f32.to_bits(), Range::Direct),
        Lookup::Line { from: bits(&BENCH)[66], to: bits(&BENCH)[67] },
    );
}

#[test]
fn a_pushed_table_replaces_the_built_in_one() {
    let points = [(10.0, 0.1), (20.0, 0.2), (40.0, 0.5)];
    let cal = installed(&points);
    assert_eq!(cal.field_len(), 3);
    assert_eq!(
        cal.lsb_to_amps(30.0f32.to_bits(), Range::Direct),
        Lookup::Line { from: bits(&points)[1], to: bits(&points)[2] },
    );
    assert_eq!(
        cal.lsb_to_amps(30.0f32.to_bits(), Range::Pga(Gain::X2)),
        Lookup::Scale { nominal: 2 },
    );
}

#[test]
fn a_push_leaves_the_table_in_use_until_it_is_committed() {
    let mut cal = Calibration::new();
    push(&mut cal, &[(10.0, 0.1), (20.0, 0.2)]);
    assert_eq!(cal.field_len(), 0);
    assert_eq!(
        cal.lsb_to_amps(3.0f32.to_bits(), Range::Direct),
        Lookup::Line { from: bits(&BENCH)[1], to: bits(&BENCH)[2] },
    );
}

#[test]
fn a_point_beyond_the_table_is_refused() {
    let mut cal = Calibration::new();
    assert_eq!(cal.stage_point(FIELD_MAX, 1.0f32.to_bits(), 1.0f32.to_bits()), Err(CalError::Index));
    assert_eq!(cal.stage_point(usize::MAX, 1.0f32.to_bits(), 1.0f32.to_bits()), Err(CalError::Index));
    assert_eq!(cal.stage_point(FIELD_MAX - 1, 1.0f32.to_bits(), 1.0f32.to_bits()), Ok(()));
}

#[test]
fn a_point_that_is_no_reading_is_refused() {
    let mut cal = Calibration::new();
    let one = 1.0f32.to_bits();
    for bad in [f32::NAN, f32::INFINITY, f32::NEG_INFINITY, -1.0] {
        assert_eq!(cal.stage_point(0, bad.to_bits(), one), Err(CalError::Value));
        assert_eq!(cal.stage_point(0, one, bad.to_bits()), Err(CalError::Value));
    }
    assert_eq!(cal.stage_point(0, 0.0f32.to_bits(), 0.0f32.to_bits()), Ok(()));
    assert_eq!(cal.stage_point(1, (-0.0f32).to_bits(), one), Ok(()));
}

#[test]
fn a_repeated_point_is_staged_over_the_earlier_one() {
    let mut cal = Calibration::new();
    push(&mut cal, &[(10.0, 0.1), (20.0, 0.2)]);
    assert_eq!(cal.stage_point(1, 30.0f32.to_bits(), 0.4f32.to_bits()), Ok(()));
    match cal.commit_field(2).unwrap() {
        Pending::Install(table) => assert_eq!(table.as_slice(), &bits(&[(10.0, 0.1), (30.0, 0.4)])[..]),
        Pending::Clear => panic!("two points are a table"),
    }
}

#[test]
fn a_gap_in_a_push_is_refused() {
    let mut cal = Calibration::new();
    let one = 1.0f32.to_bits();
    let two = 2.0f32.to_bits();
    assert_eq!(cal.stage_point(0, one, one), Ok(()));
    assert_eq!(cal.stage_point(2, two, two), Ok(()));
    assert_eq!(cal.commit_field(3).err(), Some(CalError::Missing));
    assert_eq!(cal.commit_field(2).err(), Some(CalError::Missing));
}

#[test]
fn a_commit_of_fewer_points_than_were_staged_is_refused() {
    let mut cal = Calibration::new();
    push(&mut cal, &[(10.0, 0.1), (20.0, 0.2), (30.0, 0.3)]);
    assert_eq!(cal.commit_field(2).err(), Some(CalError::Missing));
    assert_eq!(cal.field_len(), 0);
    assert!(cal.commit_field(3).is_ok());
}

#[test]
fn a_clear_forgets_what_was_staged() {
    let mut cal = Calibration::new();
    push(&mut cal, &[(10.0, 0.1), (20.0, 0.2)]);
    assert!(cal.clear_field().is_none());
    assert_eq!(cal.commit_field(2).err(), Some(CalError::Missing));
    assert_eq!(cal.field_len(), 0);
}

#[test]
fn a_commit_forgets_what_was_staged() {
    let mut cal = installed(&[(10.0, 0.1), (20.0, 0.2)]);
    assert_eq!(cal.stage_point(0, 11.0f32.to_bits(), 0.1f32.to_bits()), Ok(()));
    assert_eq!(cal.commit_field(2).err(), Some(CalError::Missing));
}

#[test]
fn a_count_that_is_no_table_is_refused() {
    let mut cal = Calibration::new();
    push(&mut cal, &[(10.0, 0.1), (20.0, 0.2)]);
    assert_eq!(cal.commit_field(0).err(), Some(CalError::Order));
    assert_eq!(cal.commit_field(1).err(), Some(CalError::Order));
    assert_eq!(cal.commit_field(FIELD_MAX + 1).err(), Some(CalError::Order));
    assert!(cal.commit_field(2).is_ok());
}

#[test]
fn a_table_out_of_order_is_refused() {
    let mut cal = Calibration::new();
    push(&mut cal, &[(10.0, 0.1), (10.0, 0.2)]);
    assert_eq!(cal.commit_field(2).err(), Some(CalError::Order));
    push(&mut cal, &[(10.0, 0.1), (9.0, 0.2)]);
    assert_eq!(cal.commit_field(2).err(), Some(CalError::Order));
}

#[test]
fn a_full_table_can_be_pushed() {
    let points: Vec<(f32, f32)> = (0..16).map(|i| (10.0 * (i + 1) as f32, 0.1 * (i + 1) as f32)).collect();
    let cal = installed(&points);
    assert_eq!(cal.field_len(), 16);
}

#[test]
fn a_table_that_was_not_stored_is_not_installed() {
    let mut cal = installed(&[(10.0, 0.1), (20.0, 0.2)]);
    push(&mut cal, &[(11.0, 0.1), (21.0, 0.2), (31.0, 0.3)]);
    let pending = cal.commit_field(3).unwrap();
    assert_eq!(cal.settle(pending, Err(StoreError::Flash)), Err(CalError::Flash));
    assert_eq!(cal.field_len(), 2);
}

#[test]
fn clearing_goes_back_to_the_built_in_table() {
    let mut cal = installed(&[(10.0, 0.1), (20.0, 0.2)]);
    let pending = cal.clear_field().unwrap();
    assert_eq!(pending.record().len, 0);
    assert_eq!(cal.settle(pending, Err(StoreError::Flash)), Err(CalError::Flash));
    assert_eq!(cal.field_len(), 2);
    let again = cal.clear_field().unwrap();
    assert_eq!(cal.settle(again, Ok(())), Ok(()));
    assert_eq!(cal.field_len(), 0);
    assert_eq!(
        cal.lsb_to_amps(3.0f32.to_bits(), Range::Direct),
        Lookup::Line { from: bits(&BENCH)[1], to: bits(&BENCH)[2] },
    );
}

#[test]
fn there_is_nothing_to_clear_at_first() {
    assert!(Calibration::new().clear_field().is_none());
}

#[test]
fn a_stored_table_is_loaded_if_it_is_one() {
    let mut table = Table::empty();
    table.points[0] = (10.0f32.to_bits(), 0.1f32.to_bits());
    table.points[1] = (20.0f32.to_bits(), 0.2f32.to_bits());
    table.len = 2;
    assert!(table.valid());
    let mut cal = Calibration::new();
    cal.load_field(Some(table));
    assert_eq!(cal.field_len(), 2);
    cal.load_field(None);
    assert_eq!(cal.field_len(), 0);
    table.points[1] = table.points[0];
    cal.load_field(Some(table));
    assert_eq!(cal.field_len(), 0);
}

#[test]
fn a_table_is_valid_from_two_ascending_points_on() {
    let mut table = Table::empty();
    assert!(!table.valid());
    table.points[0] = (10.0f32.to_bits(), 0.1f32.to_bits());
    table.len = 1;
    assert!(!table.valid());
    table.points[1] = (5.0f32.to_bits(), 0.1f32.to_bits());
    table.len = 2;
    assert!(!table.valid());
    table.points[1] = (15.0f32.to_bits(), f32::NAN.to_bits());
    assert!(!table.valid());
    table.points[1] = (15.0f32.to_bits(), 0.05f32.to_bits());
    assert!(table.valid());
}
