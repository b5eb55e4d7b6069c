use ammeter::cal::{CalError, Calibration};
use ammeter::link::{
    address, answer_stored, cal_error, field, flag, milliamps, parse_command_for, put_line, send, send_alive,
    send_cal_ack, send_cal_status, serve, source, status, Arrival, Command, Link, Request, Served, Waiting, CMD_MAX,
};
use ammeter::meter::{Quality, Reading};
use ammeter::nvcal::StoreError;
use ammeter::range::{Gain, Range};

fn reading() -> Reading {
    Reading {
        amps: 1.234f32.to_bits(),
        rms: 456.78f32.to_bits(),
        range: Range::Direct,
        probe: Some((2047, 1200)),
        ref_bad: false,
        input_bad: false,
        range_over: false,
        incomplete: false,
    }
}

fn feed(link: &mut Link, line: &[u8], addr: u8) -> Vec<Request> {
    let mut heard = Vec::new();
    for &byte in line {
        if let Some(request) = link.feed(byte, addr) {
            heard.push(request);
        }
    }
    heard
}

#[test]
fn the_switch_is_an_address() {
    assert_eq!(address(false, false, false, false), 0);
    assert_eq!(address(true, false, false, false), 1);
    assert_eq!(address(false, true, false, false), 2);
    assert_eq!(address(false, false, true, false), 4);
    assert_eq!(address(false, false, false, true), 8);
    assert_eq!(address(true, true, true, true), 15);
}

#[test]
fn a_field_is_found_in_any_position() {
    assert_eq!(field("CALPT,ADDR=6,I=0,X=13.56", "ADDR").as_deref(), Some("6"));
    assert_eq!(field("CALPT,I=0,X=13.56,ADDR=6", "ADDR").as_deref(), Some("6"));
    assert_eq!(field("CALPT, I = 0 , ADDR=6", "I").as_deref(), Some("0"));
    assert_eq!(field("CALPT,I=0,I=1", "I").as_deref(), Some("0"));
    assert_eq!(field("ADDR=6", "ADDR"), None);
    assert_eq!(field("CALPT,ADDRESS=6", "ADDR"), None);
    assert_eq!(field("CALPT,X=1=2", "X").as_deref(), Some("1=2"));
}

#[test]
fn a_request_for_a_reading_is_for_whoever_is_named() {
    assert!(matches!(parse_command_for("MEAS", 6), Some(Request::Measure)));
    assert!(matches!(parse_command_for("MEAS,ADDR=6", 6), Some(Request::Measure)));
    assert!(matches!(parse_command_for("MEAS,ADDR=06", 6), Some(Request::Measure)));
    assert!(parse_command_for("MEAS,ADDR=7", 6).is_none());
    assert!(parse_command_for("MEAS,ADDR=x", 6).is_none());
    assert!(parse_command_for("MEASURE", 6).is_none());
    assert!(parse_command_for("meas", 6).is_none());
    assert!(parse_command_for("", 6).is_none());
}

#[test]
fn calibration_commands_need_an_address() {
    assert!(parse_command_for("CALOFF", 6).is_none());
    assert!(parse_command_for("CALGET,ADDR=5", 6).is_none());
    assert!(matches!(parse_command_for("CALOFF,ADDR=6", 6), Some(Request::CalClear)));
    assert!(matches!(parse_command_for("CALGET,ADDR=6", 6), Some(Request::CalStatus)));
    assert!(matches!(parse_command_for("CALEND,ADDR=6,N=3", 6), Some(Request::CalCommit { count: 3 })));
    assert!(parse_command_for("CALEND,ADDR=6", 6).is_none());
    assert!(parse_command_for("CALEND,ADDR=6,N=-1", 6).is_none());
    assert!(parse_command_for("CALXX,ADDR=6", 6).is_none());
}

#[test]
fn a_point_is_parsed_as_it_was_pushed() {
    match parse_command_for("CALPT,ADDR=15,I=15,X=12345.67,Y=2.34567", 15) {
        Some(Request::CalPoint { index, x, y }) => {
            assert_eq!(index, 15);
            assert_eq!(x, "12345.67");
            assert_eq!(y, "2.34567");
        }
        other => panic!("{:?}", other),
    }
    assert!(parse_command_for("CALPT,ADDR=15,I=0,X=1", 15).is_none());
    assert!(parse_command_for("CALPT,ADDR=15,X=1,Y=2", 15).is_none());
}

#[test]
fn a_point_needs_two_numbers() {
    let point = parse_command_for("CALPT,ADDR=15,I=1,X=2.5,Y=0.5", 15).unwrap();
    let (x, y) = (2.5f32.to_bits(), 0.5f32.to_bits());
    assert_eq!(point.resolve(Some(x), Some(y)), Some(Command::CalPoint { index: 1, lsb: x, amps: y }));
    assert_eq!(point.resolve(None, Some(y)), None);
    assert_eq!(point.resolve(Some(x), None), None);
    assert_eq!(Request::Measure.resolve(None, None), Some(Command::Measure));
    assert_eq!(Request::CalCommit { count: 4 }.resolve(None, None), Some(Command::CalCommit { count: 4 }));
}

#[test]
fn a_line_is_assembled_byte_by_byte() {
    let mut link = Link::new();
    assert!(matches!(feed(&mut link, b"MEAS\r\n", 6)[..], [Request::Measure]));
    assert!(matches!(feed(&mut link, b"  MEAS,ADDR=6 \n", 6)[..], [Request::Measure]));
    assert!(feed(&mut link, b"MEAS,ADDR=5\n", 6).is_empty());
    assert!(matches!(feed(&mut link, b"MEAS\nMEAS\n", 6)[..], [Request::Measure, Request::Measure]));
}

#[test]
fn a_line_that_fills_the_buffer_is_heard() {
    let mut link = Link::new();
    let mut line = b"MEAS,ADDR=6,".to_vec();
    while line.len() < CMD_MAX {
        line.push(b'x');
    }
    line.push(b'\n');
    assert!(matches!(feed(&mut link, &line, 6)[..], [Request::Measure]));
    line.insert(20, b'x');
    assert!(feed(&mut link, &line, 6).is_empty());
}

#[test]
fn a_line_that_outgrows_the_buffer_is_dropped_whole() {
    let mut link = Link::new();
    let mut line = vec![b'X'; CMD_MAX + 1];
    line.extend_from_slice(b"MEAS\n");
    assert!(feed(&mut link, &line, 6).is_empty());
    assert!(matches!(feed(&mut link, b"MEAS\n", 6)[..], [Request::Measure]));
    let mut wide = vec![0xFFu8; CMD_MAX / 2 + 1];
    wide.extend_from_slice(b"MEAS\r");
    assert!(feed(&mut link, &wide, 6).is_empty());
    let mut long = vec![b'X'; 10 * CMD_MAX];
    long.extend_from_slice(b"\r\nMEAS\r\n");
    assert!(matches!(feed(&mut link, &long, 6)[..], [Request::Measure]));
}

#[test]
fn what_is_discarded_leaves_nothing_behind() {
    let mut link = Link::new();
    assert!(feed(&mut link, &vec![b'X'; CMD_MAX + 1], 6).is_empty());
    link.discard_pending();
    assert!(matches!(feed(&mut link, b"MEAS\n", 6)[..], [Request::Measure]));
}

#[test]
fn a_partial_line_can_be_dropped() {
    let mut link = Link::new();
    assert!(feed(&mut link, b"ME", 6).is_empty());
    link.discard_pending();
    assert!(feed(&mut link, b"AS\n", 6).is_empty());
}

#[test]
fn silence_is_announced() {
    let mut link = Link::new();
    match link.wait_command(Arrival::Beat, 15) {
        Waiting::Announce(line) => assert_eq!(line.as_str(), Some("IMHERE,ADDR=15\r\n")),
        other => panic!("{:?}", other),
    }
    assert!(matches!(link.wait_command(Arrival::Nothing, 15), Waiting::On));
    for byte in b"MEAS" {
        assert!(matches!(link.wait_command(Arrival::Byte(*byte), 15), Waiting::On));
    }
    assert!(matches!(link.wait_command(Arrival::Nothing, 15), Waiting::On));
    assert!(matches!(link.wait_command(Arrival::Byte(b'\n'), 15), Waiting::Command(Request::Measure)));
}

#[test]
fn the_heartbeat_is_fifteen_bytes_at_a_low_address() {
    assert_eq!(send_alive(6).as_str(), Some("IMHERE,ADDR=6\r\n"));
    assert_eq!(send_alive(6).as_str().unwrap().len(), 15);
}

#[test]
fn the_alarm_is_by_the_milliamps() {
    assert_eq!(status(0), "LOW");
    assert_eq!(status(199), "LOW");
    assert_eq!(status(200), "NORMAL");
    assert_eq!(status(1234), "NORMAL");
    assert_eq!(status(2000), "NORMAL");
    assert_eq!(status(2001), "HIGH");
}

#[test]
fn a_reading_is_two_lines() {
    let (test, cal) = send(6, &reading(), "1.234", "456.78", 0);
    assert_eq!(test.as_str(), Some("METER_TEST,ADDR=6,CURRENT_MA=1234,STATUS=NORMAL\r\n"));
    assert_eq!(
        cal.as_str(),
        Some("METER_CAL,ADDR=6,RMS=456.78,GAIN=1,FLAG=OK,SRC=ROM,MEAN=2047,PP=1200\r\n"),
    );
}

#[test]
fn a_reading_without_a_probe_says_nothing_of_the_input() {
    let mut bad = reading();
    bad.probe = None;
    bad.incomplete = true;
    bad.range = Range::Pga(Gain::X16);
    let (test, cal) = send(15, &bad, "12345.678", "0.00", 3);
    assert_eq!(test.as_str(), Some("METER_TEST,ADDR=15,CURRENT_MA=9999999,STATUS=HIGH\r\n"));
    assert_eq!(cal.as_str(), Some("METER_CAL,ADDR=15,RMS=0.00,GAIN=16,FLAG=PARTIAL,SRC=FIELD\r\n"));
}

#[test]
fn a_line_that_overruns_is_not_sent_short() {
    let mut wide = reading();
    wide.probe = Some((i32::MIN, u32::MAX));
    wide.input_bad = true;
    wide.range = Range::Pga(Gain::X32);
    let (_, fits) = send(255, &wide, "0.000", &"9".repeat(39), 2);
    assert_eq!(fits.as_str().map(|line| line.len()), Some(128));
    let (test, over) = send(255, &wide, "0.000", &"9".repeat(40), 2);
    assert_eq!(over.as_str(), None);
    assert_eq!(test.as_str(), Some("METER_TEST,ADDR=255,CURRENT_MA=0,STATUS=LOW\r\n"));
}

#[test]
fn the_number_on_the_wire_is_the_number_on_the_panel() {
    for (amps, ma) in [(0.4206f32, 421), (0.4204, 420), (1.2345, 1235), (1.2344, 1234), (0.0, 0), (0.0004, 0), (2.0004, 2000)] {
        assert_eq!(milliamps(&format!("{amps:.3}")), ma);
    }
    let (test, _) = send(6, &reading(), &format!("{:.3}", 0.4206f32), "1.00", 0);
    assert_eq!(test.as_str(), Some("METER_TEST,ADDR=6,CURRENT_MA=421,STATUS=NORMAL\r\n"));
}

#[test]
fn milliamps_are_bounded_by_seven_digits() {
    assert_eq!(milliamps("9999.999"), 9_999_999);
    assert_eq!(milliamps("10000.000"), 9_999_999);
    assert_eq!(milliamps(&format!("{:.3}", f32::MAX)), 9_999_999);
    assert_eq!(milliamps(&format!("{:.3}", f32::INFINITY)), 9_999_999);
}

#[test]
fn what_is_no_amount_is_sent_as_none() {
    assert_eq!(milliamps(&format!("{:.3}", -0.5f32)), 0);
    assert_eq!(milliamps(&format!("{:.3}", f32::NAN)), 0);
    assert_eq!(milliamps(&format!("{:.3}", f32::NEG_INFINITY)), 0);
    assert_eq!(milliamps(""), 0);
}

#[test]
fn everything_has_a_name_on_the_wire() {
    assert_eq!(flag(Quality::RefBad), "REF_BAD");
    assert_eq!(flag(Quality::InputBad), "BAD_INPUT");
    assert_eq!(flag(Quality::OverRange), "OVER");
    assert_eq!(flag(Quality::Incomplete), "PARTIAL");
    assert_eq!(flag(Quality::Good), "OK");
    assert_eq!(source(0), "ROM");
    assert_eq!(source(1), "ROM");
    assert_eq!(source(2), "FIELD");
    assert_eq!(cal_error(CalError::Index), "INDEX");
    assert_eq!(cal_error(CalError::Value), "VALUE");
    assert_eq!(cal_error(CalError::Missing), "MISSING");
    assert_eq!(cal_error(CalError::Order), "ORDER");
    assert_eq!(cal_error(CalError::Flash), "FLASH");
}

#[test]
fn a_point_is_acknowledged_by_its_index() {
    assert_eq!(send_cal_ack(6, 3, None).as_str(), Some("CALACK,ADDR=6,I=3\r\n"));
    assert_eq!(send_cal_ack(6, 16, Some(CalError::Index)).as_str(), Some("CALACK,ADDR=6,I=16,ERR=INDEX\r\n"));
}

#[test]
fn the_table_in_use_is_said() {
    assert_eq!(send_cal_status(6, 0, None).as_str(), Some("CALSTAT,ADDR=6,SRC=ROM,N=0\r\n"));
    assert_eq!(
        send_cal_status(6, 4, Some(CalError::Missing)).as_str(),
        Some("CALSTAT,ADDR=6,SRC=FIELD,N=4,ERR=MISSING\r\n"),
    );
}

fn reply(served: Served) -> String {
    match served {
        Served::Reply(line) => line.as_str().unwrap().to_string(),
        other => panic!("{:?}", other),
    }
}

#[test]
fn a_push_is_served_from_the_first_point_to_the_store() {
    let mut cal = Calibration::new();
    assert!(matches!(serve(&mut cal, 6, Command::Measure), Served::Measure));
    for (index, x) in [10.0f32, 20.0].iter().enumerate() {
        let point = Command::CalPoint { index, lsb: x.to_bits(), amps: (x / 100.0).to_bits() };
        assert_eq!(reply(serve(&mut cal, 6, point)), format!("CALACK,ADDR=6,I={}\r\n", index));
    }
    let bad = Command::CalPoint { index: 2, lsb: f32::NAN.to_bits(), amps: 0 };
    assert_eq!(reply(serve(&mut cal, 6, bad)), "CALACK,ADDR=6,I=2,ERR=VALUE\r\n");
    assert_eq!(
        reply(serve(&mut cal, 6, Command::CalCommit { count: 3 })),
        "CALSTAT,ADDR=6,SRC=ROM,N=0,ERR=MISSING\r\n",
    );
    let pending = match serve(&mut cal, 6, Command::CalCommit { count: 2 }) {
        Served::Store(pending) => pending,
        other => panic!("{:?}", other),
    };
    let failed = answer_stored(&mut cal, 6, pending, Err(StoreError::Flash));
    assert_eq!(failed.as_str(), Some("CALSTAT,ADDR=6,SRC=ROM,N=0,ERR=FLASH\r\n"));
    let done = answer_stored(&mut cal, 6, pending, Ok(()));
    assert_eq!(done.as_str(), Some("CALSTAT,ADDR=6,SRC=FIELD,N=2\r\n"));
    assert_eq!(reply(serve(&mut cal, 6, Command::CalStatus)), "CALSTAT,ADDR=6,SRC=FIELD,N=2\r\n");
}

#[test]
fn a_table_is_cleared_once() {
    let mut cal = Calibration::new();
    assert_eq!(reply(serve(&mut cal, 6, Command::CalClear)), "CALSTAT,ADDR=6,SRC=ROM,N=0\r\n");
    for (index, x) in [10.0f32, 20.0].iter().enumerate() {
        serve(&mut cal, 6, Command::CalPoint { index, lsb: x.to_bits(), amps: x.to_bits() });
    }
    if let Served::Store(pending) = serve(&mut cal, 6, Command::CalCommit { count: 2 }) {
        answer_stored(&mut cal, 6, pending, Ok(()));
    }
    match serve(&mut cal, 6, Command::CalClear) {
        Served::Store(pending) => {
            let done = answer_stored(&mut cal, 6, pending, Ok(()));
            assert_eq!(done.as_str(), Some("CALSTAT,ADDR=6,SRC=ROM,N=0\r\n"));
        }
        other => panic!("{:?}", other),
    }
}

#[test]
fn a_line_goes_out_in_packets() {
    let line = "METER_TEST,ADDR=6,CURRENT_MA=1234,STATUS=NORMAL\r\n";
    let packets = put_line(line);
    assert_eq!(packets.iter().map(|p| p.len()).collect::<Vec<usize>>(), vec![20, 20, 9]);
    assert_eq!(packets.concat(), line.as_bytes());
    assert!(put_line("").is_empty());
    assert_eq!(put_line(&"x".repeat(20)).len(), 1);
}

#[test]
fn what_a_meter_sends_is_not_a_command() {
    let (test, cal) = send(6, &reading(), "1.234", "456.78", 0);
    let lines = [
        test.as_str().unwrap().to_string(),
        cal.as_str().unwrap().to_string(),
        send_alive(6).as_str().unwrap().to_string(),
        send_cal_ack(6, 0, None).as_str().unwrap().to_string(),
        send_cal_status(6, 0, None).as_str().unwrap().to_string(),
    ];
    let mut link = Link::new();
    for line in lines {
        assert!(feed(&mut link, line.as_bytes(), 6).is_empty());
    }
}
