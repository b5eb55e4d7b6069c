use ammeter::callog::{
    clean_line, escape, field_for, header, header_matches, hear, is_candidate, is_wanted, name_passes, parse_frame,
    request, split_lines, Burst, Cells, Column, Discard, Heard, Key, Next, Reading, Row, Session, Wire, CHAR_UUID,
};
use ammeter::link::{put_line, send_alive, Link, Request};
use std::collections::VecDeque;

const TEST: &str = "METER_TEST,ADDR=6,CURRENT_MA=1234,STATUS=NORMAL";
const CAL: &str = "METER_CAL,ADDR=6,RMS=456.78,GAIN=1,FLAG=OK,SRC=ROM,MEAN=2047,PP=1200";

fn row(line: &str) -> Row {
    parse_frame(line).unwrap()
}

fn first(line: &str, now: u64) -> Reading {
    match hear(line, now) {
        Heard::Reading(reading) => reading,
        other => panic!("{:?}", other),
    }
}

fn lines(wire: &mut Wire) -> Vec<String> {
    let mut all = Vec::new();
    while let Some(line) = wire.next_line() {
        all.push(line);
    }
    all
}

#[test]
fn keys_have_columns() {
    assert_eq!(field_for("RMS"), Some(Column::RmsLsb));
    assert_eq!(field_for("rms_lsb"), Some(Column::RmsLsb));
    assert_eq!(field_for("Gain"), Some(Column::Gain));
    assert_eq!(field_for("FLAG"), Some(Column::Flag));
    assert_eq!(field_for("CURRENT_MA"), Some(Column::CurrentMa));
    assert_eq!(field_for("STATUS"), Some(Column::Status));
    assert_eq!(field_for("ADDR"), Some(Column::Addr));
    assert_eq!(field_for("MEAN"), Some(Column::Mean));
    assert_eq!(field_for("MEAN_IN"), Some(Column::Mean));
    assert_eq!(field_for("PP"), Some(Column::Pp));
    assert_eq!(field_for("PP_IN"), Some(Column::Pp));
    assert_eq!(field_for("SRC"), None);
}

#[test]
fn a_frame_is_a_tag_and_pairs() {
    let frame = row("METER_TEST,ADDR=01,CURRENT_MA=1234,STATUS=NORMAL");
    assert_eq!(frame.cells.get(Column::Addr), Some("01"));
    assert_eq!(frame.cells.get(Column::CurrentMa), Some("1234"));
    assert_eq!(frame.cells.get(Column::Status), Some("NORMAL"));
    assert!(!frame.cells.has(Column::RmsLsb));
    assert_eq!(frame.tags, vec!["METER_TEST"]);
    assert_eq!(frame.extra, vec!["METER_TEST"]);
    assert!(frame.has_reading());
}

#[test]
fn what_has_no_column_is_extra() {
    let frame = row(CAL);
    assert_eq!(frame.extra, vec!["METER_CAL,SRC=ROM"]);
    assert_eq!(frame.cells.get(Column::RmsLsb), Some("456.78"));
    assert_eq!(frame.cells.get(Column::Mean), Some("2047"));
    assert_eq!(frame.cells.get(Column::Pp), Some("1200"));
}

#[test]
fn what_is_not_a_frame_is_refused() {
    for line in [
        "",
        "METER_TEST",
        "ADDR=6,CURRENT_MA=1234",
        "meter_test,ADDR=6",
        "1METER,ADDR=6",
        "METER_TEST,ADDR=6,",
        "METER_TEST,ADDR",
        "METER_TEST,6=ADDR",
        "METER_TEST,AD DR=6",
        "METER TEST,ADDR=6",
        "T,=6",
    ] {
        assert!(parse_frame(line).is_none(), "{}", line);
    }
    assert!(parse_frame("T,_x1=").is_some());
    assert!(parse_frame("T_1,a=b=c").is_some());
}

#[test]
fn a_heartbeat_carries_no_reading() {
    let line = send_alive(6).as_str().unwrap().to_string();
    assert!(matches!(hear(&clean_line(&line), 0), Heard::Other));
    assert!(matches!(hear("TTM:OK", 0), Heard::Unparsed));
}

#[test]
fn the_two_frames_of_a_reading_make_one_row() {
    let mut one = row(TEST);
    assert!(!one.collides_with(&row(CAL)));
    assert!(one.collides_with(&row(TEST)));
    assert!(one.collides_with(&row("OTHER,CURRENT_MA=1")));
    one.merge(row(CAL));
    assert_eq!(one.cells.get(Column::CurrentMa), Some("1234"));
    assert_eq!(one.cells.get(Column::RmsLsb), Some("456.78"));
    assert_eq!(one.tags, vec!["METER_TEST", "METER_CAL"]);
    assert_eq!(one.extra, vec!["METER_TEST", "METER_CAL,SRC=ROM"]);
    assert!(one.collides_with(&row("X,RMS=1")));
}

#[test]
fn lines_are_split_wherever_they_arrive() {
    let whole = format!("{}\r\n{}\r\n\r\n", TEST, CAL);
    let mut at_once = Wire::new();
    at_once.receive(whole.as_bytes());
    let expected = lines(&mut at_once);
    assert_eq!(expected, vec![TEST, CAL]);
    let mut in_packets = Wire::new();
    for packet in put_line(&whole) {
        in_packets.receive(&packet);
    }
    assert_eq!(lines(&mut in_packets), expected);
}

#[test]
fn a_partial_line_waits_for_its_end() {
    let mut pending = b"ab\ncd".to_vec();
    let mut out = VecDeque::new();
    split_lines(&mut pending, &mut out);
    assert_eq!(out, vec!["ab"]);
    assert_eq!(pending, b"cd");
}

#[test]
fn a_line_is_cleaned() {
    assert_eq!(clean_line("  a\rb \r"), "ab");
    assert_eq!(clean_line("\u{3000}x\u{a0}"), "x");
}

#[test]
fn bytes_that_are_no_text_are_replaced() {
    let mut wire = Wire::new();
    wire.receive(b"a\xFFb\n\xE4\xBD\xA0\n");
    assert_eq!(lines(&mut wire), vec!["a\u{FFFD}b", "\u{4F60}"]);
}

#[test]
fn lines_are_discarded_until_the_link_is_quiet() {
    let mut wire = Wire::new();
    wire.receive(b"one\ntwo\nthr");
    let mut state = Discard::start();
    while wire.next_line().is_some() {
        state = state.dropped(&wire);
    }
    assert_eq!(state, Discard::Quiet(2));
    state = state.quiet(&mut wire);
    assert_eq!(state, Discard::Stranded(2));
    wire.receive(b"ee\n");
    assert_eq!(wire.next_line().as_deref(), Some("three"));
    assert_eq!(state.dropped(&wire), Discard::Silent(3));
}

#[test]
fn a_tail_that_never_completes_is_dropped() {
    let mut wire = Wire::new();
    wire.receive(b"thr");
    let state = Discard::start().quiet(&mut wire);
    assert_eq!(state, Discard::Stranded(0));
    assert_eq!(state.quiet(&mut wire), Discard::Silent(0));
    wire.receive(b"ee\n");
    assert_eq!(wire.next_line().as_deref(), Some("ee"));
    assert_eq!(Discard::start().quiet(&mut wire), Discard::Silent(0));
}

#[test]
fn the_header_names_the_columns() {
    let expected = "time,dmm_a,lag_ms,rms_lsb,gain,flag,current_ma,status,addr,mean,pp,extra,raw";
    assert_eq!(header(), expected);
    assert!(header_matches(expected));
    assert!(header_matches("time,dmm_a,lag_ms,rms_lsb,gain,flag,current_ma,status,addr,mean,pp,extra,raw\r\n"));
    assert!(!header_matches("time,dmm_a"));
}

#[test]
fn cells_are_escaped() {
    assert_eq!(escape("plain text"), "plain text");
    assert_eq!(escape("a,b"), "\"a,b\"");
    assert_eq!(escape("say \"hi\""), "\"say \"\"hi\"\"\"");
    assert_eq!(escape("two\nlines"), "\"two\nlines\"");
    assert_eq!(escape(""), "");
}

#[test]
fn a_row_is_written_in_the_order_of_the_header() {
    let mut cells = Cells::new();
    cells.set(Column::Raw, "a,b".to_string());
    cells.set(Column::Time, "t".to_string());
    cells.set(Column::Gain, "1".to_string());
    assert_eq!(cells.to_csv(), "t,,,,1,,,,,,,,\"a,b\"");
    assert_eq!(Cells::new().to_csv(), ",,,,,,,,,,,,");
}

#[test]
fn a_meter_is_known_by_its_name() {
    assert!(is_candidate(Some("hc-42 module"), None));
    assert!(is_candidate(Some("Ammeter 3"), None));
    assert!(is_candidate(Some("byjx_01"), None));
    assert!(!is_candidate(Some("keyboard"), None));
    assert!(!is_candidate(None, None));
    assert!(is_candidate(Some("Keyboard"), Some("BOARD")));
    assert!(!is_candidate(Some("hc-42"), Some("board")));
    assert!(!is_candidate(None, Some("")));
}

#[test]
fn names_are_compared_in_upper_case() {
    assert!(is_candidate(Some("stra\u{df}e"), Some("ss")));
    assert!(name_passes("HC42", None));
    assert!(!name_passes("hc42", None));
    assert!(name_passes("ABC", Some("BC")));
}

#[test]
fn an_address_decides_over_a_name() {
    assert!(is_wanted(Some("aa:bb"), "hci0/dev_1", "11:22:AA:BB:33:44", None, None));
    assert!(is_wanted(Some("DEV_1"), "hci0/dev_1", "11:22:AA:BB:33:44", None, None));
    assert!(!is_wanted(Some("aa:cc"), "hci0/dev_1", "11:22:AA:BB:33:44", Some("meter"), Some("meter")));
    assert!(is_wanted(None, "hci0/dev_1", "11:22:AA:BB:33:44", Some("meter"), Some("METER")));
}

#[test]
fn the_characteristic_is_the_one_of_the_module() {
    assert_eq!(CHAR_UUID, uuid::Uuid::parse_str("0000ffe1-0000-1000-8000-00805f9b34fb").unwrap().as_u128());
}

#[test]
fn a_request_is_heard_by_whom_it_names() {
    assert_eq!(request(None), "MEAS\n");
    assert_eq!(request(Some(13)), "MEAS,ADDR=13\n");
    for (named, heard) in [(None, true), (Some(13), true), (Some(12), false)] {
        let mut link = Link::new();
        let mut found = false;
        for byte in request(named).bytes() {
            found = found || matches!(link.feed(byte, 13), Some(Request::Measure));
        }
        assert_eq!(found, heard);
    }
}

#[test]
fn a_repeated_frame_opens_the_next_row() {
    let mut session = Session::new();
    let mut reading = first(TEST, 100);
    assert_eq!(session.collect(&mut reading, CAL, 110), Burst::Merged);
    assert_eq!(session.collect(&mut reading, "noise", 115), Burst::Unparsed);
    assert_eq!(session.collect(&mut reading, TEST, 120), Burst::Carried);
    assert_eq!(reading.raw, format!("{} | {}", TEST, CAL));
    match session.next() {
        Next::Pair(carried) => {
            assert_eq!(carried.arrived, 120);
            assert_eq!(carried.raw, TEST);
        }
        other => panic!("{:?}", other),
    }
    assert!(matches!(session.next(), Next::Request { with_response: false }));
}

#[test]
fn a_repeated_heartbeat_opens_no_row() {
    let mut session = Session::new();
    let mut reading = first(CAL, 100);
    assert_eq!(session.collect(&mut reading, "IMHERE,ADDR=6", 110), Burst::Merged);
    assert_eq!(session.collect(&mut reading, "IMHERE,ADDR=6", 120), Burst::Repeated);
    assert_eq!(session.collect(&mut reading, TEST, 130), Burst::Merged);
    assert_eq!(reading.raw, format!("{} | IMHERE,ADDR=6 | {}", CAL, TEST));
    assert!(matches!(session.next(), Next::Request { .. }));
    let cells = session.record(reading, "now".to_string(), None, 0);
    assert_eq!(cells.get(Column::RmsLsb), Some("456.78"));
    assert_eq!(cells.get(Column::CurrentMa), Some("1234"));
}

#[test]
fn a_reading_is_recorded_with_its_reference() {
    let mut session = Session::new();
    let mut reading = first(TEST, 100);
    session.collect(&mut reading, CAL, 110);
    let cells = session.record(reading, "now".to_string(), Some("1.2345".to_string()), 42);
    assert_eq!(session.rows(), 1);
    assert_eq!(
        cells.to_csv(),
        format!("now,1.2345,42,456.78,1,OK,1234,NORMAL,6,2047,1200,\"METER_TEST,METER_CAL,SRC=ROM\",\"{} | {}\"", TEST, CAL),
    );
    let bare = session.record(first(TEST, 0), "later".to_string(), None, 0);
    assert_eq!(bare.get(Column::DmmA), Some(""));
    assert_eq!(session.rows(), 2);
}

#[test]
fn a_key_pauses_and_resumes() {
    let mut session = Session::new();
    assert_eq!(session.key("\n"), Key::Paused);
    assert!(matches!(session.next(), Next::Nap));
    assert_eq!(session.key("x\n"), Key::Resumed);
    assert!(matches!(session.next(), Next::Request { .. }));
    assert_eq!(session.key(" q \n"), Key::Stopped);
    assert!(matches!(session.next(), Next::Stop));
    let mut other = Session::new();
    other.stop();
    assert!(matches!(other.next(), Next::Stop));
}

#[test]
fn a_refused_write_falls_back_once() {
    let mut session = Session::new();
    assert!(session.write_failed());
    assert!(matches!(session.next(), Next::Request { with_response: true }));
    assert!(!session.write_failed());
}

#[test]
fn the_next_request_waits_for_the_meter() {
    let mut session = Session::new();
    assert_eq!(session.hold_back(1000, 500, 1200), 300);
    assert_eq!(session.hold_back(1000, 500, 1500), 0);
    assert_eq!(session.hold_back(1000, 500, 9000), 0);
    let mut reading = first(TEST, 1000);
    session.collect(&mut reading, TEST, 1100);
    assert_eq!(session.hold_back(1000, 500, 1200), 0);
}
