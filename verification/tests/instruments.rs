use ammeter::dmm::{
    command_line, find_device, is_multimeter, label_tcp, label_usb, names_multimeter, parse_target, seen_line,
    SpecError, Target,
};
use ammeter::sampler::Wait;
use ammeter::scope::{
    can_extract, extent, extract_block, is_scope, pava_number, sample_of, screenshot_png, shot, BlockError, ShotError,
    WaveError,
};
use ammeter::usbtmc::{
    chunk_len, command_frame, is_candidate, is_same_device, look_clear, pick, reply_text, request_frame, start_clear,
    Endpoint, Picked, Reassembly, Setting, Tags, Turn, EMPTY_READS, SIGLENT_VID,
};

fn tcp(spec: &str) -> (String, u16) {
    match parse_target(spec) {
        Ok(Target::Tcp { host, port }) => (host, port),
        other => panic!("{:?}", other),
    }
}

#[test]
fn a_target_can_be_left_out() {
    assert!(matches!(parse_target(""), Ok(Target::Absent)));
    assert!(matches!(parse_target("none"), Ok(Target::Absent)));
    assert!(matches!(parse_target("usb"), Ok(Target::Usb(None))));
}

#[test]
fn a_usb_target_is_two_hexadecimal_numbers() {
    assert!(matches!(parse_target("usb:f4ec:1201"), Ok(Target::Usb(Some((0xF4EC, 0x1201))))));
    assert!(matches!(parse_target("usb:0xF4EC:0x1201"), Ok(Target::Usb(Some((0xF4EC, 0x1201))))));
    assert!(matches!(parse_target("usb:f4ec:1201:serial"), Ok(Target::Usb(Some((0xF4EC, 0x1201))))));
    assert!(matches!(parse_target("usb:f4ec"), Err(SpecError::MissingPid)));
    match parse_target("usb:zz:1201") {
        Err(SpecError::BadVid(text)) => assert_eq!(text, "zz"),
        other => panic!("{:?}", other),
    }
    match parse_target("usb:f4ec:10000") {
        Err(SpecError::BadPid(text)) => assert_eq!(text, "10000"),
        other => panic!("{:?}", other),
    }
}

#[test]
fn a_network_target_has_a_port() {
    assert_eq!(tcp("tcp://10.0.0.5:1234"), ("10.0.0.5".to_string(), 1234));
    assert_eq!(tcp("10.0.0.5:1234"), ("10.0.0.5".to_string(), 1234));
    assert_eq!(tcp("bench.local"), ("bench.local".to_string(), 5025));
    assert_eq!(tcp("host:99999"), ("host".to_string(), 5025));
    assert_eq!(tcp("a:b:7"), ("a:b".to_string(), 7));
}

#[test]
fn a_label_is_a_target() {
    assert_eq!(label_usb(0xF4EC, 0x0012), "usb:f4ec:0012");
    assert!(matches!(parse_target(&label_usb(0xF4EC, 0x0012)), Ok(Target::Usb(Some((0xF4EC, 0x0012))))));
    assert_eq!(label_tcp("host", 80), "tcp://host:80");
    assert_eq!(tcp(&label_tcp("host", 80)), ("host".to_string(), 80));
}

#[test]
fn the_first_device_that_fits_is_taken() {
    let devices = [(1, 2), (3, 4), (3, 4)];
    assert_eq!(find_device(&devices, 3, 4), Some(1));
    assert_eq!(find_device(&devices, 3, 5), None);
}

#[test]
fn a_multimeter_names_itself() {
    assert!(is_multimeter("Siglent Technologies,sdm3055x-e,SDM00000000000,1.0"));
    assert!(!is_multimeter("Siglent Technologies,SDS2104X Plus"));
    assert!(names_multimeter("SDM3055"));
    assert!(!names_multimeter("sdm3055"));
}

#[test]
fn what_was_seen_is_said() {
    assert_eq!(seen_line(0xF4EC, 0x1201, Ok("SDM")), "f4ec:1201 SDM");
    assert_eq!(seen_line(1, 2, Err("timeout")), "0001:0002 (问不出来: timeout)");
    assert_eq!(command_line("*IDN?"), "*IDN?\n");
}

#[test]
fn a_scope_is_known_by_its_numbers() {
    assert!(is_scope(SIGLENT_VID, 0x1011));
    assert!(!is_scope(SIGLENT_VID, 0x1201));
    assert!(!is_scope(0x1234, 0x1011));
}

#[test]
fn a_measured_value_is_what_stands_behind_the_last_comma() {
    assert_eq!(pava_number("C1:PAVA RMS,1.23E-01V").as_deref(), Some("1.23E-01"));
    assert_eq!(pava_number("C1:PAVA FREQ,5.00E+01Hz").as_deref(), Some("5.00E+01"));
    assert_eq!(pava_number("a,b,****").as_deref(), Some(""));
    assert_eq!(pava_number("no comma"), None);
}

#[test]
fn a_block_is_found_behind_its_header() {
    let raw = b"C1:WF DAT2,#9000000004abcd\n\n";
    assert!(can_extract(raw));
    assert_eq!(extract_block(raw), Ok(&b"abcd"[..]));
    assert_eq!(extract_block(b"#15hello world"), Ok(&b"hello"[..]));
    assert_eq!(extract_block(b"nothing"), Err(BlockError::NoHeader));
    assert_eq!(extract_block(b"#15hi"), Err(BlockError::Short));
    assert_eq!(extract_block(b"#2x9"), Err(BlockError::BadLength));
    assert_eq!(extract_block(b"#0"), Err(BlockError::BadLength));
}

#[test]
fn a_header_that_is_cut_short_is_not_extracted() {
    assert!(!can_extract(b"#"));
    assert!(!can_extract(b"#9000"));
    assert!(!can_extract(b"# 5hello"));
    assert!(can_extract(b""));
}

#[test]
fn samples_are_signed() {
    assert_eq!(sample_of(0), 0);
    assert_eq!(sample_of(127), 127);
    assert_eq!(sample_of(128), -128);
    assert_eq!(sample_of(255), -1);
}

#[test]
fn a_waveform_has_an_extent() {
    assert_eq!(extent(&[3, 250, 7]), Ok((-6, 7)));
    assert_eq!(extent(&[]), Err(WaveError::Empty));
    assert_eq!(extent(&[9, 9]), Err(WaveError::Flat));
}

/// A bitmap of one red pixel.
fn bitmap() -> Vec<u8> {
    let mut bmp = b"BM".to_vec();
    bmp.extend_from_slice(&58u32.to_le_bytes());
    bmp.extend_from_slice(&[0; 4]);
    bmp.extend_from_slice(&54u32.to_le_bytes());
    bmp.extend_from_slice(&40u32.to_le_bytes());
    bmp.extend_from_slice(&1i32.to_le_bytes());
    bmp.extend_from_slice(&1i32.to_le_bytes());
    bmp.extend_from_slice(&1u16.to_le_bytes());
    bmp.extend_from_slice(&24u16.to_le_bytes());
    bmp.extend_from_slice(&[0; 24]);
    bmp.extend_from_slice(&[0, 0, 255, 0]);
    bmp
}

#[test]
fn a_screenshot_becomes_a_png() {
    let png = screenshot_png(&bitmap()).unwrap();
    assert_eq!(&png[..8], &[0x89, b'P', b'N', b'G', 0x0D, 0x0A, 0x1A, 0x0A]);
    let image = image::load_from_memory_with_format(&png, image::ImageFormat::Png).unwrap().to_rgb8();
    assert_eq!(image.dimensions(), (1, 1));
    assert_eq!(image.get_pixel(0, 0).0, [255, 0, 0]);
}

#[test]
fn a_screenshot_that_is_no_bitmap_is_refused() {
    assert_eq!(screenshot_png(b"BM"), Err(ShotError::Decode));
    assert_eq!(screenshot_png(b""), Err(ShotError::Decode));
    assert_eq!(shot(false, None), Err(ShotError::Decode));
    assert_eq!(shot(true, None), Err(ShotError::Encode));
    assert_eq!(shot(true, Some(vec![1, 2])), Ok(vec![1, 2]));
}

#[test]
fn a_command_is_framed_and_padded() {
    assert_eq!(
        command_frame(7, b"*IDN?"),
        vec![1, 7, !7, 0, 5, 0, 0, 0, 1, 0, 0, 0, b'*', b'I', b'D', b'N', b'?', 0, 0, 0],
    );
    assert_eq!(command_frame(1, b"abcd").len(), 16);
    assert_eq!(request_frame(9, 0x0102_0304), vec![2, 9, !9, 0, 4, 3, 2, 1, 0, 0, 0, 0]);
}

#[test]
fn tags_are_never_zero() {
    let mut tags = Tags::new();
    let mut seen = Vec::new();
    for _ in 0..300 {
        seen.push(tags.next_tag());
    }
    assert_eq!(seen[0], 1);
    assert_eq!(seen[254], 255);
    assert_eq!(seen[255], 1);
    assert!(!seen.contains(&0));
}

fn transfer(payload: &[u8], last: bool) -> Vec<u8> {
    let mut bytes = vec![2, 1, !1, 0];
    bytes.extend_from_slice(&(payload.len() as u32).to_le_bytes());
    bytes.extend_from_slice(&[u8::from(last), 0, 0, 0]);
    bytes.extend_from_slice(payload);
    while bytes.len() % 4 != 0 {
        bytes.push(0);
    }
    bytes
}

#[test]
fn a_reply_is_put_together_however_it_is_split() {
    let mut wire = transfer(b"hello, ", false);
    wire.extend_from_slice(&transfer(b"world", true));
    for size in [1, 2, 3, 5, 7, 11, 12, 13, 64] {
        let mut reply = Reassembly::new();
        let mut turn = Turn::Read;
        for packet in wire.chunks(size) {
            if turn == Turn::Done {
                break;
            }
            turn = reply.feed(&packet.to_vec());
        }
        assert_eq!(turn, Turn::Done);
        assert_eq!(reply.into_reply(), b"hello, world");
    }
}

#[test]
fn a_header_that_announces_nothing_can_end_a_reply() {
    let mut reply = Reassembly::new();
    assert_eq!(reply.feed(&transfer(b"", true)), Turn::Done);
    assert!(reply.into_reply().is_empty());

    let mut wire = transfer(b"", false);
    wire.extend_from_slice(&transfer(b"hello", false));
    wire.extend_from_slice(&transfer(b"", true));
    for size in [1, 4, 12, 13, 64] {
        let mut reply = Reassembly::new();
        let turns: Vec<Turn> = wire.chunks(size).map(|packet| reply.feed(&packet.to_vec())).collect();
        let (last, earlier) = turns.split_last().unwrap();
        assert_eq!(*last, Turn::Done);
        assert!(earlier.iter().all(|turn| *turn == Turn::Read));
        assert_eq!(reply.into_reply(), b"hello");
    }
}

#[test]
fn an_empty_transfer_that_is_not_the_last_is_read_past() {
    let mut reply = Reassembly::new();
    assert_eq!(reply.feed(&transfer(b"", false)), Turn::Read);
    assert_eq!(reply.feed(&transfer(b"ok", true)), Turn::Done);
    assert_eq!(reply.into_reply(), b"ok");
}

#[test]
fn an_unknown_message_ends_a_reply() {
    let mut wire = transfer(b"hi", true);
    wire[0] = 0x7F;
    assert_eq!(Reassembly::new().feed(&wire), Turn::Unknown(0x7F));
}

#[test]
fn empty_reads_are_waited_out_up_to_a_limit() {
    let mut reply = Reassembly::new();
    let mut pauses = 0;
    let end = loop {
        match reply.feed(&Vec::new()) {
            Turn::Pause => pauses += 1,
            other => break other,
        }
    };
    assert_eq!(end, Turn::Silent);
    assert_eq!(pauses, EMPTY_READS);
    let mut late = Reassembly::new();
    assert_eq!(late.feed(&Vec::new()), Turn::Pause);
    assert_eq!(late.feed(&transfer(b"ok", true)), Turn::Done);
    assert_eq!(late.into_reply(), b"ok");
}

#[test]
fn a_reply_is_text_without_its_end() {
    assert_eq!(reply_text(b"1.23\n"), "1.23");
    assert_eq!(reply_text(b" 1.23\xFF \r\n"), " 1.23\u{FFFD}");
}

#[test]
fn instruments_are_told_by_their_interfaces() {
    assert!(is_candidate(SIGLENT_VID, &[]));
    assert!(is_candidate(0x1234, &[(3, 0), (0xFE, 3)]));
    assert!(!is_candidate(0x1234, &[(0xFE, 1), (3, 3)]));
}

#[test]
fn a_device_is_the_same_by_its_serial_where_it_has_one() {
    assert!(is_same_device((1, 2), None, (1, 2), None));
    assert!(is_same_device((1, 2), Some("a"), (1, 2), Some("a")));
    assert!(!is_same_device((1, 2), Some("a"), (1, 2), Some("b")));
    assert!(!is_same_device((1, 2), Some("a"), (1, 3), Some("a")));
}

#[test]
fn the_interface_is_picked_with_its_bulk_endpoints() {
    let bulk_in = Endpoint { address: 0x81, bulk: true, input: true };
    let bulk_out = Endpoint { address: 0x02, bulk: true, input: false };
    let interrupt = Endpoint { address: 0x83, bulk: false, input: true };
    let settings = vec![
        Setting { number: 0, class: 3, subclass: 0, endpoints: vec![Endpoint { address: 0x84, bulk: true, input: true }] },
        Setting { number: 1, class: 0xFE, subclass: 3, endpoints: vec![interrupt, bulk_out, bulk_in] },
    ];
    assert_eq!(pick(&settings), Picked { interface: Some(1), ep_in: Some(0x81), ep_out: Some(0x02) });
    assert_eq!(pick(&Vec::new()), Picked { interface: None, ep_in: None, ep_out: None });
}

#[test]
fn a_clear_is_waited_for() {
    let wait = start_clear();
    assert_eq!(look_clear(wait, &[1, 0]), Wait::Ready);
    let mut pending = wait;
    for _ in 0..49 {
        pending = look_clear(pending, &[2, 0]);
        assert!(matches!(pending, Wait::Polling(_)));
    }
    assert_eq!(look_clear(pending, &[]), Wait::GaveUp);
}

#[test]
fn chunks_are_bounded() {
    assert_eq!(chunk_len(0), 1024);
    assert_eq!(chunk_len(1023), 1024);
    assert_eq!(chunk_len(5000), 5000);
    assert_eq!(chunk_len(usize::MAX), 1_048_576);
}
