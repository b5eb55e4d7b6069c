use ammeter::btcfg::{plan, probe_command, query_command, rate_command, visible, Plan};
use ammeter::dsp::{centred, coarse_pivot, Spread, HALF, SPP_NOM};
use ammeter::oled::{
    cycles_for_ns, read_byte, scl_high_cycles, scl_low_cycles, shift_in, start, stop, write_byte, Bus, Nack, Operation,
    PinOp, Transfer,
};
use ammeter::real32::{is_finite, is_less, is_negative};
use ammeter::sampler::N;
use ammeter::supply::{is_above, millivolts, BOOT_MIN_MV, MAX_PLAUSIBLE_CODE};
use ammeter::text::to_crlf;
use ammeter::ui::Panel;

#[test]
fn numbers_compare_as_floats_do() {
    let values = [
        f32::NEG_INFINITY,
        f32::MIN,
        -1.5,
        -1.0e-45,
        -0.0,
        0.0,
        1.0e-45,
        f32::MIN_POSITIVE,
        0.0880,
        2.6763,
        f32::MAX,
        f32::INFINITY,
        f32::NAN,
    ];
    for a in values {
        assert_eq!(is_finite(a.to_bits()), a.is_finite());
        assert_eq!(is_negative(a.to_bits()), a < 0.0);
        for b in values {
            assert_eq!(is_less(a.to_bits(), b.to_bits()), a < b);
        }
    }
}

#[test]
fn the_supply_follows_the_code() {
    assert_eq!(millivolts(Some(1802)), Some(3300));
    assert_eq!(millivolts(Some(0)), Some(0));
    assert_eq!(millivolts(Some(1)), Some(2));
    assert_eq!(millivolts(Some(MAX_PLAUSIBLE_CODE - 1)), Some(3598));
    assert_eq!(millivolts(Some(MAX_PLAUSIBLE_CODE)), None);
    assert_eq!(millivolts(None), None);
    assert_eq!(u32::from(MAX_PLAUSIBLE_CODE), 3_600 * 4_096 / 7_500);
}

#[test]
fn the_supply_is_above_a_limit_only_when_it_is_known() {
    assert!(is_above(Some(3300), BOOT_MIN_MV));
    assert!(!is_above(Some(3299), BOOT_MIN_MV));
    assert!(!is_above(None, 0));
}

#[test]
fn a_panel_that_does_not_answer_is_brought_up_again() {
    let panel = Panel::new();
    assert!(panel.needs_bring_up());
    assert!(panel.brought_up(false).needs_bring_up());
    let up = panel.brought_up(true);
    assert!(!up.needs_bring_up());
    assert!(!up.shown(true).needs_bring_up());
    assert!(up.shown(false).needs_bring_up());
    assert!(up.blanked(false).needs_bring_up());
    assert!(!up.blanked(true).needs_bring_up());
}

#[test]
fn clock_phases_are_long_enough() {
    assert_eq!(cycles_for_ns(1_000), 32);
    assert_eq!(cycles_for_ns(1), 1);
    assert_eq!(cycles_for_ns(0), 0);
    assert_eq!(scl_low_cycles(), 55);
    assert_eq!(scl_high_cycles(), 42);
}

/// The bits that are on the data line whenever the clock rises.
fn clocked(ops: &[PinOp]) -> Vec<bool> {
    let mut sda = true;
    let mut bits = Vec::new();
    for op in ops {
        match op {
            PinOp::Sda(high) => sda = *high,
            PinOp::Scl(true) => bits.push(sda),
            _ => {}
        }
    }
    bits
}

#[test]
fn a_byte_goes_out_highest_bit_first() {
    let ops = write_byte(0xA5);
    assert_eq!(clocked(&ops), vec![true, false, true, false, false, true, false, true, true]);
    assert_eq!(ops.iter().filter(|op| **op == PinOp::Sample).count(), 1);
}

#[test]
fn a_byte_comes_in_and_is_acknowledged_unless_it_is_the_last() {
    assert_eq!(clocked(&read_byte(false)), vec![true, true, true, true, true, true, true, true, false]);
    assert_eq!(clocked(&read_byte(true)), vec![true; 9]);
    assert_eq!(read_byte(true).iter().filter(|op| **op == PinOp::Sample).count(), 8);
    let mut byte = 0;
    for bit in [true, false, true, false, false, true, false, true] {
        byte = shift_in(byte, bit);
    }
    assert_eq!(byte, 0xA5);
}

#[test]
fn transfers_are_framed_by_edges_of_the_data_line() {
    assert_eq!(
        start(),
        vec![
            PinOp::Sda(true),
            PinOp::Scl(true),
            PinOp::High,
            PinOp::Sda(false),
            PinOp::High,
            PinOp::Scl(false),
            PinOp::Low,
        ],
    );
    assert_eq!(
        stop(),
        vec![PinOp::Sda(false), PinOp::Low, PinOp::Scl(true), PinOp::High, PinOp::Sda(true), PinOp::High],
    );
}

/// Runs a transfer in which the far end goes silent at a byte, if at all.
fn run(operation: Operation, silent_at: Option<usize>) -> (Vec<Bus>, Result<(), Nack>) {
    let mut transfer = Transfer::new(0x3C, operation);
    let mut steps = Vec::new();
    let mut written = 0;
    while let Some(step) = transfer.next() {
        steps.push(step);
        let acked = match step {
            Bus::Write(_) => {
                written += 1;
                silent_at != Some(written)
            }
            _ => true,
        };
        transfer.done(acked);
    }
    (steps, transfer.outcome())
}

#[test]
fn a_write_sends_its_address_and_its_bytes() {
    let (steps, outcome) = run(Operation::Write(vec![1, 2]), None);
    assert_eq!(steps, vec![Bus::Start, Bus::Write(0x78), Bus::Write(1), Bus::Write(2), Bus::Stop]);
    assert_eq!(outcome, Ok(()));
}

#[test]
fn a_read_sends_its_address_and_takes_its_bytes() {
    let (steps, outcome) = run(Operation::Read(2), None);
    assert_eq!(
        steps,
        vec![Bus::Start, Bus::Write(0x79), Bus::Read { last: false }, Bus::Read { last: true }, Bus::Stop],
    );
    assert_eq!(outcome, Ok(()));
}

#[test]
fn silence_ends_a_transfer_with_the_bus_released() {
    let (steps, outcome) = run(Operation::Write(vec![1, 2]), Some(1));
    assert_eq!(steps, vec![Bus::Start, Bus::Write(0x78), Bus::Stop]);
    assert_eq!(outcome, Err(Nack::Address));
    let (steps, outcome) = run(Operation::Write(vec![1, 2]), Some(2));
    assert_eq!(steps, vec![Bus::Start, Bus::Write(0x78), Bus::Write(1), Bus::Stop]);
    assert_eq!(outcome, Err(Nack::Data));
}

#[test]
fn a_frame_is_ten_cycles_around_its_mean() {
    assert_eq!(2 * HALF, N);
    assert_eq!(N / SPP_NOM, 10);
    let mut frame = [2000u32; N];
    frame[0] = 0xF000 | 2799;
    assert_eq!(coarse_pivot(&frame), 2000);
    frame[0] = 2800;
    assert_eq!(coarse_pivot(&frame), 2001);
    assert_eq!(centred(0xF000 | 2010, 2001), 9);
    assert_eq!(centred(0, 2001), -2001);
}

#[test]
fn the_spread_is_over_the_last_sixteen_readings() {
    let mut spread = Spread::new();
    let mut push = |x: f32| {
        let (lo, hi) = spread.push(x.to_bits());
        (f32::from_bits(lo), f32::from_bits(hi))
    };
    assert_eq!(push(5.0), (5.0, 5.0));
    assert_eq!(push(-1.0), (-1.0, 5.0));
    for _ in 0..14 {
        assert_eq!(push(2.0), (-1.0, 5.0));
    }
    assert_eq!(push(2.0), (-1.0, 2.0));
    assert_eq!(push(3.0), (2.0, 3.0));
}

#[test]
fn the_radio_is_asked_without_line_ends() {
    assert_eq!(probe_command(), "AT");
    assert_eq!(query_command(), "AT+UART");
    assert_eq!(rate_command(115_200), "AT+UART=115200");
}

#[test]
fn answers_are_shown_on_one_line() {
    assert_eq!(visible(b"OK\r\n"), "OK..");
    assert_eq!(visible(&[0x1F, 0x20, 0x7E, 0x7F, 0xFF]), "? ~??");
    assert_eq!(visible(&[]), "");
}

#[test]
fn the_radio_is_set_only_if_it_has_to_be() {
    assert_eq!(plan(0, 9_600), Plan::Silent);
    assert_eq!(plan(2, 115_200), Plan::Keep);
    assert_eq!(plan(2, 9_600), Plan::Change);
}

#[test]
fn the_console_wants_both_line_ends() {
    assert_eq!(to_crlf("a\nb"), "a\r\nb");
    assert_eq!(to_crlf("\n\n"), "\r\n\r\n");
    assert_eq!(to_crlf("plain"), "plain");
}
