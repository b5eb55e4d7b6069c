//! The panel's bus: I2C on two open-drain pins, bit by bit.

use vstd::prelude::*;

verus! {

/// What the CPU's delay loop counts against.
pub const CPU_HZ: u32 = 32_000_000;

/// CPU cycles in a time, rounded up: a phase under the minimum is the very
/// failure this is to prevent.
pub open spec fn cycles(ns: int) -> int {
    (CPU_HZ as int / 1_000_000 * ns + 999) / 1_000
}

pub fn cycles_for_ns(ns: u32) -> (n: u32)
    requires
        CPU_HZ / 1_000_000 * ns <= u32::MAX,
    ensures
        n == cycles(ns as int),
        n * 1_000 >= CPU_HZ / 1_000_000 * ns,
{
    let scaled: u32 = CPU_HZ / 1_000_000 * ns;
    let whole: u32 = scaled / 1_000;
    if scaled % 1_000 != 0 {
        whole + 1
    } else {
        whole
    }
}

/// The clock's low phase: 1.7 us.
pub fn scl_low_cycles() -> (n: u32)
    ensures
        n == cycles(1_700),
{
    cycles_for_ns(1_700)
}

/// The clock's high phase: 1.3 us.
pub fn scl_high_cycles() -> (n: u32)
    ensures
        n == cycles(1_300),
{
    cycles_for_ns(1_300)
}

/// One thing done to the two lines.
#[derive(Clone, Copy, Debug, PartialEq, Eq, Structural)]
pub enum PinOp {
    /// Drive or release the data line.
    Sda(bool),
    /// Drive or release the clock.
    Scl(bool),
    /// Wait the clock's low phase out.
    Low,
    /// Wait the clock's high phase out.
    High,
    /// Look at the data line.
    Sample,
}

/// Claim the bus: the data line falls while the clock is high.
pub open spec fn start_ops() -> Seq<PinOp> {
    seq![
        PinOp::Sda(true),
        PinOp::Scl(true),
        PinOp::High,
        PinOp::Sda(false),
        PinOp::High,
        PinOp::Scl(false),
        PinOp::Low,
    ]
}

/// Release the bus: the data line rises while the clock is high, and then
/// stays free for a while.
pub open spec fn stop_ops() -> Seq<PinOp> {
    seq![PinOp::Sda(false), PinOp::Low, PinOp::Scl(true), PinOp::High, PinOp::Sda(true), PinOp::High]
}

pub fn start() -> (ops: Vec<PinOp>)
    ensures
        ops@ == start_ops(),
{
    let ops: Vec<PinOp> = vec![
        PinOp::Sda(true),
        PinOp::Scl(true),
        PinOp::High,
        PinOp::Sda(false),
        PinOp::High,
        PinOp::Scl(false),
        PinOp::Low,
    ];
    assert(ops@ =~= start_ops());
    ops
}

pub fn stop() -> (ops: Vec<PinOp>)
    ensures
        ops@ == stop_ops(),
{
    let ops: Vec<PinOp> = vec![
        PinOp::Sda(false),
        PinOp::Low,
        PinOp::Scl(true),
        PinOp::High,
        PinOp::Sda(true),
        PinOp::High,
    ];
    assert(ops@ =~= stop_ops());
    ops
}

/// The weight of the `i`-th bit on the wire, the highest first.
pub open spec fn weight(i: int) -> int {
    if i <= 0 {
        128
    } else if i == 1 {
        64
    } else if i == 2 {
        32
    } else if i == 3 {
        16
    } else if i == 4 {
        8
    } else if i == 5 {
        4
    } else if i == 6 {
        2
    } else {
        1
    }
}

/// The `i`-th bit of a byte on the wire.
pub open spec fn wire_bit(byte: u8, i: int) -> bool {
    byte as int / weight(i) % 2 == 1
}

/// One bit out: the data line is set while the clock is low, and held through
/// its high phase.
pub open spec fn bit_ops(bit: bool) -> Seq<PinOp> {
    seq![PinOp::Sda(bit), PinOp::Low, PinOp::Scl(true), PinOp::High, PinOp::Scl(false)]
}

/// The first `n` bits of a byte.
pub open spec fn bits_ops(byte: u8, n: int) -> Seq<PinOp>
    decreases n,
{
    if n <= 0 {
        Seq::empty()
    } else {
        bits_ops(byte, n - 1) + bit_ops(wire_bit(byte, n - 1))
    }
}

/// The ninth clock: the data line is released, and looked at at the end of
/// the high phase. Low means the far end acknowledged.
pub open spec fn ack_ops() -> Seq<PinOp> {
    seq![PinOp::Sda(true), PinOp::Low, PinOp::Scl(true), PinOp::High, PinOp::Sample, PinOp::Scl(false)]
}

/// A byte out, the highest bit first, and the far end's acknowledgement.
pub open spec fn write_ops(byte: u8) -> Seq<PinOp> {
    bits_ops(byte, 8) + ack_ops()
}

fn push_bit(ops: &mut Vec<PinOp>, bit: bool)
    ensures
        final(ops)@ == old(ops)@ + bit_ops(bit),
{
    ops.push(PinOp::Sda(bit));
    ops.push(PinOp::Low);
    ops.push(PinOp::Scl(true));
    ops.push(PinOp::High);
    ops.push(PinOp::Scl(false));
    assert(ops@ =~= old(ops)@ + bit_ops(bit));
}

pub fn write_byte(byte: u8) -> (ops: Vec<PinOp>)
    ensures
        ops@ == write_ops(byte),
{
    let mut ops: Vec<PinOp> = Vec::new();
    let mut left: u8 = 128;
    let mut i: usize = 0;
    while i < 8
        invariant
            i <= 8,
            i < 8 ==> left == weight(i as int),
            ops@ == bits_ops(byte, i as int),
        decreases 8 - i,
    {
        push_bit(&mut ops, byte / left % 2 == 1);
        left = left / 2;
        i += 1;
    }
    ops.push(PinOp::Sda(true));
    ops.push(PinOp::Low);
    ops.push(PinOp::Scl(true));
    ops.push(PinOp::High);
    ops.push(PinOp::Sample);
    ops.push(PinOp::Scl(false));
    assert(ops@ =~= write_ops(byte));
    ops
}

/// One bit in.
pub open spec fn sample_ops() -> Seq<PinOp> {
    seq![PinOp::Low, PinOp::Scl(true), PinOp::High, PinOp::Sample, PinOp::Scl(false)]
}

pub open spec fn samples_ops(n: int) -> Seq<PinOp>
    decreases n,
{
    if n <= 0 {
        Seq::empty()
    } else {
        samples_ops(n - 1) + sample_ops()
    }
}

/// A byte in, and our acknowledgement, which the last byte does not get.
pub open spec fn read_ops(last: bool) -> Seq<PinOp> {
    seq![PinOp::Sda(true)] + samples_ops(8) + seq![
        PinOp::Sda(last),
        PinOp::Low,
        PinOp::Scl(true),
        PinOp::High,
        PinOp::Scl(false),
        PinOp::Sda(true),
    ]
}

pub fn read_byte(last: bool) -> (ops: Vec<PinOp>)
    ensures
        ops@ == read_ops(last),
{
    let mut ops: Vec<PinOp> = Vec::new();
    ops.push(PinOp::Sda(true));
    assert(ops@ =~= seq![PinOp::Sda(true)] + samples_ops(0));
    let mut i: usize = 0;
    while i < 8
        invariant
            i <= 8,
            ops@ == seq![PinOp::Sda(true)] + samples_ops(i as int),
        decreases 8 - i,
    {
        ops.push(PinOp::Low);
        ops.push(PinOp::Scl(true));
        ops.push(PinOp::High);
        ops.push(PinOp::Sample);
        ops.push(PinOp::Scl(false));
        assert(ops@ =~= seq![PinOp::Sda(true)] + samples_ops(i + 1));
        i += 1;
    }
    ops.push(PinOp::Sda(last));
    ops.push(PinOp::Low);
    ops.push(PinOp::Scl(true));
    ops.push(PinOp::High);
    ops.push(PinOp::Scl(false));
    ops.push(PinOp::Sda(true));
    assert(ops@ =~= read_ops(last));
    ops
}

/// A byte from its bits as they were seen, the highest first.
pub open spec fn byte_of(bits: Seq<bool>) -> int
    decreases bits.len(),
{
    if bits.len() == 0 {
        0
    } else {
        2 * byte_of(bits.drop_last()) + if bits.last() {
            1int
        } else {
            0int
        }
    }
}

/// One more bit of a byte that is being read.
pub fn shift_in(byte: u8, bit: bool) -> (next: u8)
    requires
        byte < 128,
    ensures
        next == 2 * byte + if bit {
            1int
        } else {
            0int
        },
{
    if bit {
        2 * byte + 1
    } else {
        2 * byte
    }
}

/// Whether the data line only moves while the clock is low.
pub open spec fn data_stable(ops: Seq<PinOp>, clock_high: bool) -> bool
    decreases ops.len(),
{
    if ops.len() == 0 {
        true
    } else {
        match ops[0] {
            PinOp::Scl(high) => data_stable(ops.skip(1), high),
            PinOp::Sda(_) => !clock_high && data_stable(ops.skip(1), clock_high),
            _ => data_stable(ops.skip(1), clock_high),
        }
    }
}

/// The clock's level afterwards.
pub open spec fn clock_after(ops: Seq<PinOp>, clock_high: bool) -> bool
    decreases ops.len(),
{
    if ops.len() == 0 {
        clock_high
    } else {
        match ops[0] {
            PinOp::Scl(high) => clock_after(ops.skip(1), high),
            _ => clock_after(ops.skip(1), clock_high),
        }
    }
}

proof fn lemma_stable_concat(a: Seq<PinOp>, b: Seq<PinOp>, high: bool)
    ensures
        data_stable(a + b, high) == (data_stable(a, high) && data_stable(b, clock_after(a, high))),
        clock_after(a + b, high) == clock_after(b, clock_after(a, high)),
    decreases a.len(),
{
    if a.len() == 0 {
        assert(a + b =~= b);
    } else {
        assert((a + b).skip(1) =~= a.skip(1) + b);
        let next = match a[0] {
            PinOp::Scl(h) => h,
            _ => high,
        };
        lemma_stable_concat(a.skip(1), b, next);
    }
}

/// Whether a run of operations is a well-behaved byte: it finds the clock low
/// and leaves it low, and never moves the data line while it is high.
pub open spec fn well_behaved(ops: Seq<PinOp>) -> bool {
    data_stable(ops, false) && !clock_after(ops, false)
}

proof fn lemma_well_behaved_concat(a: Seq<PinOp>, b: Seq<PinOp>)
    requires
        well_behaved(a),
        well_behaved(b),
    ensures
        well_behaved(a + b),
{
    lemma_stable_concat(a, b, false);
}

proof fn lemma_parts(bit: bool)
    ensures
        well_behaved(bit_ops(bit)),
        well_behaved(ack_ops()),
        well_behaved(sample_ops()),
        well_behaved(seq![PinOp::Sda(bit)]),
        well_behaved(
            seq![PinOp::Sda(bit), PinOp::Low, PinOp::Scl(true), PinOp::High, PinOp::Scl(false), PinOp::Sda(true)],
        ),
{
    reveal_with_fuel(data_stable, 8);
    reveal_with_fuel(clock_after, 8);
}

proof fn lemma_bits_behave(byte: u8, n: int)
    ensures
        well_behaved(bits_ops(byte, n)),
        well_behaved(samples_ops(n)),
    decreases n,
{
    if n > 0 {
        lemma_bits_behave(byte, n - 1);
        lemma_parts(wire_bit(byte, n - 1));
        lemma_well_behaved_concat(bits_ops(byte, n - 1), bit_ops(wire_bit(byte, n - 1)));
        lemma_well_behaved_concat(samples_ops(n - 1), sample_ops());
    }
}

/// The data line never moves while the clock is high, except to claim or
/// release the bus: no byte in or out can be taken for either.
pub proof fn law_bytes_keep_data_stable(byte: u8, last: bool)
    ensures
        well_behaved(write_ops(byte)),
        well_behaved(read_ops(last)),
{
    lemma_bits_behave(byte, 8);
    lemma_parts(last);
    lemma_parts(true);
    lemma_well_behaved_concat(bits_ops(byte, 8), ack_ops());
    let open = seq![PinOp::Sda(true)];
    let close = seq![
        PinOp::Sda(last),
        PinOp::Low,
        PinOp::Scl(true),
        PinOp::High,
        PinOp::Scl(false),
        PinOp::Sda(true),
    ];
    lemma_well_behaved_concat(open, samples_ops(8));
    lemma_well_behaved_concat(open + samples_ops(8), close);
}

/// A byte seen bit by bit, as it was written, is that byte.
pub proof fn law_byte_survives_the_wire(byte: u8)
    ensures
        byte_of(Seq::new(8, |i: int| wire_bit(byte, i))) == byte,
{
    let bits = Seq::new(8, |i: int| wire_bit(byte, i));
    lemma_leading_bits(byte, bits, 8);
    assert(bits.take(8) =~= bits);
}

proof fn lemma_leading_bits(byte: u8, bits: Seq<bool>, n: int)
    requires
        bits == Seq::new(8, |i: int| wire_bit(byte, i)),
        0 <= n <= 8,
    ensures
        n > 0 ==> byte_of(bits.take(n)) == byte as int / weight(n - 1),
        n == 0 ==> byte_of(bits.take(n)) == 0,
    decreases n,
{
    if n > 0 {
        lemma_leading_bits(byte, bits, n - 1);
        assert(bits.take(n).drop_last() =~= bits.take(n - 1));
        assert(bits.take(n).last() == wire_bit(byte, n - 1));
    }
}

// ---- Transfers ----------------------------------------------------------

/// Nobody acknowledged: on this bus the panel is absent, unpowered, or not
/// answering at the address that was used.
#[derive(Clone, Copy, Debug, PartialEq, Eq, Structural)]
pub enum Nack {
    Address,
    Data,
}

/// What a transfer moves.
#[derive(Debug)]
pub enum Operation {
    /// Read so many bytes.
    Read(usize),
    /// Write these bytes.
    Write(Vec<u8>),
}

/// One thing a transfer does on the bus.
#[derive(Clone, Copy, Debug, PartialEq, Eq, Structural)]
pub enum Bus {
    Start,
    /// Write a byte, and say whether it was acknowledged.
    Write(u8),
    /// Read a byte, the last one or not.
    Read { last: bool },
    Stop,
}

/// Where a transfer stands.
#[derive(Clone, Copy, Debug, PartialEq, Eq, Structural)]
pub enum Stage {
    Start,
    Address,
    Data(usize),
    Stop,
    Over,
}

/// One transfer, from claiming the bus to releasing it.
#[derive(Debug)]
pub struct Transfer {
    address: u8,
    operation: Operation,
    stage: Stage,
    fault: Option<Nack>,
}

/// A transfer as a mathematical value.
pub struct TransferView {
    pub address: u8,
    /// Bytes to write, or how many to read.
    pub out: Option<Seq<u8>>,
    pub count: int,
    pub stage: Stage,
    pub fault: Option<Nack>,
}

impl View for Transfer {
    type V = TransferView;

    closed spec fn view(&self) -> TransferView {
        TransferView {
            address: self.address,
            out: match self.operation {
                Operation::Read(_) => None,
                Operation::Write(bytes) => Some(bytes@),
            },
            count: match self.operation {
                Operation::Read(n) => n as int,
                Operation::Write(bytes) => bytes@.len() as int,
            },
            stage: self.stage,
            fault: self.fault,
        }
    }
}

impl TransferView {
    pub open spec fn wf(self) -> bool {
        &&& self.stage matches Stage::Data(i) ==> i < self.count
        &&& self.out matches Some(bytes) ==> self.count == bytes.len()
        &&& 0 <= self.count <= usize::MAX
    }

    /// What the stage asks of the bus.
    pub open spec fn asks(self) -> Option<Bus> {
        match self.stage {
            Stage::Start => Some(Bus::Start),
            Stage::Address => Some(
                Bus::Write(
                    (self.address as int % 128 * 2 + if self.out is None {
                        1int
                    } else {
                        0int
                    }) as u8,
                ),
            ),
            Stage::Data(i) => match self.out {
                Some(bytes) => Some(Bus::Write(bytes[i as int])),
                None => Some(Bus::Read { last: i + 1 == self.count }),
            },
            Stage::Stop => Some(Bus::Stop),
            Stage::Over => None,
        }
    }

    /// The stage after `i` bytes.
    pub open spec fn from_byte(self, i: int) -> Stage {
        if i < self.count {
            Stage::Data(i as usize)
        } else {
            Stage::Stop
        }
    }

    /// After the bus has done it. A byte that was written may have gone
    /// unacknowledged, and then the bus is released at once.
    pub open spec fn done(self, acked: bool) -> TransferView {
        match self.stage {
            Stage::Start => TransferView { stage: Stage::Address, ..self },
            Stage::Address => if acked {
                TransferView { stage: self.from_byte(0), ..self }
            } else {
                TransferView { stage: Stage::Stop, fault: Some(Nack::Address), ..self }
            },
            Stage::Data(i) => if acked || self.out is None {
                TransferView { stage: self.from_byte(i + 1), ..self }
            } else {
                TransferView { stage: Stage::Stop, fault: Some(Nack::Data), ..self }
            },
            _ => TransferView { stage: Stage::Over, ..self },
        }
    }

    /// Steps left at most.
    pub open spec fn distance(self) -> int {
        match self.stage {
            Stage::Start => self.count + 3,
            Stage::Address => self.count + 2,
            Stage::Data(i) => self.count - i + 1,
            Stage::Stop => 1,
            Stage::Over => 0,
        }
    }
}

impl Transfer {
    pub fn new(address: u8, operation: Operation) -> (transfer: Transfer)
        ensures
            transfer@.wf(),
            transfer@.address == address,
            transfer@.stage == Stage::Start,
            transfer@.fault is None,
            match operation {
                Operation::Read(n) => transfer@.out is None && transfer@.count == n,
                Operation::Write(bytes) => transfer@.out == Some(bytes@) && transfer@.count == bytes@.len(),
            },
    {
        let transfer: Transfer = Transfer { address, operation, stage: Stage::Start, fault: None };
        let count: usize = transfer.count();
        assert(count == transfer@.count);
        transfer
    }

    fn count(&self) -> (n: usize)
        ensures
            n == self@.count,
    {
        match &self.operation {
            Operation::Read(n) => *n,
            Operation::Write(bytes) => bytes.len(),
        }
    }

    /// What to do on the bus now, if anything.
    pub fn next(&self) -> (bus: Option<Bus>)
        requires
            self@.wf(),
        ensures
            bus == self@.asks(),
    {
        match self.stage {
            Stage::Start => Some(Bus::Start),
            Stage::Address => {
                let base: u8 = self.address % 128 * 2;
                match &self.operation {
                    Operation::Read(_) => Some(Bus::Write(base + 1)),
                    Operation::Write(_) => Some(Bus::Write(base)),
                }
            },
            Stage::Data(i) => match &self.operation {
                Operation::Read(n) => Some(Bus::Read { last: i + 1 == *n }),
                Operation::Write(bytes) => Some(Bus::Write(bytes[i])),
            },
            Stage::Stop => Some(Bus::Stop),
            Stage::Over => None,
        }
    }

    /// The bus has done it. `acked` counts where a byte was written.
    pub fn done(&mut self, acked: bool)
        requires
            old(self)@.wf(),
            old(self)@.stage != Stage::Over,
        ensures
            final(self)@ == old(self)@.done(acked),
            final(self)@.wf(),
    {
        let count: usize = self.count();
        let reading: bool = match &self.operation {
            Operation::Read(_) => true,
            Operation::Write(_) => false,
        };
        match self.stage {
            Stage::Start => {
                self.stage = Stage::Address;
            },
            Stage::Address => {
                if acked {
                    self.stage = if count > 0 { Stage::Data(0) } else { Stage::Stop };
                } else {
                    self.fault = Some(Nack::Address);
                    self.stage = Stage::Stop;
                }
            },
            Stage::Data(i) => {
                if acked || reading {
                    self.stage = if i + 1 < count { Stage::Data(i + 1) } else { Stage::Stop };
                } else {
                    self.fault = Some(Nack::Data);
                    self.stage = Stage::Stop;
                }
            },
            _ => {
                self.stage = Stage::Over;
            },
        }
    }

    /// How a transfer that is over went.
    pub fn outcome(&self) -> (result: Result<(), Nack>)
        requires
            self@.stage == Stage::Over,
        ensures
            result == match self@.fault {
                Some(nack) => Err::<(), Nack>(nack),
                None => Ok(()),
            },
    {
        match self.fault {
            Some(nack) => Err(nack),
            None => Ok(()),
        }
    }
}

/// A transfer that has claimed the bus always releases it: every step brings
/// its end nearer, acknowledged or not, and the last one is the release.
pub proof fn law_transfer_releases_the_bus(transfer: TransferView, acked: bool)
    requires
        transfer.wf(),
        transfer.stage != Stage::Over,
    ensures
        0 <= transfer.done(acked).distance() < transfer.distance(),
        transfer.done(acked).stage == Stage::Over <==> transfer.stage == Stage::Stop,
        transfer.stage == Stage::Stop ==> transfer.asks() == Some(Bus::Stop),
{
}

/// Only a byte that went unacknowledged makes a transfer fail, and then the
/// very next step is the release.
pub proof fn law_only_silence_fails_a_transfer(transfer: TransferView, acked: bool)
    requires
        transfer.wf(),
        transfer.stage != Stage::Over,
        transfer.fault is None,
        transfer.done(acked).fault is Some,
    ensures
        !acked,
        transfer.asks() matches Some(Bus::Write(_)),
        transfer.done(acked).stage == Stage::Stop,
{
}

// ---- What is seen on the bus --------------------------------------------

/// A time is waited out in full, and by less than a cycle too much: there are
/// thirty-two cycles to a microsecond.
pub proof fn law_waits_are_rounded_up(ns: int)
    requires
        ns >= 0,
    ensures
        cycles(ns) * 1000 >= 32 * ns,
        (cycles(ns) - 1) * 1000 < 32 * ns,
{
}

/// What the data line is held at, each time the clock's high phase is waited
/// out.
pub open spec fn held(ops: Seq<PinOp>, data: bool) -> Seq<bool>
    decreases ops.len(),
{
    if ops.len() == 0 {
        Seq::empty()
    } else {
        match ops[0] {
            PinOp::Sda(level) => held(ops.skip(1), level),
            PinOp::High => seq![data] + held(ops.skip(1), data),
            _ => held(ops.skip(1), data),
        }
    }
}

/// What the data line is left at.
pub open spec fn data_after(ops: Seq<PinOp>, data: bool) -> bool
    decreases ops.len(),
{
    if ops.len() == 0 {
        data
    } else {
        match ops[0] {
            PinOp::Sda(level) => data_after(ops.skip(1), level),
            _ => data_after(ops.skip(1), data),
        }
    }
}

/// How often the data line is looked at.
pub open spec fn looks(ops: Seq<PinOp>) -> int
    decreases ops.len(),
{
    if ops.len() == 0 {
        0
    } else {
        looks(ops.skip(1)) + if ops[0] == PinOp::Sample {
            1int
        } else {
            0int
        }
    }
}

proof fn lemma_held_concat(a: Seq<PinOp>, b: Seq<PinOp>, data: bool)
    ensures
        held(a + b, data) == held(a, data) + held(b, data_after(a, data)),
        data_after(a + b, data) == data_after(b, data_after(a, data)),
        looks(a + b) == looks(a) + looks(b),
    decreases a.len(),
{
    if a.len() == 0 {
        assert(a + b =~= b);
        assert(held(a, data) + held(b, data) =~= held(b, data));
    } else {
        assert((a + b).skip(1) =~= a.skip(1) + b);
        assert((a + b)[0] == a[0]);
        let next = match a[0] {
            PinOp::Sda(level) => level,
            _ => data,
        };
        lemma_held_concat(a.skip(1), b, next);
        assert(held(a + b, data) =~= held(a, data) + held(b, data_after(a, data)));
    }
}

proof fn lemma_held_parts(bit: bool, data: bool)
    ensures
        held(bit_ops(bit), data) == seq![bit],
        looks(bit_ops(bit)) == 0,
        held(ack_ops(), data) == seq![true],
        looks(ack_ops()) == 1,
        held(sample_ops(), data) == seq![data],
        data_after(sample_ops(), data) == data,
        looks(sample_ops()) == 1,
        held(seq![PinOp::Sda(bit)], data) == Seq::<bool>::empty(),
        data_after(seq![PinOp::Sda(bit)], data) == bit,
        looks(seq![PinOp::Sda(bit)]) == 0,
        ({
            let close = seq![
                PinOp::Sda(bit),
                PinOp::Low,
                PinOp::Scl(true),
                PinOp::High,
                PinOp::Scl(false),
                PinOp::Sda(true),
            ];
            held(close, data) == seq![bit] && looks(close) == 0
        }),
{
    reveal_with_fuel(held, 8);
    reveal_with_fuel(data_after, 8);
    reveal_with_fuel(looks, 8);
    assert(held(bit_ops(bit), data) =~= seq![bit]);
    assert(held(ack_ops(), data) =~= seq![true]);
    assert(held(sample_ops(), data) =~= seq![data]);
    assert(held(
        seq![PinOp::Sda(bit), PinOp::Low, PinOp::Scl(true), PinOp::High, PinOp::Scl(false), PinOp::Sda(true)],
        data,
    ) =~= seq![bit]);
}

proof fn lemma_held_bits(byte: u8, n: int, data: bool)
    requires
        0 <= n <= 8,
    ensures
        held(bits_ops(byte, n), data) == Seq::new(n as nat, |i: int| wire_bit(byte, i)),
        looks(bits_ops(byte, n)) == 0,
        held(samples_ops(n), data) == Seq::new(n as nat, |i: int| data),
        data_after(samples_ops(n), data) == data,
        looks(samples_ops(n)) == n,
    decreases n,
{
    if n > 0 {
        let before = bits_ops(byte, n - 1);
        lemma_held_bits(byte, n - 1, data);
        lemma_held_concat(before, bit_ops(wire_bit(byte, n - 1)), data);
        lemma_held_parts(wire_bit(byte, n - 1), data_after(before, data));
        lemma_held_concat(samples_ops(n - 1), sample_ops(), data);
        lemma_held_parts(true, data);
    }
    assert(held(bits_ops(byte, n), data) =~= Seq::new(n as nat, |i: int| wire_bit(byte, i)));
    assert(held(samples_ops(n), data) =~= Seq::new(n as nat, |i: int| data));
}

/// A byte that is written is on the data line through eight high phases of the
/// clock, a bit in each, the highest first; in the ninth the line is let go and
/// looked at, once.
pub proof fn law_written_byte_is_on_the_wire(byte: u8, data: bool)
    ensures
        held(write_ops(byte), data).len() == 9,
        held(write_ops(byte), data)[8],
        looks(write_ops(byte)) == 1,
        forall|i: int| 0 <= i < 8 ==> #[trigger] held(write_ops(byte), data)[i] == wire_bit(byte, i),
{
    lemma_held_bits(byte, 8, data);
    lemma_held_concat(bits_ops(byte, 8), ack_ops(), data);
    lemma_held_parts(true, data_after(bits_ops(byte, 8), data));
    let seen = held(write_ops(byte), data);
    assert(seen =~= Seq::new(8, |i: int| wire_bit(byte, i)) + seq![true]);
}

/// A byte is the sum of its bits on the wire, the first worth 128 and each one
/// half of the one before.
pub proof fn law_bits_add_up_to_the_byte(byte: u8)
    ensures
        ({
            let one = |i: int| if wire_bit(byte, i) {
                1int
            } else {
                0int
            };
            128 * one(0) + 64 * one(1) + 32 * one(2) + 16 * one(3) + 8 * one(4) + 4 * one(5) + 2 * one(6) + one(7)
                == byte
        }),
{
    lemma_bits_add_up(byte as int);
}

proof fn lemma_bits_add_up(b: int)
    requires
        0 <= b < 256,
    ensures
        128 * (b / 128 % 2) + 64 * (b / 64 % 2) + 32 * (b / 32 % 2) + 16 * (b / 16 % 2) + 8 * (b / 8 % 2) + 4 * (b / 4
            % 2) + 2 * (b / 2 % 2) + b / 1 % 2 == b,
{
    lemma_halved(b, 64);
    lemma_halved(b, 32);
    lemma_halved(b, 16);
    lemma_halved(b, 8);
    lemma_halved(b, 4);
    lemma_halved(b, 2);
    lemma_halved(b, 1);
    assert(b / 128 == 0 || b / 128 == 1);
    assert(b / 1 == b);
    let (h0, h1, h2, h3, h4, h5, h6) = (b / 128, b / 64, b / 32, b / 16, b / 8, b / 4, b / 2);
    assert(h0 % 2 == h0);
    assert(h1 == 2 * h0 + h1 % 2 && h2 == 2 * h1 + h2 % 2 && h3 == 2 * h2 + h3 % 2 && h4 == 2 * h3 + h4 % 2 && h5 == 2
        * h4 + h5 % 2 && h6 == 2 * h5 + h6 % 2 && b == 2 * h6 + b % 2);
}

proof fn lemma_halved(b: int, w: int)
    requires
        0 <= b,
        w > 0,
    ensures
        b / w == 2 * (b / (2 * w)) + b / w % 2,
{
    vstd::arithmetic::div_mod::lemma_div_denominator(b, w, 2);
    vstd::arithmetic::div_mod::lemma_fundamental_div_mod(b / w, 2);
    assert(w * 2 == 2 * w);
}

/// A byte that is read is looked at eight times with the data line let go; in
/// the ninth high phase the line is held low, or let go after the last byte.
pub proof fn law_read_byte_is_answered(last: bool, data: bool)
    ensures
        looks(read_ops(last)) == 8,
        held(read_ops(last), data) == seq![true, true, true, true, true, true, true, true, last],
{
    let open = seq![PinOp::Sda(true)];
    let close = seq![
        PinOp::Sda(last),
        PinOp::Low,
        PinOp::Scl(true),
        PinOp::High,
        PinOp::Scl(false),
        PinOp::Sda(true),
    ];
    lemma_held_parts(true, data);
    lemma_held_bits(0, 8, true);
    lemma_held_parts(last, true);
    lemma_held_concat(open, samples_ops(8), data);
    lemma_held_concat(open + samples_ops(8), close, data);
    assert(held(read_ops(last), data) =~= seq![true, true, true, true, true, true, true, true, last]);
}

/// Claiming and releasing the bus move the data line while the clock is high,
/// which nothing else does: down to claim it, up to release it, and both lines
/// are left high only by the release.
pub proof fn law_bus_is_claimed_and_released(data: bool)
    ensures
        !data_stable(start_ops(), true) && !data_stable(start_ops(), false),
        !data_after(start_ops(), data) && !clock_after(start_ops(), true),
        !data_stable(stop_ops(), false),
        data_after(stop_ops(), data) && clock_after(stop_ops(), false),
        held(start_ops(), data) == seq![true, false],
        held(stop_ops(), data) == seq![false, true],
{
    reveal_with_fuel(data_stable, 8);
    reveal_with_fuel(clock_after, 8);
    reveal_with_fuel(data_after, 8);
    reveal_with_fuel(held, 8);
    assert(held(start_ops(), data) =~= seq![true, false]);
    assert(held(stop_ops(), data) =~= seq![false, true]);
}

/// What a transfer does on the bus from here on, if every byte is
/// acknowledged.
pub open spec fn trace(transfer: TransferView) -> Seq<Bus>
    decreases transfer.distance(),
    when transfer.wf()
{
    match transfer.asks() {
        Some(bus) => seq![bus] + trace(transfer.done(true)),
        None => Seq::empty(),
    }
}

proof fn lemma_trace_data(transfer: TransferView, i: int)
    requires
        transfer.wf(),
        0 <= i <= transfer.count,
        transfer.stage == transfer.from_byte(i),
    ensures
        trace(transfer) == Seq::new(
            (transfer.count - i) as nat,
            |k: int|
                match transfer.out {
                    Some(bytes) => Bus::Write(bytes[i + k]),
                    None => Bus::Read { last: i + k + 1 == transfer.count },
                },
        ) + seq![Bus::Stop],
    decreases transfer.count - i,
{
    let rest = Seq::new(
        (transfer.count - i) as nat,
        |k: int|
            match transfer.out {
                Some(bytes) => Bus::Write(bytes[i + k]),
                None => Bus::Read { last: i + k + 1 == transfer.count },
            },
    );
    let next = transfer.done(true);
    if i < transfer.count {
        lemma_trace_data(next, i + 1);
        assert(trace(transfer) =~= rest + seq![Bus::Stop]);
    } else {
        assert(trace(next) =~= Seq::<Bus>::empty());
        assert(trace(transfer) =~= rest + seq![Bus::Stop]);
    }
}

/// A transfer claims the bus, calls the address, moves its bytes in order, all
/// of them and no other, and releases the bus. Only the last byte that is read
/// is marked as that.
pub proof fn law_transfer_moves_its_bytes(transfer: TransferView, i: int)
    requires
        transfer.wf(),
        transfer.stage == Stage::Start,
        transfer.address < 128,
        0 <= i < transfer.count,
    ensures
        trace(transfer).len() == transfer.count + 3,
        trace(transfer)[0] == Bus::Start,
        trace(transfer).last() == Bus::Stop,
        transfer.out matches Some(bytes) ==> {
            &&& trace(transfer)[1] == Bus::Write((2 * transfer.address) as u8)
            &&& trace(transfer)[2 + i] == Bus::Write(bytes[i])
        },
        transfer.out is None ==> {
            &&& trace(transfer)[1] == Bus::Write((2 * transfer.address + 1) as u8)
            &&& trace(transfer)[2 + i] == (Bus::Read { last: i == transfer.count - 1 })
        },
{
    let called = transfer.done(true);
    let data = called.done(true);
    lemma_trace_data(data, 0);
    assert(called.wf() && data.wf());
    assert(trace(transfer) == seq![Bus::Start] + trace(called));
    assert(trace(called) == seq![called.asks().unwrap()] + trace(data));
    assert(trace(data).len() == transfer.count + 1);
}

} // verus!
