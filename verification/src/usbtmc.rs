//! USBTMC framing: how SCPI commands are wrapped for a bulk OUT endpoint, and
//! how a reply is put together again from whatever packets a bulk IN endpoint
//! hands over. The transfers themselves are the caller's.

use crate::sampler::Wait;
use crate::text;
use vstd::prelude::*;

verus! {

pub const USBTMC_CLASS: u8 = 0xFE;

pub const USBTMC_SUBCLASS: u8 = 0x03;

pub const MSG_DEV_DEP_MSG_OUT: u8 = 1;

pub const MSG_REQUEST_DEV_DEP_MSG_IN: u8 = 2;

pub const MSG_DEV_DEP_MSG_IN: u8 = 2;

/// The vendor of both instruments on the bench.
pub const SIGLENT_VID: u16 = 0xF4EC;

/// End-of-message bit of a transfer's attributes.
pub const EOM: u8 = 0x01;

/// A transfer's header, in bytes.
pub const HEADER: usize = 12;

/// Empty reads in a row before a reply is given up on.
pub const EMPTY_READS: u32 = 100;

// ---- Sending ------------------------------------------------------------

/// The low 32 bits of a number, least significant byte first.
pub open spec fn le32(n: int) -> Seq<u8> {
    seq![
        (n % 256) as u8,
        (n / 256 % 256) as u8,
        (n / 0x1_0000 % 256) as u8,
        (n / 0x100_0000 % 256) as u8,
    ]
}

/// Zero bytes up to a multiple of four.
pub open spec fn padding_after(len: int) -> int {
    (4 - len % 4) % 4
}

/// A transfer header: message, tag and its complement, size, attributes.
pub open spec fn header(msg: u8, tag: u8, size: int, attributes: u8) -> Seq<u8> {
    seq![msg, tag, (255 - tag) as u8, 0u8] + le32(size) + seq![attributes, 0u8, 0u8, 0u8]
}

/// A command as it goes out: one transfer, padded to a multiple of four.
pub open spec fn framed(tag: u8, payload: Seq<u8>) -> Seq<u8> {
    header(MSG_DEV_DEP_MSG_OUT, tag, payload.len() as int, EOM) + payload + Seq::new(
        padding_after(payload.len() as int) as nat,
        |i: int| 0u8,
    )
}

fn push_header(to: &mut Vec<u8>, msg: u8, tag: u8, size: usize, attributes: u8)
    ensures
        final(to)@ == old(to)@ + header(msg, tag, size as int, attributes),
{
    to.push(msg);
    to.push(tag);
    to.push(255 - tag);
    to.push(0);
    to.push((size % 256) as u8);
    to.push((size / 256 % 256) as u8);
    to.push((size / 0x1_0000 % 256) as u8);
    to.push((size / 0x100_0000 % 256) as u8);
    to.push(attributes);
    to.push(0);
    to.push(0);
    to.push(0);
    assert(to@ =~= old(to)@ + header(msg, tag, size as int, attributes));
}

/// The transfer that carries a SCPI command.
pub fn command_frame(tag: u8, payload: &[u8]) -> (msg: Vec<u8>)
    ensures
        msg@ == framed(tag, payload@),
        msg@.len() % 4 == 0,
{
    let mut msg: Vec<u8> = Vec::new();
    push_header(&mut msg, MSG_DEV_DEP_MSG_OUT, tag, payload.len(), EOM);
    let ghost head = msg@;
    let mut i: usize = 0;
    while i < payload.len()
        invariant
            i <= payload@.len(),
            msg@ == head + payload@.take(i as int),
        decreases payload@.len() - i,
    {
        msg.push(payload[i]);
        i += 1;
    }
    assert(payload@.take(i as int) =~= payload@);
    let pad: usize = (4 - payload.len() % 4) % 4;
    let mut k: usize = 0;
    while k < pad
        invariant
            k <= pad,
            msg@ == head + payload@ + Seq::new(k as nat, |i: int| 0u8),
        decreases pad - k,
    {
        msg.push(0);
        k += 1;
    }
    msg
}

/// The transfer that asks for a reply of up to `max_len` bytes.
pub fn request_frame(tag: u8, max_len: usize) -> (msg: Vec<u8>)
    ensures
        msg@ == header(MSG_REQUEST_DEV_DEP_MSG_IN, tag, max_len as int, 0),
{
    let mut msg: Vec<u8> = Vec::new();
    push_header(&mut msg, MSG_REQUEST_DEV_DEP_MSG_IN, tag, max_len, 0);
    msg
}

/// How many bytes to ask the bulk IN endpoint for at a time.
pub fn chunk_len(max_len: usize) -> (chunk: usize)
    ensures
        chunk == if max_len < 1024 {
            1024
        } else if max_len > 0x10_0000 {
            0x10_0000
        } else {
            max_len as int
        },
{
    if max_len < 1024 {
        1024
    } else if max_len > 0x10_0000 {
        0x10_0000
    } else {
        max_len
    }
}

/// Transfer tags: 1 to 255, round and round, never 0.
#[derive(Debug)]
pub struct Tags {
    next: u8,
}

impl Tags {
    pub closed spec fn upcoming(&self) -> u8 {
        self.next
    }

    /// The tag after this one.
    pub open spec fn following(tag: u8) -> u8 {
        if tag == 255 {
            1
        } else {
            (tag + 1) as u8
        }
    }

    pub fn new() -> (tags: Tags)
        ensures
            tags.upcoming() == 1,
    {
        Tags { next: 1 }
    }

    pub fn next_tag(&mut self) -> (tag: u8)
        ensures
            tag == old(self).upcoming(),
            final(self).upcoming() == Tags::following(tag),
    {
        let tag: u8 = self.next;
        self.next = if tag == 255 { 1 } else { tag + 1 };
        tag
    }
}

/// Tags stay valid, and two transfers in a row never share one.
pub proof fn law_tags_are_valid(tag: u8)
    requires
        tag != 0,
    ensures
        Tags::following(tag) != 0,
        Tags::following(tag) != tag,
{
}

// ---- Receiving ----------------------------------------------------------

/// Where in a reply the next byte belongs.
#[derive(Clone, Copy, Debug, PartialEq, Eq, Structural)]
pub enum Phase {
    /// At a transfer's header.
    Header,
    /// Inside a transfer: payload and padding still to come, and whether the
    /// message ends with it.
    Body { remaining: usize, padding: usize, eom: bool },
}

/// What to do after a read.
#[derive(Clone, Copy, Debug, PartialEq, Eq, Structural)]
pub enum Turn {
    /// Read again at once.
    Read,
    /// The device had nothing yet: read again in a moment.
    Pause,
    /// The reply is complete.
    Done,
    /// The device keeps returning empty reads: give up.
    Silent,
    /// The header is not that of a reply: this message instead. Give up.
    Unknown(u8),
}

/// The reply so far: what is assembled, what is read but not used, and where
/// the rest belongs.
#[verifier::ext_equal]
pub struct Assembly {
    pub out: Seq<u8>,
    pub raw: Seq<u8>,
    pub phase: Phase,
    /// Empty reads in a row.
    pub empties: nat,
}

/// The payload size a header announces.
pub open spec fn size_of(head: Seq<u8>) -> int {
    head[4] + 256 * head[5] + 0x1_0000 * head[6] + 0x100_0000 * head[7]
}

/// Whether a header ends its message.
pub open spec fn ends(head: Seq<u8>) -> bool {
    head[8] % 2 == 1
}

/// What a header opens.
pub open spec fn opened(head: Seq<u8>) -> Phase {
    Phase::Body {
        remaining: size_of(head) as usize,
        padding: padding_after(size_of(head)) as usize,
        eom: ends(head),
    }
}

pub open spec fn least(a: int, b: int) -> int {
    if a <= b {
        a
    } else {
        b
    }
}

/// Use up what was read, as far as it goes. A transfer that has nothing left
/// to come is over, whether or not more was read.
pub open spec fn drained(phase: Phase, out: Seq<u8>, raw: Seq<u8>) -> (Assembly, Turn)
    decreases raw.len(), (if phase is Header { 0int } else { 1int }),
{
    let here = Assembly { out, raw, phase, empties: 0 };
    match phase {
        Phase::Header => if raw.len() < HEADER {
            (here, Turn::Read)
        } else if raw[0] != MSG_DEV_DEP_MSG_IN {
            (Assembly { raw: raw.skip(HEADER as int), ..here }, Turn::Unknown(raw[0]))
        } else {
            drained(opened(raw), out, raw.skip(HEADER as int))
        },
        Phase::Body { remaining, padding, eom } => {
            let take = least(raw.len() as int, remaining as int);
            let more = out + raw.take(take);
            let rest = raw.skip(take);
            if take < remaining {
                (
                    Assembly {
                        out: more,
                        raw: rest,
                        phase: Phase::Body { remaining: (remaining - take) as usize, padding, eom },
                        empties: 0,
                    },
                    Turn::Read,
                )
            } else {
                let drop = least(rest.len() as int, padding as int);
                let left = rest.skip(drop);
                if drop < padding {
                    (
                        Assembly {
                            out: more,
                            raw: left,
                            phase: Phase::Body { remaining: 0, padding: (padding - drop) as usize, eom },
                            empties: 0,
                        },
                        Turn::Read,
                    )
                } else if eom {
                    (Assembly { out: more, raw: left, phase: Phase::Header, empties: 0 }, Turn::Done)
                } else {
                    drained(Phase::Header, more, left)
                }
            }
        },
    }
}

impl Assembly {
    pub open spec fn start() -> Assembly {
        Assembly { out: Seq::empty(), raw: Seq::empty(), phase: Phase::Header, empties: 0 }
    }

    /// After one more read.
    pub open spec fn fed(self, data: Seq<u8>) -> (Assembly, Turn) {
        if self.raw.len() == 0 && data.len() == 0 {
            (
                Assembly { empties: self.empties + 1, ..self },
                if self.empties + 1 > EMPTY_READS {
                    Turn::Silent
                } else {
                    Turn::Pause
                },
            )
        } else {
            drained(self.phase, self.out, self.raw + data)
        }
    }
}

/// A reply being put together.
///
/// One message may come as several transfers, each with a header of its own,
/// and each transfer as many packets, without one. So a short packet inside a
/// transfer means "read on", and only once the announced payload and its
/// padding are in does the header's end-of-message bit count. Where the header
/// announces nothing, that is at once.
#[derive(Debug)]
pub struct Reassembly {
    out: Vec<u8>,
    raw: Vec<u8>,
    phase: Phase,
    empties: u32,
}

impl View for Reassembly {
    type V = Assembly;

    closed spec fn view(&self) -> Assembly {
        Assembly { out: self.out@, raw: self.raw@, phase: self.phase, empties: self.empties as nat }
    }
}

fn append_range(to: &mut Vec<u8>, from: &Vec<u8>, start: usize, end: usize)
    requires
        start <= end <= from@.len(),
    ensures
        final(to)@ == old(to)@ + from@.subrange(start as int, end as int),
{
    let mut i: usize = start;
    while i < end
        invariant
            start <= i <= end <= from@.len(),
            to@ == old(to)@ + from@.subrange(start as int, i as int),
        decreases end - i,
    {
        to.push(from[i]);
        proof {
            assert(from@.subrange(start as int, i + 1) =~= from@.subrange(start as int, i as int).push(from@[i as int]));
        }
        i += 1;
    }
}

impl Reassembly {
    /// Nothing read yet. The first thing to do is to read.
    pub fn new() -> (reply: Reassembly)
        ensures
            reply@ == Assembly::start(),
    {
        let reply: Reassembly = Reassembly { out: Vec::new(), raw: Vec::new(), phase: Phase::Header, empties: 0 };
        assert(reply@ =~= Assembly::start());
        reply
    }

    /// Take what a read returned, and say what to do next.
    pub fn feed(&mut self, data: &Vec<u8>) -> (turn: Turn)
        requires
            old(self)@.empties <= EMPTY_READS,
        ensures
            (final(self)@, turn) == old(self)@.fed(data@),
    {
        if self.raw.len() == 0 && data.len() == 0 {
            self.empties = self.empties + 1;
            return if self.empties > EMPTY_READS { Turn::Silent } else { Turn::Pause };
        }
        let ghost before = self@;
        let mut buf: Vec<u8> = Vec::new();
        append_range(&mut buf, &self.raw, 0, self.raw.len());
        append_range(&mut buf, data, 0, data.len());
        assert(self.raw@.subrange(0, self.raw@.len() as int) =~= self.raw@);
        assert(data@.subrange(0, data@.len() as int) =~= data@);
        assert(buf@ =~= before.raw + data@);
        self.empties = 0;
        let mut pos: usize = 0;
        let mut turn: Turn = Turn::Read;
        let mut going: bool = true;
        assert(buf@.skip(0) =~= buf@);
        while going
            invariant
                pos <= buf@.len(),
                self.empties == 0,
                going ==> turn == Turn::Read && drained(self.phase, self.out@, buf@.skip(pos as int)) == drained(
                    before.phase,
                    before.out,
                    buf@,
                ),
                !going ==> (Assembly {
                    out: self.out@,
                    raw: buf@.skip(pos as int),
                    phase: self.phase,
                    empties: 0,
                }, turn) == drained(before.phase, before.out, buf@),
            decreases (if going { 1int } else { 0int }), buf@.len() - pos, (if self.phase is Header { 0int } else { 1int }),
        {
            let ghost was = buf@.skip(pos as int);
            match self.phase {
                Phase::Header => {
                    if buf.len() - pos < HEADER {
                        going = false;
                    } else {
                        let msg: u8 = buf[pos];
                        let size: u32 = buf[pos + 4] as u32 + 256 * (buf[pos + 5] as u32) + 0x1_0000 * (buf[pos + 6] as u32)
                            + 0x100_0000 * (buf[pos + 7] as u32);
                        let eom: bool = buf[pos + 8] % 2 == 1;
                        proof {
                            assert(was[0] == buf@[pos as int]);
                            assert(was[4] == buf@[pos + 4] && was[5] == buf@[pos + 5] && was[6] == buf@[pos + 6]
                                && was[7] == buf@[pos + 7] && was[8] == buf@[pos + 8]);
                            assert(size == size_of(was));
                            assert(was.skip(HEADER as int) =~= buf@.skip(pos + HEADER));
                        }
                        pos = pos + HEADER;
                        if msg != MSG_DEV_DEP_MSG_IN {
                            turn = Turn::Unknown(msg);
                            going = false;
                        } else {
                            let pad: u32 = (4 - size % 4) % 4;
                            self.phase = Phase::Body { remaining: size as usize, padding: pad as usize, eom };
                            assert(self.phase == opened(was));
                        }
                    }
                },
                Phase::Body { remaining, padding, eom } => {
                    let have: usize = buf.len() - pos;
                    let take: usize = if have <= remaining { have } else { remaining };
                    append_range(&mut self.out, &buf, pos, pos + take);
                    proof {
                        assert(was.take(take as int) =~= buf@.subrange(pos as int, pos + take));
                        assert(was.skip(take as int) =~= buf@.skip(pos + take));
                    }
                    pos = pos + take;
                    if take < remaining {
                        self.phase = Phase::Body { remaining: remaining - take, padding, eom };
                        going = false;
                    } else {
                        let ghost rest = buf@.skip(pos as int);
                        let tail: usize = buf.len() - pos;
                        let drop: usize = if tail <= padding { tail } else { padding };
                        assert(rest.skip(drop as int) =~= buf@.skip(pos + drop));
                        pos = pos + drop;
                        if drop < padding {
                            self.phase = Phase::Body { remaining: 0, padding: padding - drop, eom };
                            going = false;
                        } else {
                            self.phase = Phase::Header;
                            if eom {
                                turn = Turn::Done;
                                going = false;
                            }
                        }
                    }
                },
            }
        }
        let mut left: Vec<u8> = Vec::new();
        append_range(&mut left, &buf, pos, buf.len());
        assert(buf@.subrange(pos as int, buf@.len() as int) =~= buf@.skip(pos as int));
        self.raw = left;
        turn
    }

    /// The assembled reply.
    pub fn into_reply(self) -> (reply: Vec<u8>)
        ensures
            reply@ == self@.out,
    {
        self.out
    }
}

/// How bytes are split over reads makes no difference: as long as the first
/// part leaves the reply unfinished, using up the second part after it gives
/// what using up both at once does.
pub proof fn law_splitting_makes_no_difference(phase: Phase, out: Seq<u8>, first: Seq<u8>, second: Seq<u8>)
    requires
        drained(phase, out, first).1 == Turn::Read,
    ensures
        ({
            let (half, _) = drained(phase, out, first);
            drained(phase, out, first + second) == drained(half.phase, half.out, half.raw + second)
        }),
    decreases first.len(), (if phase is Header { 0int } else { 1int }),
{
    let both = first + second;
    match phase {
        Phase::Header => {
            if first.len() >= HEADER {
                assert(both[0] == first[0]);
                assert(opened(both) == opened(first));
                assert(both.skip(HEADER as int) =~= first.skip(HEADER as int) + second);
                law_splitting_makes_no_difference(opened(first), out, first.skip(HEADER as int), second);
            }
        },
        Phase::Body { remaining, padding, eom } => {
            let take = least(first.len() as int, remaining as int);
            let more = out + first.take(take);
            let rest = first.skip(take);
            if take < remaining {
                assert(rest =~= Seq::<u8>::empty());
                assert(rest + second =~= second);
                assert(first.take(take) =~= first);
                lemma_payload_in_two(remaining, padding, eom, out, first, second);
            } else {
                assert(both.take(take) =~= first.take(take));
                assert(both.skip(take) =~= rest + second);
                let drop = least(rest.len() as int, padding as int);
                let left = rest.skip(drop);
                if drop < padding {
                    assert(left =~= Seq::<u8>::empty());
                    assert(left + second =~= second);
                    lemma_padding_in_two(padding, eom, more, rest, second);
                } else {
                    assert((rest + second).skip(drop) =~= left + second);
                    assert(!eom);
                    law_splitting_makes_no_difference(Phase::Header, more, left, second);
                }
            }
        },
    }
}

proof fn lemma_payload_in_two(
    remaining: usize,
    padding: usize,
    eom: bool,
    out: Seq<u8>,
    first: Seq<u8>,
    second: Seq<u8>,
)
    requires
        first.len() < remaining,
    ensures
        drained(Phase::Body { remaining, padding, eom }, out, first + second) == drained(
            Phase::Body { remaining: (remaining - first.len()) as usize, padding, eom },
            out + first,
            second,
        ),
{
    let both = first + second;
    let fewer = (remaining - first.len()) as usize;
    let a = least(both.len() as int, remaining as int);
    let b = least(second.len() as int, fewer as int);
    assert(a == first.len() + b);
    assert(out + both.take(a) =~= (out + first) + second.take(b));
    assert(both.skip(a) =~= second.skip(b));
    if second.len() == 0 {
        assert(both.take(a) =~= first);
        assert(both.skip(a) =~= second);
    }
}

proof fn lemma_padding_in_two(padding: usize, eom: bool, out: Seq<u8>, first: Seq<u8>, second: Seq<u8>)
    requires
        first.len() < padding,
    ensures
        ({
            let both = first + second;
            let drop = least(both.len() as int, padding as int);
            let left = both.skip(drop);
            let fewer = (padding - first.len()) as usize;
            drained(Phase::Body { remaining: 0, padding: fewer, eom }, out, second) == if drop < padding {
                (
                    Assembly {
                        out,
                        raw: left,
                        phase: Phase::Body { remaining: 0, padding: (padding - drop) as usize, eom },
                        empties: 0,
                    },
                    Turn::Read,
                )
            } else if eom {
                (Assembly { out, raw: left, phase: Phase::Header, empties: 0 }, Turn::Done)
            } else {
                drained(Phase::Header, out, left)
            }
        }),
{
    let both = first + second;
    let drop = least(both.len() as int, padding as int);
    let fewer = (padding - first.len()) as usize;
    let b = least(second.len() as int, fewer as int);
    assert(drop == first.len() + b);
    assert(both.skip(drop) =~= second.skip(b));
    assert(second.take(0) =~= Seq::<u8>::empty());
    assert(out + second.take(0) =~= out);
    assert(second.skip(0) =~= second);
    if second.len() == 0 {
        assert(both.skip(drop) =~= second);
    }
}

/// Once a reply is complete, or cannot be one, bytes that follow are left
/// unused and change nothing.
pub proof fn law_what_follows_is_left_alone(phase: Phase, out: Seq<u8>, first: Seq<u8>, second: Seq<u8>)
    requires
        drained(phase, out, first).1 != Turn::Read,
    ensures
        ({
            let (end, turn) = drained(phase, out, first);
            drained(phase, out, first + second) == (Assembly { raw: end.raw + second, ..end }, turn)
        }),
    decreases first.len(), (if phase is Header { 0int } else { 1int }),
{
    let both = first + second;
    match phase {
        Phase::Header => {
            assert(both[0] == first[0]);
            assert(opened(both) == opened(first));
            assert(both.skip(HEADER as int) =~= first.skip(HEADER as int) + second);
            if first[0] == MSG_DEV_DEP_MSG_IN {
                law_what_follows_is_left_alone(opened(first), out, first.skip(HEADER as int), second);
            }
        },
        Phase::Body { remaining, padding, eom } => {
            let rest = first.skip(remaining as int);
            let more = out + first.take(remaining as int);
            let left = rest.skip(padding as int);
            assert(both.take(remaining as int) =~= first.take(remaining as int));
            assert(both.skip(remaining as int) =~= rest + second);
            assert((rest + second).skip(padding as int) =~= left + second);
            if !eom {
                law_what_follows_is_left_alone(Phase::Header, more, left, second);
            }
        },
    }
}

/// One transfer of a reply: whatever its header says of tags, its payload,
/// and its padding.
pub struct Transfer {
    pub tag: u8,
    pub payload: Seq<u8>,
    pub pad: Seq<u8>,
}

/// A transfer as it comes in, the last of its message or not.
pub open spec fn wire(transfer: Transfer, last: bool) -> Seq<u8> {
    header(
        MSG_DEV_DEP_MSG_IN,
        transfer.tag,
        transfer.payload.len() as int,
        if last {
            EOM
        } else {
            0
        },
    ) + transfer.payload + transfer.pad
}

/// The transfer's size fits its header, and its padding is what the size asks
/// for.
pub open spec fn well_formed(transfer: Transfer) -> bool {
    &&& transfer.payload.len() <= u32::MAX
    &&& transfer.pad.len() == padding_after(transfer.payload.len() as int)
}

/// A message as it comes in: its transfers, the last one marked.
pub open spec fn message(transfers: Seq<Transfer>) -> Seq<u8>
    decreases transfers.len(),
{
    if transfers.len() == 0 {
        Seq::empty()
    } else {
        wire(transfers[0], transfers.len() == 1) + message(transfers.skip(1))
    }
}

/// What a message says.
pub open spec fn contents(transfers: Seq<Transfer>) -> Seq<u8>
    decreases transfers.len(),
{
    if transfers.len() == 0 {
        Seq::empty()
    } else {
        transfers[0].payload + contents(transfers.skip(1))
    }
}

proof fn lemma_transfer(transfer: Transfer, last: bool, out: Seq<u8>, more: Seq<u8>)
    requires
        well_formed(transfer),
    ensures
        drained(Phase::Header, out, wire(transfer, last) + more) == if last {
            (Assembly { out: out + transfer.payload, raw: more, phase: Phase::Header, empties: 0 }, Turn::Done)
        } else {
            drained(Phase::Header, out + transfer.payload, more)
        },
{
    let n = transfer.payload.len() as int;
    let attributes: u8 = if last {
        EOM
    } else {
        0
    };
    let bytes = wire(transfer, last);
    let head = header(MSG_DEV_DEP_MSG_IN, transfer.tag, n, attributes);
    law_header_says_its_size(MSG_DEV_DEP_MSG_IN, transfer.tag, n, attributes);
    assert(bytes[0] == head[0] && bytes[4] == head[4] && bytes[5] == head[5] && bytes[6] == head[6] && bytes[7]
        == head[7] && bytes[8] == head[8]);
    assert(bytes.subrange(12, 12 + n) =~= transfer.payload);
    law_reply_is_what_its_header_announces(out, bytes, n, more);
}

/// A message is read back as it was sent, whatever comes after it.
pub proof fn law_message_is_read_back(transfers: Seq<Transfer>, out: Seq<u8>, after: Seq<u8>)
    requires
        transfers.len() > 0,
        forall|i: int| 0 <= i < transfers.len() ==> well_formed(#[trigger] transfers[i]),
    ensures
        drained(Phase::Header, out, message(transfers) + after) == (
            Assembly { out: out + contents(transfers), raw: after, phase: Phase::Header, empties: 0 },
            Turn::Done,
        ),
    decreases transfers.len(),
{
    let first = transfers[0];
    let rest = transfers.skip(1);
    assert(well_formed(first));
    if transfers.len() == 1 {
        assert(rest =~= Seq::<Transfer>::empty());
        assert(message(transfers) =~= wire(first, true));
        assert(contents(transfers) =~= first.payload);
        lemma_transfer(first, true, out, after);
    } else {
        assert forall|i: int| 0 <= i < rest.len() implies well_formed(#[trigger] rest[i]) by {
            assert(rest[i] == transfers[i + 1]);
        }
        assert(message(transfers) + after =~= wire(first, false) + (message(rest) + after));
        lemma_transfer(first, false, out, message(rest) + after);
        law_message_is_read_back(rest, out + first.payload, after);
        assert(out + contents(transfers) =~= out + first.payload + contents(rest));
    }
}

/// Bytes of a run of packets, one after the other.
pub open spec fn joined(packets: Seq<Seq<u8>>) -> Seq<u8>
    decreases packets.len(),
{
    if packets.len() == 0 {
        Seq::empty()
    } else {
        joined(packets.drop_last()) + packets.last()
    }
}

/// The reply after a run of packets, read one by one until it is over.
pub open spec fn received(packets: Seq<Seq<u8>>) -> (Assembly, Turn)
    decreases packets.len(),
{
    if packets.len() == 0 {
        (Assembly::start(), Turn::Read)
    } else {
        let (before, turn) = received(packets.drop_last());
        if turn == Turn::Read || turn == Turn::Pause {
            before.fed(packets.last())
        } else {
            (before, turn)
        }
    }
}

proof fn lemma_drained_never_pauses(phase: Phase, out: Seq<u8>, raw: Seq<u8>)
    ensures
        drained(phase, out, raw).1 != Turn::Pause,
        drained(phase, out, raw).1 != Turn::Silent,
    decreases raw.len(), (if phase is Header { 0int } else { 1int }),
{
    match phase {
        Phase::Header => {
            if raw.len() >= HEADER {
                lemma_drained_never_pauses(opened(raw), out, raw.skip(HEADER as int));
            }
        },
        Phase::Body { remaining, padding, eom } => {
            let take = least(raw.len() as int, remaining as int);
            let rest = raw.skip(take);
            let drop = least(rest.len() as int, padding as int);
            lemma_drained_never_pauses(Phase::Header, out + raw.take(take), rest.skip(drop));
        },
    }
}

/// An early poll may be answered with nothing: up to a hundred such reads in
/// a row leave the reply as it was, and the next read counts as if they had
/// not been.
pub proof fn law_empty_reads_are_waited_out(before: Assembly, data: Seq<u8>)
    requires
        before.raw.len() == 0,
        before.empties < EMPTY_READS,
        data.len() > 0,
    ensures
        before.fed(Seq::empty()).1 == Turn::Pause,
        before.fed(Seq::empty()).0 == (Assembly { empties: before.empties + 1, ..before }),
        before.fed(Seq::empty()).0.fed(data) == before.fed(data),
{
}

proof fn lemma_received_is_drained(packets: Seq<Seq<u8>>)
    requires
        forall|i: int| 0 <= i < packets.len() ==> (#[trigger] packets[i]).len() > 0,
    ensures
        ({
            let (end, turn) = drained(Phase::Header, Seq::empty(), joined(packets));
            &&& received(packets).1 == turn
            &&& received(packets).0.out == end.out
            &&& turn == Turn::Read ==> received(packets).0 == end
        }),
    decreases packets.len(),
{
    if packets.len() > 0 {
        let earlier = packets.drop_last();
        assert forall|i: int| 0 <= i < earlier.len() implies (#[trigger] earlier[i]).len() > 0 by {
            assert(earlier[i] == packets[i]);
        }
        lemma_received_is_drained(earlier);
        assert(packets.last().len() > 0) by {
            assert(packets[packets.len() - 1].len() > 0);
        }
        let so_far = joined(earlier);
        lemma_drained_never_pauses(Phase::Header, Seq::empty(), so_far);
        if drained(Phase::Header, Seq::empty(), so_far).1 == Turn::Read {
            law_splitting_makes_no_difference(Phase::Header, Seq::empty(), so_far, packets.last());
        } else {
            law_what_follows_is_left_alone(Phase::Header, Seq::empty(), so_far, packets.last());
        }
    }
}

/// Whatever packets a message arrives in, reading them gives what was sent.
pub proof fn law_packets_do_not_matter(transfers: Seq<Transfer>, packets: Seq<Seq<u8>>)
    requires
        transfers.len() > 0,
        forall|i: int| 0 <= i < transfers.len() ==> well_formed(#[trigger] transfers[i]),
        forall|i: int| 0 <= i < packets.len() ==> (#[trigger] packets[i]).len() > 0,
        joined(packets) == message(transfers),
    ensures
        received(packets).1 == Turn::Done,
        received(packets).0.out == contents(transfers),
{
    lemma_received_is_drained(packets);
    law_message_is_read_back(transfers, Seq::empty(), Seq::empty());
    assert(message(transfers) + Seq::<u8>::empty() =~= message(transfers));
    assert(Seq::<u8>::empty() + contents(transfers) =~= contents(transfers));
}

/// A reply's bytes as text, without the line end.
pub open spec fn reply_text_of(decoded: Seq<char>) -> Seq<char> {
    text::end_trimmed(decoded)
}

/// A query's reply as text: decoded, without whitespace at its end.
pub fn reply_text(data: &[u8]) -> (reply: String)
    ensures
        reply@ == reply_text_of(text::lossy(data@)),
        vstd::utf8::valid_utf8(data@) ==> reply@ == reply_text_of(vstd::utf8::decode_utf8(data@)),
{
    let decoded: String = text::decode_lossy(data);
    text::trim_end(decoded.as_str())
}

// ---- Finding the instrument ---------------------------------------------

/// An interface a device offers.
#[derive(Debug)]
pub struct Setting {
    pub number: u8,
    pub class: u8,
    pub subclass: u8,
    pub endpoints: Vec<Endpoint>,
}

/// An endpoint of an interface.
#[derive(Clone, Copy, Debug, PartialEq, Eq, Structural)]
pub struct Endpoint {
    pub address: u8,
    pub bulk: bool,
    /// Towards the host.
    pub input: bool,
}

/// Whether an interface speaks USBTMC.
pub open spec fn is_tmc(class: u8, subclass: u8) -> bool {
    class == USBTMC_CLASS && subclass == USBTMC_SUBCLASS
}

/// Whether a device is worth opening: it is of the vendor, or offers an
/// interface that speaks USBTMC. The first counts because some systems do not
/// say what a device offers before it is opened.
pub fn is_candidate(vid: u16, interfaces: &[(u8, u8)]) -> (yes: bool)
    ensures
        yes == (vid == SIGLENT_VID || exists|i: int|
            0 <= i < interfaces@.len() && is_tmc((#[trigger] interfaces@[i]).0, interfaces@[i].1)),
{
    if vid == SIGLENT_VID {
        return true;
    }
    let mut i: usize = 0;
    while i < interfaces.len()
        invariant
            i <= interfaces@.len(),
            forall|k: int| 0 <= k < i ==> !is_tmc((#[trigger] interfaces@[k]).0, interfaces@[k].1),
        decreases interfaces@.len() - i,
    {
        let (class, subclass) = interfaces[i];
        if class == USBTMC_CLASS && subclass == USBTMC_SUBCLASS {
            assert(is_tmc(interfaces@[i as int].0, interfaces@[i as int].1));
            return true;
        }
        i += 1;
    }
    false
}

/// The serial numbers agree, or none is asked for.
pub open spec fn serial_fits(wanted: Option<Seq<char>>, found: Option<Seq<char>>) -> bool {
    wanted is None || wanted == found
}

/// Whether a device is the one that was reset: bus addresses move, so it is
/// known again by vendor, product and serial number.
pub fn is_same_device(
    wanted: (u16, u16),
    wanted_serial: Option<&str>,
    found: (u16, u16),
    found_serial: Option<&str>,
) -> (yes: bool)
    ensures
        yes == (wanted == found && serial_fits(
            match wanted_serial {
                Some(s) => Some(s@),
                None => None,
            },
            match found_serial {
                Some(s) => Some(s@),
                None => None,
            },
        )),
{
    if wanted.0 != found.0 || wanted.1 != found.1 {
        return false;
    }
    match wanted_serial {
        None => true,
        Some(w) => match found_serial {
            None => false,
            Some(f) => text::same(w, f),
        },
    }
}

/// What a device's interfaces come to: the interface that speaks USBTMC, and
/// its bulk endpoints. Where several would do, the last one counts.
#[derive(Clone, Copy, Debug, PartialEq, Eq)]
pub struct Picked {
    pub interface: Option<u8>,
    pub ep_in: Option<u8>,
    pub ep_out: Option<u8>,
}

/// After the endpoints of an interface that speaks USBTMC.
pub open spec fn endpoints_picked(before: Picked, endpoints: Seq<Endpoint>) -> Picked
    decreases endpoints.len(),
{
    if endpoints.len() == 0 {
        before
    } else {
        let so_far = endpoints_picked(before, endpoints.drop_last());
        let last = endpoints.last();
        if !last.bulk {
            so_far
        } else if last.input {
            Picked { ep_in: Some(last.address), ..so_far }
        } else {
            Picked { ep_out: Some(last.address), ..so_far }
        }
    }
}

/// After a run of interfaces.
pub open spec fn settings_picked(settings: Seq<Setting>) -> Picked
    decreases settings.len(),
{
    if settings.len() == 0 {
        Picked { interface: None, ep_in: None, ep_out: None }
    } else {
        let so_far = settings_picked(settings.drop_last());
        let last = settings.last();
        if is_tmc(last.class, last.subclass) {
            endpoints_picked(Picked { interface: Some(last.number), ..so_far }, last.endpoints@)
        } else {
            so_far
        }
    }
}

fn pick_endpoints(before: Picked, endpoints: &Vec<Endpoint>) -> (picked: Picked)
    ensures
        picked == endpoints_picked(before, endpoints@),
{
    let mut picked: Picked = before;
    let mut i: usize = 0;
    assert(endpoints@.take(0) =~= Seq::<Endpoint>::empty());
    while i < endpoints.len()
        invariant
            i <= endpoints@.len(),
            picked == endpoints_picked(before, endpoints@.take(i as int)),
        decreases endpoints@.len() - i,
    {
        assert(endpoints@.take(i + 1).drop_last() =~= endpoints@.take(i as int));
        let ep: Endpoint = endpoints[i];
        if ep.bulk {
            if ep.input {
                picked.ep_in = Some(ep.address);
            } else {
                picked.ep_out = Some(ep.address);
            }
        }
        i += 1;
    }
    assert(endpoints@.take(i as int) =~= endpoints@);
    picked
}

/// The interface and the endpoints to use. An interface that speaks USBTMC
/// also carries an interrupt endpoint, which moves no messages.
pub fn pick(settings: &Vec<Setting>) -> (picked: Picked)
    ensures
        picked == settings_picked(settings@),
{
    let mut picked: Picked = Picked { interface: None, ep_in: None, ep_out: None };
    let mut i: usize = 0;
    assert(settings@.take(0) =~= Seq::<Setting>::empty());
    while i < settings.len()
        invariant
            i <= settings@.len(),
            picked == settings_picked(settings@.take(i as int)),
        decreases settings@.len() - i,
    {
        assert(settings@.take(i + 1).drop_last() =~= settings@.take(i as int));
        let setting: &Setting = &settings[i];
        if setting.class == USBTMC_CLASS && setting.subclass == USBTMC_SUBCLASS {
            picked.interface = Some(setting.number);
            picked = pick_endpoints(picked, &setting.endpoints);
        }
        i += 1;
    }
    assert(settings@.take(i as int) =~= settings@);
    picked
}

// ---- Clearing a device --------------------------------------------------

/// Looks at a device's status before a clear is given up on.
pub const CLEAR_TRIES: u32 = 50;

/// A wait for a device to finish clearing.
pub fn start_clear() -> (wait: Wait)
    ensures
        wait == Wait::Polling(CLEAR_TRIES),
{
    Wait::start(CLEAR_TRIES)
}

/// One look at a device's status: only a leading 1 says that it is done.
pub fn look_clear(wait: Wait, status: &[u8]) -> (next: Wait)
    ensures
        next == wait.spec_look(status@.len() > 0 && status@[0] == 1),
{
    wait.look(status.len() > 0 && status[0] == 1)
}

// ---- What the framing is for --------------------------------------------

/// A header's bytes: the message, its tag and the tag's complement, the size
/// least significant byte first, and the attributes. The rest is zero.
pub proof fn law_header_says_its_size(msg: u8, tag: u8, size: int, attributes: u8)
    requires
        0 <= size < 0x1_0000_0000,
    ensures
        ({
            let head = header(msg, tag, size, attributes);
            &&& head.len() == 12
            &&& head[0] == msg && head[1] == tag && head[1] + head[2] == 255
            &&& head[4] + 256 * head[5] + 65536 * head[6] + 16777216 * head[7] == size
            &&& head[8] == attributes
            &&& head[3] == 0 && head[9] == 0 && head[10] == 0 && head[11] == 0
        }),
{
    let head = header(msg, tag, size, attributes);
    assert(head[4] == (size % 256) as u8 && head[5] == (size / 256 % 256) as u8 && head[6] == (size / 0x1_0000
        % 256) as u8 && head[7] == (size / 0x100_0000 % 256) as u8);
}

/// A command goes out whole: a header that announces its length and ends the
/// message, its bytes, and zeros up to the next multiple of four, and no more.
pub proof fn law_command_goes_out_whole(tag: u8, payload: Seq<u8>, i: int)
    requires
        payload.len() < 0x1_0000_0000,
        0 <= i < payload.len(),
    ensures
        ({
            let sent = framed(tag, payload);
            &&& sent.len() % 4 == 0
            &&& 12 + payload.len() <= sent.len() < 12 + payload.len() + 4
            &&& sent[0] == 1 && sent[1] == tag && sent[2] == 255 - tag && sent[8] == 1
            &&& sent[4] + 256 * sent[5] + 65536 * sent[6] + 16777216 * sent[7] == payload.len()
            &&& sent[12 + i] == payload[i]
            &&& forall|k: int| 12 + payload.len() <= k < sent.len() ==> #[trigger] sent[k] == 0
        }),
{
    law_header_says_its_size(1, tag, payload.len() as int, 1);
    let head = header(1, tag, payload.len() as int, 1);
    let sent = framed(tag, payload);
    assert forall|k: int| 0 <= k < 12 implies #[trigger] sent[k] == head[k] by {}
}

/// Where a reply ends, by its bytes alone: a header of a reply announces so
/// many bytes, and what follows it is them, with padding up to a multiple of
/// four. Without the end-of-message bit another header comes next.
pub proof fn law_reply_is_what_its_header_announces(out: Seq<u8>, bytes: Seq<u8>, size: int, after: Seq<u8>)
    requires
        bytes.len() >= 12 + size,
        bytes.len() < 12 + size + 4,
        bytes.len() % 4 == 0,
        bytes[0] == 2,
        size == bytes[4] + 256 * bytes[5] + 65536 * bytes[6] + 16777216 * bytes[7],
    ensures
        bytes[8] % 2 == 1 ==> drained(Phase::Header, out, bytes + after) == (
            Assembly { out: out + bytes.subrange(12, 12 + size), raw: after, phase: Phase::Header, empties: 0 },
            Turn::Done,
        ),
        bytes[8] % 2 == 0 ==> drained(Phase::Header, out, bytes + after) == drained(
            Phase::Header,
            out + bytes.subrange(12, 12 + size),
            after,
        ),
{
    let all = bytes + after;
    let body = all.skip(12);
    let pad = bytes.len() - 12 - size;
    assert(all[0] == 2 && all[8] == bytes[8]);
    assert(size_of(all) == size);
    assert(pad == padding_after(size));
    assert(body.take(size) =~= bytes.subrange(12, 12 + size));
    assert(body.skip(size).skip(pad) =~= after);
    assert(drained(Phase::Header, out, all) == drained(opened(all), out, body));
}

/// A header of any other message is refused by its first byte, and one that
/// is not whole is waited for.
pub proof fn law_only_replies_are_taken(out: Seq<u8>, bytes: Seq<u8>)
    ensures
        bytes.len() < 12 ==> drained(Phase::Header, out, bytes).1 == Turn::Read && drained(
            Phase::Header,
            out,
            bytes,
        ).0.out == out && drained(Phase::Header, out, bytes).0.raw == bytes,
        bytes.len() >= 12 && bytes[0] != 2 ==> drained(Phase::Header, out, bytes).1 == Turn::Unknown(bytes[0]),
{
}

/// Nothing at all may come a hundred times in a row, and no more.
pub proof fn law_silence_is_given_up_on(before: Assembly)
    requires
        before.raw.len() == 0,
    ensures
        before.fed(Seq::empty()).0.out == before.out,
        before.empties >= 100 <==> before.fed(Seq::empty()).1 == Turn::Silent,
        before.empties < 100 <==> before.fed(Seq::empty()).1 == Turn::Pause,
        before.fed(Seq::empty()).0.empties == before.empties + 1,
{
}

/// Tags come round after 255 transfers, one after the other and none twice.
pub proof fn law_tags_count_up(tag: u8)
    requires
        tag != 0,
    ensures
        tag < 255 ==> Tags::following(tag) == tag + 1,
        tag == 255 ==> Tags::following(tag) == 1,
{
}

/// Endpoint `e` of interface `s` moves messages in one direction.
pub open spec fn moves(settings: Seq<Setting>, s: int, e: int, input: bool) -> bool {
    &&& 0 <= s < settings.len()
    &&& settings[s].class == 0xFE && settings[s].subclass == 3
    &&& 0 <= e < settings[s].endpoints@.len()
    &&& settings[s].endpoints@[e].bulk && settings[s].endpoints@[e].input == input
}

/// The endpoint that was picked for a direction.
pub open spec fn picked_for(picked: Picked, input: bool) -> Option<u8> {
    if input {
        picked.ep_in
    } else {
        picked.ep_out
    }
}

proof fn lemma_endpoints(before: Picked, endpoints: Seq<Endpoint>, input: bool)
    ensures
        endpoints_picked(before, endpoints).interface == before.interface,
        (forall|e: int| 0 <= e < endpoints.len() ==> !(#[trigger] endpoints[e].bulk && endpoints[e].input == input))
            ==> picked_for(endpoints_picked(before, endpoints), input) == picked_for(before, input),
        forall|e: int|
            0 <= e < endpoints.len() && #[trigger] endpoints[e].bulk && endpoints[e].input == input && (forall|l: int|
                e < l < endpoints.len() ==> !(#[trigger] endpoints[l].bulk && endpoints[l].input == input))
                ==> picked_for(endpoints_picked(before, endpoints), input) == Some(endpoints[e].address),
    decreases endpoints.len(),
{
    if endpoints.len() > 0 {
        let shorter = endpoints.drop_last();
        let last = endpoints.last();
        lemma_endpoints(before, shorter, input);
        assert(last == endpoints[endpoints.len() - 1]);
        assert forall|e: int| 0 <= e < shorter.len() implies #[trigger] shorter[e] == endpoints[e] by {}
        if last.bulk && last.input == input {
            assert(picked_for(endpoints_picked(before, endpoints), input) == Some(last.address));
        } else {
            assert(picked_for(endpoints_picked(before, endpoints), input) == picked_for(
                endpoints_picked(before, shorter),
                input,
            ));
            assert forall|e: int|
                0 <= e < endpoints.len() && #[trigger] endpoints[e].bulk && endpoints[e].input == input && (forall|
                    l: int,
                | e < l < endpoints.len() ==> !(#[trigger] endpoints[l].bulk && endpoints[l].input == input)) implies picked_for(
                endpoints_picked(before, endpoints),
                input,
            ) == Some(endpoints[e].address) by {
                assert(e < shorter.len());
                assert(shorter[e] == endpoints[e]);
                assert forall|l: int| e < l < shorter.len() implies !(#[trigger] shorter[l].bulk && shorter[l].input
                    == input) by {
                    assert(endpoints[l] == shorter[l]);
                    assert(!(endpoints[l].bulk && endpoints[l].input == input));
                }
            }
        }
    }
}

/// Each direction is served by the last bulk endpoint of that direction that an
/// interface speaking USBTMC lists, in whatever order the two directions are
/// listed.
pub proof fn law_last_bulk_endpoint_is_picked(settings: Seq<Setting>, s: int, e: int, input: bool)
    requires
        moves(settings, s, e, input),
        forall|t: int, f: int| #[trigger] moves(settings, t, f, input) ==> t < s || t == s && f <= e,
    ensures
        picked_for(settings_picked(settings), input) == Some(settings[s].endpoints@[e].address),
    decreases settings.len(),
{
    let shorter = settings.drop_last();
    let last = settings.last();
    let so_far = settings_picked(shorter);
    let at = settings.len() - 1;
    assert(last == settings[at]);
    let before = Picked { interface: Some(last.number), ..so_far };
    lemma_endpoints(before, last.endpoints@, input);
    if s == at {
        let eps = last.endpoints@;
        assert forall|l: int| e < l < eps.len() implies !(#[trigger] eps[l].bulk && eps[l].input == input) by {
            assert(!moves(settings, s, l, input));
        }
        assert(eps[e].bulk);
    } else {
        assert forall|t: int, f: int| #[trigger] moves(shorter, t, f, input) implies t < s || t == s && f <= e by {
            assert(shorter[t] == settings[t]);
            assert(moves(settings, t, f, input));
        }
        assert(shorter[s] == settings[s]);
        assert(moves(shorter, s, e, input));
        law_last_bulk_endpoint_is_picked(shorter, s, e, input);
        if is_tmc(last.class, last.subclass) {
            let eps = last.endpoints@;
            assert forall|l: int| 0 <= l < eps.len() implies !(#[trigger] eps[l].bulk && eps[l].input == input) by {
                assert(!moves(settings, at, l, input));
            }
        }
    }
}

/// A direction goes without an endpoint only if no interface that speaks
/// USBTMC lists a bulk endpoint for it.
pub proof fn law_no_endpoint_only_if_none_is_listed(settings: Seq<Setting>, input: bool)
    requires
        forall|s: int, e: int| !#[trigger] moves(settings, s, e, input),
    ensures
        picked_for(settings_picked(settings), input) is None,
    decreases settings.len(),
{
    if settings.len() > 0 {
        let shorter = settings.drop_last();
        let last = settings.last();
        let at = settings.len() - 1;
        assert forall|s: int, e: int| !#[trigger] moves(shorter, s, e, input) by {
            if moves(shorter, s, e, input) {
                assert(shorter[s] == settings[s]);
                assert(moves(settings, s, e, input));
            }
        }
        law_no_endpoint_only_if_none_is_listed(shorter, input);
        lemma_endpoints(Picked { interface: Some(last.number), ..settings_picked(shorter) }, last.endpoints@, input);
        if is_tmc(last.class, last.subclass) {
            let eps = last.endpoints@;
            assert forall|l: int| 0 <= l < eps.len() implies !(#[trigger] eps[l].bulk && eps[l].input == input) by {
                assert(!moves(settings, at, l, input));
            }
        }
    }
}

/// The interface that is picked is the last that speaks USBTMC, and there is
/// none only if none does.
pub proof fn law_last_tmc_interface_is_picked(settings: Seq<Setting>)
    ensures
        forall|s: int|
            0 <= s < settings.len() && #[trigger] settings[s].class == 0xFE && settings[s].subclass == 3 && (forall|
                t: int,
            | s < t < settings.len() ==> !(#[trigger] settings[t].class == 0xFE && settings[t].subclass == 3))
                ==> settings_picked(settings).interface == Some(settings[s].number),
        settings_picked(settings).interface is None <==> forall|t: int|
            0 <= t < settings.len() ==> !(#[trigger] settings[t].class == 0xFE && settings[t].subclass == 3),
    decreases settings.len(),
{
    if settings.len() > 0 {
        let shorter = settings.drop_last();
        let last = settings.last();
        let at = settings.len() - 1;
        assert(last == settings[at]);
        law_last_tmc_interface_is_picked(shorter);
        assert forall|t: int| 0 <= t < shorter.len() implies #[trigger] shorter[t] == settings[t] by {}
        lemma_endpoints(Picked { interface: Some(last.number), ..settings_picked(shorter) }, last.endpoints@, true);
        if is_tmc(last.class, last.subclass) {
            assert(settings[at].class == 0xFE);
        } else {
            assert forall|s: int|
                0 <= s < settings.len() && #[trigger] settings[s].class == 0xFE && settings[s].subclass == 3 && (forall|
                    t: int,
                | s < t < settings.len() ==> !(#[trigger] settings[t].class == 0xFE && settings[t].subclass == 3)) implies settings_picked(
                settings,
            ).interface == Some(settings[s].number) by {
                assert(shorter[s] == settings[s]);
                assert forall|t: int| s < t < shorter.len() implies !(#[trigger] shorter[t].class == 0xFE
                    && shorter[t].subclass == 3) by {
                    assert(settings[t] == shorter[t]);
                    assert(!(settings[t].class == 0xFE && settings[t].subclass == 3));
                }
                assert(shorter[s].class == 0xFE);
            }
            if settings_picked(settings).interface is None {
                assert forall|t: int| 0 <= t < settings.len() implies !(#[trigger] settings[t].class == 0xFE
                    && settings[t].subclass == 3) by {
                    if t < shorter.len() {
                        assert(!(shorter[t].class == 0xFE && shorter[t].subclass == 3));
                    }
                }
            } else {
                let t = choose|t: int|
                    0 <= t < shorter.len() && #[trigger] shorter[t].class == 0xFE && shorter[t].subclass == 3;
                assert(settings[t].class == 0xFE && settings[t].subclass == 3);
            }
        }
    }
}

/// A device is known again by its serial number where one was known, and only
/// the same one will do.
pub proof fn law_serial_numbers_have_to_agree(wanted: Seq<char>, found: Option<Seq<char>>)
    ensures
        serial_fits(None, found),
        serial_fits(Some(wanted), found) <==> found == Some(wanted),
{
}

/// Only class 0xFE, subclass 3 speaks USBTMC.
pub proof fn law_tmc_is_one_class(class: u8, subclass: u8)
    ensures
        is_tmc(class, subclass) <==> class == 254 && subclass == 3,
{
}

/// A reply's text loses the blanks at its end, and nothing else.
pub proof fn law_replies_lose_blank_ends(reply: Seq<char>, blanks: Seq<char>)
    requires
        reply.len() > 0 ==> !text::is_white(reply.last()),
        forall|i: int| 0 <= i < blanks.len() ==> text::is_white(#[trigger] blanks[i]),
    ensures
        reply_text_of(reply + blanks) == reply,
    decreases blanks.len(),
{
    let all = reply + blanks;
    if blanks.len() == 0 {
        assert(all =~= reply);
    } else {
        let fewer = blanks.drop_last();
        assert(all.last() == blanks[blanks.len() - 1]);
        assert(all.drop_last() =~= reply + fewer);
        assert forall|i: int| 0 <= i < fewer.len() implies text::is_white(#[trigger] fewer[i]) by {
            assert(fewer[i] == blanks[i]);
        }
        law_replies_lose_blank_ends(reply, fewer);
    }
}

} // verus!
