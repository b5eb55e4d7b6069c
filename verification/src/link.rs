//! The wireless link: the frames that go out, the commands that come in, and
//! the address switch that names this meter.

use crate::cal::{CalError, Calibration, CalibrationView, Pending};
use crate::meter::{Quality, Reading};
use crate::nvcal::StoreError;
use crate::range::Range;
use crate::text;
use vstd::prelude::*;
use vstd::utf8::encode_utf8;

verus! {

/// The radio's settling time after its supply comes up.
pub const BT_SETTLE_MS: u64 = 350;

/// The radio's serial rate. The module has to be set to match.
pub const BT_BAUD_RATE: u32 = 115_200;

/// Alarm thresholds, in milliamps.
pub const LOW_LIMIT_MA: u32 = 200;

pub const HIGH_LIMIT_MA: u32 = 2_000;

/// The most a frame can say.
pub const MAX_FRAME_MA: u32 = 9_999_999;

/// How long one chunk may sit unsent before a line is abandoned.
pub const TX_DEADLINE_MS: u64 = 250;

/// Bytes of a line that go to the module at a time: one notification's worth.
pub const BT_PACKET_MAX: usize = 20;

/// The pause in front of every chunk: one connection interval.
pub const BT_PACKET_GAP_MS: u64 = 50;

/// How often the meter announces itself while idle.
pub const HEARTBEAT_MS: u64 = 2_000;

/// Longest command line accepted, in bytes.
pub const CMD_MAX: usize = 64;

/// Longest line this link emits, in bytes, line end included.
pub const LINE_MAX: usize = 128;

/// `heapless::String`, a string of bounded size that lives where it is.
#[verifier::external_type_specification]
#[verifier::external_body]
pub struct ExBoundedString<const BYTES: usize>(heapless::String<BYTES>);

/// What a bounded command line holds.
pub uninterp spec fn command_text(s: heapless::String<64>) -> Seq<char>;

/// What a bounded line to be sent holds.
pub uninterp spec fn line_text(s: heapless::String<128>) -> Seq<char>;

/// `heapless::String::new`: nothing in it.
#[verifier::external_body]
fn new_command() -> (s: heapless::String<64>)
    ensures
        command_text(s) == Seq::<char>::empty(),
{
    heapless::String::new()
}

/// `heapless::String::push`: appends the character if its UTF-8 encoding
/// still fits the capacity, and changes nothing otherwise.
#[verifier::external_body]
fn push_command(s: &mut heapless::String<64>, c: char) -> (pushed: Result<(), ()>)
    ensures
        pushed is Ok <==> encode_utf8(command_text(*old(s)).push(c)).len() <= CMD_MAX,
        command_text(*final(s)) == if pushed is Ok {
            command_text(*old(s)).push(c)
        } else {
            command_text(*old(s))
        },
{
    s.push(c)
}

/// `heapless::String::clear`: nothing is left in it.
#[verifier::external_body]
fn clear_command(s: &mut heapless::String<64>)
    ensures
        command_text(*final(s)) == Seq::<char>::empty(),
{
    s.clear()
}

/// `heapless::String::as_str`: its contents.
#[verifier::external_body]
fn command_str(s: &heapless::String<64>) -> (text: &str)
    ensures
        text@ == command_text(*s),
{
    s.as_str()
}

/// `heapless::String::new`: nothing in it.
#[verifier::external_body]
fn new_line() -> (s: heapless::String<128>)
    ensures
        line_text(s) == Seq::<char>::empty(),
{
    heapless::String::new()
}

/// `heapless::String::push_str`: appends the string if its UTF-8 encoding
/// still fits the capacity, and changes nothing otherwise.
#[verifier::external_body]
fn push_line(s: &mut heapless::String<128>, more: &str) -> (pushed: Result<(), ()>)
    ensures
        pushed is Ok <==> encode_utf8(line_text(*old(s)) + more@).len() <= LINE_MAX,
        line_text(*final(s)) == if pushed is Ok {
            line_text(*old(s)) + more@
        } else {
            line_text(*old(s))
        },
{
    s.push_str(more)
}

/// `heapless::String::as_str`: its contents.
#[verifier::external_body]
fn line_str(s: &heapless::String<128>) -> (text: &str)
    ensures
        text@ == line_text(*s),
{
    s.as_str()
}

// ---- The address switch -------------------------------------------------

/// What a closed position of the switch weighs.
pub open spec fn weighed(closed: bool, weight: int) -> int {
    if closed {
        weight
    } else {
        0
    }
}

/// The address of a coded switch.
pub open spec fn coded(bit0: bool, bit1: bool, bit2: bool, bit3: bool) -> int {
    weighed(bit0, 1) + weighed(bit1, 2) + weighed(bit2, 4) + weighed(bit3, 8)
}

/// The address of a coded switch: each closed position contributes its
/// weight.
pub fn address(bit0: bool, bit1: bool, bit2: bool, bit3: bool) -> (addr: u8)
    ensures
        addr == coded(bit0, bit1, bit2, bit3),
        addr == (if bit0 {
            1int
        } else {
            0
        }) + (if bit1 {
            2int
        } else {
            0
        }) + (if bit2 {
            4int
        } else {
            0
        }) + (if bit3 {
            8int
        } else {
            0
        }),
        addr < 16,
{
    let a: u8 = if bit0 { 1 } else { 0 };
    let b: u8 = if bit1 { 2 } else { 0 };
    let c: u8 = if bit2 { 4 } else { 0 };
    let d: u8 = if bit3 { 8 } else { 0 };
    a + b + c + d
}

// ---- Commands -----------------------------------------------------------

/// The value of the first pair with this key, whichever position it sits in.
pub open spec fn value_in(parts: Seq<Seq<char>>, key: Seq<char>) -> Option<Seq<char>>
    decreases parts.len(),
{
    if parts.len() == 0 {
        None
    } else {
        match text::halves(parts[0], '=') {
            Some((name, value)) if text::trimmed(name) == key => Some(text::trimmed(value)),
            _ => value_in(parts.skip(1), key),
        }
    }
}

/// One `KEY=value` out of a command line. What stands before the first comma
/// is not one.
pub open spec fn value_of(line: Seq<char>, key: Seq<char>) -> Option<Seq<char>> {
    value_in(text::pieces(line, ',').skip(1), key)
}

/// One `KEY=value` out of a command line, whichever position it sits in.
pub fn field(line: &str, key: &str) -> (value: Option<String>)
    ensures
        value is Some <==> value_of(line@, key@) is Some,
        value matches Some(v) ==> value_of(line@, key@) == Some(v@),
{
    let parts: Vec<String> = text::split(line, ',');
    proof {
        text::lemma_pieces_nonempty(line@, ',');
    }
    let ghost all = text::views(parts@);
    let mut i: usize = 1;
    while i < parts.len()
        invariant
            1 <= i <= parts@.len(),
            all == text::views(parts@),
            all == text::pieces(line@, ','),
            value_of(line@, key@) == value_in(all.skip(i as int), key@),
        decreases parts@.len() - i,
    {
        let ghost rest = all.skip(i as int);
        assert(rest[0] == parts@[i as int]@);
        assert(rest.skip(1) =~= all.skip(i + 1));
        if let Some((name, value)) = text::split_once(parts[i].as_str(), '=') {
            let found: String = text::trim(name.as_str());
            if text::same(found.as_str(), key) {
                return Some(text::trim(value.as_str()));
            }
        }
        i += 1;
    }
    assert(all.skip(i as int) =~= Seq::<Seq<char>>::empty());
    None
}

/// What a reader can ask for.
#[derive(Clone, Copy, Debug, PartialEq, Eq, Structural)]
pub enum Command {
    /// Take one reading now.
    Measure,
    /// One point of a table being pushed, staged but not installed; the
    /// coordinates are bit patterns of `f32` numbers.
    CalPoint { index: usize, lsb: u32, amps: u32 },
    /// Install the staged points, all `count` of them.
    CalCommit { count: usize },
    /// Back to the built-in table.
    CalClear,
    /// Say which table is in use.
    CalStatus,
}

/// A command line as far as it is understood here: the coordinates of a point
/// are still text.
#[derive(Debug)]
pub enum Request {
    Measure,
    CalPoint { index: usize, x: String, y: String },
    CalCommit { count: usize },
    CalClear,
    CalStatus,
}

/// A request as a mathematical value.
#[verifier::ext_equal]
pub enum Asked {
    Measure,
    CalPoint { index: int, x: Seq<char>, y: Seq<char> },
    CalCommit { count: int },
    CalClear,
    CalStatus,
}

impl View for Request {
    type V = Asked;

    open spec fn view(&self) -> Asked {
        match self {
            Request::Measure => Asked::Measure,
            Request::CalPoint { index, x, y } => Asked::CalPoint { index: *index as int, x: x@, y: y@ },
            Request::CalCommit { count } => Asked::CalCommit { count: *count as int },
            Request::CalClear => Asked::CalClear,
            Request::CalStatus => Asked::CalStatus,
        }
    }
}

/// A field read as a number.
pub open spec fn number_of(line: Seq<char>, key: Seq<char>, max: int) -> Option<int> {
    match value_of(line, key) {
        Some(v) => text::number(v, 10, max),
        None => None,
    }
}

/// What a calibration command asks for, its address already checked.
pub open spec fn cal_asked(head: Seq<char>, line: Seq<char>) -> Option<Asked> {
    if head == "CALPT"@ {
        match (number_of(line, "I"@, usize::MAX as int), value_of(line, "X"@), value_of(line, "Y"@)) {
            (Some(index), Some(x), Some(y)) => Some(Asked::CalPoint { index, x, y }),
            _ => None,
        }
    } else if head == "CALEND"@ {
        match number_of(line, "N"@, usize::MAX as int) {
            Some(count) => Some(Asked::CalCommit { count }),
            None => None,
        }
    } else if head == "CALOFF"@ {
        Some(Asked::CalClear)
    } else if head == "CALGET"@ {
        Some(Asked::CalStatus)
    } else {
        None
    }
}

/// What a line asks of the meter at this address.
///
/// A request for a reading is for whoever hears it, unless it names an
/// address. The calibration commands have no broadcast form: a table belongs
/// to the meter it was measured on.
pub open spec fn asked(line: Seq<char>, addr: u8) -> Option<Asked> {
    let head = text::pieces(line, ',')[0];
    let named = number_of(line, "ADDR"@, u8::MAX as int);
    if head == "MEAS"@ {
        if value_of(line, "ADDR"@) is None || named == Some(addr as int) {
            Some(Asked::Measure)
        } else {
            None
        }
    } else if named == Some(addr as int) {
        cal_asked(head, line)
    } else {
        None
    }
}

fn number_field(line: &str, key: &str, max: u64) -> (n: Option<u64>)
    ensures
        n is Some <==> number_of(line@, key@, max as int) is Some,
        n matches Some(v) ==> number_of(line@, key@, max as int) == Some(v as int) && v <= max,
{
    match field(line, key) {
        Some(value) => text::parse(value.as_str(), 10, max),
        None => None,
    }
}

fn parse_cal(head: &str, line: &str) -> (request: Option<Request>)
    ensures
        request is Some <==> cal_asked(head@, line@) is Some,
        request matches Some(r) ==> cal_asked(head@, line@) == Some(r@),
{
    if text::same(head, "CALPT") {
        let index: u64 = match number_field(line, "I", usize::MAX as u64) {
            Some(n) => n,
            None => {
                return None;
            },
        };
        let x: String = match field(line, "X") {
            Some(s) => s,
            None => {
                return None;
            },
        };
        let y: String = match field(line, "Y") {
            Some(s) => s,
            None => {
                return None;
            },
        };
        Some(Request::CalPoint { index: index as usize, x, y })
    } else if text::same(head, "CALEND") {
        match number_field(line, "N", usize::MAX as u64) {
            Some(n) => Some(Request::CalCommit { count: n as usize }),
            None => None,
        }
    } else if text::same(head, "CALOFF") {
        Some(Request::CalClear)
    } else if text::same(head, "CALGET") {
        Some(Request::CalStatus)
    } else {
        None
    }
}

/// What a line asks of the meter at this address. Heads are compared whole,
/// so that a shared prefix is not a shared meaning.
pub fn parse_command_for(line: &str, addr: u8) -> (request: Option<Request>)
    ensures
        request is Some <==> asked(line@, addr) is Some,
        request matches Some(r) ==> asked(line@, addr) == Some(r@),
{
    let parts: Vec<String> = text::split(line, ',');
    proof {
        text::lemma_pieces_nonempty(line@, ',');
        assert(text::views(parts@)[0] == parts@[0]@);
    }
    let head: &str = parts[0].as_str();
    if text::same(head, "MEAS") {
        return match field(line, "ADDR") {
            None => Some(Request::Measure),
            Some(want) => match text::parse(want.as_str(), 10, 255) {
                Some(n) => if n == addr as u64 {
                    Some(Request::Measure)
                } else {
                    None
                },
                None => None,
            },
        };
    }
    match number_field(line, "ADDR", 255) {
        Some(n) => if n == addr as u64 {
            parse_cal(head, line)
        } else {
            None
        },
        None => None,
    }
}

/// What a request comes to, once the coordinates of a point have been read.
pub open spec fn commanded(what: Asked, lsb: Option<u32>, amps: Option<u32>) -> Option<Command> {
    match what {
        Asked::Measure => Some(Command::Measure),
        Asked::CalPoint { index, .. } => match (lsb, amps) {
            (Some(l), Some(a)) => Some(Command::CalPoint { index: index as usize, lsb: l, amps: a }),
            _ => None,
        },
        Asked::CalCommit { count } => Some(Command::CalCommit { count: count as usize }),
        Asked::CalClear => Some(Command::CalClear),
        Asked::CalStatus => Some(Command::CalStatus),
    }
}

impl Request {
    /// The command, once the coordinates of a point have been read as
    /// numbers. One that is not a number makes the line no command at all.
    pub fn resolve(&self, lsb: Option<u32>, amps: Option<u32>) -> (command: Option<Command>)
        ensures
            command == commanded(self@, lsb, amps),
            command == match self@ {
                Asked::Measure => Some(Command::Measure),
                Asked::CalPoint { index, .. } => match (lsb, amps) {
                    (Some(l), Some(a)) => Some(Command::CalPoint { index: index as usize, lsb: l, amps: a }),
                    _ => None,
                },
                Asked::CalCommit { count } => Some(Command::CalCommit { count: count as usize }),
                Asked::CalClear => Some(Command::CalClear),
                Asked::CalStatus => Some(Command::CalStatus),
            },
    {
        match self {
            Request::Measure => Some(Command::Measure),
            Request::CalPoint { index, .. } => match (lsb, amps) {
                (Some(l), Some(a)) => Some(Command::CalPoint { index: *index, lsb: l, amps: a }),
                _ => None,
            },
            Request::CalCommit { count } => Some(Command::CalCommit { count: *count }),
            Request::CalClear => Some(Command::CalClear),
            Request::CalStatus => Some(Command::CalStatus),
        }
    }
}

/// The receiving end: a command line as it arrives, a byte at a time.
#[derive(Debug)]
pub struct Link {
    pending: heapless::String<64>,
    /// The line outgrew the buffer, and its end has not come yet.
    overrun: bool,
}

/// The line assembler as a mathematical value.
#[verifier::ext_equal]
pub struct LinkView {
    /// What has arrived of the line.
    pub text: Seq<char>,
    /// The line outgrew the buffer: the rest of it is dropped too.
    pub overrun: bool,
}

impl View for Link {
    type V = LinkView;

    closed spec fn view(&self) -> LinkView {
        LinkView { text: command_text(self.pending), overrun: self.overrun }
    }
}

impl LinkView {
    /// Between two lines.
    pub open spec fn start() -> LinkView {
        LinkView { text: Seq::empty(), overrun: false }
    }
}

/// What a byte leaves in the line assembler. A line end starts the next line;
/// a byte that does not fit drops the line, up to its end.
pub open spec fn follows(link: LinkView, byte: u8) -> LinkView {
    let grown = link.text.push(byte as char);
    if byte == 10 || byte == 13 {
        LinkView::start()
    } else if link.overrun || encode_utf8(grown).len() > CMD_MAX {
        LinkView { text: Seq::empty(), overrun: true }
    } else {
        LinkView { text: grown, overrun: false }
    }
}

/// The request a byte completes.
pub open spec fn completes(link: LinkView, byte: u8, addr: u8) -> Option<Asked> {
    if (byte == 10 || byte == 13) && !link.overrun {
        asked(text::trimmed(link.text), addr)
    } else {
        None
    }
}

/// The requests that a run of bytes completes.
pub open spec fn requests(link: LinkView, bytes: Seq<u8>, addr: u8) -> Seq<Asked>
    decreases bytes.len(),
{
    if bytes.len() == 0 {
        Seq::empty()
    } else {
        let rest = requests(follows(link, bytes[0]), bytes.skip(1), addr);
        match completes(link, bytes[0], addr) {
            Some(what) => seq![what] + rest,
            None => rest,
        }
    }
}

/// What a wait for a command turned up.
#[derive(Clone, Copy, Debug, PartialEq, Eq, Structural)]
pub enum Arrival {
    /// A byte.
    Byte(u8),
    /// Nothing, for as long as the meter stays silent at a time.
    Beat,
    /// A read that failed or came back empty.
    Nothing,
}

/// What to do about it.
#[derive(Debug)]
pub enum Waiting {
    /// Announce this meter, then wait on.
    Announce(Line),
    /// A whole command line: serve it, or measure.
    Command(Request),
    /// Wait on.
    On,
}

impl Link {
    pub fn new() -> (link: Link)
        ensures
            link@ == LinkView::start(),
    {
        Link { pending: new_command(), overrun: false }
    }

    /// Drop everything that is pending, a partial line included, so that a
    /// request made while the meter was busy is not answered by a reading it
    /// did not ask for. What arrives next is a new line.
    pub fn discard_pending(&mut self)
        ensures
            final(self)@ == LinkView::start(),
    {
        clear_command(&mut self.pending);
        self.overrun = false;
    }

    /// One byte into the line assembler. Gives a request on the line end that
    /// completes one.
    ///
    /// A line that outgrows the buffer is dropped rather than truncated:
    /// truncation can turn an unknown command into a known prefix of one. It
    /// is dropped whole, so that no part of it is taken for a command.
    pub fn feed(&mut self, byte: u8, addr: u8) -> (request: Option<Request>)
        ensures
            request is Some <==> completes(old(self)@, byte, addr) is Some,
            request matches Some(r) ==> completes(old(self)@, byte, addr) == Some(r@),
            final(self)@ == follows(old(self)@, byte),
    {
        if byte == 10 || byte == 13 {
            let request: Option<Request> = if self.overrun {
                None
            } else {
                let line: String = text::trim(command_str(&self.pending));
                parse_command_for(line.as_str(), addr)
            };
            clear_command(&mut self.pending);
            self.overrun = false;
            return request;
        }
        if self.overrun || push_command(&mut self.pending, byte as char).is_err() {
            clear_command(&mut self.pending);
            self.overrun = true;
        }
        None
    }

    /// One turn of waiting for a command. The address switch is read anew for
    /// each.
    pub fn wait_command(&mut self, arrival: Arrival, addr: u8) -> (next: Waiting)
        ensures
            match arrival {
                Arrival::Byte(byte) => {
                    &&& match next {
                        Waiting::Command(r) => completes(old(self)@, byte, addr) == Some(r@),
                        Waiting::On => completes(old(self)@, byte, addr) is None,
                        Waiting::Announce(_) => false,
                    }
                    &&& final(self)@ == follows(old(self)@, byte)
                },
                Arrival::Beat => {
                    &&& final(self)@ == old(self)@
                    &&& next matches Waiting::Announce(line)
                    &&& line@ == fitted(alive_text(addr))
                },
                Arrival::Nothing => final(self)@ == old(self)@ && next is On,
            },
    {
        match arrival {
            Arrival::Byte(byte) => match self.feed(byte, addr) {
                Some(request) => Waiting::Command(request),
                None => Waiting::On,
            },
            Arrival::Beat => Waiting::Announce(send_alive(addr)),
            Arrival::Nothing => Waiting::On,
        }
    }
}

// ---- Lines --------------------------------------------------------------

/// A line to be sent: built whole, and dropped rather than sent short if it
/// overran [`LINE_MAX`].
#[derive(Debug)]
pub struct Line {
    text: heapless::String<128>,
    built: bool,
}

/// The text, if it is short enough to be sent.
pub open spec fn fitted(text: Seq<char>) -> Option<Seq<char>> {
    if encode_utf8(text).len() <= LINE_MAX {
        Some(text)
    } else {
        None
    }
}

impl View for Line {
    type V = Option<Seq<char>>;

    closed spec fn view(&self) -> Option<Seq<char>> {
        if self.built {
            Some(line_text(self.text))
        } else {
            None
        }
    }
}

impl Line {
    fn new(whole: &String) -> (line: Line)
        ensures
            line@ == fitted(whole@),
    {
        let mut text: heapless::String<128> = new_line();
        assert(line_text(text) + whole@ =~= whole@);
        let built: bool = push_line(&mut text, whole.as_str()).is_ok();
        Line { text, built }
    }

    /// The line, if it is to be sent at all.
    pub fn as_str(&self) -> (text: Option<&str>)
        ensures
            text is Some <==> self@ is Some,
            text matches Some(t) ==> self@ == Some(t@),
    {
        if self.built {
            Some(line_str(&self.text))
        } else {
            None
        }
    }
}

/// "I am here, and I am meter n."
pub open spec fn alive_text(addr: u8) -> Seq<char> {
    "IMHERE,ADDR="@ + text::decimal(addr as int) + "\r\n"@
}

/// The heartbeat. Carries no reading.
pub fn send_alive(addr: u8) -> (line: Line)
    ensures
        line@ == fitted(alive_text(addr)),
{
    let mut whole: String = "IMHERE,ADDR=".to_owned();
    text::push_decimal(&mut whole, addr as u64);
    whole.append("\r\n");
    Line::new(&whole)
}

/// The alarm classification of a number of milliamps, and nothing else.
pub open spec fn alarm(milliamps: u32) -> Seq<char> {
    if milliamps < LOW_LIMIT_MA {
        "LOW"@
    } else if milliamps > HIGH_LIMIT_MA {
        "HIGH"@
    } else {
        "NORMAL"@
    }
}

pub fn status(milliamps: u32) -> (text: &'static str)
    ensures
        text@ == alarm(milliamps),
{
    if milliamps < LOW_LIMIT_MA {
        "LOW"
    } else if milliamps > HIGH_LIMIT_MA {
        "HIGH"
    } else {
        "NORMAL"
    }
}

/// Which table readings come from.
pub open spec fn table_name(points: int) -> Seq<char> {
    if points >= 2 {
        "FIELD"@
    } else {
        "ROM"@
    }
}

/// `FIELD` once a pushed table is installed, `ROM` while the meter is on its
/// built-in one.
pub fn source(points: usize) -> (text: &'static str)
    ensures
        text@ == table_name(points as int),
{
    if points >= 2 {
        "FIELD"
    } else {
        "ROM"
    }
}

/// What an error is called on the wire.
pub open spec fn error_name(error: CalError) -> Seq<char> {
    match error {
        CalError::Index => "INDEX"@,
        CalError::Value => "VALUE"@,
        CalError::Missing => "MISSING"@,
        CalError::Order => "ORDER"@,
        CalError::Flash => "FLASH"@,
    }
}

pub fn cal_error(error: CalError) -> (text: &'static str)
    ensures
        text@ == error_name(error),
{
    match error {
        CalError::Index => "INDEX",
        CalError::Value => "VALUE",
        CalError::Missing => "MISSING",
        CalError::Order => "ORDER",
        CalError::Flash => "FLASH",
    }
}

/// What a quality is called on the wire.
pub open spec fn quality_name(quality: Quality) -> Seq<char> {
    match quality {
        Quality::RefBad => "REF_BAD"@,
        Quality::InputBad => "BAD_INPUT"@,
        Quality::OverRange => "OVER"@,
        Quality::Incomplete => "PARTIAL"@,
        Quality::Good => "OK"@,
    }
}

pub fn flag(quality: Quality) -> (text: &'static str)
    ensures
        text@ == quality_name(quality),
{
    match quality {
        Quality::RefBad => "REF_BAD",
        Quality::InputBad => "BAD_INPUT",
        Quality::OverRange => "OVER",
        Quality::Incomplete => "PARTIAL",
        Quality::Good => "OK",
    }
}

/// The milliamps a frame reports for what the panel shows: amps with three
/// decimals, and so milliamps once the point is left out, as far as a frame
/// can say it. What is below zero, or is no number, comes to none.
pub open spec fn shown_ma(shown: Seq<char>) -> u32 {
    match text::capped(text::without(shown, '.'), MAX_FRAME_MA as int) {
        Some(ma) => ma as u32,
        None => if shown == "inf"@ {
            MAX_FRAME_MA
        } else {
            0
        },
    }
}

/// The milliamps a frame reports, from the amps as the panel shows them.
pub fn milliamps(shown: &str) -> (said: u32)
    ensures
        said == shown_ma(shown@),
{
    let digits: String = text::remove(shown, '.');
    match text::parse_capped(digits.as_str(), MAX_FRAME_MA) {
        Some(ma) => ma,
        None => if text::same(shown, "inf") {
            MAX_FRAME_MA
        } else {
            0
        },
    }
}

/// The frame every reader understands, without its line end.
pub open spec fn test_body(addr: u8, ma: u32) -> Seq<char> {
    "METER_TEST,ADDR="@ + text::decimal(addr as int) + ",CURRENT_MA="@ + text::decimal(ma as int) + ",STATUS="@ + alarm(
        ma,
    )
}

/// The frame every reader understands.
pub open spec fn test_text(addr: u8, ma: u32) -> Seq<char> {
    test_body(addr, ma) + "\r\n"@
}

/// The frame a calibration run needs: the raw RMS, the gain it was taken at,
/// what the meter made of it, which table is in use, and, where the probe
/// drained, what the probe saw of the input. Without its line end.
pub open spec fn cal_body(addr: u8, rms: Seq<char>, reading: Reading, points: int) -> Seq<char> {
    "METER_CAL,ADDR="@ + text::decimal(addr as int) + ",RMS="@ + rms + ",GAIN="@ + text::decimal(
        reading.range.spec_nominal(),
    ) + ",FLAG="@ + quality_name(reading.worth()) + ",SRC="@ + table_name(points) + (match reading.probe {
        Some((mean, pp)) => ",MEAN="@ + text::signed_decimal(mean as int) + ",PP="@ + text::decimal(pp as int),
        None => Seq::empty(),
    })
}

/// The frame a calibration run needs.
pub open spec fn cal_text(addr: u8, rms: Seq<char>, reading: Reading, points: int) -> Seq<char> {
    cal_body(addr, rms, reading, points) + "\r\n"@
}

/// One reading, on the wire: two lines. `shown` is its amps as the panel shows
/// them, with three decimals, and `rms` its RMS as text; the caller formats
/// both.
///
/// Every reading goes out, whatever the meter thinks of it, and the number on
/// the wire is the number on the panel.
pub fn send(addr: u8, reading: &Reading, shown: &str, rms: &str, points: usize) -> (lines: (Line, Line))
    ensures
        lines.0@ == fitted(test_text(addr, shown_ma(shown@))),
        lines.1@ == fitted(cal_text(addr, rms@, *reading, points as int)),
{
    let said: u32 = milliamps(shown);
    let mut test: String = "METER_TEST,ADDR=".to_owned();
    text::push_decimal(&mut test, addr as u64);
    test.append(",CURRENT_MA=");
    text::push_decimal(&mut test, said as u64);
    test.append(",STATUS=");
    test.append(status(said));
    test.append("\r\n");

    let mut cal: String = "METER_CAL,ADDR=".to_owned();
    text::push_decimal(&mut cal, addr as u64);
    cal.append(",RMS=");
    cal.append(rms);
    cal.append(",GAIN=");
    text::push_decimal(&mut cal, reading.range.nominal() as u64);
    cal.append(",FLAG=");
    cal.append(flag(reading.quality()));
    cal.append(",SRC=");
    cal.append(source(points));
    let ghost head = cal@;
    if let Some((mean, pp)) = reading.probe {
        let mut seen: String = ",MEAN=".to_owned();
        text::push_signed(&mut seen, mean);
        seen.append(",PP=");
        text::push_decimal(&mut seen, pp as u64);
        cal.append(seen.as_str());
    } else {
        assert(head + Seq::<char>::empty() =~= head);
    }
    cal.append("\r\n");
    (Line::new(&test), Line::new(&cal))
}

/// The part of an answer that names an error.
pub open spec fn error_text(error: Option<CalError>) -> Seq<char> {
    match error {
        Some(e) => ",ERR="@ + error_name(e),
        None => Seq::empty(),
    }
}

/// "Point `index` is staged", or why it is not.
pub open spec fn ack_text(addr: u8, index: int, error: Option<CalError>) -> Seq<char> {
    "CALACK,ADDR="@ + text::decimal(addr as int) + ",I="@ + text::decimal(index) + error_text(error) + "\r\n"@
}

fn push_error(to: &mut String, error: Option<CalError>)
    ensures
        final(to)@ == old(to)@ + error_text(error),
{
    match error {
        Some(e) => {
            let mut name: String = ",ERR=".to_owned();
            name.append(cal_error(e));
            to.append(name.as_str());
        },
        None => {
            assert(old(to)@ + Seq::<char>::empty() =~= old(to)@);
        },
    }
}

pub fn send_cal_ack(addr: u8, index: usize, error: Option<CalError>) -> (line: Line)
    ensures
        line@ == fitted(ack_text(addr, index as int, error)),
{
    let mut whole: String = "CALACK,ADDR=".to_owned();
    text::push_decimal(&mut whole, addr as u64);
    whole.append(",I=");
    text::push_decimal(&mut whole, index as u64);
    push_error(&mut whole, error);
    whole.append("\r\n");
    Line::new(&whole)
}

/// Which table the meter is reading on, and what the last request did to it.
pub open spec fn stat_text(addr: u8, points: int, error: Option<CalError>) -> Seq<char> {
    "CALSTAT,ADDR="@ + text::decimal(addr as int) + ",SRC="@ + table_name(points) + ",N="@ + text::decimal(points)
        + error_text(error) + "\r\n"@
}

pub fn send_cal_status(addr: u8, points: usize, error: Option<CalError>) -> (line: Line)
    ensures
        line@ == fitted(stat_text(addr, points as int, error)),
{
    let mut whole: String = "CALSTAT,ADDR=".to_owned();
    text::push_decimal(&mut whole, addr as u64);
    whole.append(",SRC=");
    whole.append(source(points));
    whole.append(",N=");
    text::push_decimal(&mut whole, points as u64);
    push_error(&mut whole, error);
    whole.append("\r\n");
    Line::new(&whole)
}

// ---- Serving the calibration commands -----------------------------------

/// What carrying out a command comes to.
#[derive(Debug)]
pub enum Served {
    /// Nothing to answer here: a reading is the answer.
    Measure,
    /// Answer with this line.
    Reply(Line),
    /// Store this in flash first, then [`answer_stored`].
    Store(Pending),
}

/// How many points are in use.
pub open spec fn points_of(cal: CalibrationView) -> int {
    match cal.field {
        Some(table) => table.len as int,
        None => 0,
    }
}

/// Carry out one calibration command. Every one of them is answered,
/// including the ones that fail.
pub fn serve(cal: &mut Calibration, addr: u8, command: Command) -> (served: Served)
    requires
        old(cal)@.wf(),
    ensures
        final(cal)@.wf(),
        match command {
            Command::Measure => served is Measure && final(cal)@ == old(cal)@,
            Command::CalPoint { index, lsb, amps } => {
                let error = if index >= crate::cal::FIELD_MAX {
                    Some(CalError::Index)
                } else if !crate::cal::usable_point((lsb, amps)) {
                    Some(CalError::Value)
                } else {
                    None
                };
                &&& error == crate::cal::point_error(index as int, (lsb, amps))
                &&& served matches Served::Reply(line)
                &&& line@ == fitted(ack_text(addr, index as int, error))
                &&& final(cal)@ == if error is None {
                    old(cal)@.with_point(index as int, (lsb, amps))
                } else {
                    old(cal)@
                }
            },
            Command::CalCommit { count } => {
                &&& final(cal)@ == old(cal)@
                &&& match old(cal)@.refusal(count as int) {
                    Some(e) => served matches Served::Reply(line) && line@ == fitted(
                        stat_text(addr, points_of(old(cal)@), Some(e)),
                    ),
                    None => served matches Served::Store(Pending::Install(table)) && table@ == old(cal)@.candidate(
                        count as int,
                    ) && table@.valid(),
                }
            },
            Command::CalClear => {
                &&& final(cal)@ == if old(cal)@.field is None {
                    CalibrationView::fresh()
                } else {
                    old(cal)@
                }
                &&& if old(cal)@.field is None {
                    served matches Served::Reply(line) && line@ == fitted(stat_text(addr, 0, None))
                } else {
                    served matches Served::Store(pending) && pending is Clear
                }
            },
            Command::CalStatus => {
                &&& final(cal)@ == old(cal)@
                &&& served matches Served::Reply(line)
                &&& line@ == fitted(stat_text(addr, points_of(old(cal)@), None))
            },
        },
{
    match command {
        Command::Measure => Served::Measure,
        Command::CalPoint { index, lsb, amps } => {
            let error: Option<CalError> = match cal.stage_point(index, lsb, amps) {
                Ok(()) => None,
                Err(e) => Some(e),
            };
            Served::Reply(send_cal_ack(addr, index, error))
        },
        Command::CalCommit { count } => match cal.commit_field(count) {
            Ok(pending) => Served::Store(pending),
            Err(e) => Served::Reply(send_cal_status(addr, cal.field_len(), Some(e))),
        },
        Command::CalClear => match cal.clear_field() {
            Some(pending) => Served::Store(pending),
            None => Served::Reply(send_cal_status(addr, cal.field_len(), None)),
        },
        Command::CalStatus => Served::Reply(send_cal_status(addr, cal.field_len(), None)),
    }
}

/// The answer to a command whose change has reached flash, or failed to.
pub fn answer_stored(
    cal: &mut Calibration,
    addr: u8,
    pending: Pending,
    stored: Result<(), StoreError>,
) -> (line: Line)
    requires
        old(cal)@.wf(),
        pending.wf(),
    ensures
        final(cal)@.wf(),
        final(cal)@ == if stored is Ok {
            pending.outcome()
        } else {
            old(cal)@
        },
        line@ == fitted(
            stat_text(
                addr,
                points_of(final(cal)@),
                if stored is Ok {
                    None
                } else {
                    Some(CalError::Flash)
                },
            ),
        ),
{
    let error: Option<CalError> = match cal.settle(pending, stored) {
        Ok(()) => None,
        Err(e) => Some(e),
    };
    send_cal_status(addr, cal.field_len(), error)
}

// ---- Putting a line on the air ------------------------------------------

/// The bytes of a line, a notification's worth at a time.
pub open spec fn packets_of(bytes: Seq<u8>) -> Seq<Seq<u8>>
    decreases bytes.len(),
{
    if bytes.len() == 0 {
        Seq::empty()
    } else if bytes.len() <= BT_PACKET_MAX {
        seq![bytes]
    } else {
        seq![bytes.take(BT_PACKET_MAX as int)] + packets_of(bytes.skip(BT_PACKET_MAX as int))
    }
}

/// A line as the chunks it is handed to the radio in. Each waits
/// [`BT_PACKET_GAP_MS`] first, and one that cannot be written in
/// [`TX_DEADLINE_MS`] ends the line.
pub fn put_line(line: &str) -> (packets: Vec<Vec<u8>>)
    ensures
        packets@.map_values(|p: Vec<u8>| p@) == packets_of(encode_utf8(line@)),
{
    let bytes: &[u8] = line.as_bytes();
    let ghost want = packets_of(bytes@);
    let mut packets: Vec<Vec<u8>> = Vec::new();
    let mut from: usize = 0;
    assert(bytes@.skip(0) =~= bytes@);
    assert(packets@.map_values(|p: Vec<u8>| p@) + want =~= want);
    while from < bytes.len()
        invariant
            from <= bytes@.len(),
            want == packets_of(bytes@),
            packets@.map_values(|p: Vec<u8>| p@) + packets_of(bytes@.skip(from as int)) == want,
        decreases bytes@.len() - from,
    {
        let ghost rest = bytes@.skip(from as int);
        let ghost before = packets@;
        let left: usize = bytes.len() - from;
        let n: usize = if left < BT_PACKET_MAX { left } else { BT_PACKET_MAX };
        let mut packet: Vec<u8> = Vec::new();
        let mut i: usize = 0;
        while i < n
            invariant
                i <= n,
                from + n <= bytes@.len(),
                bytes@.len() <= usize::MAX,
                packet@ == bytes@.subrange(from as int, from + i),
            decreases n - i,
        {
            packet.push(bytes[from + i]);
            assert(bytes@.subrange(from as int, from + i + 1) =~= bytes@.subrange(from as int, from + i).push(
                bytes@[from + i],
            ));
            i += 1;
        }
        assert(packet@ =~= rest.take(n as int));
        packets.push(packet);
        assert(packets@.map_values(|p: Vec<u8>| p@) =~= before.map_values(|p: Vec<u8>| p@).push(rest.take(n as int)));
        assert(rest.skip(n as int) =~= bytes@.skip(from + n));
        proof {
            if rest.len() <= BT_PACKET_MAX {
                assert(rest.take(n as int) =~= rest);
                assert(packets_of(rest) =~= seq![rest]);
                assert(packets_of(rest.skip(n as int)) =~= Seq::<Seq<u8>>::empty());
            }
            assert(packets@.map_values(|p: Vec<u8>| p@) + packets_of(rest.skip(n as int)) =~= before.map_values(
                |p: Vec<u8>| p@,
            ) + packets_of(rest));
        }
        from = from + n;
    }
    assert(bytes@.skip(from as int) =~= Seq::<u8>::empty());
    assert(packets@.map_values(|p: Vec<u8>| p@) =~= want);
    packets
}

/// Bytes of a run of packets, one after the other.
pub open spec fn joined(packets: Seq<Seq<u8>>) -> Seq<u8>
    decreases packets.len(),
{
    if packets.len() == 0 {
        Seq::empty()
    } else {
        packets[0] + joined(packets.skip(1))
    }
}

/// The chunks of a line are the line: none is empty or longer than a
/// notification, and one after the other they are its bytes.
pub proof fn law_packets_make_the_line(bytes: Seq<u8>)
    ensures
        joined(packets_of(bytes)) == bytes,
        forall|i: int|
            0 <= i < packets_of(bytes).len() ==> 1 <= (#[trigger] packets_of(bytes)[i]).len() <= BT_PACKET_MAX,
    decreases bytes.len(),
{
    let all = packets_of(bytes);
    if bytes.len() > BT_PACKET_MAX {
        let rest = bytes.skip(BT_PACKET_MAX as int);
        law_packets_make_the_line(rest);
        assert(all.skip(1) =~= packets_of(rest));
        assert(joined(all) =~= bytes);
        assert forall|i: int| 0 <= i < all.len() implies 1 <= (#[trigger] all[i]).len() <= BT_PACKET_MAX by {
            if i > 0 {
                assert(all[i] == packets_of(rest)[i - 1]);
            }
        }
    } else if bytes.len() > 0 {
        assert(all.skip(1) =~= Seq::<Seq<u8>>::empty());
        assert(joined(all.skip(1)) =~= Seq::<u8>::empty());
        assert(joined(all) =~= bytes);
    }
}

// ---- What the grammar keeps apart ---------------------------------------

/// A line that starts as the meter's own do.
pub open spec fn is_own(line: Seq<char>) -> bool {
    ||| text::occurs_at(line, "IMHERE,"@, 0)
    ||| text::occurs_at(line, "METER_TEST,"@, 0)
    ||| text::occurs_at(line, "METER_CAL,"@, 0)
    ||| text::occurs_at(line, "CALACK,"@, 0)
    ||| text::occurs_at(line, "CALSTAT,"@, 0)
}

proof fn lemma_starts(line: Seq<char>, head: Seq<char>, prefix: Seq<char>)
    requires
        text::occurs_at(line, prefix, 0),
        prefix == head.push(','),
        forall|i: int| 0 <= i < head.len() ==> head[i] != ',',
    ensures
        text::pieces(line, ',')[0] == head,
{
    let rest = line.skip(prefix.len() as int);
    assert(line =~= head + seq![','] + rest) by {
        assert forall|i: int| 0 <= i < prefix.len() implies line[i] == prefix[i] by {
            assert(line.subrange(0, prefix.len() as int)[i] == prefix[i]);
        }
    }
    text::lemma_pieces_step(head, ',', rest);
}

proof fn lemma_own_head(line: Seq<char>)
    requires
        is_own(line),
    ensures
        ({
            let head = text::pieces(line, ',')[0];
            &&& head != "MEAS"@
            &&& head != "CALPT"@
            &&& head != "CALEND"@
            &&& head != "CALOFF"@
            &&& head != "CALGET"@
        }),
{
    reveal_strlit("MEAS");
    reveal_strlit("CALPT");
    reveal_strlit("CALEND");
    reveal_strlit("CALOFF");
    reveal_strlit("CALGET");
    reveal_strlit("IMHERE");
    reveal_strlit("METER_TEST");
    reveal_strlit("METER_CAL");
    reveal_strlit("CALACK");
    reveal_strlit("CALSTAT");
    reveal_strlit("IMHERE,");
    reveal_strlit("METER_TEST,");
    reveal_strlit("METER_CAL,");
    reveal_strlit("CALACK,");
    reveal_strlit("CALSTAT,");
    let head = text::pieces(line, ',')[0];
    if text::occurs_at(line, "IMHERE,"@, 0) {
        assert("IMHERE,"@ =~= "IMHERE"@.push(','));
        lemma_starts(line, "IMHERE"@, "IMHERE,"@);
        assert("IMHERE"@[0] == 'I');
    } else if text::occurs_at(line, "METER_TEST,"@, 0) {
        assert("METER_TEST,"@ =~= "METER_TEST"@.push(','));
        lemma_starts(line, "METER_TEST"@, "METER_TEST,"@);
    } else if text::occurs_at(line, "METER_CAL,"@, 0) {
        assert("METER_CAL,"@ =~= "METER_CAL"@.push(','));
        lemma_starts(line, "METER_CAL"@, "METER_CAL,"@);
    } else if text::occurs_at(line, "CALACK,"@, 0) {
        assert("CALACK,"@ =~= "CALACK"@.push(','));
        lemma_starts(line, "CALACK"@, "CALACK,"@);
        assert("CALACK"@[3] == 'A');
    } else {
        assert("CALSTAT,"@ =~= "CALSTAT"@.push(','));
        lemma_starts(line, "CALSTAT"@, "CALSTAT,"@);
    }
    assert("CALEND"@[3] == 'E' && "CALOFF"@[3] == 'O' && "CALGET"@[3] == 'G');
    assert("CALEND"@[0] == 'C' && "CALOFF"@[0] == 'C' && "CALGET"@[0] == 'C');
}

proof fn lemma_prefixed(line: Seq<char>, lead: Seq<char>, prefix: Seq<char>)
    requires
        lead.len() <= line.len(),
        line.take(lead.len() as int) == lead,
        prefix.len() <= lead.len(),
        lead.take(prefix.len() as int) == prefix,
    ensures
        text::occurs_at(line, prefix, 0),
{
    assert(line.subrange(0, prefix.len() as int) =~= prefix) by {
        assert forall|i: int| 0 <= i < prefix.len() implies line[i] == prefix[i] by {
            assert(line.take(lead.len() as int)[i] == lead[i]);
            assert(lead.take(prefix.len() as int)[i] == prefix[i]);
        }
    }
}

/// Every line the meter sends starts as its own do.
pub proof fn law_every_line_is_its_own(
    addr: u8,
    ma: u32,
    rms: Seq<char>,
    reading: Reading,
    n: int,
    error: Option<CalError>,
)
    ensures
        is_own(alive_text(addr)),
        is_own(test_text(addr, ma)),
        is_own(cal_text(addr, rms, reading, n)),
        is_own(ack_text(addr, n, error)),
        is_own(stat_text(addr, n, error)),
{
    reveal_strlit("IMHERE,");
    reveal_strlit("METER_TEST,");
    reveal_strlit("METER_CAL,");
    reveal_strlit("CALACK,");
    reveal_strlit("CALSTAT,");
    reveal_strlit("IMHERE,ADDR=");
    reveal_strlit("METER_TEST,ADDR=");
    reveal_strlit("METER_CAL,ADDR=");
    reveal_strlit("CALACK,ADDR=");
    reveal_strlit("CALSTAT,ADDR=");
    assert("IMHERE,ADDR="@.take(7) =~= "IMHERE,"@);
    assert("METER_TEST,ADDR="@.take(11) =~= "METER_TEST,"@);
    assert("METER_CAL,ADDR="@.take(10) =~= "METER_CAL,"@);
    assert("CALACK,ADDR="@.take(7) =~= "CALACK,"@);
    assert("CALSTAT,ADDR="@.take(8) =~= "CALSTAT,"@);
    assert(alive_text(addr).take(12) =~= "IMHERE,ADDR="@);
    lemma_prefixed(alive_text(addr), "IMHERE,ADDR="@, "IMHERE,"@);
    assert(test_text(addr, ma).take(16) =~= "METER_TEST,ADDR="@);
    lemma_prefixed(test_text(addr, ma), "METER_TEST,ADDR="@, "METER_TEST,"@);
    assert(cal_text(addr, rms, reading, n).take(15) =~= "METER_CAL,ADDR="@);
    lemma_prefixed(cal_text(addr, rms, reading, n), "METER_CAL,ADDR="@, "METER_CAL,"@);
    assert(ack_text(addr, n, error).take(12) =~= "CALACK,ADDR="@);
    lemma_prefixed(ack_text(addr, n, error), "CALACK,ADDR="@, "CALACK,"@);
    assert(stat_text(addr, n, error).take(13) =~= "CALSTAT,ADDR="@);
    lemma_prefixed(stat_text(addr, n, error), "CALSTAT,ADDR="@, "CALSTAT,"@);
}

proof fn lemma_trimming_keeps(line: Seq<char>, prefix: Seq<char>)
    requires
        text::occurs_at(line, prefix, 0),
        prefix.len() > 0,
        !text::is_white(prefix[0]),
        !text::is_white(prefix.last()),
    ensures
        text::occurs_at(text::trimmed(line), prefix, 0),
{
    let n = prefix.len() as int;
    assert(line.subrange(0, n)[0] == prefix[0]);
    assert(line.subrange(0, n)[n - 1] == prefix[n - 1]);
    assert(text::start_trimmed(line) == line);
    text::lemma_end_trimmed_keeps(line, n);
    let kept = text::trimmed(line);
    assert(kept.subrange(0, n) =~= line.subrange(0, n));
}

proof fn lemma_trimmed_is_own(line: Seq<char>)
    requires
        is_own(line),
    ensures
        is_own(text::trimmed(line)),
{
    reveal_strlit("IMHERE,");
    reveal_strlit("METER_TEST,");
    reveal_strlit("METER_CAL,");
    reveal_strlit("CALACK,");
    reveal_strlit("CALSTAT,");
    if text::occurs_at(line, "IMHERE,"@, 0) {
        lemma_trimming_keeps(line, "IMHERE,"@);
    } else if text::occurs_at(line, "METER_TEST,"@, 0) {
        lemma_trimming_keeps(line, "METER_TEST,"@);
    } else if text::occurs_at(line, "METER_CAL,"@, 0) {
        lemma_trimming_keeps(line, "METER_CAL,"@);
    } else if text::occurs_at(line, "CALACK,"@, 0) {
        lemma_trimming_keeps(line, "CALACK,"@);
    } else {
        lemma_trimming_keeps(line, "CALSTAT,"@);
    }
}

/// The three decimals of a number of thousandths.
pub open spec fn decimals(part: int) -> Seq<char> {
    seq![text::digit_char(part / 100), text::digit_char(part / 10 % 10), text::digit_char(part % 10)]
}

/// The number on the wire is the number on the panel: so many amps and
/// thousandths shown are as many milliamps sent, up to what a frame can say.
pub proof fn law_wire_says_what_the_panel_shows(whole: int, part: int)
    requires
        0 <= whole,
        0 <= part < 1000,
    ensures
        shown_ma(text::decimal(whole) + seq!['.'] + decimals(part)) == if whole * 1000 + part <= MAX_FRAME_MA {
            whole * 1000 + part
        } else {
            MAX_FRAME_MA as int
        },
{
    let w = text::decimal(whole);
    let d = decimals(part);
    let shown = w + seq!['.'] + d;
    let s1 = w + seq!['.'];
    let s2 = s1.push(d[0]);
    let s3 = s2.push(d[1]);
    let n1 = w.push(d[0]);
    let n2 = n1.push(d[1]);
    let n3 = n2.push(d[2]);
    text::lemma_decimal_digits(whole);
    text::lemma_decimal_value(whole);
    assert forall|i: int| 0 <= i < w.len() implies w[i] != '.' by {
        assert(48 <= w[i] as int <= 57);
    }
    text::lemma_without_none(w, '.');
    assert(text::without(s1, '.') == w) by {
        assert(s1.drop_last() =~= w);
    }
    assert(text::without(s2, '.') == n1) by {
        assert(s2.drop_last() =~= s1);
    }
    assert(text::without(s3, '.') == n2) by {
        assert(s3.drop_last() =~= s2);
    }
    assert(shown =~= s3.push(d[2]));
    assert(text::without(shown, '.') == n3) by {
        assert(shown.drop_last() =~= s3);
    }
    assert(n1.drop_last() =~= w);
    assert(n2.drop_last() =~= n1);
    assert(n3.drop_last() =~= n2);
    assert(text::digit_value(d[0], 10) == part / 100);
    assert(text::digit_value(d[1], 10) == part / 10 % 10);
    assert(text::digit_value(d[2], 10) == part % 10);
    assert(text::digits_value(n1, 10) == whole * 10 + part / 100);
    assert(text::digits_value(n2, 10) == whole * 100 + part / 10);
    assert(text::digits_value(n3, 10) == whole * 1000 + part);
    assert(text::all_digits(n3, 10)) by {
        assert forall|i: int| 0 <= i < n3.len() implies text::digit_value(#[trigger] n3[i], 10) >= 0 by {
            if i < w.len() {
                assert(n3[i] == w[i]);
                assert(48 <= w[i] as int <= 57);
            }
        }
    }
}

/// ASCII text of no more than `n` characters.
pub open spec fn within(s: Seq<char>, n: int) -> bool {
    vstd::utf8::is_ascii_chars(s) && s.len() <= n
}

proof fn lemma_within(a: Seq<char>, m: int, b: Seq<char>, n: int)
    requires
        within(a, m),
        within(b, n),
    ensures
        within(a + b, m + n),
{
    assert forall|i: int| 0 <= i < (a + b).len() implies '\0' <= #[trigger] (a + b)[i] <= '\u{7f}' by {
        if i < a.len() {
            assert((a + b)[i] == a[i]);
        } else {
            assert((a + b)[i] == b[i - a.len()]);
        }
    }
}

proof fn lemma_fitted(s: Seq<char>)
    requires
        within(s, LINE_MAX as int),
    ensures
        fitted(s) == Some(s),
{
    vstd::utf8::is_ascii_chars_encode_utf8(s);
}

spec fn power_of_ten(k: nat) -> int
    decreases k,
{
    if k == 0 {
        1
    } else {
        10 * power_of_ten((k - 1) as nat)
    }
}

proof fn lemma_decimal_within(n: int, k: nat)
    requires
        0 <= n < power_of_ten(k),
        k > 0,
    ensures
        within(text::decimal(n), k as int),
    decreases k,
{
    text::lemma_decimal_digits(n);
    let d = text::decimal(n);
    assert forall|i: int| 0 <= i < d.len() implies '\0' <= #[trigger] d[i] <= '\u{7f}' by {
        assert(48 <= d[i] as int <= 57);
    }
    if n >= 10 {
        reveal_with_fuel(power_of_ten, 2);
        assert(n / 10 < power_of_ten((k - 1) as nat));
        lemma_decimal_within(n / 10, (k - 1) as nat);
    }
}

proof fn lemma_numbers_within(small: u8, whole: u32, signed: i32, count: usize)
    ensures
        within(text::decimal(small as int), 3),
        within(text::decimal(whole as int), 10),
        within(text::signed_decimal(signed as int), 11),
        within(text::decimal(count as int), 20),
{
    assert(power_of_ten(3) == 1000) by {
        reveal_with_fuel(power_of_ten, 4);
    }
    assert(power_of_ten(10) == 10_000_000_000) by {
        reveal_with_fuel(power_of_ten, 11);
    }
    assert(power_of_ten(20) == 100_000_000_000_000_000_000) by {
        reveal_with_fuel(power_of_ten, 21);
    }
    lemma_decimal_within(small as int, 3);
    lemma_decimal_within(whole as int, 10);
    lemma_decimal_within(count as int, 20);
    if signed < 0 {
        lemma_decimal_within(-signed, 10);
        lemma_within(seq!['-'], 1, text::decimal(-signed), 10);
    } else {
        lemma_decimal_within(signed as int, 10);
    }
}

proof fn lemma_words_within(quality: Quality, points: int, ma: u32, error: Option<CalError>)
    ensures
        within(quality_name(quality), 9),
        within(table_name(points), 5),
        within(alarm(ma), 6),
        within(error_text(error), 12),
        within("\r\n"@, 2),
{
    reveal_strlit("REF_BAD");
    reveal_strlit("BAD_INPUT");
    reveal_strlit("OVER");
    reveal_strlit("PARTIAL");
    reveal_strlit("OK");
    reveal_strlit("FIELD");
    reveal_strlit("ROM");
    reveal_strlit("LOW");
    reveal_strlit("HIGH");
    reveal_strlit("NORMAL");
    reveal_strlit("\r\n");
    match error {
        Some(e) => {
            reveal_strlit(",ERR=");
            reveal_strlit("INDEX");
            reveal_strlit("VALUE");
            reveal_strlit("MISSING");
            reveal_strlit("ORDER");
            reveal_strlit("FLASH");
            lemma_within(",ERR="@, 5, error_name(e), 7);
        },
        None => {},
    }
}

/// The heartbeat, the frame every reader understands, and the answers to
/// calibration commands always go out.
pub proof fn law_short_lines_always_fit(addr: u8, ma: u32, count: usize, error: Option<CalError>)
    ensures
        fitted(alive_text(addr)) == Some(alive_text(addr)),
        fitted(test_text(addr, ma)) == Some(test_text(addr, ma)),
        fitted(ack_text(addr, count as int, error)) == Some(ack_text(addr, count as int, error)),
        fitted(stat_text(addr, count as int, error)) == Some(stat_text(addr, count as int, error)),
{
    let a = text::decimal(addr as int);
    let m = text::decimal(ma as int);
    let n = text::decimal(count as int);
    let e = error_text(error);
    let end = "\r\n"@;
    lemma_numbers_within(addr, ma, 0, count);
    lemma_words_within(Quality::Good, count as int, ma, error);
    reveal_strlit("IMHERE,ADDR=");
    reveal_strlit("METER_TEST,ADDR=");
    reveal_strlit(",CURRENT_MA=");
    reveal_strlit(",STATUS=");
    reveal_strlit("CALACK,ADDR=");
    reveal_strlit(",I=");
    reveal_strlit("CALSTAT,ADDR=");
    reveal_strlit(",SRC=");
    reveal_strlit(",N=");
    let alive = "IMHERE,ADDR="@ + a;
    lemma_within("IMHERE,ADDR="@, 12, a, 3);
    lemma_within(alive, 15, end, 2);
    lemma_fitted(alive + end);
    let t1 = "METER_TEST,ADDR="@ + a;
    lemma_within("METER_TEST,ADDR="@, 16, a, 3);
    lemma_within(t1, 19, ",CURRENT_MA="@, 12);
    lemma_within(t1 + ",CURRENT_MA="@, 31, m, 10);
    let t2 = t1 + ",CURRENT_MA="@ + m;
    lemma_within(t2, 41, ",STATUS="@, 8);
    lemma_within(t2 + ",STATUS="@, 49, alarm(ma), 6);
    lemma_within(test_body(addr, ma), 55, end, 2);
    lemma_fitted(test_text(addr, ma));
    let k1 = "CALACK,ADDR="@ + a;
    lemma_within("CALACK,ADDR="@, 12, a, 3);
    lemma_within(k1, 15, ",I="@, 3);
    lemma_within(k1 + ",I="@, 18, n, 20);
    lemma_within(k1 + ",I="@ + n, 38, e, 12);
    lemma_within(k1 + ",I="@ + n + e, 50, end, 2);
    lemma_fitted(ack_text(addr, count as int, error));
    let s1 = "CALSTAT,ADDR="@ + a;
    lemma_within("CALSTAT,ADDR="@, 13, a, 3);
    lemma_within(s1, 16, ",SRC="@, 5);
    lemma_within(s1 + ",SRC="@, 21, table_name(count as int), 5);
    let s2 = s1 + ",SRC="@ + table_name(count as int);
    lemma_within(s2, 26, ",N="@, 3);
    lemma_within(s2 + ",N="@, 29, n, 20);
    lemma_within(s2 + ",N="@ + n, 49, e, 12);
    lemma_within(s2 + ",N="@ + n + e, 61, end, 2);
    lemma_fitted(stat_text(addr, count as int, error));
}

/// The frame a calibration run needs goes out with every optional field
/// present and every number at full width, and leaves room for an RMS of 39
/// characters.
pub proof fn law_calibration_frame_fits(addr: u8, rms: Seq<char>, reading: Reading, points: int)
    requires
        within(rms, 39),
    ensures
        fitted(cal_text(addr, rms, reading, points)) == Some(cal_text(addr, rms, reading, points)),
{
    let a = text::decimal(addr as int);
    let g = text::decimal(reading.range.spec_nominal());
    let q = quality_name(reading.worth());
    let t = table_name(points);
    let (mean, pp) = match reading.probe {
        Some(p) => p,
        None => (0i32, 0u32),
    };
    let m = text::signed_decimal(mean as int);
    let p = text::decimal(pp as int);
    let end = "\r\n"@;
    lemma_numbers_within(addr, pp, mean, 0);
    lemma_words_within(reading.worth(), points, 0, None);
    assert(power_of_ten(2) == 100) by {
        reveal_with_fuel(power_of_ten, 3);
    }
    lemma_decimal_within(reading.range.spec_nominal(), 2);
    reveal_strlit("METER_CAL,ADDR=");
    reveal_strlit(",RMS=");
    reveal_strlit(",GAIN=");
    reveal_strlit(",FLAG=");
    reveal_strlit(",SRC=");
    reveal_strlit(",MEAN=");
    reveal_strlit(",PP=");
    let c1 = "METER_CAL,ADDR="@ + a;
    lemma_within("METER_CAL,ADDR="@, 15, a, 3);
    lemma_within(c1, 18, ",RMS="@, 5);
    lemma_within(c1 + ",RMS="@, 23, rms, 39);
    let c2 = c1 + ",RMS="@ + rms;
    lemma_within(c2, 62, ",GAIN="@, 6);
    lemma_within(c2 + ",GAIN="@, 68, g, 2);
    let c3 = c2 + ",GAIN="@ + g;
    lemma_within(c3, 70, ",FLAG="@, 6);
    lemma_within(c3 + ",FLAG="@, 76, q, 9);
    let c4 = c3 + ",FLAG="@ + q;
    lemma_within(c4, 85, ",SRC="@, 5);
    lemma_within(c4 + ",SRC="@, 90, t, 5);
    let c5 = c4 + ",SRC="@ + t;
    let probe = ",MEAN="@ + m + ",PP="@ + p;
    lemma_within(",MEAN="@, 6, m, 11);
    lemma_within(",MEAN="@ + m, 17, ",PP="@, 4);
    lemma_within(",MEAN="@ + m + ",PP="@, 21, p, 10);
    match reading.probe {
        Some(_) => {
            lemma_within(c5, 95, probe, 31);
        },
        None => {
            lemma_within(c5, 95, Seq::empty(), 31);
        },
    }
    lemma_within(cal_body(addr, rms, reading, points), 126, end, 2);
    lemma_fitted(cal_text(addr, rms, reading, points));
}

/// No line end stands in a run of bytes.
pub open spec fn one_line(line: Seq<u8>) -> bool {
    forall|i: int| 0 <= i < line.len() ==> #[trigger] line[i] != 10 && line[i] != 13
}

/// A line that does not hold a line end itself, and fits the buffer.
pub open spec fn fits(line: Seq<u8>) -> bool {
    &&& one_line(line)
    &&& encode_utf8(text::chars_in(line)).len() <= CMD_MAX
}

/// The assembler with so much of a line in it.
spec fn assembling(done: Seq<u8>) -> LinkView {
    LinkView { text: text::chars_in(done), overrun: false }
}

proof fn lemma_assembled(done: Seq<u8>, line: Seq<u8>, tail: Seq<u8>, addr: u8)
    requires
        fits(done + line),
    ensures
        requests(assembling(done), line + tail, addr) == requests(assembling(done + line), tail, addr),
    decreases line.len(),
{
    let all = line + tail;
    if line.len() == 0 {
        assert(done + line =~= done);
        assert(all =~= tail);
    } else {
        let next = done.push(line[0]);
        let rest = line.skip(1);
        assert(next + rest =~= done + line);
        assert(all.skip(1) =~= rest + tail);
        assert((done + line)[done.len() as int] == line[0]);
        assert(text::chars_in(next) =~= text::chars_in(done).push(line[0] as char));
        assert(text::chars_in(done + line) =~= text::chars_in(next) + text::chars_in(rest));
        text::lemma_encode_concat(text::chars_in(next), text::chars_in(rest));
        lemma_assembled(next, rest, tail, addr);
    }
}

/// A line that fits arrives whole: the meter takes from it what it asks for,
/// once, whichever line end it has.
pub proof fn law_line_is_heard_once(line: Seq<u8>, addr: u8)
    requires
        fits(line),
    ensures
        ({
            let heard = match asked(text::trimmed(text::chars_in(line)), addr) {
                Some(what) => seq![what],
                None => Seq::empty(),
            };
            &&& requests(LinkView::start(), line + seq![10u8], addr) == heard
            &&& requests(LinkView::start(), line + seq![13u8], addr) == heard
            &&& requests(LinkView::start(), line + seq![13u8, 10u8], addr) == heard
        }),
{
    let none = Seq::<u8>::empty();
    assert(none + line =~= line);
    assert(assembling(none) =~= LinkView::start());
    lemma_assembled(none, line, seq![10u8], addr);
    lemma_assembled(none, line, seq![13u8], addr);
    lemma_assembled(none, line, seq![13u8, 10u8], addr);
    lemma_silence(addr);
    assert(seq![10u8].skip(1) =~= none);
    assert(seq![13u8].skip(1) =~= none);
    assert(seq![13u8, 10u8].skip(1) =~= seq![10u8]);
    assert(requests(LinkView::start(), none, addr) =~= Seq::empty());
    assert(requests(LinkView::start(), seq![10u8], addr) =~= Seq::empty());
}

proof fn lemma_overrun(line: Seq<u8>, end: u8, tail: Seq<u8>, addr: u8)
    requires
        one_line(line),
        end == 10 || end == 13,
    ensures
        requests(LinkView { text: Seq::empty(), overrun: true }, line + seq![end] + tail, addr) == requests(
            LinkView::start(),
            tail,
            addr,
        ),
    decreases line.len(),
{
    let all = line + seq![end] + tail;
    if line.len() == 0 {
        assert(all[0] == end);
        assert(all.skip(1) =~= tail);
    } else {
        let rest = line.skip(1);
        assert(all[0] == line[0] && line[0] != 10 && line[0] != 13);
        assert(all.skip(1) =~= rest + seq![end] + tail);
        assert(one_line(rest)) by {
            assert forall|i: int| 0 <= i < rest.len() implies #[trigger] rest[i] != 10 && rest[i] != 13 by {
                assert(rest[i] == line[i + 1]);
            }
        }
        lemma_overrun(rest, end, tail, addr);
    }
}

proof fn lemma_outgrown(done: Seq<u8>, line: Seq<u8>, end: u8, tail: Seq<u8>, addr: u8)
    requires
        one_line(line),
        end == 10 || end == 13,
        encode_utf8(text::chars_in(done)).len() <= CMD_MAX,
        encode_utf8(text::chars_in(done + line)).len() > CMD_MAX,
    ensures
        requests(assembling(done), line + seq![end] + tail, addr) == requests(LinkView::start(), tail, addr),
    decreases line.len(),
{
    let all = line + seq![end] + tail;
    if line.len() == 0 {
        assert(done + line =~= done);
    } else {
        let next = done.push(line[0]);
        let rest = line.skip(1);
        assert(next + rest =~= done + line);
        assert(all[0] == line[0] && line[0] != 10 && line[0] != 13);
        assert(all.skip(1) =~= rest + seq![end] + tail);
        assert(text::chars_in(next) =~= text::chars_in(done).push(line[0] as char));
        assert(one_line(rest)) by {
            assert forall|i: int| 0 <= i < rest.len() implies #[trigger] rest[i] != 10 && rest[i] != 13 by {
                assert(rest[i] == line[i + 1]);
            }
        }
        if encode_utf8(text::chars_in(next)).len() <= CMD_MAX {
            lemma_outgrown(next, rest, end, tail, addr);
        } else {
            lemma_overrun(rest, end, tail, addr);
        }
    }
}

/// A line that outgrows the buffer is dropped whole: whatever it holds, no
/// part of it is taken for a command, and what follows its end is heard as if
/// it had not been sent.
pub proof fn law_overlong_line_is_dropped_whole(line: Seq<u8>, end: u8, tail: Seq<u8>, addr: u8)
    requires
        one_line(line),
        encode_utf8(text::chars_in(line)).len() > CMD_MAX,
        end == 10 || end == 13,
    ensures
        requests(LinkView::start(), line + seq![end] + tail, addr) == requests(LinkView::start(), tail, addr),
{
    let none = Seq::<u8>::empty();
    assert(none + line =~= line);
    assert(assembling(none) =~= LinkView::start());
    lemma_outgrown(none, line, end, tail, addr);
}

proof fn lemma_silence(addr: u8)
    ensures
        asked(text::trimmed(Seq::empty()), addr) is None,
{
    reveal_strlit("MEAS");
    reveal_strlit("CALPT");
    reveal_strlit("CALEND");
    reveal_strlit("CALOFF");
    reveal_strlit("CALGET");
    let empty = Seq::<char>::empty();
    text::lemma_first(empty, ',');
    assert(text::pieces(empty, ',')[0].len() == 0);
}

/// What the meter sends is never a command to a meter that hears it, at any
/// address: an echo cannot trigger one.
pub proof fn law_own_lines_are_not_commands(line: Seq<char>, addr: u8)
    requires
        is_own(line),
    ensures
        asked(line, addr) is None,
        asked(text::trimmed(line), addr) is None,
{
    lemma_own_head(line);
    lemma_trimmed_is_own(line);
    lemma_own_head(text::trimmed(line));
}

/// A command other than a broadcast is for one meter only.
pub proof fn law_calibration_is_for_one_meter(line: Seq<char>, addr: u8, other: u8)
    requires
        addr != other,
        asked(line, addr) matches Some(what) && !(what is Measure),
    ensures
        number_of(line, "ADDR"@, u8::MAX as int) == Some(addr as int),
        asked(line, other) is None,
{
}

/// A request for a reading that names no address is for every meter, and one
/// that does is for that meter only.
pub proof fn law_measure_is_for_whoever_is_named(line: Seq<char>, addr: u8)
    requires
        text::pieces(line, ',')[0] == "MEAS"@,
    ensures
        value_of(line, "ADDR"@) is None ==> asked(line, addr) == Some(Asked::Measure),
        value_of(line, "ADDR"@) is Some ==> (asked(line, addr) is Some <==> number_of(line, "ADDR"@, u8::MAX as int)
            == Some(addr as int)),
{
}

// ---- What the lines say -------------------------------------------------

/// The alarm is a matter of the milliamps alone: low below 200, high above
/// 2000, normal from the one to the other.
pub proof fn law_alarm_bands(ma: u32)
    ensures
        alarm(ma) == "LOW"@ <==> ma < 200,
        alarm(ma) == "HIGH"@ <==> ma > 2000,
        alarm(ma) == "NORMAL"@ <==> 200 <= ma <= 2000,
{
    reveal_strlit("LOW");
    reveal_strlit("HIGH");
    reveal_strlit("NORMAL");
    assert("LOW"@.len() == 3 && "HIGH"@.len() == 4 && "NORMAL"@.len() == 6);
}

/// No two errors go by one name, nor two qualities, and a meter says `FIELD`
/// exactly if it reads on a pushed table.
pub proof fn law_names_are_told_apart(a: CalError, b: CalError, p: Quality, q: Quality, points: int)
    ensures
        error_name(a) == error_name(b) <==> a == b,
        quality_name(p) == quality_name(q) <==> p == q,
        table_name(points) == "FIELD"@ <==> points >= 2,
        table_name(points) == "ROM"@ <==> points < 2,
        quality_name(p) == "OK"@ <==> p == Quality::Good,
{
    reveal_strlit("INDEX");
    reveal_strlit("VALUE");
    reveal_strlit("MISSING");
    reveal_strlit("ORDER");
    reveal_strlit("FLASH");
    reveal_strlit("REF_BAD");
    reveal_strlit("BAD_INPUT");
    reveal_strlit("OVER");
    reveal_strlit("PARTIAL");
    reveal_strlit("OK");
    reveal_strlit("FIELD");
    reveal_strlit("ROM");
    assert("INDEX"@[0] == 'I' && "VALUE"@[0] == 'V' && "MISSING"@[0] == 'M' && "ORDER"@[0] == 'O' && "FLASH"@[0] == 'F');
    assert("REF_BAD"@[0] == 'R' && "BAD_INPUT"@[0] == 'B' && "OVER"@[1] == 'V' && "PARTIAL"@[0] == 'P' && "OK"@[1] == 'K');
    assert("FIELD"@[0] == 'F' && "ROM"@[0] == 'R');
}

/// What is shown and is no number of amps is sent as none, apart from a current
/// without bound, which is sent as the most a frame can say.
pub proof fn law_only_amounts_are_sent(shown: Seq<char>, i: int)
    requires
        0 <= i < shown.len(),
        !('0' <= shown[i] <= '9') && shown[i] != '.',
    ensures
        shown == "inf"@ ==> shown_ma(shown) == 9_999_999,
        shown != "inf"@ ==> shown_ma(shown) == 0,
{
    let left = text::without(shown, '.');
    text::law_removal_keeps_the_rest(shown, '.');
    lemma_kept(shown, i);
    let k = choose|k: int| 0 <= k < left.len() && left[k] == shown[i];
    assert(text::digit_value(left[k], 10) < 0);
    assert(!text::all_digits(left, 10));
}

proof fn lemma_kept(s: Seq<char>, i: int)
    requires
        0 <= i < s.len(),
        s[i] != '.',
    ensures
        text::without(s, '.').contains(s[i]),
    decreases s.len(),
{
    let shorter = s.drop_last();
    let before = text::without(shorter, '.');
    if i < shorter.len() {
        lemma_kept(shorter, i);
        assert(shorter[i] == s[i]);
        let k = choose|k: int| 0 <= k < before.len() && before[k] == s[i];
        assert(text::without(s, '.')[k] == s[i]);
    } else {
        assert(text::without(s, '.')[before.len() as int] == s[i]);
    }
}

/// A line goes out as it is if it takes no more than 128 bytes, and not at all
/// otherwise.
pub proof fn law_lines_go_out_whole_or_not_at_all(text: Seq<char>)
    ensures
        encode_utf8(text).len() <= 128 ==> fitted(text) == Some(text),
        encode_utf8(text).len() > 128 ==> fitted(text) is None,
{
}

/// A command of plain ASCII is taken up to 64 characters and dropped beyond.
pub proof fn law_commands_are_taken_up_to_64_characters(line: Seq<u8>)
    requires
        text::is_ascii(line),
        one_line(line),
    ensures
        fits(line) <==> line.len() <= 64,
{
    text::lemma_ascii_decodes(line);
}

/// A notification carries 20 bytes, every one of them that another follows.
pub proof fn law_packets_are_full_up_to_the_last(bytes: Seq<u8>, i: int)
    requires
        0 <= i < packets_of(bytes).len() - 1,
    ensures
        packets_of(bytes)[i].len() == 20,
        packets_of(bytes)[i] == bytes.subrange(20 * i, 20 * i + 20),
    decreases bytes.len(),
{
    law_packets_make_the_line(bytes);
    let rest = bytes.skip(20);
    if i > 0 {
        law_packets_make_the_line(rest);
        law_packets_are_full_up_to_the_last(rest, i - 1);
        assert(packets_of(bytes)[i] == packets_of(rest)[i - 1]);
        lemma_full_packets(rest, i - 1);
        assert(rest.subrange(20 * (i - 1), 20 * i) =~= bytes.subrange(20 * i, 20 * i + 20));
    } else {
        assert(bytes.take(20) =~= bytes.subrange(0, 20));
    }
}

proof fn lemma_full_packets(bytes: Seq<u8>, i: int)
    requires
        0 <= i < packets_of(bytes).len() - 1,
    ensures
        20 * i + 20 < bytes.len(),
    decreases bytes.len(),
{
    if i > 0 {
        assert(packets_of(bytes).len() == 1 + packets_of(bytes.skip(20)).len());
        lemma_full_packets(bytes.skip(20), i - 1);
    }
}

/// Only five heads are commands, each asks for one thing, and whichever it is,
/// nothing but the head decides which.
pub proof fn law_heads_are_commands(line: Seq<char>, addr: u8)
    ensures
        asked(line, addr) matches Some(what) ==> ({
            let head = text::pieces(line, ',')[0];
            match what {
                Asked::Measure => head == "MEAS"@,
                Asked::CalPoint { .. } => head == "CALPT"@,
                Asked::CalCommit { .. } => head == "CALEND"@,
                Asked::CalClear => head == "CALOFF"@,
                Asked::CalStatus => head == "CALGET"@,
            }
        }),
{
}

proof fn lemma_ends(body: Seq<char>)
    ensures
        (body + "\r\n"@).len() >= 2,
        (body + "\r\n"@).last() == '\n',
        (body + "\r\n"@)[(body + "\r\n"@).len() - 2] == '\r',
{
    reveal_strlit("\r\n");
}

/// Whether a line ends with a carriage return and a line feed.
pub open spec fn is_ended(line: Seq<char>) -> bool {
    line.len() >= 2 && line[line.len() - 2] == '\r' && line.last() == '\n'
}

/// Every line that is sent ends with a carriage return and a line feed.
pub proof fn law_every_line_is_ended(
    addr: u8,
    ma: u32,
    rms: Seq<char>,
    reading: Reading,
    n: int,
    error: Option<CalError>,
)
    ensures
        is_ended(alive_text(addr)),
        is_ended(test_text(addr, ma)),
        is_ended(cal_text(addr, rms, reading, n)),
        is_ended(ack_text(addr, n, error)),
        is_ended(stat_text(addr, n, error)),
{
    lemma_ends("IMHERE,ADDR="@ + text::decimal(addr as int));
    lemma_ends(test_body(addr, ma));
    lemma_ends(cal_body(addr, rms, reading, n));
    lemma_ends("CALACK,ADDR="@ + text::decimal(addr as int) + ",I="@ + text::decimal(n) + error_text(error));
    lemma_ends(
        "CALSTAT,ADDR="@ + text::decimal(addr as int) + ",SRC="@ + table_name(n) + ",N="@ + text::decimal(n)
            + error_text(error),
    );
}

/// Each of the sixteen addresses is that of one setting of the switch, and the
/// positions are its binary digits.
pub proof fn law_switch_positions_are_binary_digits(bit0: bool, bit1: bool, bit2: bool, bit3: bool)
    ensures
        ({
            let addr = coded(bit0, bit1, bit2, bit3);
            &&& 0 <= addr < 16
            &&& bit0 <==> addr % 2 == 1
            &&& bit1 <==> addr / 2 % 2 == 1
            &&& bit2 <==> addr / 4 % 2 == 1
            &&& bit3 <==> addr / 8 % 2 == 1
        }),
{
}

/// A point becomes a command with the slot and the numbers it was sent with,
/// and none if either is no number; the numbers make no difference to any other
/// request, and each of those is a command.
pub proof fn law_requests_become_their_commands(what: Asked, lsb: u32, amps: u32, other: Option<u32>)
    ensures
        what matches Asked::CalPoint { index, .. } ==> {
            &&& 0 <= index <= usize::MAX ==> commanded(what, Some(lsb), Some(amps)) == Some(
                Command::CalPoint { index: index as usize, lsb, amps },
            )
            &&& commanded(what, None, other) is None
            &&& commanded(what, other, None) is None
        },
        !(what is CalPoint) ==> commanded(what, Some(lsb), Some(amps)) == commanded(what, None, None) && commanded(
            what,
            None,
            None,
        ) is Some,
        what is Measure <==> commanded(what, None, None) == Some(Command::Measure),
        what is CalClear <==> commanded(what, None, None) == Some(Command::CalClear),
        what is CalStatus <==> commanded(what, None, None) == Some(Command::CalStatus),
        what matches Asked::CalCommit { count } ==> (0 <= count <= usize::MAX ==> commanded(what, None, None) == Some(
            Command::CalCommit { count: count as usize },
        )),
{
}

} // verus!
