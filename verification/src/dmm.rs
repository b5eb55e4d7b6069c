//! The reference instrument of a calibration run: which one is meant, and
//! which of the devices on the bus it is.

use crate::text;
use vstd::prelude::*;

verus! {

/// What the multimeter calls itself in its identification.
pub open spec fn idn_hint() -> Seq<char> {
    "SDM"@
}

/// The port raw SCPI is spoken on unless another is named.
pub const DEFAULT_SCPI_PORT: u16 = 5025;

/// Which instrument is meant.
#[derive(Debug)]
pub enum Target {
    /// No instrument: log the meter alone.
    Absent,
    /// One on USB: this vendor and product, or whichever says it is one.
    Usb(Option<(u16, u16)>),
    /// One on the network.
    Tcp { host: String, port: u16 },
}

/// Why a specification names no instrument.
#[derive(Debug)]
pub enum SpecError {
    /// A vendor without a product.
    MissingPid,
    /// A vendor that is not hexadecimal.
    BadVid(String),
    /// A product that is not hexadecimal.
    BadPid(String),
}

/// What a specification comes to, as a mathematical value.
#[verifier::ext_equal]
pub enum Meant {
    Absent,
    Usb(Option<(int, int)>),
    Tcp { host: Seq<char>, port: int },
    MissingPid,
    BadVid(Seq<char>),
    BadPid(Seq<char>),
}

/// Without any number of `0x` in front.
pub open spec fn bare(s: Seq<char>) -> Seq<char>
    decreases s.len(),
{
    if s.len() >= 2 && s[0] == '0' && s[1] == 'x' {
        bare(s.skip(2))
    } else {
        s
    }
}

/// A 16-bit number in hexadecimal, with or without `0x` in front.
pub open spec fn hex16(s: Seq<char>) -> Option<int> {
    text::number(bare(s), 16, 0xFFFF)
}

/// What follows `usb:` names.
pub open spec fn usb_meant(rest: Seq<char>) -> Meant {
    let parts = text::pieces(rest, ':');
    if parts.len() < 2 {
        Meant::MissingPid
    } else {
        match (hex16(parts[0]), hex16(parts[1])) {
            (Some(vid), Some(pid)) => Meant::Usb(Some((vid, pid))),
            (None, _) => Meant::BadVid(parts[0]),
            (_, None) => Meant::BadPid(parts[1]),
        }
    }
}

/// What a network address names: a host, and a port where one can be read.
pub open spec fn tcp_meant(address: Seq<char>) -> Meant {
    match text::last_halves(address, ':') {
        Some((host, port)) => Meant::Tcp {
            host,
            port: match text::number(port, 10, 0xFFFF) {
                Some(n) => n,
                None => DEFAULT_SCPI_PORT as int,
            },
        },
        None => Meant::Tcp { host: address, port: DEFAULT_SCPI_PORT as int },
    }
}

/// What a specification names: `none`, `usb`, `usb:VID:PID` in hexadecimal,
/// or `tcp://host[:port]`, where the scheme may be left out.
pub open spec fn meant(spec: Seq<char>) -> Meant {
    if spec == ""@ || spec == "none"@ {
        Meant::Absent
    } else if spec == "usb"@ {
        Meant::Usb(None)
    } else if text::occurs_at(spec, "usb:"@, 0) {
        usb_meant(spec.skip(4))
    } else if text::occurs_at(spec, "tcp://"@, 0) {
        tcp_meant(spec.skip(6))
    } else {
        tcp_meant(spec)
    }
}

/// A target, or an error, as what it stands for.
pub open spec fn stands_for(result: Result<Target, SpecError>) -> Meant {
    match result {
        Ok(Target::Absent) => Meant::Absent,
        Ok(Target::Usb(None)) => Meant::Usb(None),
        Ok(Target::Usb(Some((vid, pid)))) => Meant::Usb(Some((vid as int, pid as int))),
        Ok(Target::Tcp { host, port }) => Meant::Tcp { host: host@, port: port as int },
        Err(SpecError::MissingPid) => Meant::MissingPid,
        Err(SpecError::BadVid(s)) => Meant::BadVid(s@),
        Err(SpecError::BadPid(s)) => Meant::BadPid(s@),
    }
}

fn strip_0x(s: &str) -> (t: String)
    ensures
        t@ == bare(s@),
{
    let chars: Vec<char> = text::chars_of(s);
    let mut from: usize = 0;
    assert(chars@.skip(0) =~= chars@);
    while chars.len() - from >= 2 && chars[from] == '0' && chars[from + 1] == 'x'
        invariant
            from <= chars@.len(),
            bare(chars@.skip(from as int)) == bare(chars@),
        decreases chars@.len() - from,
    {
        proof {
            let rest = chars@.skip(from as int);
            assert(rest[0] == '0' && rest[1] == 'x');
            assert(rest.skip(2) =~= chars@.skip(from + 2));
        }
        from = from + 2;
    }
    let tail: &[char] = vstd::slice::slice_subrange(chars.as_slice(), from, chars.len());
    assert(tail@ =~= chars@.skip(from as int));
    proof {
        let rest = chars@.skip(from as int);
        if rest.len() >= 2 {
            assert(rest[0] == chars@[from as int] && rest[1] == chars@[from + 1]);
        }
    }
    text::string_of(tail)
}

fn parse_hex16(s: &str) -> (n: Option<u16>)
    ensures
        n is Some <==> hex16(s@) is Some,
        n matches Some(v) ==> hex16(s@) == Some(v as int),
{
    let digits: String = strip_0x(s);
    match text::parse(digits.as_str(), 16, 0xFFFF) {
        Some(v) => Some(v as u16),
        None => None,
    }
}

fn parse_usb(rest: &str) -> (result: Result<Target, SpecError>)
    ensures
        stands_for(result) == usb_meant(rest@),
{
    let parts: Vec<String> = text::split(rest, ':');
    let ghost views = text::views(parts@);
    if parts.len() < 2 {
        return Err(SpecError::MissingPid);
    }
    assert(views[0] == parts@[0]@ && views[1] == parts@[1]@);
    match parse_hex16(parts[0].as_str()) {
        None => Err(SpecError::BadVid(parts[0].clone())),
        Some(vid) => match parse_hex16(parts[1].as_str()) {
            None => Err(SpecError::BadPid(parts[1].clone())),
            Some(pid) => Ok(Target::Usb(Some((vid, pid)))),
        },
    }
}

fn parse_tcp(address: &str) -> (result: Result<Target, SpecError>)
    ensures
        stands_for(result) == tcp_meant(address@),
{
    match text::rsplit_once(address, ':') {
        Some((host, port)) => {
            let port: u16 = match text::parse(port.as_str(), 10, 0xFFFF) {
                Some(n) => n as u16,
                None => DEFAULT_SCPI_PORT,
            };
            Ok(Target::Tcp { host, port })
        },
        None => Ok(Target::Tcp { host: address.to_owned(), port: DEFAULT_SCPI_PORT }),
    }
}

/// Which instrument a specification names.
pub fn parse_target(spec: &str) -> (result: Result<Target, SpecError>)
    ensures
        stands_for(result) == meant(spec@),
{
    if text::same(spec, "") || text::same(spec, "none") {
        return Ok(Target::Absent);
    }
    if text::same(spec, "usb") {
        return Ok(Target::Usb(None));
    }
    proof {
        reveal_strlit("usb:");
        reveal_strlit("tcp://");
    }
    if text::starts_with(spec, "usb:") {
        let rest: String = text::skip(spec, 4);
        return parse_usb(rest.as_str());
    }
    if text::starts_with(spec, "tcp://") {
        let rest: String = text::skip(spec, 6);
        return parse_tcp(rest.as_str());
    }
    parse_tcp(spec)
}

/// A USB device by vendor and product.
pub open spec fn usb_label(vid: u16, pid: u16) -> Seq<char> {
    text::hex4(vid as int) + ":"@ + text::hex4(pid as int)
}

fn push_usb(to: &mut String, vid: u16, pid: u16)
    ensures
        final(to)@ == old(to)@ + usb_label(vid, pid),
{
    let mut label: String = String::new();
    text::push_hex4(&mut label, vid);
    label.append(":");
    text::push_hex4(&mut label, pid);
    assert(label@ =~= usb_label(vid, pid));
    to.append(label.as_str());
}

/// What an instrument on USB is called.
pub fn label_usb(vid: u16, pid: u16) -> (label: String)
    ensures
        label@ == "usb:"@ + usb_label(vid, pid),
{
    let mut label: String = "usb:".to_owned();
    push_usb(&mut label, vid, pid);
    label
}

/// What an instrument on the network is called.
pub fn label_tcp(host: &str, port: u16) -> (label: String)
    ensures
        label@ == "tcp://"@ + host@ + ":"@ + text::decimal(port as int),
{
    let mut label: String = "tcp://".to_owned();
    label.append(host);
    label.append(":");
    text::push_decimal(&mut label, port as u64);
    label
}

/// Which of the devices has this vendor and product: the first that does.
pub fn find_device(devices: &[(u16, u16)], vid: u16, pid: u16) -> (at: Option<usize>)
    ensures
        match at {
            Some(i) => {
                &&& i < devices@.len()
                &&& devices@[i as int] == (vid, pid)
                &&& forall|k: int| 0 <= k < i ==> devices@[k] != (vid, pid)
            },
            None => forall|k: int| 0 <= k < devices@.len() ==> devices@[k] != (vid, pid),
        },
{
    let mut i: usize = 0;
    while i < devices.len()
        invariant
            i <= devices@.len(),
            forall|k: int| 0 <= k < i ==> devices@[k] != (vid, pid),
        decreases devices@.len() - i,
    {
        let (v, p) = devices[i];
        if v == vid && p == pid {
            return Some(i);
        }
        i += 1;
    }
    None
}

/// Whether an identification, in upper case, is a multimeter's.
pub fn names_multimeter(upper: &str) -> (yes: bool)
    ensures
        yes == text::occurs(upper@, idn_hint()),
{
    text::contains(upper, "SDM")
}

/// Whether a device that identifies itself like this is the multimeter.
pub fn is_multimeter(idn: &str) -> (yes: bool)
    ensures
        yes == text::occurs(text::uppercase(idn@), idn_hint()),
{
    let upper: String = text::to_uppercase(idn);
    names_multimeter(upper.as_str())
}

/// What a device on the bus answered when it was asked who it is.
pub fn seen_line(vid: u16, pid: u16, answer: Result<&str, &str>) -> (line: String)
    ensures
        line@ == usb_label(vid, pid) + match answer {
            Ok(idn) => " "@ + idn@,
            Err(error) => " (问不出来: "@ + error@ + ")"@,
        },
{
    let mut line: String = String::new();
    push_usb(&mut line, vid, pid);
    assert(line@ =~= usb_label(vid, pid));
    let mut said: String = String::new();
    match answer {
        Ok(idn) => {
            said.append(" ");
            said.append(idn);
            assert(said@ =~= " "@ + idn@);
        },
        Err(error) => {
            said.append(" (问不出来: ");
            said.append(error);
            said.append(")");
            assert(said@ =~= " (问不出来: "@ + error@ + ")"@);
        },
    }
    line.append(said.as_str());
    line
}

/// A command as it goes over a socket: one to a line.
pub fn command_line(command: &str) -> (line: String)
    ensures
        line@ == command@ + "\n"@,
{
    let mut line: String = command.to_owned();
    line.append("\n");
    line
}

proof fn lemma_hex4_is_bare(n: int)
    requires
        0 <= n <= 0xFFFF,
    ensures
        hex16(text::hex4(n)) == Some(n),
        forall|i: int| 0 <= i < 4 ==> #[trigger] text::hex4(n)[i] != ':',
{
    text::lemma_hex4_reads_back(n);
    let s = text::hex4(n);
    assert(text::digit_value(s[0], 16) >= 0 && text::digit_value(s[1], 16) >= 0);
    assert('x' as int == 120 && ':' as int == 58);
    assert forall|i: int| 0 <= i < 4 implies #[trigger] s[i] != ':' by {
        assert(text::digit_value(s[i], 16) >= 0);
    }
}

/// What an instrument on USB is called can be copied back as a specification
/// of that very instrument.
pub proof fn law_usb_label_is_a_specification(vid: u16, pid: u16)
    ensures
        meant("usb:"@ + usb_label(vid, pid)) == Meant::Usb(Some((vid as int, pid as int))),
{
    reveal_strlit("");
    reveal_strlit("none");
    reveal_strlit("usb");
    reveal_strlit("usb:");
    reveal_strlit(":");
    let v = text::hex4(vid as int);
    let p = text::hex4(pid as int);
    let rest = usb_label(vid, pid);
    let spec = "usb:"@ + rest;
    lemma_hex4_is_bare(vid as int);
    lemma_hex4_is_bare(pid as int);
    assert(spec.len() == 13);
    assert(spec.subrange(0, 4) =~= "usb:"@);
    assert(spec.skip(4) =~= rest);
    assert(":"@ =~= seq![':']);
    assert(rest =~= v + seq![':'] + p);
    assert forall|i: int| 0 <= i < v.len() implies v[i] != ':' by {}
    assert forall|i: int| 0 <= i < p.len() implies p[i] != ':' by {}
    text::lemma_pieces_step(v, ':', p);
    text::lemma_pieces_step(p, ':', v);
    assert(text::pieces(rest, ':') =~= seq![v, p]);
}

/// What an instrument on the network is called can be copied back as a
/// specification of that very instrument.
pub proof fn law_tcp_label_is_a_specification(host: Seq<char>, port: u16)
    ensures
        meant("tcp://"@ + host + ":"@ + text::decimal(port as int)) == (Meant::Tcp { host, port: port as int }),
{
    reveal_strlit("");
    reveal_strlit("none");
    reveal_strlit("usb");
    reveal_strlit("usb:");
    reveal_strlit("tcp://");
    reveal_strlit(":");
    let digits = text::decimal(port as int);
    let spec = "tcp://"@ + host + ":"@ + digits;
    let address = host + seq![':'] + digits;
    text::lemma_decimal_digits(port as int);
    text::lemma_decimal_reads_back(port as int, 0xFFFF);
    assert(spec[0] == 't');
    assert("usb:"@[0] == 'u' && "none"@[0] == 'n' && "usb"@[0] == 'u');
    assert(!text::occurs_at(spec, "usb:"@, 0)) by {
        if text::occurs_at(spec, "usb:"@, 0) {
            assert(spec.subrange(0, 4)[0] == 'u');
        }
    }
    assert(spec.subrange(0, 6) =~= "tcp://"@);
    assert(spec.skip(6) =~= address);
    assert(':' as int == 58);
    lemma_last_separator(host, digits);
    assert(address.take(host.len() as int) =~= host);
    assert(address.skip(host.len() as int + 1) =~= digits);
}

proof fn lemma_last_separator(host: Seq<char>, digits: Seq<char>)
    requires
        forall|i: int| 0 <= i < digits.len() ==> 48 <= (#[trigger] digits[i]) as int <= 57,
    ensures
        text::last(host + seq![':'] + digits, ':') == host.len(),
    decreases digits.len(),
{
    let all = host + seq![':'] + digits;
    if digits.len() == 0 {
        assert(all.last() == ':');
    } else {
        assert(all.last() == digits[digits.len() - 1]);
        assert(':' as int == 58);
        assert(all.drop_last() =~= host + seq![':'] + digits.drop_last());
        lemma_last_separator(host, digits.drop_last());
    }
}

/// A network address names its host, and the port behind its last colon where
/// that is a number a port can have; the instrument's own port otherwise.
pub proof fn law_port_is_read_where_there_is_one(host: Seq<char>, port: Seq<char>)
    requires
        !port.contains(':'),
    ensures
        tcp_meant(host + seq![':'] + port) == (Meant::Tcp {
            host,
            port: match text::number(port, 10, 65535) {
                Some(n) => n,
                None => 5025,
            },
        }),
        tcp_meant(port) == (Meant::Tcp { host: port, port: 5025 }),
{
    let all = host + seq![':'] + port;
    let n = host.len() as int;
    assert(all[n] == ':');
    text::law_halves_make_up_the_string(all, ':', n);
    if let Some((a, b)) = text::last_halves(all, ':') {
        if a.len() < n {
            assert(all[n] == (a + seq![':'] + b)[n]);
            assert(b[n - a.len() - 1] == ':');
            assert(b.contains(':'));
        } else if a.len() > n {
            assert(all[a.len() as int] == (a + seq![':'] + b)[a.len() as int]);
            assert(port[a.len() - n - 1] == ':');
            assert(port.contains(':'));
        }
        assert(a =~= host) by {
            assert(a.len() == n);
            assert forall|i: int| 0 <= i < n implies a[i] == host[i] by {
                assert(all[i] == (a + seq![':'] + b)[i]);
            }
        }
        assert(b =~= port) by {
            assert(b.len() == port.len());
            assert forall|i: int| 0 <= i < b.len() implies b[i] == port[i] by {
                assert(all[n + 1 + i] == (a + seq![':'] + b)[n + 1 + i]);
            }
        }
    }
    if text::last_halves(port, ':') is Some {
        assert(port.len() > 0) by {
            if port.len() == 0 {
                assert(text::last(port, ':') == -1);
            }
        }
        text::law_halves_make_up_the_string(port, ':', 0);
        let (a, b) = text::last_halves(port, ':').unwrap();
        assert(port[a.len() as int] == ':');
        assert(port.contains(':'));
    }
}

/// The scheme of a network address may be left out.
pub proof fn law_scheme_may_be_left_out(address: Seq<char>)
    requires
        address.len() > 0,
        address[0] != 'u' && address[0] != 't' && address[0] != 'n',
    ensures
        meant(address) == tcp_meant(address),
        meant("tcp://"@ + address) == tcp_meant(address),
{
    reveal_strlit("");
    reveal_strlit("none");
    reveal_strlit("usb");
    reveal_strlit("usb:");
    reveal_strlit("tcp://");
    let full = "tcp://"@ + address;
    assert("none"@[0] == 'n' && "usb"@[0] == 'u' && "usb:"@[0] == 'u' && "tcp://"@[0] == 't');
    assert(full[0] == 't');
    assert(!text::occurs_at(full, "usb:"@, 0)) by {
        if text::occurs_at(full, "usb:"@, 0) {
            assert(full.subrange(0, 4)[0] == 'u');
        }
    }
    assert(!text::occurs_at(address, "usb:"@, 0)) by {
        if text::occurs_at(address, "usb:"@, 0) {
            assert(address.subrange(0, 4)[0] == 'u');
        }
    }
    assert(!text::occurs_at(address, "tcp://"@, 0)) by {
        if text::occurs_at(address, "tcp://"@, 0) {
            assert(address.subrange(0, 6)[0] == 't');
        }
    }
    assert(full.subrange(0, 6) =~= "tcp://"@);
    assert(full.skip(6) =~= address);
}

/// A USB instrument is named by its vendor and its product, both readable:
/// whichever is not is what is wrong with the name, the vendor first.
pub proof fn law_usb_instruments_are_named_in_two_parts(vid: Seq<char>, pid: Seq<char>)
    requires
        !vid.contains(':'),
        !pid.contains(':'),
    ensures
        usb_meant(vid) == Meant::MissingPid,
        usb_meant(vid + seq![':'] + pid) == match (hex16(vid), hex16(pid)) {
            (Some(v), Some(p)) => Meant::Usb(Some((v, p))),
            (None, _) => Meant::BadVid(vid),
            (Some(_), None) => Meant::BadPid(pid),
        },
{
    assert forall|i: int| 0 <= i < vid.len() implies vid[i] != ':' by {
        assert(vid.contains(vid[i]));
    }
    assert forall|i: int| 0 <= i < pid.len() implies pid[i] != ':' by {
        assert(pid.contains(pid[i]));
    }
    text::lemma_pieces_step(vid, ':', pid);
    text::lemma_pieces_step(pid, ':', vid);
    assert(text::pieces(vid + seq![':'] + pid, ':') =~= seq![vid, pid]);
}

/// A `0x` in front of a hexadecimal number changes nothing.
pub proof fn law_hex_prefix_changes_nothing(s: Seq<char>)
    ensures
        hex16(seq!['0', 'x'] + s) == hex16(s),
{
    let all = seq!['0', 'x'] + s;
    assert(all[0] == '0' && all[1] == 'x');
    assert(all.skip(2) =~= s);
}

} // verus!
