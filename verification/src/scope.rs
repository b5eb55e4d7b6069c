//! The bench oscilloscope: what its replies say.

use crate::text;
use crate::usbtmc::SIGLENT_VID;
use vstd::prelude::*;

verus! {

pub const SDS2000XPLUS_PID: u16 = 0x1011;

/// Whether a device is the oscilloscope.
pub fn is_scope(vid: u16, pid: u16) -> (yes: bool)
    ensures
        yes == (vid == SIGLENT_VID && pid == SDS2000XPLUS_PID),
{
    vid == SIGLENT_VID && pid == SDS2000XPLUS_PID
}

// ---- Measurements -------------------------------------------------------

/// A character a number is written with.
pub open spec fn is_numeric(c: char) -> bool {
    48 <= c as int <= 57 || c == '.' || c == '-' || c == '+' || c == 'e' || c == 'E'
}

/// The number at the start of a value, without the unit behind it.
pub open spec fn leading_number(s: Seq<char>) -> Seq<char>
    decreases s.len(),
{
    if s.len() > 0 && is_numeric(s[0]) {
        seq![s[0]] + leading_number(s.skip(1))
    } else {
        Seq::empty()
    }
}

fn numeric(c: char) -> (yes: bool)
    ensures
        yes == is_numeric(c),
{
    let u: u32 = c as u32;
    (48 <= u && u <= 57) || c == '.' || c == '-' || c == '+' || c == 'e' || c == 'E'
}

/// The number in a measurement reply (`C1:PAVA TOP,<value><unit>`): what
/// follows the last comma, as far as it is one. `None` where there is no
/// comma at all.
pub fn pava_number(reply: &str) -> (number: Option<String>)
    ensures
        number is Some <==> text::last_halves(reply@, ',') is Some,
        number matches Some(n) ==> text::last_halves(reply@, ',') matches Some((_, value)) && n@ == leading_number(
            value,
        ),
{
    match text::rsplit_once(reply, ',') {
        None => None,
        Some((_, value)) => {
            let chars: Vec<char> = text::chars_of(value.as_str());
            let mut out: String = String::new();
            let mut i: usize = 0;
            assert(chars@.skip(0) =~= value@);
            assert(out@ + leading_number(value@) =~= leading_number(value@));
            while i < chars.len() && numeric(chars[i])
                invariant
                    i <= chars@.len(),
                    chars@ == value@,
                    out@ + leading_number(value@.skip(i as int)) == leading_number(value@),
                decreases chars@.len() - i,
            {
                proof {
                    let rest = value@.skip(i as int);
                    assert(rest[0] == value@[i as int]);
                    assert(rest.skip(1) =~= value@.skip(i + 1));
                    assert(out@ + leading_number(rest) =~= out@.push(value@[i as int]) + leading_number(rest.skip(1)));
                }
                out.push(chars[i]);
                i += 1;
            }
            proof {
                let rest = value@.skip(i as int);
                if rest.len() > 0 {
                    assert(rest[0] == value@[i as int]);
                }
                assert(leading_number(rest) =~= Seq::<char>::empty());
                assert(out@ =~= leading_number(value@));
            }
            Some(out)
        },
    }
}

// ---- Waveforms ----------------------------------------------------------

/// Why a reply holds no block of data.
#[derive(Clone, Copy, Debug, PartialEq, Eq, Structural)]
pub enum BlockError {
    /// No block header.
    NoHeader,
    /// A length that is not a number.
    BadLength,
    /// Fewer bytes than the header announces.
    Short,
}

/// Where the block header starts, or the length where there is none.
pub open spec fn hash_at(raw: Seq<u8>) -> int
    decreases raw.len(),
{
    if raw.len() == 0 || raw[0] == 35 {
        0
    } else {
        1 + hash_at(raw.skip(1))
    }
}

/// How many digits the block's length has.
pub open spec fn digit_count(raw: Seq<u8>) -> int {
    raw[hash_at(raw) + 1] - 48
}

/// The block's length, if its digits are a number.
pub open spec fn block_len(raw: Seq<u8>) -> Option<int> {
    let from = hash_at(raw) + 2;
    text::number(
        raw.subrange(from, from + digit_count(raw)).map_values(|b: u8| b as char),
        10,
        usize::MAX as int,
    )
}

/// The reply has no block header, or one that is there in full: a digit
/// count, that many digits, and a length that can be counted to.
pub open spec fn header_is_whole(raw: Seq<u8>) -> bool {
    let hash = hash_at(raw);
    hash < raw.len() ==> {
        &&& hash + 1 < raw.len()
        &&& raw[hash + 1] >= 48
        &&& hash + 2 + digit_count(raw) <= raw.len()
        &&& block_len(raw) matches Some(n) ==> hash + 2 + digit_count(raw) + n <= usize::MAX
    }
}

/// The data of a block: `#`, one digit, that many digits of length, then so
/// many bytes.
pub open spec fn block(raw: Seq<u8>) -> Result<Seq<u8>, BlockError> {
    let hash = hash_at(raw);
    let start = hash + 2 + digit_count(raw);
    if hash == raw.len() {
        Err(BlockError::NoHeader)
    } else {
        match block_len(raw) {
            None => Err(BlockError::BadLength),
            Some(n) => if start + n <= raw.len() {
                Ok(raw.subrange(start, start + n))
            } else {
                Err(BlockError::Short)
            },
        }
    }
}

proof fn lemma_hash_at(raw: Seq<u8>, at: int)
    requires
        0 <= at <= raw.len(),
        at < raw.len() ==> raw[at] == 35,
        forall|i: int| 0 <= i < at ==> raw[i] != 35,
    ensures
        hash_at(raw) == at,
    decreases raw.len(),
{
    if at > 0 {
        let rest = raw.skip(1);
        assert forall|i: int| 0 <= i < at - 1 implies rest[i] != 35 by {
            assert(rest[i] == raw[i + 1]);
        }
        lemma_hash_at(rest, at - 1);
    }
}

fn find_hash(raw: &[u8]) -> (at: usize)
    ensures
        at == hash_at(raw@),
        at <= raw@.len(),
        at < raw@.len() ==> raw@[at as int] == 35,
{
    let mut i: usize = 0;
    while i < raw.len()
        invariant
            i <= raw@.len(),
            forall|k: int| 0 <= k < i ==> raw@[k] != 35,
        decreases raw@.len() - i,
    {
        if raw[i] == 35 {
            proof {
                lemma_hash_at(raw@, i as int);
            }
            return i;
        }
        i += 1;
    }
    proof {
        lemma_hash_at(raw@, i as int);
    }
    i
}

fn read_len(raw: &[u8], from: usize, to: usize) -> (n: Option<u64>)
    requires
        from <= to <= raw@.len(),
    ensures
        ({
            let want = text::number(
                raw@.subrange(from as int, to as int).map_values(|b: u8| b as char),
                10,
                usize::MAX as int,
            );
            &&& n is Some <==> want is Some
            &&& n matches Some(v) ==> want == Some(v as int) && v <= usize::MAX
        }),
{
    let ghost want = raw@.subrange(from as int, to as int).map_values(|b: u8| b as char);
    let mut digits: String = String::new();
    let mut i: usize = from;
    while i < to
        invariant
            from <= i <= to <= raw@.len(),
            want == raw@.subrange(from as int, to as int).map_values(|b: u8| b as char),
            digits@ == want.take(i - from),
        decreases to - i,
    {
        digits.push(raw[i] as char);
        assert(want.take(i - from + 1) =~= want.take(i - from).push(want[i - from]));
        i += 1;
    }
    assert(want.take(i - from) =~= want);
    text::parse(digits.as_str(), 10, usize::MAX as u64)
}

/// Whether [`extract_block`] can be asked about this reply.
pub fn can_extract(raw: &[u8]) -> (yes: bool)
    ensures
        yes == header_is_whole(raw@),
{
    let hash: usize = find_hash(raw);
    if hash == raw.len() {
        return true;
    }
    if raw.len() - hash < 2 || raw[hash + 1] < 48 {
        return false;
    }
    let count: usize = (raw[hash + 1] - 48) as usize;
    if raw.len() - hash - 2 < count {
        return false;
    }
    match read_len(raw, hash + 2, hash + 2 + count) {
        None => true,
        Some(n) => n <= usize::MAX as u64 - (hash + 2 + count) as u64,
    }
}

/// Strips the echo and the block header off a reply, leaving the raw data.
pub fn extract_block(raw: &[u8]) -> (data: Result<&[u8], BlockError>)
    requires
        header_is_whole(raw@),
    ensures
        match data {
            Ok(bytes) => block(raw@) == Ok::<Seq<u8>, BlockError>(bytes@),
            Err(e) => block(raw@) == Err::<Seq<u8>, BlockError>(e),
        },
{
    let hash: usize = find_hash(raw);
    if hash == raw.len() {
        return Err(BlockError::NoHeader);
    }
    let count: usize = (raw[hash + 1] - 48) as usize;
    let start: usize = hash + 2 + count;
    match read_len(raw, hash + 2, start) {
        None => Err(BlockError::BadLength),
        Some(n) => {
            let end: usize = start + n as usize;
            if end <= raw.len() {
                Ok(vstd::slice::slice_subrange(raw, start, end))
            } else {
                Err(BlockError::Short)
            }
        },
    }
}

/// A block as the instrument writes it: the digits of the length counted in
/// one digit, then the data.
pub open spec fn framed_block(data: Seq<u8>) -> Seq<u8> {
    let digits = text::decimal(data.len() as int);
    seq![35u8, (48 + digits.len()) as u8] + digits.map_values(|c: char| c as u8) + data
}

/// A block is read back as it was written, whatever echo stands before it and
/// whatever follows.
pub proof fn law_block_is_read_back(echo: Seq<u8>, data: Seq<u8>, after: Seq<u8>)
    requires
        forall|i: int| 0 <= i < echo.len() ==> echo[i] != 35,
        text::decimal(data.len() as int).len() <= 9,
        echo.len() + 11 + data.len() <= usize::MAX,
    ensures
        header_is_whole(echo + framed_block(data) + after),
        block(echo + framed_block(data) + after) == Ok::<Seq<u8>, BlockError>(data),
{
    let digits = text::decimal(data.len() as int);
    let coded = digits.map_values(|c: char| c as u8);
    let raw = echo + framed_block(data) + after;
    let hash = echo.len() as int;
    lemma_hash_at(raw, hash);
    text::lemma_decimal_digits(data.len() as int);
    text::lemma_decimal_reads_back(data.len() as int, usize::MAX as int);
    assert(raw[hash + 1] == 48 + digits.len());
    let shown = raw.subrange(hash + 2, hash + 2 + digits.len()).map_values(|b: u8| b as char);
    assert(shown =~= digits) by {
        assert forall|i: int| 0 <= i < digits.len() implies shown[i] == digits[i] by {
            assert(raw[hash + 2 + i] == coded[i]);
            assert(48 <= digits[i] as int <= 57);
        }
    }
    let start = hash + 2 + digits.len();
    assert(raw.subrange(start, start + data.len()) =~= data);
}

/// A sample: a byte as a signed number.
pub open spec fn sample(byte: u8) -> int {
    if byte < 128 {
        byte as int
    } else {
        byte - 256
    }
}

/// Why a waveform cannot be scaled.
#[derive(Clone, Copy, Debug, PartialEq, Eq, Structural)]
pub enum WaveError {
    Empty,
    /// Every sample is the same, so there is nothing to scale by.
    Flat,
}

/// The sample a byte stands for.
pub fn sample_of(byte: u8) -> (v: i8)
    ensures
        v == sample(byte),
{
    if byte < 128 {
        byte as i8
    } else {
        (byte as i16 - 256) as i8
    }
}

/// The lowest and the highest sample of a waveform, which are what its base
/// and its top were measured at.
pub fn extent(data: &[u8]) -> (ends: Result<(i8, i8), WaveError>)
    ensures
        match ends {
            Ok((lo, hi)) => {
                &&& lo < hi
                &&& exists|i: int| 0 <= i < data@.len() && sample(#[trigger] data@[i]) == lo
                &&& exists|i: int| 0 <= i < data@.len() && sample(#[trigger] data@[i]) == hi
                &&& forall|i: int| 0 <= i < data@.len() ==> lo <= sample(#[trigger] data@[i]) <= hi
            },
            Err(WaveError::Empty) => data@.len() == 0,
            Err(WaveError::Flat) => data@.len() > 0 && forall|i: int, j: int|
                0 <= i < data@.len() && 0 <= j < data@.len() ==> sample(#[trigger] data@[i]) == sample(
                    #[trigger] data@[j],
                ),
        },
{
    if data.len() == 0 {
        return Err(WaveError::Empty);
    }
    let mut lo: i8 = sample_of(data[0]);
    let mut hi: i8 = lo;
    let mut i: usize = 1;
    while i < data.len()
        invariant
            1 <= i <= data@.len(),
            exists|k: int| 0 <= k < i && sample(#[trigger] data@[k]) == lo,
            exists|k: int| 0 <= k < i && sample(#[trigger] data@[k]) == hi,
            forall|k: int| 0 <= k < i ==> lo <= sample(#[trigger] data@[k]) <= hi,
        decreases data@.len() - i,
    {
        let v: i8 = sample_of(data[i]);
        assert(sample(data@[i as int]) == v);
        if v < lo {
            lo = v;
        }
        if v > hi {
            hi = v;
        }
        i += 1;
    }
    if lo == hi {
        return Err(WaveError::Flat);
    }
    Ok((lo, hi))
}

// ---- Screen dumps -------------------------------------------------------

/// `image::DynamicImage`, a decoded image.
#[verifier::external_type_specification]
#[verifier::external_body]
pub struct ExDynamicImage(image::DynamicImage);

/// What the `image` crate makes of a BMP file: the image, or `None` where it
/// cannot decode it.
pub uninterp spec fn bmp_image(bmp: Seq<u8>) -> Option<image::DynamicImage>;

/// What the `image` crate makes of an image as a PNG file, or `None` where it
/// cannot encode it.
pub uninterp spec fn image_png(image: image::DynamicImage) -> Option<Seq<u8>>;

/// A file's bytes as a mathematical value.
pub open spec fn bytes_of(file: Option<Vec<u8>>) -> Option<Seq<u8>> {
    match file {
        Some(bytes) => Some(bytes@),
        None => None,
    }
}

/// The eight bytes every PNG file starts with.
pub open spec fn png_signature() -> Seq<u8> {
    seq![0x89u8, 0x50, 0x4E, 0x47, 0x0D, 0x0A, 0x1A, 0x0A]
}

/// `image::load_from_memory_with_format` on a BMP file. What comes out depends
/// on the bytes that go in alone.
#[verifier::external_body]
fn decode_bmp(bmp: &[u8]) -> (image: Option<image::DynamicImage>)
    ensures
        image == bmp_image(bmp@),
{
    image::load_from_memory_with_format(bmp, image::ImageFormat::Bmp).ok()
}

/// `image::DynamicImage::write_to` as PNG, into memory. What comes out depends
/// on the image alone, and starts as a PNG file does.
///
/// It is for images that were decoded from BMP: their buffers are as long as
/// their sizes ask for, and the encoder panics on one that is longer.
#[verifier::external_body]
fn encode_png(image: &image::DynamicImage) -> (png: Option<Vec<u8>>)
    requires
        exists|bmp: Seq<u8>| #[trigger] bmp_image(bmp) == Some(*image),
    ensures
        bytes_of(png) == image_png(*image),
        png matches Some(p) ==> p@.len() >= 8 && p@.take(8) == png_signature(),
{
    let mut png = std::io::Cursor::new(Vec::new());
    match image.write_to(&mut png, image::ImageFormat::Png) {
        Ok(()) => Some(png.into_inner()),
        Err(_) => None,
    }
}

/// Why there is no screenshot.
#[derive(Clone, Copy, Debug, PartialEq, Eq, Structural)]
pub enum ShotError {
    /// The screen dump is not a BMP file.
    Decode,
    /// It could not be written as a PNG file.
    Encode,
}

/// What a conversion comes to: whether the dump was decoded, and what it was
/// encoded to.
pub fn shot(decoded: bool, encoded: Option<Vec<u8>>) -> (png: Result<Vec<u8>, ShotError>)
    ensures
        match png {
            Ok(file) => decoded && bytes_of(encoded) == Some(file@),
            Err(ShotError::Decode) => !decoded,
            Err(ShotError::Encode) => decoded && encoded is None,
        },
{
    if !decoded {
        return Err(ShotError::Decode);
    }
    match encoded {
        Some(file) => Ok(file),
        None => Err(ShotError::Encode),
    }
}

/// A screen dump, which the oscilloscope sends as a BMP file, as a PNG file.
pub fn screenshot_png(bmp: &[u8]) -> (png: Result<Vec<u8>, ShotError>)
    ensures
        match png {
            Ok(file) => bmp_image(bmp@) matches Some(image) && image_png(image) == Some(file@),
            Err(ShotError::Decode) => bmp_image(bmp@) is None,
            Err(ShotError::Encode) => bmp_image(bmp@) matches Some(image) && image_png(image) is None,
        },
        png matches Ok(file) ==> file@.len() >= 8 && file@.take(8) == png_signature(),
{
    match decode_bmp(bmp) {
        Some(image) => shot(true, encode_png(&image)),
        None => shot(false, None),
    }
}

// ---- What the replies are read for --------------------------------------

/// The number at the start of a value is all of it up to the first character
/// that no number is written with.
pub proof fn law_number_ends_at_its_unit(number: Seq<char>, unit: Seq<char>)
    requires
        forall|i: int|
            0 <= i < number.len() ==> '0' <= #[trigger] number[i] <= '9' || number[i] == '.' || number[i] == '-'
                || number[i] == '+' || number[i] == 'e' || number[i] == 'E',
        unit.len() > 0 ==> !('0' <= unit[0] <= '9' || unit[0] == '.' || unit[0] == '-' || unit[0] == '+' || unit[0]
            == 'e' || unit[0] == 'E'),
    ensures
        leading_number(number + unit) == number,
    decreases number.len(),
{
    let all = number + unit;
    if number.len() == 0 {
        assert(all =~= unit);
        assert(leading_number(all) =~= number);
    } else {
        let rest = number.skip(1);
        assert forall|i: int| 0 <= i < rest.len() implies '0' <= #[trigger] rest[i] <= '9' || rest[i] == '.' || rest[i]
            == '-' || rest[i] == '+' || rest[i] == 'e' || rest[i] == 'E' by {
            assert(rest[i] == number[i + 1]);
        }
        law_number_ends_at_its_unit(rest, unit);
        assert(all[0] == number[0]);
        assert(all.skip(1) =~= rest + unit);
        assert(seq![number[0]] + rest =~= number);
    }
}

/// A block that announces more bytes than follow is refused, and so is a reply
/// without a block.
pub proof fn law_short_block_is_refused(echo: Seq<u8>, len: int, data: Seq<u8>)
    requires
        forall|i: int| 0 <= i < echo.len() ==> echo[i] != 35,
        0 <= data.len() < len <= usize::MAX,
        text::decimal(len).len() <= 9,
    ensures
        block(echo) == Err::<Seq<u8>, BlockError>(BlockError::NoHeader),
        ({
            let digits = text::decimal(len);
            block(echo + seq![35u8, (48 + digits.len()) as u8] + digits.map_values(|c: char| c as u8) + data) == Err::<
                Seq<u8>,
                BlockError,
            >(BlockError::Short)
        }),
{
    let digits = text::decimal(len);
    let coded = digits.map_values(|c: char| c as u8);
    let raw = echo + seq![35u8, (48 + digits.len()) as u8] + coded + data;
    let hash = echo.len() as int;
    lemma_hash_at(echo, hash);
    lemma_hash_at(raw, hash);
    text::lemma_decimal_digits(len);
    text::lemma_decimal_reads_back(len, usize::MAX as int);
    assert(raw[hash + 1] == 48 + digits.len());
    let shown = raw.subrange(hash + 2, hash + 2 + digits.len()).map_values(|b: u8| b as char);
    assert(shown =~= digits) by {
        assert forall|i: int| 0 <= i < digits.len() implies shown[i] == digits[i] by {
            assert(raw[hash + 2 + i] == coded[i]);
            assert(48 <= digits[i] as int <= 57);
        }
    }
}

/// A sample is its byte in two's complement.
pub proof fn law_samples_are_signed_bytes(byte: u8)
    ensures
        -128 <= sample(byte) <= 127,
        (sample(byte) - byte) % 256 == 0,
{
}

/// A block is read by what its digits are worth, leading zeros or not: `#`, how
/// many digits there are, the digits, and then as many bytes.
pub proof fn law_block_is_as_long_as_its_digits_say(
    echo: Seq<u8>,
    digits: Seq<char>,
    data: Seq<u8>,
    after: Seq<u8>,
)
    requires
        forall|i: int| 0 <= i < echo.len() ==> echo[i] != 35,
        1 <= digits.len() <= 9,
        forall|i: int| 0 <= i < digits.len() ==> '0' <= #[trigger] digits[i] <= '9',
        text::worth(digits) == data.len(),
        data.len() <= usize::MAX,
    ensures
        block(
            echo + seq![35u8, (48 + digits.len()) as u8] + digits.map_values(|c: char| c as u8) + data + after,
        ) == Ok::<Seq<u8>, BlockError>(data),
{
    let coded = digits.map_values(|c: char| c as u8);
    let raw = echo + seq![35u8, (48 + digits.len()) as u8] + coded + data + after;
    let hash = echo.len() as int;
    lemma_hash_at(raw, hash);
    text::law_digits_are_read_as_what_they_are_worth(digits, usize::MAX as int, 0);
    assert(raw[hash + 1] == 48 + digits.len());
    let shown = raw.subrange(hash + 2, hash + 2 + digits.len()).map_values(|b: u8| b as char);
    assert(shown =~= digits) by {
        assert forall|i: int| 0 <= i < digits.len() implies shown[i] == digits[i] by {
            assert(raw[hash + 2 + i] == coded[i]);
            assert('0' <= digits[i] <= '9');
        }
    }
    let start = hash + 2 + digits.len();
    assert(raw.subrange(start, start + data.len()) =~= data);
}

} // verus!
