//! Text: the handful of string operations that commands, frames, CSV rows and
//! instrument replies are made of and taken apart with.
//!
//! A string is a sequence of characters throughout; where bytes matter, they
//! are its UTF-8 encoding.

use vstd::prelude::*;

verus! {

/// `String::push`: the string grows by this one character, at its end.
pub assume_specification[ String::push ](s: &mut String, c: char)
    ensures
        final(s)@ == old(s)@.push(c),
;

/// The characters of a string.
pub fn chars_of(s: &str) -> (chars: Vec<char>)
    ensures
        chars@ == s@,
{
    let mut chars: Vec<char> = Vec::new();
    for c in it: s.chars()
        invariant
            chars@ == s@.take(it.index() as int),
            it.seq() == s@,
    {
        chars.push(c);
        assert(s@.take(it.index() + 1) =~= s@.take(it.index() as int).push(c));
    }
    assert(s@.take(s@.len() as int) =~= s@);
    chars
}

/// The string of these characters.
pub fn string_of(chars: &[char]) -> (s: String)
    ensures
        s@ == chars@,
{
    let mut s: String = String::new();
    let mut i: usize = 0;
    while i < chars.len()
        invariant
            i <= chars@.len(),
            s@ == chars@.take(i as int),
        decreases chars@.len() - i,
    {
        s.push(chars[i]);
        i += 1;
    }
    assert(chars@.take(i as int) =~= chars@);
    s
}

/// Strings as the character sequences they stand for.
pub open spec fn views(list: Seq<String>) -> Seq<Seq<char>> {
    list.map_values(|s: String| s@)
}

/// Whether two strings are the same.
pub fn same(a: &str, b: &str) -> (yes: bool)
    ensures
        yes == (a@ == b@),
{
    let x: Vec<char> = chars_of(a);
    let y: Vec<char> = chars_of(b);
    if x.len() != y.len() {
        return false;
    }
    let mut i: usize = 0;
    while i < x.len()
        invariant
            i <= x@.len(),
            x@.len() == y@.len(),
            x@ == a@,
            y@ == b@,
            x@.take(i as int) == y@.take(i as int),
        decreases x@.len() - i,
    {
        if x[i] != y[i] {
            assert(a@[i as int] != b@[i as int]);
            return false;
        }
        proof {
            assert(x@.take(i + 1) =~= x@.take(i as int).push(x@[i as int]));
            assert(y@.take(i + 1) =~= y@.take(i as int).push(y@[i as int]));
        }
        i += 1;
    }
    assert(x@.take(i as int) =~= x@);
    assert(y@.take(i as int) =~= y@);
    true
}

// ---- Searching and splitting --------------------------------------------

/// Where a character first occurs, or the length where it does not.
pub open spec fn first(s: Seq<char>, c: char) -> int
    decreases s.len(),
{
    if s.len() == 0 {
        0
    } else if s[0] == c {
        0
    } else {
        1 + first(s.skip(1), c)
    }
}

pub proof fn lemma_first(s: Seq<char>, c: char)
    ensures
        0 <= first(s, c) <= s.len(),
        first(s, c) < s.len() ==> s[first(s, c)] == c,
        forall|i: int| 0 <= i < first(s, c) ==> s[i] != c,
    decreases s.len(),
{
    if s.len() > 0 && s[0] != c {
        lemma_first(s.skip(1), c);
        assert forall|i: int| 0 <= i < first(s, c) implies s[i] != c by {
            if i > 0 {
                assert(s.skip(1)[i - 1] == s[i]);
            }
        }
    }
}

pub proof fn lemma_first_is(s: Seq<char>, c: char, at: int)
    requires
        0 <= at <= s.len(),
        at < s.len() ==> s[at] == c,
        forall|i: int| 0 <= i < at ==> s[i] != c,
    ensures
        first(s, c) == at,
{
    lemma_first(s, c);
}

/// Where a character first occurs, or the length where it does not.
pub fn find(chars: &[char], c: char) -> (at: usize)
    ensures
        at == first(chars@, c),
        at <= chars@.len(),
{
    let mut i: usize = 0;
    while i < chars.len()
        invariant
            i <= chars@.len(),
            forall|k: int| 0 <= k < i ==> chars@[k] != c,
        decreases chars@.len() - i,
    {
        if chars[i] == c {
            proof {
                lemma_first_is(chars@, c, i as int);
            }
            return i;
        }
        i += 1;
    }
    proof {
        lemma_first_is(chars@, c, i as int);
    }
    i
}

/// The pieces between separators: always at least one, possibly empty.
pub open spec fn pieces(s: Seq<char>, sep: char) -> Seq<Seq<char>>
    decreases s.len(),
{
    proof {
        lemma_first(s, sep);
    }
    if first(s, sep) < s.len() {
        seq![s.take(first(s, sep))] + pieces(s.skip(first(s, sep) + 1), sep)
    } else {
        seq![s]
    }
}

/// There is always a first piece.
pub proof fn lemma_pieces_nonempty(s: Seq<char>, sep: char)
    ensures
        pieces(s, sep).len() > 0,
{
    lemma_first(s, sep);
}

/// What stands before the first separator is a piece of its own.
pub proof fn lemma_pieces_step(head: Seq<char>, sep: char, rest: Seq<char>)
    requires
        forall|i: int| 0 <= i < head.len() ==> head[i] != sep,
    ensures
        pieces(head + seq![sep] + rest, sep) == seq![head] + pieces(rest, sep),
        pieces(head, sep) == seq![head],
        halves(head + seq![sep] + rest, sep) == Some((head, rest)),
{
    let all = head + seq![sep] + rest;
    lemma_first_is(all, sep, head.len() as int);
    lemma_first_is(head, sep, head.len() as int);
    assert(all.take(head.len() as int) =~= head);
    assert(all.skip(head.len() as int + 1) =~= rest);
}

/// Decimals are made of digits only.
pub proof fn lemma_decimal_digits(n: int)
    requires
        n >= 0,
    ensures
        decimal(n).len() > 0,
        forall|i: int| 0 <= i < decimal(n).len() ==> 48 <= (#[trigger] decimal(n)[i]) as int <= 57,
    decreases n,
{
    if n >= 10 {
        lemma_decimal_digits(n / 10);
        let shorter = decimal(n / 10);
        assert forall|i: int| 0 <= i < decimal(n).len() implies 48 <= (#[trigger] decimal(n)[i]) as int <= 57 by {
            if i < shorter.len() {
                assert(decimal(n)[i] == shorter[i]);
            }
        }
    }
}

/// Split at every separator.
pub fn split(s: &str, sep: char) -> (list: Vec<String>)
    ensures
        views(list@) == pieces(s@, sep),
{
    let chars: Vec<char> = chars_of(s);
    let mut list: Vec<String> = Vec::new();
    let mut from: usize = 0;
    assert(chars@.skip(0) =~= s@);
    assert(views(list@) + pieces(s@, sep) =~= pieces(s@, sep));
    loop
        invariant_except_break
            from <= chars@.len(),
            views(list@) + pieces(chars@.skip(from as int), sep) == pieces(s@, sep),
        ensures
            views(list@) == pieces(s@, sep),
        decreases chars@.len() + 1 - from,
    {
        let ghost rest = chars@.skip(from as int);
        let tail: &[char] = vstd::slice::slice_subrange(chars.as_slice(), from, chars.len());
        assert(tail@ =~= rest);
        let at: usize = find(tail, sep);
        proof {
            lemma_first(rest, sep);
        }
        let piece: String = string_of(vstd::slice::slice_subrange(tail, 0, at));
        let ghost before = list@;
        assert(piece@ =~= rest.take(at as int));
        list.push(piece);
        assert(views(list@) =~= views(before).push(rest.take(at as int)));
        if at == tail.len() {
            assert(rest.take(at as int) =~= rest);
            assert(views(list@) =~= views(before) + pieces(rest, sep));
            break;
        }
        proof {
            assert(rest.skip(at + 1) =~= chars@.skip(from + at + 1));
            assert(pieces(rest, sep) =~= seq![rest.take(at as int)] + pieces(rest.skip(at + 1), sep));
            assert(views(list@) + pieces(rest.skip(at + 1), sep) =~= views(before) + pieces(rest, sep));
        }
        from = from + at + 1;
    }
    list
}

/// The two sides of the first separator.
pub open spec fn halves(s: Seq<char>, sep: char) -> Option<(Seq<char>, Seq<char>)> {
    if first(s, sep) < s.len() {
        Some((s.take(first(s, sep)), s.skip(first(s, sep) + 1)))
    } else {
        None
    }
}

/// Split at the first separator.
pub fn split_once(s: &str, sep: char) -> (parts: Option<(String, String)>)
    ensures
        parts is Some <==> halves(s@, sep) is Some,
        parts matches Some(p) ==> halves(s@, sep) == Some((p.0@, p.1@)),
{
    let chars: Vec<char> = chars_of(s);
    let at: usize = find(chars.as_slice(), sep);
    if at == chars.len() {
        return None;
    }
    let left: &[char] = vstd::slice::slice_subrange(chars.as_slice(), 0, at);
    let right: &[char] = vstd::slice::slice_subrange(chars.as_slice(), at + 1, chars.len());
    assert(left@ =~= s@.take(at as int));
    assert(right@ =~= s@.skip(at + 1));
    Some((string_of(left), string_of(right)))
}

/// Where a character last occurs, or -1 where it does not.
pub open spec fn last(s: Seq<char>, c: char) -> int
    decreases s.len(),
{
    if s.len() == 0 {
        -1
    } else if s.last() == c {
        s.len() - 1
    } else {
        last(s.drop_last(), c)
    }
}

/// The two sides of the last separator.
pub open spec fn last_halves(s: Seq<char>, sep: char) -> Option<(Seq<char>, Seq<char>)> {
    if last(s, sep) >= 0 {
        Some((s.take(last(s, sep)), s.skip(last(s, sep) + 1)))
    } else {
        None
    }
}

/// Split at the last separator.
pub fn rsplit_once(s: &str, sep: char) -> (parts: Option<(String, String)>)
    ensures
        parts is Some <==> last_halves(s@, sep) is Some,
        parts matches Some(p) ==> last_halves(s@, sep) == Some((p.0@, p.1@)),
{
    let chars: Vec<char> = chars_of(s);
    let mut n: usize = chars.len();
    assert(s@.take(n as int) =~= s@);
    while n > 0
        invariant
            n <= chars@.len(),
            chars@ == s@,
            last(s@, sep) == last(s@.take(n as int), sep),
        decreases n,
    {
        if chars[n - 1] == sep {
            let left: &[char] = vstd::slice::slice_subrange(chars.as_slice(), 0, n - 1);
            let right: &[char] = vstd::slice::slice_subrange(chars.as_slice(), n, chars.len());
            assert(left@ =~= s@.take(n - 1));
            assert(right@ =~= s@.skip(n as int));
            return Some((string_of(left), string_of(right)));
        }
        assert(s@.take(n as int).drop_last() =~= s@.take(n - 1));
        n -= 1;
    }
    None
}

/// Whether `needle` occurs in `s` at `at`.
pub open spec fn occurs_at(s: Seq<char>, needle: Seq<char>, at: int) -> bool {
    0 <= at && at + needle.len() <= s.len() && s.subrange(at, at + needle.len()) == needle
}

/// Whether `needle` occurs in `s`.
pub open spec fn occurs(s: Seq<char>, needle: Seq<char>) -> bool {
    exists|at: int| occurs_at(s, needle, at)
}

fn matches_at(s: &[char], needle: &[char], at: usize) -> (yes: bool)
    requires
        at + needle@.len() <= s@.len(),
    ensures
        yes == occurs_at(s@, needle@, at as int),
{
    let total: usize = s.len();
    let mut i: usize = 0;
    while i < needle.len()
        invariant
            i <= needle@.len(),
            at + needle@.len() <= s@.len(),
            total == s@.len(),
            forall|k: int| 0 <= k < i ==> s@[at + k] == needle@[k],
        decreases needle@.len() - i,
    {
        if s[at + i] != needle[i] {
            assert(s@.subrange(at as int, at + needle@.len())[i as int] != needle@[i as int]);
            return false;
        }
        i += 1;
    }
    assert(s@.subrange(at as int, at + needle@.len()) =~= needle@);
    true
}

/// Whether `needle` occurs in `s`.
pub fn contains(s: &str, needle: &str) -> (yes: bool)
    ensures
        yes == occurs(s@, needle@),
{
    let hay: Vec<char> = chars_of(s);
    let pin: Vec<char> = chars_of(needle);
    if pin.len() > hay.len() {
        assert(forall|at: int| !#[trigger] occurs_at(s@, needle@, at));
        return false;
    }
    let mut at: usize = 0;
    while at <= hay.len() - pin.len()
        invariant
            hay@ == s@,
            pin@ == needle@,
            pin@.len() <= hay@.len(),
            at <= hay@.len() - pin@.len() + 1,
            forall|k: int| 0 <= k < at ==> !#[trigger] occurs_at(s@, needle@, k),
        decreases hay@.len() + 1 - at,
    {
        if matches_at(hay.as_slice(), pin.as_slice(), at) {
            assert(occurs_at(s@, needle@, at as int));
            return true;
        }
        if at == hay.len() {
            assert(forall|k: int| !#[trigger] occurs_at(s@, needle@, k));
            return false;
        }
        at += 1;
    }
    assert(forall|k: int| !#[trigger] occurs_at(s@, needle@, k));
    false
}

/// Whether `s` begins with `prefix`.
pub fn starts_with(s: &str, prefix: &str) -> (yes: bool)
    ensures
        yes == occurs_at(s@, prefix@, 0),
{
    let hay: Vec<char> = chars_of(s);
    let pin: Vec<char> = chars_of(prefix);
    if pin.len() > hay.len() {
        return false;
    }
    matches_at(hay.as_slice(), pin.as_slice(), 0)
}

/// The string after its first `n` characters.
pub fn skip(s: &str, n: usize) -> (rest: String)
    requires
        n <= s@.len(),
    ensures
        rest@ == s@.skip(n as int),
{
    let chars: Vec<char> = chars_of(s);
    let tail: &[char] = vstd::slice::slice_subrange(chars.as_slice(), n, chars.len());
    assert(tail@ =~= s@.skip(n as int));
    string_of(tail)
}

// ---- Whitespace ---------------------------------------------------------

/// Unicode's `White_Space` property.
pub open spec fn is_white(c: char) -> bool {
    let u = c as int;
    ||| 9 <= u <= 13
    ||| u == 32
    ||| u == 0x85
    ||| u == 0xA0
    ||| u == 0x1680
    ||| 0x2000 <= u <= 0x200A
    ||| u == 0x2028
    ||| u == 0x2029
    ||| u == 0x202F
    ||| u == 0x205F
    ||| u == 0x3000
}

fn white(c: char) -> (yes: bool)
    ensures
        yes == is_white(c),
{
    let u: u32 = c as u32;
    (9 <= u && u <= 13) || u == 32 || u == 0x85 || u == 0xA0 || u == 0x1680 || (0x2000 <= u && u <= 0x200A) || u
        == 0x2028 || u == 0x2029 || u == 0x202F || u == 0x205F || u == 0x3000
}

/// Without the whitespace at its end.
pub open spec fn end_trimmed(s: Seq<char>) -> Seq<char>
    decreases s.len(),
{
    if s.len() > 0 && is_white(s.last()) {
        end_trimmed(s.drop_last())
    } else {
        s
    }
}

/// Without the whitespace at its start.
pub open spec fn start_trimmed(s: Seq<char>) -> Seq<char>
    decreases s.len(),
{
    if s.len() > 0 && is_white(s[0]) {
        start_trimmed(s.skip(1))
    } else {
        s
    }
}

/// Without the whitespace at either end.
pub open spec fn trimmed(s: Seq<char>) -> Seq<char> {
    end_trimmed(start_trimmed(s))
}

/// Trimming the end keeps everything up to a character that is not
/// whitespace.
pub proof fn lemma_end_trimmed_keeps(s: Seq<char>, n: int)
    requires
        0 < n <= s.len(),
        !is_white(s[n - 1]),
    ensures
        n <= end_trimmed(s).len() <= s.len(),
        end_trimmed(s) == s.take(end_trimmed(s).len() as int),
    decreases s.len(),
{
    if is_white(s.last()) {
        let shorter = s.drop_last();
        lemma_end_trimmed_keeps(shorter, n);
        assert(shorter.take(end_trimmed(s).len() as int) =~= s.take(end_trimmed(s).len() as int));
    } else {
        assert(s.take(s.len() as int) =~= s);
    }
}

fn kept_end(chars: &[char]) -> (n: usize)
    ensures
        n <= chars@.len(),
        chars@.take(n as int) == end_trimmed(chars@),
{
    let mut n: usize = chars.len();
    assert(chars@.take(n as int) =~= chars@);
    while n > 0 && white(chars[n - 1])
        invariant
            n <= chars@.len(),
            end_trimmed(chars@.take(n as int)) == end_trimmed(chars@),
        decreases n,
    {
        assert(chars@.take(n as int).drop_last() =~= chars@.take(n - 1));
        n -= 1;
    }
    n
}

fn kept_start(chars: &[char]) -> (n: usize)
    ensures
        n <= chars@.len(),
        chars@.skip(n as int) == start_trimmed(chars@),
{
    let mut n: usize = 0;
    assert(chars@.skip(0) =~= chars@);
    while n < chars.len() && white(chars[n])
        invariant
            n <= chars@.len(),
            start_trimmed(chars@.skip(n as int)) == start_trimmed(chars@),
        decreases chars@.len() - n,
    {
        assert(chars@.skip(n as int).skip(1) =~= chars@.skip(n + 1));
        n += 1;
    }
    n
}

/// Without the whitespace at its end.
pub fn trim_end(s: &str) -> (t: String)
    ensures
        t@ == end_trimmed(s@),
{
    let chars: Vec<char> = chars_of(s);
    let n: usize = kept_end(chars.as_slice());
    let kept: &[char] = vstd::slice::slice_subrange(chars.as_slice(), 0, n);
    assert(kept@ =~= chars@.take(n as int));
    string_of(kept)
}

/// Without the whitespace at either end.
pub fn trim(s: &str) -> (t: String)
    ensures
        t@ == trimmed(s@),
{
    let chars: Vec<char> = chars_of(s);
    let from: usize = kept_start(chars.as_slice());
    let rest: &[char] = vstd::slice::slice_subrange(chars.as_slice(), from, chars.len());
    assert(rest@ =~= chars@.skip(from as int));
    let n: usize = kept_end(rest);
    let kept: &[char] = vstd::slice::slice_subrange(rest, 0, n);
    assert(kept@ =~= rest@.take(n as int));
    string_of(kept)
}

/// Without any occurrence of a character.
pub open spec fn without(s: Seq<char>, c: char) -> Seq<char>
    decreases s.len(),
{
    if s.len() == 0 {
        s
    } else if s.last() == c {
        without(s.drop_last(), c)
    } else {
        without(s.drop_last(), c).push(s.last())
    }
}

/// Nothing is taken from a string that the character does not occur in.
pub proof fn lemma_without_none(s: Seq<char>, c: char)
    requires
        forall|i: int| 0 <= i < s.len() ==> s[i] != c,
    ensures
        without(s, c) == s,
    decreases s.len(),
{
    if s.len() > 0 {
        let shorter = s.drop_last();
        assert forall|i: int| 0 <= i < shorter.len() implies shorter[i] != c by {
            assert(shorter[i] == s[i]);
        }
        lemma_without_none(shorter, c);
        assert(s[s.len() - 1] != c);
        assert(shorter.push(s.last()) =~= s);
    }
}

/// Without any occurrence of a character.
pub fn remove(s: &str, c: char) -> (t: String)
    ensures
        t@ == without(s@, c),
{
    let chars: Vec<char> = chars_of(s);
    let mut t: String = String::new();
    let mut i: usize = 0;
    assert(chars@.take(0) =~= Seq::<char>::empty());
    while i < chars.len()
        invariant
            i <= chars@.len(),
            t@ == without(chars@.take(i as int), c),
        decreases chars@.len() - i,
    {
        assert(chars@.take(i + 1).drop_last() =~= chars@.take(i as int));
        if chars[i] != c {
            t.push(chars[i]);
        }
        i += 1;
    }
    assert(chars@.take(i as int) =~= chars@);
    t
}

// ---- Numbers ------------------------------------------------------------

/// The character of a hexadecimal digit, in lower case.
pub open spec fn digit_char(d: int) -> char {
    if d < 10 {
        (48 + d) as char
    } else {
        (87 + d) as char
    }
}

/// A number in decimal, without leading zeros.
pub open spec fn decimal(n: int) -> Seq<char>
    decreases n,
{
    if n < 10 {
        seq![digit_char(n)]
    } else {
        decimal(n / 10).push(digit_char(n % 10))
    }
}

/// Append a number in decimal.
pub fn push_decimal(to: &mut String, n: u64)
    ensures
        final(to)@ == old(to)@ + decimal(n as int),
    decreases n,
{
    if n >= 10 {
        push_decimal(to, n / 10);
        to.push((48 + (n % 10) as u8) as char);
    } else {
        to.push((48 + n as u8) as char);
    }
    assert(to@ =~= old(to)@ + decimal(n as int));
}

/// A number in decimal.
pub fn decimal_string(n: u64) -> (s: String)
    ensures
        s@ == decimal(n as int),
{
    let mut s: String = String::new();
    push_decimal(&mut s, n);
    assert(s@ =~= decimal(n as int));
    s
}

/// A number in decimal, behind a minus sign where it is negative.
pub open spec fn signed_decimal(n: int) -> Seq<char> {
    if n < 0 {
        seq!['-'] + decimal(-n)
    } else {
        decimal(n)
    }
}

/// Append a number in decimal, behind a minus sign where it is negative.
pub fn push_signed(to: &mut String, n: i32)
    ensures
        final(to)@ == old(to)@ + signed_decimal(n as int),
{
    let wide: i64 = n as i64;
    if wide < 0 {
        to.push('-');
        push_decimal(to, (-wide) as u64);
    } else {
        push_decimal(to, wide as u64);
    }
    assert(to@ =~= old(to)@ + signed_decimal(n as int));
}

/// A 16-bit number as four hexadecimal digits.
pub open spec fn hex4(n: int) -> Seq<char> {
    seq![digit_char(n / 4096 % 16), digit_char(n / 256 % 16), digit_char(n / 16 % 16), digit_char(n % 16)]
}

fn push_hex_digit(to: &mut String, d: u16)
    requires
        d < 16,
    ensures
        final(to)@ == old(to)@.push(digit_char(d as int)),
{
    if d < 10 {
        to.push((48 + d as u8) as char);
    } else {
        to.push((87 + d as u8) as char);
    }
}

/// Append a number as four hexadecimal digits.
pub fn push_hex4(to: &mut String, n: u16)
    ensures
        final(to)@ == old(to)@ + hex4(n as int),
{
    push_hex_digit(to, n / 4096 % 16);
    push_hex_digit(to, n / 256 % 16);
    push_hex_digit(to, n / 16 % 16);
    push_hex_digit(to, n % 16);
    assert(to@ =~= old(to)@ + hex4(n as int));
}

/// What a digit counts for in a radix up to sixteen, or -1.
pub open spec fn digit_value(c: char, radix: int) -> int {
    let u = c as int;
    let d: int = if 48 <= u <= 57 {
        u - 48
    } else if 97 <= u <= 102 {
        u - 87
    } else if 65 <= u <= 70 {
        u - 55
    } else {
        -1
    };
    if d < radix {
        d
    } else {
        -1
    }
}

/// Every character is a digit.
pub open spec fn all_digits(s: Seq<char>, radix: int) -> bool {
    forall|i: int| 0 <= i < s.len() ==> digit_value(#[trigger] s[i], radix) >= 0
}

/// What a run of digits stands for.
pub open spec fn digits_value(s: Seq<char>, radix: int) -> int
    decreases s.len(),
{
    if s.len() == 0 {
        0
    } else {
        digits_value(s.drop_last(), radix) * radix + digit_value(s.last(), radix)
    }
}

/// An unsigned number as the standard library reads one: digits, possibly
/// behind a plus sign, at least one, and no more than `max` in all.
pub open spec fn number(s: Seq<char>, radix: int, max: int) -> Option<int> {
    let digits = if s.len() > 0 && s[0] == '+' {
        s.skip(1)
    } else {
        s
    };
    if digits.len() > 0 && all_digits(digits, radix) && digits_value(digits, radix) <= max {
        Some(digits_value(digits, radix))
    } else {
        None
    }
}

fn digit(c: char, radix: u64) -> (d: Option<u64>)
    requires
        2 <= radix <= 16,
    ensures
        d is None <==> digit_value(c, radix as int) < 0,
        d matches Some(v) ==> v == digit_value(c, radix as int) && v < radix,
{
    let u: u32 = c as u32;
    let d: u32 = if 48 <= u && u <= 57 {
        u - 48
    } else if 97 <= u && u <= 102 {
        u - 87
    } else if 65 <= u && u <= 70 {
        u - 55
    } else {
        return None;
    };
    if (d as u64) < radix {
        Some(d as u64)
    } else {
        None
    }
}

proof fn lemma_digits_value_grows(s: Seq<char>, radix: int, n: int)
    requires
        all_digits(s, radix),
        2 <= radix <= 16,
        0 <= n <= s.len(),
    ensures
        0 <= digits_value(s.take(n), radix) <= digits_value(s, radix),
    decreases s.len(),
{
    if n == s.len() {
        assert(s.take(n) =~= s);
        if s.len() > 0 {
            let shorter = s.drop_last();
            assert forall|i: int| 0 <= i < shorter.len() implies digit_value(#[trigger] shorter[i], radix) >= 0 by {
                assert(shorter[i] == s[i]);
            }
            lemma_digits_value_grows(shorter, radix, shorter.len() as int);
            assert(shorter.take(shorter.len() as int) =~= shorter);
            assert(digit_value(s[s.len() - 1], radix) >= 0);
            assert(digits_value(shorter, radix) * radix >= 0) by (nonlinear_arith)
                requires
                    digits_value(shorter, radix) >= 0,
                    radix >= 2,
            ;
        }
    } else {
        let shorter = s.drop_last();
        assert forall|i: int| 0 <= i < shorter.len() implies digit_value(#[trigger] shorter[i], radix) >= 0 by {
            assert(shorter[i] == s[i]);
        }
        lemma_digits_value_grows(shorter, radix, n);
        assert(shorter.take(n) =~= s.take(n));
        assert(digit_value(s[s.len() - 1], radix) >= 0);
        let v = digits_value(shorter, radix);
        assert(v * radix >= v) by (nonlinear_arith)
            requires
                v >= 0,
                radix >= 2,
        ;
    }
}

/// Read an unsigned number of at most `max`.
pub fn parse(s: &str, radix: u64, max: u64) -> (n: Option<u64>)
    requires
        2 <= radix <= 16,
    ensures
        n is Some <==> number(s@, radix as int, max as int) is Some,
        n matches Some(v) ==> number(s@, radix as int, max as int) == Some(v as int),
{
    let all: Vec<char> = chars_of(s);
    let from: usize = if all.len() > 0 && all[0] == '+' { 1 } else { 0 };
    let ghost digits = all@.skip(from as int);
    assert(from == 0 ==> digits =~= s@);
    if from == all.len() {
        return None;
    }
    let mut v: u128 = 0;
    let mut i: usize = from;
    assert(digits.take(0) =~= Seq::<char>::empty());
    while i < all.len()
        invariant
            from <= i <= all@.len(),
            from <= 1,
            digits == all@.skip(from as int),
            2 <= radix <= 16,
            v <= max,
            v == digits_value(digits.take(i - from), radix as int),
            forall|k: int| 0 <= k < i - from ==> digit_value(#[trigger] digits[k], radix as int) >= 0,
            number(s@, radix as int, max as int) == if digits.len() > 0 && all_digits(digits, radix as int)
                && digits_value(digits, radix as int) <= max {
                Some(digits_value(digits, radix as int))
            } else {
                None
            },
        decreases all@.len() - i,
    {
        let ghost k = i - from;
        assert(digits[k] == all@[i as int]);
        match digit(all[i], radix) {
            None => {
                assert(!all_digits(digits, radix as int));
                return None;
            },
            Some(d) => {
                assert(digits.take(k + 1).drop_last() =~= digits.take(k));
                assert(v * radix <= max * 16) by (nonlinear_arith)
                    requires
                        v <= max,
                        radix <= 16,
                ;
                v = v * radix as u128 + d as u128;
                if v > max as u128 {
                    proof {
                        if all_digits(digits, radix as int) {
                            lemma_digits_value_grows(digits, radix as int, k + 1);
                        }
                    }
                    return None;
                }
            },
        }
        i += 1;
    }
    assert(digits.take(i - from) =~= digits);
    Some(v as u64)
}

/// A decimal number of any length, as far as `max`; `None` if it is none.
pub open spec fn capped(s: Seq<char>, max: int) -> Option<int> {
    if s.len() == 0 || !all_digits(s, 10) {
        None
    } else if digits_value(s, 10) <= max {
        Some(digits_value(s, 10))
    } else {
        Some(max)
    }
}

/// A decimal number of any length, as far as `max`; `None` if it is none.
pub fn parse_capped(s: &str, max: u32) -> (n: Option<u32>)
    ensures
        n is Some <==> capped(s@, max as int) is Some,
        n matches Some(v) ==> capped(s@, max as int) == Some(v as int),
{
    let chars: Vec<char> = chars_of(s);
    if chars.len() == 0 {
        return None;
    }
    let mut v: u64 = 0;
    let mut i: usize = 0;
    assert(chars@.take(0) =~= Seq::<char>::empty());
    while i < chars.len()
        invariant
            i <= chars@.len(),
            chars@ == s@,
            all_digits(chars@.take(i as int), 10),
            digits_value(chars@.take(i as int), 10) >= 0,
            v == if digits_value(chars@.take(i as int), 10) <= max {
                digits_value(chars@.take(i as int), 10)
            } else {
                max as int
            },
        decreases chars@.len() - i,
    {
        let ghost before = chars@.take(i as int);
        let ghost after = chars@.take(i + 1);
        assert(after.drop_last() =~= before);
        match digit(chars[i], 10) {
            Some(d) => {
                let next: u64 = v * 10 + d;
                v = if next <= max as u64 { next } else { max as u64 };
                assert forall|k: int| 0 <= k < after.len() implies digit_value(#[trigger] after[k], 10) >= 0 by {
                    if k < i {
                        assert(after[k] == before[k]);
                    }
                }
            },
            None => {
                assert(digit_value(s@[i as int], 10) < 0);
                return None;
            },
        }
        i += 1;
    }
    assert(chars@.take(i as int) =~= chars@);
    Some(v as u32)
}

/// A number in decimal reads back as that number.
pub proof fn lemma_decimal_reads_back(n: int, max: int)
    requires
        0 <= n <= max,
    ensures
        number(decimal(n), 10, max) == Some(n),
{
    lemma_decimal_digits(n);
    lemma_decimal_value(n);
    assert(decimal(n)[0] as int >= 48);
    assert('+' as int == 43);
    assert(all_digits(decimal(n), 10));
}

/// The digits of a number in decimal are worth that number.
pub proof fn lemma_decimal_value(n: int)
    requires
        0 <= n,
    ensures
        digits_value(decimal(n), 10) == n,
    decreases n,
{
    if n >= 10 {
        lemma_decimal_value(n / 10);
        assert(decimal(n).drop_last() =~= decimal(n / 10));
    } else {
        let one = decimal(n);
        assert(one.drop_last() =~= Seq::<char>::empty());
        assert(digits_value(one.drop_last(), 10) == 0);
    }
}

/// Four hexadecimal digits read back as the number they were written for.
pub proof fn lemma_hex4_reads_back(n: int)
    requires
        0 <= n <= 0xFFFF,
    ensures
        number(hex4(n), 16, 0xFFFF) == Some(n),
        forall|i: int| 0 <= i < 4 ==> digit_value(#[trigger] hex4(n)[i], 16) >= 0,
{
    let s = hex4(n);
    let a = n / 4096 % 16;
    let b = n / 256 % 16;
    let c = n / 16 % 16;
    let d = n % 16;
    assert(s[0] == digit_char(a) && s[1] == digit_char(b) && s[2] == digit_char(c) && s[3] == digit_char(d));
    lemma_digit(a);
    lemma_digit(b);
    lemma_digit(c);
    lemma_digit(d);
    assert(s.drop_last() =~= seq![digit_char(a), digit_char(b), digit_char(c)]);
    assert(s.drop_last().drop_last() =~= seq![digit_char(a), digit_char(b)]);
    assert(s.drop_last().drop_last().drop_last() =~= seq![digit_char(a)]);
    assert(s.drop_last().drop_last().drop_last().drop_last() =~= Seq::<char>::empty());
    reveal_with_fuel(digits_value, 5);
    assert(digits_value(s, 16) == ((a * 16 + b) * 16 + c) * 16 + d);
    assert('+' as int == 43);
    assert(all_digits(s, 16));
}

proof fn lemma_digit(d: int)
    requires
        0 <= d < 16,
    ensures
        digit_value(digit_char(d), 16) == d,
        digit_char(d) as int >= 48,
{
}

// ---- Case, joining, decoding --------------------------------------------

/// ASCII letters in upper case, anything else as it is.
pub open spec fn upper_char(c: char) -> char {
    if 97 <= c as int && c as int <= 122 {
        (c as int - 32) as char
    } else {
        c
    }
}

/// ASCII letters in upper case, anything else as it is.
pub open spec fn ascii_upper(s: Seq<char>) -> Seq<char> {
    s.map_values(|c: char| upper_char(c))
}

/// ASCII letters in upper case, anything else as it is.
pub fn to_ascii_uppercase(s: &str) -> (t: String)
    ensures
        t@ == ascii_upper(s@),
{
    let chars: Vec<char> = chars_of(s);
    let mut t: String = String::new();
    let mut i: usize = 0;
    while i < chars.len()
        invariant
            i <= chars@.len(),
            t@ == ascii_upper(chars@.take(i as int)),
        decreases chars@.len() - i,
    {
        let c: char = chars[i];
        let u: u32 = c as u32;
        if 97 <= u && u <= 122 {
            t.push((u as u8 - 32) as char);
        } else {
            t.push(c);
        }
        assert(t@ =~= ascii_upper(chars@.take(i + 1)));
        i += 1;
    }
    assert(chars@.take(i as int) =~= chars@);
    t
}

/// Strings one after the other, with a separator in between.
pub open spec fn joined(list: Seq<Seq<char>>, sep: Seq<char>) -> Seq<char>
    decreases list.len(),
{
    if list.len() == 0 {
        Seq::empty()
    } else if list.len() == 1 {
        list[0]
    } else {
        joined(list.drop_last(), sep) + sep + list.last()
    }
}

/// The first of several strings stands in front of the rest, with a separator
/// in between.
pub proof fn lemma_joined_from_the_front(list: Seq<Seq<char>>, sep: Seq<char>)
    requires
        list.len() > 1,
    ensures
        joined(list, sep) == list[0] + sep + joined(list.skip(1), sep),
    decreases list.len(),
{
    let rest = list.skip(1);
    if list.len() == 2 {
        assert(list.drop_last() =~= seq![list[0]]);
        assert(joined(list.drop_last(), sep) == list[0]);
        assert(rest =~= seq![list[1]]);
        assert(joined(rest, sep) == list[1]);
    } else {
        let shorter = list.drop_last();
        lemma_joined_from_the_front(shorter, sep);
        assert(shorter.skip(1) =~= rest.drop_last());
        assert(joined(list, sep) =~= list[0] + sep + joined(rest, sep));
    }
}

/// Strings that hold no separator, one after the other with separators in
/// between, are the pieces of the result.
pub proof fn lemma_pieces_of_joined(list: Seq<Seq<char>>, sep: char)
    requires
        list.len() > 0,
        forall|i: int, k: int| 0 <= i < list.len() && 0 <= k < list[i].len() ==> #[trigger] list[i][k] != sep,
    ensures
        pieces(joined(list, seq![sep]), sep) == list,
    decreases list.len(),
{
    let head = list[0];
    let rest = list.skip(1);
    assert forall|k: int| 0 <= k < head.len() implies head[k] != sep by {
        assert(list[0][k] != sep);
    }
    if list.len() == 1 {
        lemma_pieces_step(head, sep, head);
        assert(seq![head] =~= list);
    } else {
        assert forall|i: int, k: int| 0 <= i < rest.len() && 0 <= k < rest[i].len() implies #[trigger] rest[i][k]
            != sep by {
            assert(list[i + 1][k] != sep);
        }
        lemma_joined_from_the_front(list, seq![sep]);
        lemma_pieces_of_joined(rest, sep);
        lemma_pieces_step(head, sep, joined(rest, seq![sep]));
        assert(seq![head] + rest =~= list);
    }
}

/// Strings one after the other, with a separator in between.
pub fn join(list: &Vec<String>, sep: &str) -> (s: String)
    ensures
        s@ == joined(views(list@), sep@),
{
    let mut s: String = String::new();
    let mut i: usize = 0;
    assert(views(list@).take(0) =~= Seq::<Seq<char>>::empty());
    while i < list.len()
        invariant
            i <= list@.len(),
            s@ == joined(views(list@).take(i as int), sep@),
        decreases list@.len() - i,
    {
        proof {
            assert(views(list@).take(i + 1).drop_last() =~= views(list@).take(i as int));
        }
        if i > 0 {
            s.append(sep);
        }
        s.append(list[i].as_str());
        assert(s@ =~= joined(views(list@).take(i + 1), sep@));
        i += 1;
    }
    assert(views(list@).take(i as int) =~= views(list@));
    s
}

/// With a carriage return in front of every line feed.
pub open spec fn crlf(s: Seq<char>) -> Seq<char>
    decreases s.len(),
{
    if s.len() == 0 {
        s
    } else if s.last() == '\n' {
        crlf(s.drop_last()) + seq!['\r', '\n']
    } else {
        crlf(s.drop_last()).push(s.last())
    }
}

/// With a carriage return in front of every line feed, as a plain terminal
/// needs it.
pub fn to_crlf(s: &str) -> (t: String)
    ensures
        t@ == crlf(s@),
{
    let chars: Vec<char> = chars_of(s);
    let mut t: String = String::new();
    let mut i: usize = 0;
    assert(chars@.take(0) =~= Seq::<char>::empty());
    while i < chars.len()
        invariant
            i <= chars@.len(),
            t@ == crlf(chars@.take(i as int)),
        decreases chars@.len() - i,
    {
        assert(chars@.take(i + 1).drop_last() =~= chars@.take(i as int));
        if chars[i] == '\n' {
            t.push('\r');
        }
        t.push(chars[i]);
        assert(t@ =~= crlf(chars@.take(i + 1)));
        i += 1;
    }
    assert(chars@.take(i as int) =~= chars@);
    t
}

/// Bytes as characters, one each.
pub open spec fn chars_in(bytes: Seq<u8>) -> Seq<char> {
    bytes.map_values(|byte: u8| byte as char)
}

/// Whether a run of bytes is ASCII.
pub open spec fn is_ascii(bytes: Seq<u8>) -> bool {
    forall|i: int| 0 <= i < bytes.len() ==> #[trigger] bytes[i] < 128
}

/// ASCII bytes are UTF-8, and decode to a character each.
pub proof fn lemma_ascii_decodes(bytes: Seq<u8>)
    requires
        is_ascii(bytes),
    ensures
        vstd::utf8::valid_utf8(bytes),
        vstd::utf8::decode_utf8(bytes) == chars_in(bytes),
        vstd::utf8::encode_utf8(chars_in(bytes)) == bytes,
{
    let chars = chars_in(bytes);
    assert(vstd::utf8::is_ascii_chars(chars)) by {
        assert forall|i: int| 0 <= i < chars.len() implies '\0' <= #[trigger] chars[i] <= '\u{7f}' by {
            assert(bytes[i] < 128);
        }
    }
    vstd::utf8::is_ascii_chars_encode_utf8(chars);
    assert forall|i: int| 0 <= i < bytes.len() implies vstd::utf8::encode_utf8(chars)[i] == bytes[i] by {
        assert(bytes[i] < 128);
        assert(chars[i] as u8 == bytes[i]);
    }
    assert(vstd::utf8::encode_utf8(chars) =~= bytes);
    vstd::utf8::encode_utf8_valid_utf8(chars);
    vstd::utf8::encode_utf8_decode_utf8(chars);
}

/// What `String::from_utf8_lossy` makes of a byte sequence.
pub uninterp spec fn lossy(bytes: Seq<u8>) -> Seq<char>;

/// `String::from_utf8_lossy`: the bytes as text, with replacement characters
/// for what is not UTF-8. Bytes that are UTF-8 come out as the text they
/// encode.
#[verifier::external_body]
pub(crate) fn decode_lossy(bytes: &[u8]) -> (s: String)
    ensures
        s@ == lossy(bytes@),
        vstd::utf8::valid_utf8(bytes@) ==> s@ == vstd::utf8::decode_utf8(bytes@),
{
    String::from_utf8_lossy(bytes).into_owned()
}

/// What `str::to_uppercase` makes of a string.
pub uninterp spec fn uppercase(s: Seq<char>) -> Seq<char>;

/// `str::to_uppercase`: the string with every character in upper case, by
/// Unicode's tables. In an ASCII string that is each letter by itself.
#[verifier::external_body]
pub(crate) fn to_uppercase(s: &str) -> (t: String)
    ensures
        t@ == uppercase(s@),
        vstd::utf8::is_ascii_chars(s@) ==> t@ == ascii_upper(s@),
{
    s.to_uppercase()
}

/// Encoding is piece by piece: two strings one after the other encode to
/// their encodings one after the other.
pub proof fn lemma_encode_concat(a: Seq<char>, b: Seq<char>)
    ensures
        vstd::utf8::encode_utf8(a + b) == vstd::utf8::encode_utf8(a) + vstd::utf8::encode_utf8(b),
    decreases a.len(),
{
    if a.len() == 0 {
        assert(a + b =~= b);
        assert(vstd::utf8::encode_utf8(a) + vstd::utf8::encode_utf8(b) =~= vstd::utf8::encode_utf8(b));
    } else {
        assert((a + b).drop_first() =~= a.drop_first() + b);
        lemma_encode_concat(a.drop_first(), b);
        assert(vstd::utf8::encode_utf8(a + b) =~= vstd::utf8::encode_utf8(a) + vstd::utf8::encode_utf8(b));
    }
}

// ---- What these are for -------------------------------------------------

/// What a run of decimal digits is worth, read from the left: each digit
/// counts ten times what the next one does.
pub open spec fn worth(digits: Seq<char>) -> int {
    digits.fold_left(0int, |value: int, c: char| 10 * value + (c as int - 48))
}

proof fn lemma_worth(s: Seq<char>)
    requires
        forall|i: int| 0 <= i < s.len() ==> 48 <= (#[trigger] s[i]) as int <= 57,
    ensures
        all_digits(s, 10),
        worth(s) == digits_value(s, 10),
    decreases s.len(),
{
    if s.len() > 0 {
        let shorter = s.drop_last();
        assert forall|i: int| 0 <= i < shorter.len() implies 48 <= (#[trigger] shorter[i]) as int <= 57 by {
            assert(shorter[i] == s[i]);
        }
        lemma_worth(shorter);
        assert(48 <= s[s.len() - 1] as int <= 57);
    }
}

/// A number in decimal is made of digits that are worth it, the first of them
/// a zero only where there is no other.
pub proof fn law_decimal_is_worth_its_number(n: int)
    requires
        n >= 0,
    ensures
        worth(decimal(n)) == n,
        decimal(n).len() > 0,
        forall|i: int| 0 <= i < decimal(n).len() ==> '0' <= #[trigger] decimal(n)[i] <= '9',
        decimal(n)[0] == '0' ==> decimal(n).len() == 1,
    decreases n,
{
    lemma_decimal_digits(n);
    lemma_decimal_value(n);
    lemma_worth(decimal(n));
    if n >= 10 {
        law_decimal_is_worth_its_number(n / 10);
        assert(decimal(n)[0] == decimal(n / 10)[0]);
        if n / 10 < 10 {
            assert(decimal(n / 10)[0] == digit_char(n / 10));
        } else {
            lemma_decimal_digits(n / 10 / 10);
            assert(decimal(n / 10).len() > 1);
        }
    }
}

/// A number below zero is its opposite behind a minus sign; any other has no
/// sign.
pub proof fn law_minus_stands_before_negative_numbers(n: int)
    ensures
        n >= 0 ==> signed_decimal(n) == decimal(n),
        n < 0 ==> signed_decimal(n)[0] == '-' && signed_decimal(n).skip(1) == decimal(-n),
{
    if n < 0 {
        assert(signed_decimal(n).skip(1) =~= decimal(-n));
    }
}

/// Digits are read as what they are worth, unless that is more than the most
/// allowed; a plus sign in front changes nothing, and a number is made of
/// nothing else.
pub proof fn law_digits_are_read_as_what_they_are_worth(s: Seq<char>, max: int, at: int)
    requires
        s.len() > 0,
    ensures
        (forall|i: int| 0 <= i < s.len() ==> '0' <= #[trigger] s[i] <= '9') ==> {
            &&& number(s, 10, max) == if worth(s) <= max {
                Some(worth(s))
            } else {
                None
            }
            &&& number(seq!['+'] + s, 10, max) == number(s, 10, max)
            &&& capped(s, max) == Some(
                if worth(s) <= max {
                    worth(s)
                } else {
                    max
                },
            )
        },
        0 <= at < s.len() && !('0' <= s[at] <= '9') ==> {
            &&& capped(s, max) is None
            &&& at > 0 || s[0] != '+' ==> number(s, 10, max) is None
        },
        number(Seq::empty(), 10, max) is None,
        number(seq!['+'], 10, max) is None,
{
    assert('+' as int == 43);
    if forall|i: int| 0 <= i < s.len() ==> '0' <= #[trigger] s[i] <= '9' {
        assert forall|i: int| 0 <= i < s.len() implies 48 <= (#[trigger] s[i]) as int <= 57 by {
            assert('0' <= s[i] <= '9');
        }
        lemma_worth(s);
        assert('0' <= s[0]);
        assert((seq!['+'] + s).skip(1) =~= s);
        assert((seq!['+'] + s)[0] == '+');
    }
    if 0 <= at < s.len() && !('0' <= s[at] <= '9') {
        assert(digit_value(s[at], 10) < 0);
        assert(!all_digits(s, 10));
        if s[0] == '+' && at > 0 {
            assert(s.skip(1)[at - 1] == s[at]);
            assert(!all_digits(s.skip(1), 10));
        }
    }
    assert(seq!['+'].skip(1) =~= Seq::<char>::empty());
}

/// Splitting loses nothing and leaves no separator: the pieces, put together
/// with separators in between, are the string.
pub proof fn law_pieces_make_up_the_string(s: Seq<char>, sep: char)
    ensures
        joined(pieces(s, sep), seq![sep]) == s,
        forall|i: int, k: int|
            0 <= i < pieces(s, sep).len() && 0 <= k < pieces(s, sep)[i].len() ==> #[trigger] pieces(s, sep)[i][k]
                != sep,
    decreases s.len(),
{
    lemma_first(s, sep);
    let at = first(s, sep);
    let list = pieces(s, sep);
    if at < s.len() {
        let rest = s.skip(at + 1);
        law_pieces_make_up_the_string(rest, sep);
        lemma_pieces_nonempty(rest, sep);
        assert(list.skip(1) =~= pieces(rest, sep));
        lemma_joined_from_the_front(list, seq![sep]);
        assert(s =~= s.take(at) + seq![sep] + rest);
        assert forall|i: int, k: int| 0 <= i < list.len() && 0 <= k < list[i].len() implies #[trigger] list[i][k]
            != sep by {
            if i > 0 {
                assert(list[i] == pieces(rest, sep)[i - 1]);
            }
        }
    }
}

/// The two sides of the first separator have it in between, and none of it on
/// the left. Those of the last have none of it on the right.
pub proof fn law_halves_make_up_the_string(s: Seq<char>, sep: char, i: int)
    requires
        0 <= i < s.len(),
    ensures
        halves(s, sep) matches Some((a, b)) ==> s == a + seq![sep] + b && !a.contains(sep),
        last_halves(s, sep) matches Some((a, b)) ==> s == a + seq![sep] + b && !b.contains(sep),
        s[i] == sep ==> halves(s, sep) is Some && last_halves(s, sep) is Some,
{
    lemma_first(s, sep);
    lemma_last(s, sep);
    if let Some((a, b)) = halves(s, sep) {
        assert(s =~= a + seq![sep] + b);
        assert forall|k: int| 0 <= k < a.len() implies a[k] != sep by {
            assert(a[k] == s[k]);
        }
    }
    if let Some((a, b)) = last_halves(s, sep) {
        assert(s =~= a + seq![sep] + b);
        assert forall|k: int| 0 <= k < b.len() implies b[k] != sep by {
            assert(b[k] == s[last(s, sep) + 1 + k]);
        }
    }
}

proof fn lemma_last(s: Seq<char>, c: char)
    ensures
        -1 <= last(s, c) < s.len(),
        last(s, c) >= 0 ==> s[last(s, c)] == c,
        forall|i: int| last(s, c) < i < s.len() ==> s[i] != c,
    decreases s.len(),
{
    if s.len() > 0 && s.last() != c {
        let shorter = s.drop_last();
        lemma_last(shorter, c);
        assert forall|i: int| last(s, c) < i < s.len() implies s[i] != c by {
            if i < shorter.len() {
                assert(shorter[i] == s[i]);
            }
        }
    }
}

/// Whitespace is taken from both ends and nowhere else: what is left is the
/// string between them, and it neither begins nor ends with any.
pub proof fn law_trimming_takes_the_ends(s: Seq<char>)
    ensures
        exists|a: int, b: int|
            {
                &&& 0 <= a <= b <= s.len()
                &&& trimmed(s) == #[trigger] s.subrange(a, b)
                &&& forall|i: int| 0 <= i < a || b <= i < s.len() ==> is_white(#[trigger] s[i])
                &&& a < b ==> !is_white(s[a]) && !is_white(s[b - 1])
            },
        exists|b: int|
            {
                &&& 0 <= b <= s.len()
                &&& end_trimmed(s) == #[trigger] s.subrange(0, b)
                &&& forall|i: int| b <= i < s.len() ==> is_white(#[trigger] s[i])
                &&& b > 0 ==> !is_white(s[b - 1])
            },
{
    let a = lemma_start_trimmed(s);
    let rest = s.skip(a);
    let n = lemma_end_trimmed(rest);
    let b = a + n;
    assert(s.subrange(a, b) =~= rest.take(n));
    assert forall|i: int| 0 <= i < a || b <= i < s.len() implies is_white(#[trigger] s[i]) by {
        if i >= b {
            assert(rest[i - a] == s[i]);
        }
    }
    if a < b {
        assert(rest[0] == s[a] && rest[n - 1] == s[b - 1]);
    }
    let m = lemma_end_trimmed(s);
    assert(s.subrange(0, m) =~= s.take(m));
}

proof fn lemma_start_trimmed(s: Seq<char>) -> (a: int)
    ensures
        0 <= a <= s.len(),
        start_trimmed(s) == s.skip(a),
        forall|i: int| 0 <= i < a ==> is_white(#[trigger] s[i]),
        a < s.len() ==> !is_white(s[a]),
    decreases s.len(),
{
    if s.len() > 0 && is_white(s[0]) {
        let rest = s.skip(1);
        let a = lemma_start_trimmed(rest);
        assert(rest.skip(a) =~= s.skip(a + 1));
        assert forall|i: int| 0 <= i < a + 1 implies is_white(#[trigger] s[i]) by {
            if i > 0 {
                assert(rest[i - 1] == s[i]);
            }
        }
        a + 1
    } else {
        assert(s.skip(0) =~= s);
        0
    }
}

proof fn lemma_end_trimmed(s: Seq<char>) -> (n: int)
    ensures
        0 <= n <= s.len(),
        end_trimmed(s) == s.take(n),
        forall|i: int| n <= i < s.len() ==> is_white(#[trigger] s[i]),
        n > 0 ==> !is_white(s[n - 1]),
    decreases s.len(),
{
    if s.len() > 0 && is_white(s.last()) {
        let shorter = s.drop_last();
        let n = lemma_end_trimmed(shorter);
        assert(shorter.take(n) =~= s.take(n));
        assert forall|i: int| n <= i < s.len() implies is_white(#[trigger] s[i]) by {
            if i < shorter.len() {
                assert(shorter[i] == s[i]);
            }
        }
        n
    } else {
        assert(s.take(s.len() as int) =~= s);
        s.len() as int
    }
}

/// Of the ASCII characters, the space and the five from tab to carriage return
/// are whitespace.
pub proof fn law_ascii_whitespace(c: char)
    requires
        (c as int) < 128,
    ensures
        is_white(c) <==> c == ' ' || '\t' <= c <= '\r',
{
}

/// Removing a character leaves every other, in order.
pub proof fn law_removal_keeps_the_rest(s: Seq<char>, c: char)
    ensures
        without(s, c) == s.filter(|x: char| x != c),
    decreases s.len(),
{
    reveal(Seq::filter);
    if s.len() > 0 {
        law_removal_keeps_the_rest(s.drop_last(), c);
    }
}

/// Upper case changes lower-case ASCII letters, by thirty-two places, and
/// nothing else, and it lasts.
pub proof fn law_upper_case_changes_letters_only(s: Seq<char>, i: int)
    requires
        0 <= i < s.len(),
    ensures
        ascii_upper(s).len() == s.len(),
        'a' <= s[i] <= 'z' ==> ascii_upper(s)[i] as int == s[i] as int - 32,
        !('a' <= s[i] <= 'z') ==> ascii_upper(s)[i] == s[i],
        ascii_upper(ascii_upper(s)) == ascii_upper(s),
{
    assert(ascii_upper(ascii_upper(s)) =~= ascii_upper(s));
}

/// On a terminal every line feed has a carriage return in front of it, and
/// apart from carriage returns the text is what it was.
pub proof fn law_line_feeds_get_carriage_returns(s: Seq<char>, i: int)
    ensures
        0 <= i < crlf(s).len() && crlf(s)[i] == '\n' ==> i > 0 && crlf(s)[i - 1] == '\r',
        without(crlf(s), '\r') == without(s, '\r'),
        !s.contains('\n') ==> crlf(s) == s,
    decreases s.len(),
{
    if s.len() > 0 {
        let shorter = s.drop_last();
        let before = crlf(shorter);
        law_line_feeds_get_carriage_returns(shorter, i);
        assert(s[s.len() - 1] == s.last());
        if s.last() == '\n' {
            let all = before + seq!['\r', '\n'];
            assert(all.drop_last() =~= before + seq!['\r']);
            assert((before + seq!['\r']).drop_last() =~= before);
            assert((before + seq!['\r']).last() == '\r');
            assert(without(before + seq!['\r'], '\r') == without(before, '\r'));
            assert(all.last() == '\n');
            assert(without(all, '\r') == without(before, '\r').push('\n'));
            assert(s.contains('\n'));
        } else {
            assert(before.push(s.last()).drop_last() =~= before);
            if !s.contains('\n') {
                assert forall|k: int| 0 <= k < shorter.len() implies shorter[k] != '\n' by {
                    assert(shorter[k] == s[k]);
                }
                assert(shorter.push(s.last()) =~= s);
            }
        }
    }
}

/// What a lower-case hexadecimal digit is worth.
pub open spec fn hex_worth(c: char) -> int {
    if '0' <= c <= '9' {
        c as int - 48
    } else {
        c as int - 87
    }
}

/// Four hexadecimal digits, the highest first, each worth sixteen times the
/// next.
pub proof fn law_hex_digits_are_worth_their_number(n: int)
    requires
        0 <= n <= 0xFFFF,
    ensures
        hex4(n).len() == 4,
        4096 * hex_worth(hex4(n)[0]) + 256 * hex_worth(hex4(n)[1]) + 16 * hex_worth(hex4(n)[2]) + hex_worth(hex4(n)[3])
            == n,
        forall|i: int| 0 <= i < 4 ==> '0' <= #[trigger] hex4(n)[i] <= '9' || 'a' <= hex4(n)[i] <= 'f',
{
    lemma_hex_digit(n / 4096 % 16);
    lemma_hex_digit(n / 256 % 16);
    lemma_hex_digit(n / 16 % 16);
    lemma_hex_digit(n % 16);
    assert(4096 * (n / 4096 % 16) + 256 * (n / 256 % 16) + 16 * (n / 16 % 16) + n % 16 == n);
}

proof fn lemma_hex_digit(d: int)
    requires
        0 <= d < 16,
    ensures
        hex_worth(digit_char(d)) == d,
        '0' <= digit_char(d) <= '9' || 'a' <= digit_char(d) <= 'f',
{
}

/// A hexadecimal digit is worth the same in either case, and ten to fifteen
/// are the six letters from A.
pub proof fn law_hex_digits_in_either_case(c: char)
    ensures
        digit_value(c, 16) == if '0' <= c <= '9' {
            c as int - 48
        } else if 'a' <= c <= 'f' {
            c as int - 97 + 10
        } else if 'A' <= c <= 'F' {
            c as int - 65 + 10
        } else {
            -1
        },
        digit_value(upper_char(c), 16) == digit_value(c, 16),
        digit_value(c, 10) == if '0' <= c <= '9' {
            c as int - 48
        } else {
            -1
        },
{
}

/// A digit more is worth the digits before it times the radix, and itself.
pub proof fn law_digits_count_by_their_place(s: Seq<char>, c: char, radix: int)
    ensures
        digits_value(s.push(c), radix) == radix * digits_value(s, radix) + digit_value(c, radix),
        digits_value(Seq::empty(), radix) == 0,
{
    assert(s.push(c).drop_last() =~= s);
    assert(radix * digits_value(s, radix) == digits_value(s, radix) * radix) by (nonlinear_arith);
}

/// A number is read exactly if it is made of digits of its radix, one or more,
/// behind a plus sign or not, and is no more than allowed.
pub proof fn law_numbers_are_digits_and_no_more(digits: Seq<char>, radix: int, max: int)
    requires
        digits.len() > 0,
        digits[0] != '+',
    ensures
        number(digits, radix, max) == if (forall|i: int|
            0 <= i < digits.len() ==> digit_value(#[trigger] digits[i], radix) >= 0) && digits_value(digits, radix)
            <= max {
            Some(digits_value(digits, radix))
        } else {
            None
        },
        number(seq!['+'] + digits, radix, max) == number(digits, radix, max),
{
    assert((seq!['+'] + digits).skip(1) =~= digits);
    assert((seq!['+'] + digits)[0] == '+');
}

} // verus!
