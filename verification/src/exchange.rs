//! What the two ends of the link understand of each other: a line is a tag or
//! a command, then `KEY=value` pairs, and what one end puts into a line is
//! what the other end finds in it.

use crate::cal::CalError;
use crate::callog;
use crate::callog::Column;
use crate::link;
use crate::link::Asked;
use crate::meter::Reading;
use crate::text;
use vstd::prelude::*;
use vstd::utf8::{encode_utf8, is_ascii_chars, is_ascii_chars_encode_utf8};

verus! {

/// A pair as it stands in a line.
pub open spec fn pair(key: Seq<char>, value: Seq<char>) -> Seq<char> {
    key + seq!['='] + value
}

/// The parts of a line: what it starts with, then its pairs.
pub open spec fn parts_of(head: Seq<char>, pairs: Seq<(Seq<char>, Seq<char>)>) -> Seq<Seq<char>> {
    seq![head] + pairs.map_values(|p: (Seq<char>, Seq<char>)| pair(p.0, p.1))
}

/// A line that starts with `head` and goes on with these pairs.
pub open spec fn said(head: Seq<char>, pairs: Seq<(Seq<char>, Seq<char>)>) -> Seq<char> {
    text::joined(parts_of(head, pairs), seq![','])
}

/// Nothing in a string is this character.
pub open spec fn free_of(s: Seq<char>, c: char) -> bool {
    forall|i: int| 0 <= i < s.len() ==> #[trigger] s[i] != c
}

/// A line can be told apart into its parts: no part holds a comma, and no key
/// an equals sign.
pub open spec fn plain(head: Seq<char>, pairs: Seq<(Seq<char>, Seq<char>)>) -> bool {
    &&& free_of(head, ',')
    &&& forall|i: int|
        0 <= i < pairs.len() ==> free_of((#[trigger] pairs[i]).0, ',') && free_of(pairs[i].0, '=') && free_of(
            pairs[i].1,
            ',',
        )
}

/// The parts of a line are found in it as they were put there.
pub proof fn law_parts_are_found(head: Seq<char>, pairs: Seq<(Seq<char>, Seq<char>)>)
    requires
        plain(head, pairs),
    ensures
        text::pieces(said(head, pairs), ',') == parts_of(head, pairs),
        parts_of(head, pairs).skip(1) == pairs.map_values(|p: (Seq<char>, Seq<char>)| pair(p.0, p.1)),
        forall|i: int|
            0 <= i < pairs.len() ==> text::halves(#[trigger] parts_of(head, pairs).skip(1)[i], '=') == Some(pairs[i]),
{
    let parts = parts_of(head, pairs);
    assert forall|i: int, k: int| 0 <= i < parts.len() && 0 <= k < parts[i].len() implies #[trigger] parts[i][k]
        != ',' by {
        if i > 0 {
            let p = pairs[i - 1];
            assert(parts[i] == pair(p.0, p.1));
            if k < p.0.len() {
                assert(parts[i][k] == p.0[k]);
            } else if k > p.0.len() {
                assert(parts[i][k] == p.1[k - p.0.len() - 1]);
            }
        }
    }
    text::lemma_pieces_of_joined(parts, ',');
    assert(parts.skip(1) =~= pairs.map_values(|p: (Seq<char>, Seq<char>)| pair(p.0, p.1)));
    assert forall|i: int| 0 <= i < pairs.len() implies text::halves(#[trigger] parts.skip(1)[i], '=') == Some(pairs[i]) by {
        let p = pairs[i];
        assert(free_of(p.0, '='));
        text::lemma_pieces_step(p.0, '=', p.1);
    }
}

/// The cells these pairs fill, a later one over an earlier one.
pub open spec fn cells_of(pairs: Seq<(Seq<char>, Seq<char>)>) -> Seq<Option<Seq<char>>>
    decreases pairs.len(),
{
    if pairs.len() == 0 {
        callog::no_cells()
    } else {
        match callog::column_for(pairs.last().0) {
            Some(column) => cells_of(pairs.drop_last()).update(column.place(), Some(pairs.last().1)),
            None => cells_of(pairs.drop_last()),
        }
    }
}

proof fn lemma_cells(parts: Seq<Seq<char>>, pairs: Seq<(Seq<char>, Seq<char>)>)
    requires
        parts.len() == pairs.len(),
        forall|i: int| 0 <= i < pairs.len() ==> text::halves(#[trigger] parts[i], '=') == Some(pairs[i]),
    ensures
        callog::filled(parts) == cells_of(pairs),
    decreases parts.len(),
{
    if parts.len() > 0 {
        let shorter = parts.drop_last();
        assert forall|i: int| 0 <= i < pairs.drop_last().len() implies text::halves(#[trigger] shorter[i], '=') == Some(
            pairs.drop_last()[i],
        ) by {
            assert(shorter[i] == parts[i]);
        }
        lemma_cells(shorter, pairs.drop_last());
        assert(text::halves(parts[parts.len() - 1], '=') == Some(pairs[parts.len() - 1]));
    }
}

/// A line made of a tag and pairs is a frame, under that tag, and its cells
/// are the values of the pairs.
pub proof fn law_frame_reads_back(tag: Seq<char>, pairs: Seq<(Seq<char>, Seq<char>)>)
    requires
        plain(tag, pairs),
        callog::tag_ok(tag),
        pairs.len() > 0,
        forall|i: int| 0 <= i < pairs.len() ==> callog::key_ok((#[trigger] pairs[i]).0),
    ensures
        callog::frame(said(tag, pairs)) is Some,
        callog::frame(said(tag, pairs))->0.cells == cells_of(pairs),
        callog::frame(said(tag, pairs))->0.tags == seq![tag],
{
    law_parts_are_found(tag, pairs);
    let rest = parts_of(tag, pairs).skip(1);
    assert forall|i: int| 0 <= i < rest.len() implies callog::pair_ok(#[trigger] rest[i]) by {
        assert(text::halves(rest[i], '=') == Some(pairs[i]));
        assert(callog::key_ok(pairs[i].0));
    }
    lemma_cells(rest, pairs);
}

proof fn lemma_columns()
    ensures
        callog::column_for("ADDR"@) == Some(Column::Addr),
        callog::column_for("CURRENT_MA"@) == Some(Column::CurrentMa),
        callog::column_for("STATUS"@) == Some(Column::Status),
        callog::column_for("RMS"@) == Some(Column::RmsLsb),
        callog::column_for("GAIN"@) == Some(Column::Gain),
        callog::column_for("FLAG"@) == Some(Column::Flag),
        callog::column_for("SRC"@) is None,
        callog::column_for("MEAN"@) == Some(Column::Mean),
        callog::column_for("PP"@) == Some(Column::Pp),
{
    reveal_strlit("ADDR");
    reveal_strlit("CURRENT_MA");
    reveal_strlit("STATUS");
    reveal_strlit("RMS");
    reveal_strlit("RMS_LSB");
    reveal_strlit("GAIN");
    reveal_strlit("FLAG");
    reveal_strlit("SRC");
    reveal_strlit("MEAN");
    reveal_strlit("MEAN_IN");
    reveal_strlit("PP");
    reveal_strlit("PP_IN");
    assert(text::ascii_upper("ADDR"@) =~= "ADDR"@);
    assert(text::ascii_upper("CURRENT_MA"@) =~= "CURRENT_MA"@);
    assert(text::ascii_upper("STATUS"@) =~= "STATUS"@);
    assert(text::ascii_upper("RMS"@) =~= "RMS"@);
    assert(text::ascii_upper("GAIN"@) =~= "GAIN"@);
    assert(text::ascii_upper("FLAG"@) =~= "FLAG"@);
    assert(text::ascii_upper("SRC"@) =~= "SRC"@);
    assert(text::ascii_upper("MEAN"@) =~= "MEAN"@);
    assert(text::ascii_upper("PP"@) =~= "PP"@);
    assert("ADDR"@[0] == 'A');
    assert("CURRENT_MA"@[0] == 'C');
    assert("STATUS"@[0] == 'S');
    assert("GAIN"@[0] == 'G');
    assert("FLAG"@[0] == 'F');
    assert("SRC"@.len() == 3 && "SRC"@[0] == 'S');
    assert("MEAN"@[0] == 'M');
    assert("MEAN_IN"@[0] == 'M');
    assert("PP"@[0] == 'P');
    assert("PP_IN"@[0] == 'P');
    assert("RMS"@[0] == 'R');
    assert("RMS_LSB"@[0] == 'R');
}

proof fn lemma_value(parts: Seq<Seq<char>>, pairs: Seq<(Seq<char>, Seq<char>)>, i: int)
    requires
        parts.len() == pairs.len(),
        forall|k: int| 0 <= k < pairs.len() ==> text::halves(#[trigger] parts[k], '=') == Some(pairs[k]),
        0 <= i < pairs.len(),
        forall|k: int| 0 <= k < i ==> text::trimmed((#[trigger] pairs[k]).0) != text::trimmed(pairs[i].0),
    ensures
        link::value_in(parts, text::trimmed(pairs[i].0)) == Some(text::trimmed(pairs[i].1)),
    decreases i,
{
    assert(text::halves(parts[0], '=') == Some(pairs[0]));
    if i > 0 {
        let rest = parts.skip(1);
        assert forall|k: int| 0 <= k < pairs.skip(1).len() implies text::halves(#[trigger] rest[k], '=') == Some(
            pairs.skip(1)[k],
        ) by {
            assert(rest[k] == parts[k + 1]);
        }
        assert(text::trimmed(pairs[0].0) != text::trimmed(pairs[i].0));
        lemma_value(rest, pairs.skip(1), i - 1);
    }
}

proof fn lemma_no_value(parts: Seq<Seq<char>>, pairs: Seq<(Seq<char>, Seq<char>)>, key: Seq<char>)
    requires
        parts.len() == pairs.len(),
        forall|k: int| 0 <= k < pairs.len() ==> text::halves(#[trigger] parts[k], '=') == Some(pairs[k]),
        forall|k: int| 0 <= k < pairs.len() ==> text::trimmed((#[trigger] pairs[k]).0) != key,
    ensures
        link::value_in(parts, key) is None,
    decreases parts.len(),
{
    if parts.len() > 0 {
        let rest = parts.skip(1);
        assert(text::halves(parts[0], '=') == Some(pairs[0]));
        assert forall|k: int| 0 <= k < pairs.skip(1).len() implies text::halves(#[trigger] rest[k], '=') == Some(
            pairs.skip(1)[k],
        ) by {
            assert(rest[k] == parts[k + 1]);
        }
        lemma_no_value(rest, pairs.skip(1), key);
    }
}

/// A field of a command is found whichever position it sits in: the first
/// pair with its key has the value.
pub proof fn law_field_is_found(head: Seq<char>, pairs: Seq<(Seq<char>, Seq<char>)>, i: int)
    requires
        plain(head, pairs),
        0 <= i < pairs.len(),
        forall|k: int| 0 <= k < i ==> text::trimmed((#[trigger] pairs[k]).0) != text::trimmed(pairs[i].0),
    ensures
        link::value_of(said(head, pairs), text::trimmed(pairs[i].0)) == Some(text::trimmed(pairs[i].1)),
{
    law_parts_are_found(head, pairs);
    lemma_value(parts_of(head, pairs).skip(1), pairs, i);
}

/// A field that no pair has the key of is not found.
pub proof fn law_field_is_not_invented(head: Seq<char>, pairs: Seq<(Seq<char>, Seq<char>)>, key: Seq<char>)
    requires
        plain(head, pairs),
        forall|k: int| 0 <= k < pairs.len() ==> text::trimmed((#[trigger] pairs[k]).0) != key,
    ensures
        link::value_of(said(head, pairs), key) is None,
{
    law_parts_are_found(head, pairs);
    lemma_no_value(parts_of(head, pairs).skip(1), pairs, key);
}

/// A string that trimming leaves alone.
pub open spec fn tidy(s: Seq<char>) -> bool {
    s.len() > 0 && !text::is_white(s[0]) && !text::is_white(s.last())
}

proof fn lemma_tidy(s: Seq<char>)
    requires
        tidy(s),
    ensures
        text::trimmed(s) == s,
{
}

proof fn lemma_tidy_line(s: Seq<char>, end: Seq<char>)
    requires
        tidy(s),
        forall|i: int| 0 <= i < end.len() ==> text::is_white(#[trigger] end[i]),
    ensures
        text::trimmed(s + end) == s,
    decreases end.len(),
{
    let all = s + end;
    if end.len() == 0 {
        assert(all =~= s);
    } else {
        assert(all.last() == end[end.len() - 1]);
        assert(all.drop_last() =~= s + end.drop_last());
        assert(text::start_trimmed(all) == all);
        lemma_tidy_line(s, end.drop_last());
        assert(text::start_trimmed(s + end.drop_last()) == s + end.drop_last());
    }
}

proof fn lemma_decimal_is_plain(n: int)
    requires
        n >= 0,
    ensures
        tidy(text::decimal(n)),
        free_of(text::decimal(n), ','),
        free_of(text::decimal(n), '\r'),
{
    text::lemma_decimal_digits(n);
    let d = text::decimal(n);
    assert(48 <= d[0] as int <= 57);
    assert(48 <= d[d.len() - 1] as int <= 57);
}

/// A line with one more pair.
proof fn lemma_said_more(head: Seq<char>, pairs: Seq<(Seq<char>, Seq<char>)>, key: Seq<char>, value: Seq<char>)
    ensures
        said(head, pairs.push((key, value))) == said(head, pairs) + seq![','] + key + seq!['='] + value,
        said(head, Seq::empty()) == head,
{
    let more = pairs.push((key, value));
    assert(parts_of(head, more).drop_last() =~= parts_of(head, pairs));
    assert(parts_of(head, more).last() == pair(key, value));
    assert(said(head, more) =~= said(head, pairs) + seq![','] + key + seq!['='] + value);
    assert(parts_of(head, Seq::empty()) =~= seq![head]);
}

proof fn lemma_keys()
    ensures
        tidy("ADDR"@) && tidy("I"@) && tidy("X"@) && tidy("Y"@) && tidy("N"@) && tidy("MEAS"@),
        free_of("ADDR"@, ',') && free_of("I"@, ',') && free_of("X"@, ',') && free_of("Y"@, ',') && free_of("N"@, ','),
        free_of("ADDR"@, '=') && free_of("I"@, '=') && free_of("X"@, '=') && free_of("Y"@, '=') && free_of("N"@, '='),
        "ADDR"@ != "I"@ && "ADDR"@ != "X"@ && "ADDR"@ != "Y"@ && "ADDR"@ != "N"@,
        "I"@ != "X"@ && "I"@ != "Y"@ && "X"@ != "Y"@,
        free_of("MEAS"@, ','),
        free_of("CALPT"@, ','),
        free_of("CALEND"@, ','),
        free_of("CALOFF"@, ','),
        free_of("CALGET"@, ','),
        "MEAS"@[0] == 'M',
        tidy("CALPT"@) && tidy("CALEND"@) && tidy("CALOFF"@) && tidy("CALGET"@),
        "CALPT"@[3] == 'P',
        "CALEND"@[3] == 'E',
        "CALOFF"@[3] == 'O',
        "CALGET"@[3] == 'G',
        "CALPT"@[0] == 'C' && "CALEND"@[0] == 'C' && "CALOFF"@[0] == 'C' && "CALGET"@[0] == 'C',
{
    reveal_strlit("ADDR");
    reveal_strlit("I");
    reveal_strlit("X");
    reveal_strlit("Y");
    reveal_strlit("N");
    reveal_strlit("MEAS");
    reveal_strlit("CALPT");
    reveal_strlit("CALEND");
    reveal_strlit("CALOFF");
    reveal_strlit("CALGET");
    assert("I"@[0] == 'I' && "X"@[0] == 'X' && "Y"@[0] == 'Y' && "N"@[0] == 'N' && "ADDR"@[0] == 'A');
}

/// A command with an address and nothing else.
proof fn lemma_addressed(head: Seq<char>, addr: u8)
    requires
        free_of(head, ','),
        tidy(head),
    ensures
        ({
            let line = head + seq![','] + "ADDR"@ + seq!['='] + text::decimal(addr as int);
            &&& text::pieces(line, ',')[0] == head
            &&& link::value_of(line, "ADDR"@) == Some(text::decimal(addr as int))
            &&& link::number_of(line, "ADDR"@, u8::MAX as int) == Some(addr as int)
            &&& tidy(line)
        }),
{
    let d = text::decimal(addr as int);
    let line = head + seq![','] + "ADDR"@ + seq!['='] + d;
    let pairs = Seq::<(Seq<char>, Seq<char>)>::empty().push(("ADDR"@, d));
    lemma_keys();
    lemma_decimal_is_plain(addr as int);
    lemma_said_more(head, Seq::empty(), "ADDR"@, d);
    assert(said(head, pairs) == line);
    law_parts_are_found(head, pairs);
    law_field_is_found(head, pairs, 0);
    lemma_tidy("ADDR"@);
    lemma_tidy(d);
    text::lemma_decimal_reads_back(addr as int, u8::MAX as int);
    assert(line.last() == d.last());
    assert(line[0] == head[0]);
}

/// A request for a reading is heard by the meter it names and by no other, or
/// by every meter if it names none.
pub proof fn law_request_is_heard(named: Option<u8>, addr: u8)
    ensures
        link::asked(text::trimmed(callog::request_text(named)), addr) == if named is None || named == Some(addr) {
            Some(Asked::Measure)
        } else {
            None
        },
{
    lemma_keys();
    reveal_strlit("\n");
    match named {
        Some(n) => {
            let d = text::decimal(n as int);
            let line = "MEAS"@ + seq![','] + "ADDR"@ + seq!['='] + d;
            reveal_strlit("MEAS");
            reveal_strlit("ADDR");
            reveal_strlit("MEAS,ADDR=");
            assert("MEAS,ADDR="@ =~= "MEAS"@ + seq![','] + "ADDR"@ + seq!['=']);
            assert(callog::request_text(named) =~= line + "\n"@);
            lemma_addressed("MEAS"@, n);
            lemma_tidy_line(line, "\n"@);
        },
        None => {
            reveal_strlit("MEAS");
            reveal_strlit("MEAS\n");
            assert("MEAS\n"@ =~= "MEAS"@ + "\n"@);
            lemma_tidy_line("MEAS"@, "\n"@);
            text::lemma_pieces_step("MEAS"@, ',', Seq::empty());
            assert(text::pieces("MEAS"@, ',').skip(1) =~= Seq::empty());
        },
    }
}

/// The line that pushes a point of a calibration table.
pub open spec fn point_line(addr: u8, index: int, x: Seq<char>, y: Seq<char>) -> Seq<char> {
    "CALPT,ADDR="@ + text::decimal(addr as int) + ",I="@ + text::decimal(index) + ",X="@ + x + ",Y="@ + y
}

/// The pairs of the line that pushes a point.
spec fn point_pairs(a: Seq<char>, i: Seq<char>, x: Seq<char>, y: Seq<char>) -> Seq<(Seq<char>, Seq<char>)> {
    Seq::<(Seq<char>, Seq<char>)>::empty().push(("ADDR"@, a)).push(("I"@, i)).push(("X"@, x)).push(("Y"@, y))
}

proof fn lemma_point_line(addr: u8, index: int, x: Seq<char>, y: Seq<char>)
    requires
        y.len() > 0,
    ensures
        ({
            let line = point_line(addr, index, x, y);
            &&& said("CALPT"@, point_pairs(text::decimal(addr as int), text::decimal(index), x, y)) == line
            &&& line.len() > 0
            &&& line[0] == "CALPT"@[0]
            &&& line.last() == y.last()
        }),
{
    let a = text::decimal(addr as int);
    let i = text::decimal(index);
    let head = "CALPT"@;
    let none = Seq::<(Seq<char>, Seq<char>)>::empty();
    let one = none.push(("ADDR"@, a));
    let two = one.push(("I"@, i));
    let three = two.push(("X"@, x));
    lemma_said_more(head, none, "ADDR"@, a);
    lemma_said_more(head, one, "I"@, i);
    lemma_said_more(head, two, "X"@, x);
    lemma_said_more(head, three, "Y"@, y);
    reveal_strlit("CALPT");
    reveal_strlit("ADDR");
    reveal_strlit("I");
    reveal_strlit("X");
    reveal_strlit("Y");
    reveal_strlit("CALPT,ADDR=");
    reveal_strlit(",I=");
    reveal_strlit(",X=");
    reveal_strlit(",Y=");
    assert("CALPT,ADDR="@ =~= head + seq![','] + "ADDR"@ + seq!['=']);
    assert(said(head, one) == "CALPT,ADDR="@ + a);
    assert(said(head, two) =~= "CALPT,ADDR="@ + a + ",I="@ + i);
    assert(said(head, three) =~= "CALPT,ADDR="@ + a + ",I="@ + i + ",X="@ + x);
    assert(said(head, three.push(("Y"@, y))) =~= point_line(addr, index, x, y));
}

/// A point that is pushed to a meter is heard by that meter as it was pushed,
/// and by no other.
pub proof fn law_pushed_point_is_heard(addr: u8, index: int, x: Seq<char>, y: Seq<char>, other: u8)
    requires
        0 <= index <= usize::MAX,
        tidy(x) && free_of(x, ','),
        tidy(y) && free_of(y, ','),
    ensures
        ({
            let line = point_line(addr, index, x, y);
            &&& text::trimmed(line) == line
            &&& link::asked(line, addr) == Some(Asked::CalPoint { index, x, y })
            &&& other != addr ==> link::asked(line, other) is None
        }),
{
    let a = text::decimal(addr as int);
    let i = text::decimal(index);
    let head = "CALPT"@;
    let pairs = point_pairs(a, i, x, y);
    let line = point_line(addr, index, x, y);
    lemma_keys();
    lemma_decimal_is_plain(addr as int);
    lemma_decimal_is_plain(index);
    lemma_point_line(addr, index, x, y);
    lemma_tidy(line);
    lemma_tidy("ADDR"@);
    lemma_tidy("I"@);
    lemma_tidy("X"@);
    lemma_tidy("Y"@);
    lemma_tidy(a);
    lemma_tidy(i);
    lemma_tidy(x);
    lemma_tidy(y);
    assert(pairs[0] == ("ADDR"@, a) && pairs[1] == ("I"@, i) && pairs[2] == ("X"@, x) && pairs[3] == ("Y"@, y));
    law_parts_are_found(head, pairs);
    law_field_is_found(head, pairs, 0);
    law_field_is_found(head, pairs, 1);
    law_field_is_found(head, pairs, 2);
    law_field_is_found(head, pairs, 3);
    text::lemma_decimal_reads_back(addr as int, u8::MAX as int);
    text::lemma_decimal_reads_back(index, usize::MAX as int);
}

/// The line that installs the points that were pushed.
pub open spec fn commit_line(addr: u8, count: int) -> Seq<char> {
    "CALEND,ADDR="@ + text::decimal(addr as int) + ",N="@ + text::decimal(count)
}

/// The end of a push is heard by the meter it names, with its count, and by no
/// other.
pub proof fn law_commit_is_heard(addr: u8, count: int, other: u8)
    requires
        0 <= count <= usize::MAX,
    ensures
        ({
            let line = commit_line(addr, count);
            &&& text::trimmed(line) == line
            &&& link::asked(line, addr) == Some(Asked::CalCommit { count })
            &&& other != addr ==> link::asked(line, other) is None
        }),
{
    let a = text::decimal(addr as int);
    let n = text::decimal(count);
    let head = "CALEND"@;
    let none = Seq::<(Seq<char>, Seq<char>)>::empty();
    let one = none.push(("ADDR"@, a));
    let pairs = one.push(("N"@, n));
    let line = commit_line(addr, count);
    lemma_keys();
    lemma_decimal_is_plain(addr as int);
    lemma_decimal_is_plain(count);
    assert(said(head, pairs) == line && line[0] == head[0] && line.last() == n.last()) by {
        lemma_said_more(head, none, "ADDR"@, a);
        lemma_said_more(head, one, "N"@, n);
        reveal_strlit("CALEND");
        reveal_strlit("ADDR");
        reveal_strlit("N");
        reveal_strlit("CALEND,ADDR=");
        reveal_strlit(",N=");
        assert("CALEND,ADDR="@ =~= head + seq![','] + "ADDR"@ + seq!['=']);
        assert(said(head, one) == "CALEND,ADDR="@ + a);
        assert(said(head, pairs) =~= line);
    }
    lemma_tidy(line);
    lemma_tidy("ADDR"@);
    lemma_tidy("N"@);
    lemma_tidy(a);
    lemma_tidy(n);
    assert(pairs[0] == ("ADDR"@, a) && pairs[1] == ("N"@, n));
    law_parts_are_found(head, pairs);
    law_field_is_found(head, pairs, 0);
    law_field_is_found(head, pairs, 1);
    text::lemma_decimal_reads_back(addr as int, u8::MAX as int);
    text::lemma_decimal_reads_back(count, usize::MAX as int);
}

/// A command that takes nothing but an address is heard by the meter it names
/// and by no other.
pub proof fn law_table_commands_are_heard(addr: u8, other: u8)
    ensures
        ({
            let off = "CALOFF,ADDR="@ + text::decimal(addr as int);
            let get = "CALGET,ADDR="@ + text::decimal(addr as int);
            &&& text::trimmed(off) == off && text::trimmed(get) == get
            &&& link::asked(off, addr) == Some(Asked::CalClear)
            &&& link::asked(get, addr) == Some(Asked::CalStatus)
            &&& other != addr ==> link::asked(off, other) is None && link::asked(get, other) is None
        }),
{
    let a = text::decimal(addr as int);
    lemma_keys();
    assert("CALOFF,ADDR="@ =~= "CALOFF"@ + seq![','] + "ADDR"@ + seq!['=']) by {
        reveal_strlit("CALOFF");
        reveal_strlit("ADDR");
        reveal_strlit("CALOFF,ADDR=");
    }
    assert("CALGET,ADDR="@ =~= "CALGET"@ + seq![','] + "ADDR"@ + seq!['=']) by {
        reveal_strlit("CALGET");
        reveal_strlit("ADDR");
        reveal_strlit("CALGET,ADDR=");
    }
    lemma_addressed("CALOFF"@, addr);
    lemma_addressed("CALGET"@, addr);
    lemma_tidy("CALOFF,ADDR="@ + a);
    lemma_tidy("CALGET,ADDR="@ + a);
}

/// A line as it is sent is its text once it has been cleaned.
proof fn lemma_cleaned(body: Seq<char>)
    requires
        tidy(body),
        free_of(body, '\r'),
    ensures
        callog::cleaned(body + "\r\n"@) == body,
{
    reveal_strlit("\r\n");
    reveal_strlit("\n");
    let line = body + "\r\n"@;
    let short = body + seq!['\r'];
    assert(line.drop_last() =~= short);
    assert(short.drop_last() =~= body);
    text::lemma_without_none(body, '\r');
    assert(text::without(short, '\r') == body);
    assert(text::without(line, '\r') =~= body + "\n"@);
    lemma_tidy_line(body, "\n"@);
}

/// A line of ASCII text that is sent arrives as its text, once, and no tail is
/// left behind.
pub proof fn law_sent_line_arrives(body: Seq<char>)
    requires
        tidy(body),
        is_ascii_chars(body),
        free_of(body, '\r'),
        free_of(body, '\n'),
    ensures
        text::is_ascii(encode_utf8(body + "\r\n"@)),
        callog::plain_lines_in(encode_utf8(body + "\r\n"@)) == seq![body],
        callog::tail_of(encode_utf8(body + "\r\n"@)) == Seq::<u8>::empty(),
{
    reveal_strlit("\r\n");
    let short = body + seq!['\r'];
    let line = body + "\r\n"@;
    let bytes = encode_utf8(line);
    let end = short.len() as int;
    assert(line =~= short + seq!['\n']);
    assert(is_ascii_chars(line)) by {
        assert forall|i: int| 0 <= i < line.len() implies '\0' <= #[trigger] line[i] <= '\u{7f}' by {
            if i < body.len() {
                assert(line[i] == body[i]);
            }
        }
    }
    is_ascii_chars_encode_utf8(line);
    assert forall|i: int| 0 <= i < bytes.len() implies #[trigger] bytes[i] < 128 && bytes[i] as char == line[i] by {
        assert(bytes[i] == line[i] as u8);
        assert('\0' <= line[i] <= '\u{7f}');
    }
    assert(text::chars_in(bytes.take(end)) =~= short);
    assert forall|k: int| 0 <= k < end implies bytes[k] != 10 by {
        assert(bytes[k] as char == line[k]);
        if k < body.len() {
            assert(line[k] == body[k] && body[k] != '\n');
        }
    }
    assert(bytes[end] as char == line[end]);
    callog::lemma_newline_is(bytes, end);
    assert(short.drop_last() =~= body);
    text::lemma_without_none(body, '\r');
    assert(text::without(short, '\r') == body);
    lemma_tidy(body);
    let rest = bytes.skip(end + 1);
    assert(rest =~= Seq::<u8>::empty());
    callog::lemma_newline(rest);
    assert(callog::plain_lines_in(rest) =~= Seq::empty());
    assert(callog::plain_lines_in(bytes) =~= seq![body]);
    assert(callog::tail_of(rest) == rest);
    assert(callog::tail_of(bytes) == callog::tail_of(rest));
}

proof fn lemma_cells_more(pairs: Seq<(Seq<char>, Seq<char>)>, key: Seq<char>, value: Seq<char>)
    ensures
        cells_of(pairs.push((key, value))) == match callog::column_for(key) {
            Some(column) => cells_of(pairs).update(column.place(), Some(value)),
            None => cells_of(pairs),
        },
{
    assert(pairs.push((key, value)).drop_last() =~= pairs);
}

/// Whether a key or a value can stand in a line that is sent.
pub open spec fn sendable(s: Seq<char>) -> bool {
    free_of(s, ',') && free_of(s, '\r')
}

/// One more pair at the end of a frame.
proof fn lemma_frame_more(tag: Seq<char>, pairs: Seq<(Seq<char>, Seq<char>)>, key: Seq<char>, value: Seq<char>)
    requires
        is_frame(tag, pairs),
        callog::key_ok(key),
        sendable(value),
        tidy(value),
    ensures
        is_frame(tag, pairs.push((key, value))),
        tidy(said(tag, pairs.push((key, value)))),
{
    let more = pairs.push((key, value));
    lemma_said_more(tag, pairs, key, value);
    lemma_key(key);
    let before = said(tag, pairs);
    let line = said(tag, more);
    assert(line.last() == value.last());
    assert forall|i: int| 0 <= i < line.len() implies #[trigger] line[i] != '\r' by {
        let k = i - before.len();
        if k < 0 {
            assert(line[i] == before[i]);
        } else if 1 <= k < 1 + key.len() {
            assert(line[i] == key[k - 1]);
        } else if k > 1 + key.len() {
            assert(line[i] == value[k - 2 - key.len()]);
        }
    }
    assert forall|i: int| 0 <= i < more.len() implies callog::key_ok((#[trigger] more[i]).0) by {
        if i < pairs.len() {
            assert(more[i] == pairs[i]);
        }
    }
    assert(plain(tag, more)) by {
        assert forall|i: int| 0 <= i < more.len() implies free_of((#[trigger] more[i]).0, ',') && free_of(
            more[i].0,
            '=',
        ) && free_of(more[i].1, ',') by {
            if i < pairs.len() {
                assert(more[i] == pairs[i]);
            }
        }
    }
}

proof fn lemma_key(key: Seq<char>)
    requires
        callog::key_ok(key),
    ensures
        free_of(key, ','),
        free_of(key, '='),
        free_of(key, '\r'),
{
}

/// A tag and pairs that make a frame, as far as they go.
spec fn is_frame(tag: Seq<char>, pairs: Seq<(Seq<char>, Seq<char>)>) -> bool {
    &&& callog::tag_ok(tag)
    &&& plain(tag, pairs)
    &&& forall|i: int| 0 <= i < pairs.len() ==> callog::key_ok((#[trigger] pairs[i]).0)
    &&& free_of(said(tag, pairs), '\r')
    &&& said(tag, pairs).len() > 0
    &&& said(tag, pairs)[0] == tag[0]
}

proof fn lemma_tag(tag: Seq<char>)
    requires
        callog::tag_ok(tag),
    ensures
        is_frame(tag, Seq::empty()),
        said(tag, Seq::empty()) == tag,
        cells_of(Seq::empty()) == callog::no_cells(),
{
    lemma_said_more(tag, Seq::empty(), Seq::empty(), Seq::empty());
}

/// Where a frame goes, and what a reader finds in it.
proof fn lemma_arrives(tag: Seq<char>, pairs: Seq<(Seq<char>, Seq<char>)>)
    requires
        is_frame(tag, pairs),
        pairs.len() > 0,
        tidy(said(tag, pairs)),
    ensures
        ({
            let heard = callog::frame(callog::cleaned(said(tag, pairs) + "\r\n"@));
            heard matches Some(row) && row.cells == cells_of(pairs) && row.tags == seq![tag]
        }),
{
    lemma_cleaned(said(tag, pairs));
    law_frame_reads_back(tag, pairs);
}

proof fn lemma_frame_keys()
    ensures
        callog::key_ok("ADDR"@) && callog::key_ok("CURRENT_MA"@) && callog::key_ok("STATUS"@),
        callog::key_ok("RMS"@) && callog::key_ok("GAIN"@) && callog::key_ok("FLAG"@) && callog::key_ok("SRC"@),
        callog::key_ok("MEAN"@) && callog::key_ok("PP"@),
        callog::tag_ok("METER_TEST"@) && callog::tag_ok("METER_CAL"@) && callog::tag_ok("IMHERE"@),
{
    reveal_strlit("ADDR");
    reveal_strlit("CURRENT_MA");
    reveal_strlit("STATUS");
    reveal_strlit("RMS");
    reveal_strlit("GAIN");
    reveal_strlit("FLAG");
    reveal_strlit("SRC");
    reveal_strlit("MEAN");
    reveal_strlit("PP");
    reveal_strlit("METER_TEST");
    reveal_strlit("METER_CAL");
    reveal_strlit("IMHERE");
}

/// A heartbeat is a frame that carries no reading.
pub proof fn law_heartbeat_carries_no_reading(addr: u8)
    ensures
        ({
            let heard = callog::frame(callog::cleaned(link::alive_text(addr)));
            heard matches Some(row) && !row.has_reading() && row.tags == seq!["IMHERE"@]
        }),
{
    let tag = "IMHERE"@;
    let a = text::decimal(addr as int);
    let none = Seq::<(Seq<char>, Seq<char>)>::empty();
    let pairs = none.push(("ADDR"@, a));
    lemma_frame_keys();
    lemma_columns();
    lemma_decimal_is_plain(addr as int);
    lemma_tag(tag);
    lemma_frame_more(tag, none, "ADDR"@, a);
    lemma_said_more(tag, none, "ADDR"@, a);
    lemma_cells_more(none, "ADDR"@, a);
    assert("IMHERE,ADDR="@ =~= tag + seq![','] + "ADDR"@ + seq!['=']) by {
        reveal_strlit("IMHERE");
        reveal_strlit("ADDR");
        reveal_strlit("IMHERE,ADDR=");
    }
    lemma_arrives(tag, pairs);
}

proof fn lemma_alarm(ma: u32)
    ensures
        tidy(link::alarm(ma)),
        sendable(link::alarm(ma)),
{
    reveal_strlit("LOW");
    reveal_strlit("HIGH");
    reveal_strlit("NORMAL");
}

proof fn lemma_test_text(addr: u8, ma: u32)
    ensures
        said(
            "METER_TEST"@,
            Seq::<(Seq<char>, Seq<char>)>::empty().push(("ADDR"@, text::decimal(addr as int))).push(
                ("CURRENT_MA"@, text::decimal(ma as int)),
            ).push(("STATUS"@, link::alarm(ma))),
        ) == link::test_body(addr, ma),
{
    let tag = "METER_TEST"@;
    let a = text::decimal(addr as int);
    let m = text::decimal(ma as int);
    let al = link::alarm(ma);
    let none = Seq::<(Seq<char>, Seq<char>)>::empty();
    let one = none.push(("ADDR"@, a));
    let two = one.push(("CURRENT_MA"@, m));
    lemma_said_more(tag, none, "ADDR"@, a);
    lemma_said_more(tag, one, "CURRENT_MA"@, m);
    lemma_said_more(tag, two, "STATUS"@, al);
    assert("METER_TEST,ADDR="@ =~= tag + seq![','] + "ADDR"@ + seq!['=']) by {
        reveal_strlit("METER_TEST");
        reveal_strlit("ADDR");
        reveal_strlit("METER_TEST,ADDR=");
    }
    assert(",CURRENT_MA="@ =~= seq![','] + "CURRENT_MA"@ + seq!['=']) by {
        reveal_strlit("CURRENT_MA");
        reveal_strlit(",CURRENT_MA=");
    }
    assert(",STATUS="@ =~= seq![','] + "STATUS"@ + seq!['=']) by {
        reveal_strlit("STATUS");
        reveal_strlit(",STATUS=");
    }
    let s1 = "METER_TEST,ADDR="@ + a;
    lemma_regroup(s1, "CURRENT_MA"@, ",CURRENT_MA="@, m);
    let s2 = s1 + ",CURRENT_MA="@ + m;
    lemma_regroup(s2, "STATUS"@, ",STATUS="@, al);
}

/// The frame every reader understands says what was put into it: the address,
/// the milliamps and the alarm, and so it carries a reading.
pub proof fn law_test_frame_reads_back(addr: u8, ma: u32)
    ensures
        ({
            let heard = callog::frame(callog::cleaned(link::test_text(addr, ma)));
            &&& heard matches Some(row)
            &&& row.has_reading()
            &&& row.tags == seq!["METER_TEST"@]
            &&& row.cells == callog::no_cells().update(
                Column::Addr.place(),
                Some(text::decimal(addr as int)),
            ).update(Column::CurrentMa.place(), Some(text::decimal(ma as int))).update(
                Column::Status.place(),
                Some(link::alarm(ma)),
            )
        }),
{
    let tag = "METER_TEST"@;
    let a = text::decimal(addr as int);
    let m = text::decimal(ma as int);
    let al = link::alarm(ma);
    let none = Seq::<(Seq<char>, Seq<char>)>::empty();
    let one = none.push(("ADDR"@, a));
    let two = one.push(("CURRENT_MA"@, m));
    let pairs = two.push(("STATUS"@, al));
    lemma_frame_keys();
    lemma_columns();
    lemma_decimal_is_plain(addr as int);
    lemma_decimal_is_plain(ma as int);
    lemma_alarm(ma);
    lemma_tag(tag);
    lemma_frame_more(tag, none, "ADDR"@, a);
    lemma_frame_more(tag, one, "CURRENT_MA"@, m);
    lemma_frame_more(tag, two, "STATUS"@, al);
    lemma_test_text(addr, ma);
    lemma_cells_more(none, "ADDR"@, a);
    lemma_cells_more(one, "CURRENT_MA"@, m);
    lemma_cells_more(two, "STATUS"@, al);
    lemma_arrives(tag, pairs);
}

proof fn lemma_names(reading: Reading, points: int)
    ensures
        tidy(link::quality_name(reading.worth())),
        sendable(link::quality_name(reading.worth())),
        tidy(link::table_name(points)),
        sendable(link::table_name(points)),
{
    reveal_strlit("REF_BAD");
    reveal_strlit("BAD_INPUT");
    reveal_strlit("OVER");
    reveal_strlit("PARTIAL");
    reveal_strlit("OK");
    reveal_strlit("FIELD");
    reveal_strlit("ROM");
}

proof fn lemma_signed_is_plain(n: int)
    ensures
        tidy(text::signed_decimal(n)),
        sendable(text::signed_decimal(n)),
{
    let d = text::signed_decimal(n);
    if n < 0 {
        lemma_decimal_is_plain(-n);
        let p = text::decimal(-n);
        assert(d.last() == p.last());
        assert forall|i: int| 0 <= i < d.len() implies #[trigger] d[i] != ',' && d[i] != '\r' by {
            if i > 0 {
                assert(d[i] == p[i - 1]);
            }
        }
    } else {
        lemma_decimal_is_plain(n);
    }
}

/// What stands in every calibration frame.
spec fn cal_pairs(addr: u8, rms: Seq<char>, reading: Reading, points: int) -> Seq<(Seq<char>, Seq<char>)> {
    Seq::<(Seq<char>, Seq<char>)>::empty().push(("ADDR"@, text::decimal(addr as int))).push(("RMS"@, rms)).push(
        ("GAIN"@, text::decimal(reading.range.spec_nominal())),
    ).push(("FLAG"@, link::quality_name(reading.worth()))).push(("SRC"@, link::table_name(points)))
}

/// What a calibration frame says of the reading itself, by column.
pub open spec fn cal_cells(addr: u8, rms: Seq<char>, reading: Reading) -> Seq<Option<Seq<char>>> {
    let always = callog::no_cells().update(Column::Addr.place(), Some(text::decimal(addr as int))).update(
        Column::RmsLsb.place(),
        Some(rms),
    ).update(Column::Gain.place(), Some(text::decimal(reading.range.spec_nominal()))).update(
        Column::Flag.place(),
        Some(link::quality_name(reading.worth())),
    );
    match reading.probe {
        Some((mean, pp)) => always.update(Column::Mean.place(), Some(text::signed_decimal(mean as int))).update(
            Column::Pp.place(),
            Some(text::decimal(pp as int)),
        ),
        None => always,
    }
}

proof fn lemma_cal_text(addr: u8, rms: Seq<char>, reading: Reading, points: int)
    ensures
        said("METER_CAL"@, cal_pairs(addr, rms, reading, points)) == "METER_CAL,ADDR="@ + text::decimal(addr as int)
            + ",RMS="@ + rms + ",GAIN="@ + text::decimal(reading.range.spec_nominal()) + ",FLAG="@ + link::quality_name(
            reading.worth(),
        ) + ",SRC="@ + link::table_name(points),
{
    let tag = "METER_CAL"@;
    let a = text::decimal(addr as int);
    let g = text::decimal(reading.range.spec_nominal());
    let q = link::quality_name(reading.worth());
    let t = link::table_name(points);
    let none = Seq::<(Seq<char>, Seq<char>)>::empty();
    let one = none.push(("ADDR"@, a));
    let two = one.push(("RMS"@, rms));
    let three = two.push(("GAIN"@, g));
    let four = three.push(("FLAG"@, q));
    lemma_said_more(tag, none, "ADDR"@, a);
    lemma_said_more(tag, one, "RMS"@, rms);
    lemma_said_more(tag, two, "GAIN"@, g);
    lemma_said_more(tag, three, "FLAG"@, q);
    lemma_said_more(tag, four, "SRC"@, t);
    assert("METER_CAL,ADDR="@ =~= tag + seq![','] + "ADDR"@ + seq!['=']) by {
        reveal_strlit("METER_CAL");
        reveal_strlit("ADDR");
        reveal_strlit("METER_CAL,ADDR=");
    }
    assert(",RMS="@ =~= seq![','] + "RMS"@ + seq!['=']) by {
        reveal_strlit("RMS");
        reveal_strlit(",RMS=");
    }
    assert(",GAIN="@ =~= seq![','] + "GAIN"@ + seq!['=']) by {
        reveal_strlit("GAIN");
        reveal_strlit(",GAIN=");
    }
    assert(",FLAG="@ =~= seq![','] + "FLAG"@ + seq!['=']) by {
        reveal_strlit("FLAG");
        reveal_strlit(",FLAG=");
    }
    assert(",SRC="@ =~= seq![','] + "SRC"@ + seq!['=']) by {
        reveal_strlit("SRC");
        reveal_strlit(",SRC=");
    }
    let s1 = "METER_CAL,ADDR="@ + a;
    lemma_regroup(s1, "RMS"@, ",RMS="@, rms);
    let s2 = s1 + ",RMS="@ + rms;
    lemma_regroup(s2, "GAIN"@, ",GAIN="@, g);
    let s3 = s2 + ",GAIN="@ + g;
    lemma_regroup(s3, "FLAG"@, ",FLAG="@, q);
    let s4 = s3 + ",FLAG="@ + q;
    lemma_regroup(s4, "SRC"@, ",SRC="@, t);
}

proof fn lemma_regroup(before: Seq<char>, key: Seq<char>, lead: Seq<char>, value: Seq<char>)
    requires
        lead == seq![','] + key + seq!['='],
    ensures
        before + seq![','] + key + seq!['='] + value == before + lead + value,
{
    assert(before + seq![','] + key + seq!['='] + value =~= before + lead + value);
}

proof fn lemma_cal_frame(addr: u8, rms: Seq<char>, reading: Reading, points: int)
    requires
        tidy(rms),
        sendable(rms),
    ensures
        ({
            let pairs = cal_pairs(addr, rms, reading, points);
            &&& is_frame("METER_CAL"@, pairs)
            &&& tidy(said("METER_CAL"@, pairs))
            &&& cells_of(pairs) == callog::no_cells().update(
                Column::Addr.place(),
                Some(text::decimal(addr as int)),
            ).update(Column::RmsLsb.place(), Some(rms)).update(
                Column::Gain.place(),
                Some(text::decimal(reading.range.spec_nominal())),
            ).update(Column::Flag.place(), Some(link::quality_name(reading.worth())))
        }),
{
    let tag = "METER_CAL"@;
    let a = text::decimal(addr as int);
    let g = text::decimal(reading.range.spec_nominal());
    let q = link::quality_name(reading.worth());
    let t = link::table_name(points);
    let none = Seq::<(Seq<char>, Seq<char>)>::empty();
    let one = none.push(("ADDR"@, a));
    let two = one.push(("RMS"@, rms));
    let three = two.push(("GAIN"@, g));
    let four = three.push(("FLAG"@, q));
    lemma_frame_keys();
    lemma_columns();
    lemma_names(reading, points);
    lemma_decimal_is_plain(addr as int);
    lemma_decimal_is_plain(reading.range.spec_nominal());
    lemma_tag(tag);
    lemma_frame_more(tag, none, "ADDR"@, a);
    lemma_frame_more(tag, one, "RMS"@, rms);
    lemma_frame_more(tag, two, "GAIN"@, g);
    lemma_frame_more(tag, three, "FLAG"@, q);
    lemma_frame_more(tag, four, "SRC"@, t);
    lemma_cells_more(none, "ADDR"@, a);
    lemma_cells_more(one, "RMS"@, rms);
    lemma_cells_more(two, "GAIN"@, g);
    lemma_cells_more(three, "FLAG"@, q);
    lemma_cells_more(four, "SRC"@, t);
}

/// The frame a calibration run needs says what was put into it: the raw RMS as
/// it was written, the gain, the quality, and what the probe saw of the input
/// where it drained. It carries a reading.
pub proof fn law_cal_frame_reads_back(addr: u8, rms: Seq<char>, reading: Reading, points: int)
    requires
        tidy(rms),
        sendable(rms),
    ensures
        ({
            let heard = callog::frame(callog::cleaned(link::cal_text(addr, rms, reading, points)));
            &&& heard matches Some(row)
            &&& row.has_reading()
            &&& row.tags == seq!["METER_CAL"@]
            &&& row.cells == cal_cells(addr, rms, reading)
        }),
{
    let tag = "METER_CAL"@;
    let some = cal_pairs(addr, rms, reading, points);
    let body = link::cal_body(addr, rms, reading, points);
    lemma_cal_text(addr, rms, reading, points);
    lemma_cal_frame(addr, rms, reading, points);
    match reading.probe {
        Some((mean, pp)) => {
            let m = text::signed_decimal(mean as int);
            let p = text::decimal(pp as int);
            let more = some.push(("MEAN"@, m));
            let pairs = more.push(("PP"@, p));
            lemma_frame_keys();
            lemma_columns();
            lemma_signed_is_plain(mean as int);
            lemma_decimal_is_plain(pp as int);
            lemma_frame_more(tag, some, "MEAN"@, m);
            lemma_frame_more(tag, more, "PP"@, p);
            lemma_cells_more(some, "MEAN"@, m);
            lemma_cells_more(more, "PP"@, p);
            lemma_said_more(tag, some, "MEAN"@, m);
            lemma_said_more(tag, more, "PP"@, p);
            assert(",MEAN="@ =~= seq![','] + "MEAN"@ + seq!['=']) by {
                reveal_strlit("MEAN");
                reveal_strlit(",MEAN=");
            }
            assert(",PP="@ =~= seq![','] + "PP"@ + seq!['=']) by {
                reveal_strlit("PP");
                reveal_strlit(",PP=");
            }
            lemma_regroup(said(tag, some), "MEAN"@, ",MEAN="@, m);
            lemma_regroup(said(tag, more), "PP"@, ",PP="@, p);
            assert(body =~= said(tag, pairs));
            lemma_arrives(tag, pairs);
        },
        None => {
            assert(body =~= said(tag, some));
            lemma_arrives(tag, some);
        },
    }
}

/// The two frames of a reading belong in one row, in either order.
pub proof fn law_two_frames_make_one_row(addr: u8, ma: u32, rms: Seq<char>, reading: Reading, points: int)
    requires
        tidy(rms),
        sendable(rms),
    ensures
        ({
            let test = callog::frame(callog::cleaned(link::test_text(addr, ma)))->0;
            let cal = callog::frame(callog::cleaned(link::cal_text(addr, rms, reading, points)))->0;
            !test.collides_with(cal) && !cal.collides_with(test)
        }),
{
    law_test_frame_reads_back(addr, ma);
    law_cal_frame_reads_back(addr, rms, reading, points);
    assert("METER_TEST"@ != "METER_CAL"@) by {
        reveal_strlit("METER_TEST");
        reveal_strlit("METER_CAL");
        assert("METER_TEST"@.len() != "METER_CAL"@.len());
    }
}

/// Nothing that is sent is lost: the pairs that have no column of their own
/// are kept beside the tag, as they were sent and in that order.
pub proof fn law_pairs_without_a_column_are_kept(tag: Seq<char>, pairs: Seq<(Seq<char>, Seq<char>)>)
    requires
        plain(tag, pairs),
        callog::tag_ok(tag),
        pairs.len() > 0,
        forall|i: int| 0 <= i < pairs.len() ==> callog::key_ok((#[trigger] pairs[i]).0),
    ensures
        callog::frame(said(tag, pairs)) matches Some(row) && row.extra == seq![
            said(tag, pairs.filter(|p: (Seq<char>, Seq<char>)| callog::column_for(p.0) is None)),
        ],
{
    law_frame_reads_back(tag, pairs);
    law_parts_are_found(tag, pairs);
    let kept = pairs.filter(|p: (Seq<char>, Seq<char>)| callog::column_for(p.0) is None);
    lemma_leftover(parts_of(tag, pairs).skip(1), pairs);
    reveal_strlit(",");
    assert(","@ =~= seq![',']);
}

proof fn lemma_leftover(parts: Seq<Seq<char>>, pairs: Seq<(Seq<char>, Seq<char>)>)
    requires
        parts == pairs.map_values(|p: (Seq<char>, Seq<char>)| pair(p.0, p.1)),
        forall|i: int| 0 <= i < pairs.len() ==> text::halves(#[trigger] parts[i], '=') == Some(pairs[i]),
    ensures
        callog::leftover(parts) == pairs.filter(
            |p: (Seq<char>, Seq<char>)| callog::column_for(p.0) is None,
        ).map_values(|p: (Seq<char>, Seq<char>)| pair(p.0, p.1)),
    decreases pairs.len(),
{
    reveal(Seq::filter);
    let keep = |p: (Seq<char>, Seq<char>)| callog::column_for(p.0) is None;
    let write = |p: (Seq<char>, Seq<char>)| pair(p.0, p.1);
    if pairs.len() > 0 {
        let shorter = pairs.drop_last();
        let fewer = parts.drop_last();
        assert(fewer =~= shorter.map_values(write));
        assert forall|i: int| 0 <= i < shorter.len() implies text::halves(#[trigger] fewer[i], '=') == Some(
            shorter[i],
        ) by {
            assert(fewer[i] == parts[i]);
        }
        lemma_leftover(fewer, shorter);
        assert(text::halves(parts[parts.len() - 1], '=') == Some(pairs[pairs.len() - 1]));
        assert(parts.last() == pair(pairs.last().0, pairs.last().1));
        if keep(pairs.last()) {
            assert(shorter.filter(keep).push(pairs.last()).map_values(write) =~= shorter.filter(keep).map_values(
                write,
            ).push(parts.last()));
        }
    } else {
        assert(pairs.filter(keep).map_values(write) =~= Seq::<Seq<char>>::empty());
    }
}

/// A cell of a frame is the value of the last pair whose key names its column,
/// whatever stands before it, and is empty where no key does.
pub proof fn law_cells_are_the_values_that_were_sent(
    tag: Seq<char>,
    pairs: Seq<(Seq<char>, Seq<char>)>,
    column: Column,
    i: int,
)
    requires
        plain(tag, pairs),
        callog::tag_ok(tag),
        pairs.len() > 0,
        forall|k: int| 0 <= k < pairs.len() ==> callog::key_ok((#[trigger] pairs[k]).0),
        forall|k: int| i < k < pairs.len() ==> callog::column_for((#[trigger] pairs[k]).0) != Some(column),
        -1 <= i < pairs.len(),
        i >= 0 ==> callog::column_for(pairs[i].0) == Some(column),
    ensures
        callog::frame(said(tag, pairs)) matches Some(row) && row.cells.len() == 13 && row.cells[column.place()] == if i
            >= 0 {
            Some(pairs[i].1)
        } else {
            None
        },
{
    law_frame_reads_back(tag, pairs);
    lemma_cell(pairs, column, i);
}

proof fn lemma_cell(pairs: Seq<(Seq<char>, Seq<char>)>, column: Column, i: int)
    requires
        forall|k: int| i < k < pairs.len() ==> callog::column_for((#[trigger] pairs[k]).0) != Some(column),
        -1 <= i < pairs.len(),
        i >= 0 ==> callog::column_for(pairs[i].0) == Some(column),
    ensures
        cells_of(pairs).len() == 13,
        cells_of(pairs)[column.place()] == if i >= 0 {
            Some(pairs[i].1)
        } else {
            None
        },
    decreases pairs.len(),
{
    if pairs.len() > 0 {
        let shorter = pairs.drop_last();
        let last = pairs.len() - 1;
        assert(pairs.last() == pairs[last]);
        if i == last {
            lemma_cells_len(shorter);
        } else {
            assert forall|k: int| i < k < shorter.len() implies callog::column_for((#[trigger] shorter[k]).0) != Some(
                column,
            ) by {
                assert(shorter[k] == pairs[k]);
            }
            lemma_cell(shorter, column, i);
            assert(callog::column_for(pairs[last].0) != Some(column));
            if let Some(other) = callog::column_for(pairs[last].0) {
                callog::law_columns_have_places_of_their_own(other, column);
            }
        }
    }
}

proof fn lemma_cells_len(pairs: Seq<(Seq<char>, Seq<char>)>)
    ensures
        cells_of(pairs).len() == 13,
    decreases pairs.len(),
{
    if pairs.len() > 0 {
        lemma_cells_len(pairs.drop_last());
    }
}

/// The keys of the meter's frames have the columns of those names, and the
/// spelled-out ones have the same.
pub proof fn law_keys_have_their_columns()
    ensures
        callog::column_for("RMS"@) == Some(Column::RmsLsb) && callog::column_for("RMS_LSB"@) == Some(Column::RmsLsb),
        callog::column_for("GAIN"@) == Some(Column::Gain),
        callog::column_for("FLAG"@) == Some(Column::Flag),
        callog::column_for("CURRENT_MA"@) == Some(Column::CurrentMa),
        callog::column_for("STATUS"@) == Some(Column::Status),
        callog::column_for("ADDR"@) == Some(Column::Addr),
        callog::column_for("MEAN"@) == Some(Column::Mean) && callog::column_for("MEAN_IN"@) == Some(Column::Mean),
        callog::column_for("PP"@) == Some(Column::Pp) && callog::column_for("PP_IN"@) == Some(Column::Pp),
{
    lemma_columns();
    reveal_strlit("RMS_LSB");
    reveal_strlit("MEAN_IN");
    reveal_strlit("PP_IN");
    reveal_strlit("RMS");
    reveal_strlit("GAIN");
    reveal_strlit("FLAG");
    reveal_strlit("CURRENT_MA");
    reveal_strlit("STATUS");
    reveal_strlit("ADDR");
    reveal_strlit("MEAN");
    reveal_strlit("PP");
    assert(text::ascii_upper("RMS_LSB"@) =~= "RMS_LSB"@);
    assert(text::ascii_upper("MEAN_IN"@) =~= "MEAN_IN"@);
    assert(text::ascii_upper("PP_IN"@) =~= "PP_IN"@);
    assert("MEAN_IN"@[0] == 'M' && "PP_IN"@[0] == 'P' && "RMS"@[0] == 'R' && "RMS_LSB"@[0] == 'R' && "GAIN"@[0] == 'G'
        && "FLAG"@[0] == 'F' && "CURRENT_MA"@[0] == 'C' && "STATUS"@[0] == 'S' && "ADDR"@[0] == 'A');
}

proof fn lemma_answer_keys()
    ensures
        tidy("ADDR"@) && tidy("I"@) && tidy("N"@) && tidy("SRC"@) && tidy("ERR"@),
        free_of("ADDR"@, ',') && free_of("I"@, ',') && free_of("N"@, ',') && free_of("SRC"@, ',') && free_of("ERR"@, ','),
        free_of("ADDR"@, '=') && free_of("I"@, '=') && free_of("N"@, '=') && free_of("SRC"@, '=') && free_of("ERR"@, '='),
        "ADDR"@ != "I"@ && "ADDR"@ != "N"@ && "ADDR"@ != "SRC"@ && "ADDR"@ != "ERR"@,
        "I"@ != "ERR"@ && "N"@ != "ERR"@ && "SRC"@ != "ERR"@ && "SRC"@ != "N"@,
        free_of("CALACK"@, ',') && tidy("CALACK"@),
        free_of("CALSTAT"@, ',') && tidy("CALSTAT"@),
{
    reveal_strlit("ADDR");
    reveal_strlit("I");
    reveal_strlit("N");
    reveal_strlit("SRC");
    reveal_strlit("ERR");
    reveal_strlit("CALACK");
    reveal_strlit("CALSTAT");
    assert("I"@[0] == 'I' && "N"@[0] == 'N' && "ADDR"@[0] == 'A' && "SRC"@[0] == 'S' && "ERR"@[0] == 'E');
}

proof fn lemma_error_name(error: CalError)
    ensures
        tidy(link::error_name(error)),
        free_of(link::error_name(error), ','),
{
    reveal_strlit("INDEX");
    reveal_strlit("VALUE");
    reveal_strlit("MISSING");
    reveal_strlit("ORDER");
    reveal_strlit("FLASH");
}

/// The pairs of an answer, with the error where there is one.
spec fn with_error(
    pairs: Seq<(Seq<char>, Seq<char>)>,
    error: Option<CalError>,
) -> Seq<(Seq<char>, Seq<char>)> {
    match error {
        Some(e) => pairs.push(("ERR"@, link::error_name(e))),
        None => pairs,
    }
}

proof fn lemma_with_error(head: Seq<char>, pairs: Seq<(Seq<char>, Seq<char>)>, error: Option<CalError>)
    ensures
        said(head, with_error(pairs, error)) == said(head, pairs) + link::error_text(error),
{
    match error {
        Some(e) => {
            lemma_said_more(head, pairs, "ERR"@, link::error_name(e));
            reveal_strlit("ERR");
            reveal_strlit(",ERR=");
            assert(",ERR="@ =~= seq![','] + "ERR"@ + seq!['=']);
            assert(said(head, with_error(pairs, error)) =~= said(head, pairs) + link::error_text(error));
        },
        None => {
            assert(said(head, pairs) + link::error_text(error) =~= said(head, pairs));
        },
    }
}

/// The answer to a point says which meter took which point, and names the
/// error exactly if it did not.
pub proof fn law_point_is_acknowledged(addr: u8, index: int, error: Option<CalError>)
    requires
        index >= 0,
    ensures
        ({
            let line = text::trimmed(link::ack_text(addr, index, error));
            &&& text::pieces(line, ',')[0] == "CALACK"@
            &&& link::value_of(line, "ADDR"@) == Some(text::decimal(addr as int))
            &&& link::value_of(line, "I"@) == Some(text::decimal(index))
            &&& link::value_of(line, "ERR"@) == match error {
                Some(e) => Some(link::error_name(e)),
                None => None,
            }
        }),
{
    let head = "CALACK"@;
    let a = text::decimal(addr as int);
    let i = text::decimal(index);
    let none = Seq::<(Seq<char>, Seq<char>)>::empty();
    let one = none.push(("ADDR"@, a));
    let two = one.push(("I"@, i));
    let pairs = with_error(two, error);
    let body = said(head, pairs);
    lemma_answer_keys();
    lemma_decimal_is_plain(addr as int);
    lemma_decimal_is_plain(index);
    if let Some(e) = error {
        lemma_error_name(e);
        lemma_tidy(link::error_name(e));
    }
    lemma_said_more(head, none, "ADDR"@, a);
    lemma_said_more(head, one, "I"@, i);
    lemma_with_error(head, two, error);
    assert(body + "\r\n"@ =~= link::ack_text(addr, index, error)) by {
        reveal_strlit("CALACK");
        reveal_strlit("ADDR");
        reveal_strlit("I");
        reveal_strlit("CALACK,ADDR=");
        reveal_strlit(",I=");
        assert("CALACK,ADDR="@ =~= head + seq![','] + "ADDR"@ + seq!['=']);
        assert(",I="@ =~= seq![','] + "I"@ + seq!['=']);
        lemma_regroup(said(head, one), "I"@, ",I="@, i);
    }
    lemma_answer(head, two, error);
    lemma_tidy("ADDR"@);
    lemma_tidy("I"@);
    lemma_tidy(a);
    lemma_tidy(i);
    assert(pairs[0] == ("ADDR"@, a) && pairs[1] == ("I"@, i));
    law_field_is_found(head, pairs, 0);
    law_field_is_found(head, pairs, 1);
}

/// What every answer has in common: it is taken apart as it was put together,
/// and its error is the one that was put there.
proof fn lemma_answer(head: Seq<char>, pairs: Seq<(Seq<char>, Seq<char>)>, error: Option<CalError>)
    requires
        tidy(head) && free_of(head, ','),
        pairs.len() > 0,
        forall|k: int|
            0 <= k < pairs.len() ==> {
                &&& tidy((#[trigger] pairs[k]).0) && free_of(pairs[k].0, ',') && free_of(pairs[k].0, '=')
                &&& pairs[k].0 != "ERR"@
                &&& tidy(pairs[k].1) && free_of(pairs[k].1, ',')
            },
    ensures
        plain(head, with_error(pairs, error)),
        text::trimmed(said(head, with_error(pairs, error)) + "\r\n"@) == said(head, with_error(pairs, error)),
        text::pieces(said(head, with_error(pairs, error)), ',')[0] == head,
        link::value_of(said(head, with_error(pairs, error)), "ERR"@) == match error {
            Some(e) => Some(link::error_name(e)),
            None => None,
        },
{
    let all = with_error(pairs, error);
    let body = said(head, all);
    lemma_answer_keys();
    lemma_tidy("ERR"@);
    if let Some(e) = error {
        lemma_error_name(e);
        lemma_tidy(link::error_name(e));
    }
    assert forall|k: int| 0 <= k < all.len() implies free_of((#[trigger] all[k]).0, ',') && free_of(all[k].0, '=')
        && free_of(all[k].1, ',') && tidy(all[k].1) by {
        if k < pairs.len() {
            assert(all[k] == pairs[k]);
        }
    }
    law_parts_are_found(head, all);
    let last = all.last();
    let before = all.drop_last();
    assert(before.push((last.0, last.1)) =~= all);
    assert(all[all.len() - 1] == last);
    lemma_said_more(head, before, last.0, last.1);
    lemma_said_starts(head, all);
    assert(body.last() == last.1.last());
    reveal_strlit("\r\n");
    lemma_tidy_line(body, "\r\n"@);
    match error {
        Some(e) => {
            let n = pairs.len() as int;
            assert forall|k: int| 0 <= k < n implies text::trimmed((#[trigger] all[k]).0) != text::trimmed(all[n].0) by {
                assert(all[k] == pairs[k]);
                lemma_tidy(pairs[k].0);
            }
            law_field_is_found(head, all, n);
        },
        None => {
            assert forall|k: int| 0 <= k < all.len() implies text::trimmed((#[trigger] all[k]).0) != "ERR"@ by {
                assert(all[k] == pairs[k]);
                lemma_tidy(pairs[k].0);
            }
            law_field_is_not_invented(head, all, "ERR"@);
        },
    }
}

proof fn lemma_said_starts(head: Seq<char>, pairs: Seq<(Seq<char>, Seq<char>)>)
    requires
        head.len() > 0,
    ensures
        said(head, pairs).len() > 0,
        said(head, pairs)[0] == head[0],
    decreases pairs.len(),
{
    if pairs.len() == 0 {
        lemma_said_more(head, pairs, head, head);
        assert(pairs =~= Seq::empty());
    } else {
        let before = pairs.drop_last();
        lemma_said_starts(head, before);
        lemma_said_more(head, before, pairs.last().0, pairs.last().1);
        assert(before.push((pairs.last().0, pairs.last().1)) =~= pairs);
    }
}

/// The answer about the table says which meter reads on how many points of
/// which table, and names the error exactly if there was one.
pub proof fn law_table_is_reported(addr: u8, points: int, error: Option<CalError>)
    requires
        points >= 0,
    ensures
        ({
            let line = text::trimmed(link::stat_text(addr, points, error));
            &&& text::pieces(line, ',')[0] == "CALSTAT"@
            &&& link::value_of(line, "ADDR"@) == Some(text::decimal(addr as int))
            &&& link::value_of(line, "N"@) == Some(text::decimal(points))
            &&& link::value_of(line, "SRC"@) == Some(
                if points >= 2 {
                    "FIELD"@
                } else {
                    "ROM"@
                },
            )
            &&& link::value_of(line, "ERR"@) == match error {
                Some(e) => Some(link::error_name(e)),
                None => None,
            }
        }),
{
    let head = "CALSTAT"@;
    let a = text::decimal(addr as int);
    let n = text::decimal(points);
    let src = link::table_name(points);
    let none = Seq::<(Seq<char>, Seq<char>)>::empty();
    let one = none.push(("ADDR"@, a));
    let two = one.push(("SRC"@, src));
    let three = two.push(("N"@, n));
    let pairs = with_error(three, error);
    let body = said(head, pairs);
    lemma_answer_keys();
    lemma_decimal_is_plain(addr as int);
    lemma_decimal_is_plain(points);
    assert(tidy(src) && free_of(src, ',')) by {
        reveal_strlit("FIELD");
        reveal_strlit("ROM");
    }
    lemma_said_more(head, none, "ADDR"@, a);
    lemma_said_more(head, one, "SRC"@, src);
    lemma_said_more(head, two, "N"@, n);
    lemma_with_error(head, three, error);
    assert(body + "\r\n"@ =~= link::stat_text(addr, points, error)) by {
        reveal_strlit("CALSTAT");
        reveal_strlit("ADDR");
        reveal_strlit("SRC");
        reveal_strlit("N");
        reveal_strlit("CALSTAT,ADDR=");
        reveal_strlit(",SRC=");
        reveal_strlit(",N=");
        assert("CALSTAT,ADDR="@ =~= head + seq![','] + "ADDR"@ + seq!['=']);
        assert(",SRC="@ =~= seq![','] + "SRC"@ + seq!['=']);
        assert(",N="@ =~= seq![','] + "N"@ + seq!['=']);
        lemma_regroup(said(head, one), "SRC"@, ",SRC="@, src);
        lemma_regroup(said(head, two), "N"@, ",N="@, n);
    }
    lemma_answer(head, three, error);
    lemma_tidy("ADDR"@);
    lemma_tidy("SRC"@);
    lemma_tidy("N"@);
    lemma_tidy(a);
    lemma_tidy(src);
    lemma_tidy(n);
    assert(pairs[0] == ("ADDR"@, a) && pairs[1] == ("SRC"@, src) && pairs[2] == ("N"@, n));
    law_field_is_found(head, pairs, 0);
    law_field_is_found(head, pairs, 1);
    law_field_is_found(head, pairs, 2);
}

/// A request for a reading, sent as its bytes, makes the meter it names measure
/// once, and no other; one that names none makes every meter measure.
pub proof fn law_request_reaches_its_meter(named: Option<u8>, addr: u8)
    ensures
        link::requests(link::LinkView::start(), encode_utf8(callog::request_text(named)), addr) == if named is None
            || named == Some(addr) {
            seq![Asked::Measure]
        } else {
            Seq::empty()
        },
{
    let line = match named {
        Some(n) => "MEAS,ADDR="@ + text::decimal(n as int),
        None => "MEAS"@,
    };
    reveal_strlit("MEAS");
    reveal_strlit("MEAS\n");
    reveal_strlit("MEAS,ADDR=");
    reveal_strlit("\n");
    assert(callog::request_text(named) =~= line + seq!['\n']);
    if let Some(n) = named {
        text::lemma_decimal_digits(n as int);
        lemma_short_decimal(n as int);
    }
    assert(line.len() <= 13);
    assert forall|i: int| 0 <= i < line.len() implies ' ' < #[trigger] line[i] <= '\u{7f}' by {
        if let Some(n) = named {
            let d = text::decimal(n as int);
            if i >= 10 {
                assert(line[i] == d[i - 10]);
                assert(48 <= d[i - 10] as int <= 57);
            }
        }
    }
    assert(is_ascii_chars(line)) by {
        assert forall|i: int| 0 <= i < line.len() implies '\0' <= #[trigger] line[i] <= '\u{7f}' by {
            assert(' ' < line[i]);
        }
    }
    is_ascii_chars_encode_utf8(line);
    let bytes = encode_utf8(line);
    assert forall|i: int| 0 <= i < bytes.len() implies #[trigger] bytes[i] < 128 && bytes[i] != 10 && bytes[i] != 13
        && bytes[i] as char == line[i] by {
        assert(bytes[i] == line[i] as u8);
        assert(' ' < line[i] <= '\u{7f}');
    }
    assert(text::chars_in(bytes) =~= line);
    text::lemma_encode_concat(line, seq!['\n']);
    assert(is_ascii_chars(seq!['\n']));
    is_ascii_chars_encode_utf8(seq!['\n']);
    assert(encode_utf8(seq!['\n']) =~= seq![10u8]);
    link::law_commands_are_taken_up_to_64_characters(bytes);
    link::law_line_is_heard_once(bytes, addr);
    law_request_is_heard(named, addr);
    assert(text::trimmed(callog::request_text(named)) == text::trimmed(line)) by {
        lemma_keys();
        assert(tidy(line));
        lemma_tidy_line(line, seq!['\n']);
        lemma_tidy(line);
    }
}

proof fn lemma_short_decimal(n: int)
    requires
        0 <= n < 1000,
    ensures
        text::decimal(n).len() <= 3,
{
    reveal_with_fuel(text::decimal, 4);
}

} // verus!
