//! The bench calibration logger: frames from the meter on one side, readings
//! of the reference instrument on the other, one CSV row per reading.
//!
//! One row is one reading, even when the link does not cooperate. A frame that
//! reports a measurement the row already has belongs to the next reading, and
//! opens the next row instead of being merged or dropped.

use crate::text;
use std::collections::VecDeque;
use vstd::prelude::*;

verus! {

/// A column of the log.
#[derive(Clone, Copy, Debug, PartialEq, Eq, Structural)]
pub enum Column {
    Time,
    DmmA,
    LagMs,
    RmsLsb,
    Gain,
    Flag,
    CurrentMa,
    Status,
    Addr,
    Mean,
    Pp,
    Extra,
    Raw,
}

/// How many columns there are.
pub const COLUMNS: usize = 13;

impl Column {
    /// The column's place in a row.
    pub open spec fn place(self) -> int {
        match self {
            Column::Time => 0,
            Column::DmmA => 1,
            Column::LagMs => 2,
            Column::RmsLsb => 3,
            Column::Gain => 4,
            Column::Flag => 5,
            Column::CurrentMa => 6,
            Column::Status => 7,
            Column::Addr => 8,
            Column::Mean => 9,
            Column::Pp => 10,
            Column::Extra => 11,
            Column::Raw => 12,
        }
    }

    fn index(self) -> (i: usize)
        ensures
            i == self.place(),
            i < COLUMNS,
    {
        match self {
            Column::Time => 0,
            Column::DmmA => 1,
            Column::LagMs => 2,
            Column::RmsLsb => 3,
            Column::Gain => 4,
            Column::Flag => 5,
            Column::CurrentMa => 6,
            Column::Status => 7,
            Column::Addr => 8,
            Column::Mean => 9,
            Column::Pp => 10,
            Column::Extra => 11,
            Column::Raw => 12,
        }
    }
}

/// The name a column has in the header. `raw` is last because it is the wide
/// one.
pub open spec fn column_name(i: int) -> Seq<char> {
    if i == 0 {
        "time"@
    } else if i == 1 {
        "dmm_a"@
    } else if i == 2 {
        "lag_ms"@
    } else if i == 3 {
        "rms_lsb"@
    } else if i == 4 {
        "gain"@
    } else if i == 5 {
        "flag"@
    } else if i == 6 {
        "current_ma"@
    } else if i == 7 {
        "status"@
    } else if i == 8 {
        "addr"@
    } else if i == 9 {
        "mean"@
    } else if i == 10 {
        "pp"@
    } else if i == 11 {
        "extra"@
    } else {
        "raw"@
    }
}

fn name_at(i: usize) -> (name: &'static str)
    ensures
        name@ == column_name(i as int),
{
    if i == 0 {
        "time"
    } else if i == 1 {
        "dmm_a"
    } else if i == 2 {
        "lag_ms"
    } else if i == 3 {
        "rms_lsb"
    } else if i == 4 {
        "gain"
    } else if i == 5 {
        "flag"
    } else if i == 6 {
        "current_ma"
    } else if i == 7 {
        "status"
    } else if i == 8 {
        "addr"
    } else if i == 9 {
        "mean"
    } else if i == 10 {
        "pp"
    } else if i == 11 {
        "extra"
    } else {
        "raw"
    }
}

/// The column a frame's key is logged in. A key that has none lands in
/// `extra`.
pub open spec fn column_for(key: Seq<char>) -> Option<Column> {
    let k = text::ascii_upper(key);
    if k == "RMS"@ || k == "RMS_LSB"@ {
        Some(Column::RmsLsb)
    } else if k == "GAIN"@ {
        Some(Column::Gain)
    } else if k == "FLAG"@ {
        Some(Column::Flag)
    } else if k == "CURRENT_MA"@ {
        Some(Column::CurrentMa)
    } else if k == "STATUS"@ {
        Some(Column::Status)
    } else if k == "ADDR"@ {
        Some(Column::Addr)
    } else if k == "MEAN"@ || k == "MEAN_IN"@ {
        Some(Column::Mean)
    } else if k == "PP"@ || k == "PP_IN"@ {
        Some(Column::Pp)
    } else {
        None
    }
}

/// Frame key to CSV column.
pub fn field_for(key: &str) -> (column: Option<Column>)
    ensures
        column == column_for(key@),
{
    let upper: String = text::to_ascii_uppercase(key);
    let k: &str = upper.as_str();
    if text::same(k, "RMS") || text::same(k, "RMS_LSB") {
        Some(Column::RmsLsb)
    } else if text::same(k, "GAIN") {
        Some(Column::Gain)
    } else if text::same(k, "FLAG") {
        Some(Column::Flag)
    } else if text::same(k, "CURRENT_MA") {
        Some(Column::CurrentMa)
    } else if text::same(k, "STATUS") {
        Some(Column::Status)
    } else if text::same(k, "ADDR") {
        Some(Column::Addr)
    } else if text::same(k, "MEAN") || text::same(k, "MEAN_IN") {
        Some(Column::Mean)
    } else if text::same(k, "PP") || text::same(k, "PP_IN") {
        Some(Column::Pp)
    } else {
        None
    }
}

/// The cells of a row, one place per column; `None` where nothing was said.
#[derive(Debug)]
pub struct Cells {
    list: Vec<Option<String>>,
}

/// A cell as a mathematical value.
pub open spec fn cell_view(cell: Option<String>) -> Option<Seq<char>> {
    match cell {
        Some(s) => Some(s@),
        None => None,
    }
}

impl View for Cells {
    type V = Seq<Option<Seq<char>>>;

    closed spec fn view(&self) -> Seq<Option<Seq<char>>> {
        self.list@.map_values(|cell: Option<String>| cell_view(cell))
    }
}

/// A row with nothing in it.
pub open spec fn no_cells() -> Seq<Option<Seq<char>>> {
    Seq::new(COLUMNS as nat, |i: int| None)
}

impl Cells {
    /// A row with nothing in it.
    pub fn new() -> (cells: Cells)
        ensures
            cells@ == no_cells(),
    {
        let mut list: Vec<Option<String>> = Vec::new();
        let mut i: usize = 0;
        while i < COLUMNS
            invariant
                i <= COLUMNS,
                list@.len() == i,
                forall|k: int| 0 <= k < i ==> #[trigger] list@[k] is None,
            decreases COLUMNS - i,
        {
            list.push(None);
            i += 1;
        }
        let cells: Cells = Cells { list };
        assert(cells@ =~= no_cells());
        cells
    }

    /// Write a cell.
    pub fn set(&mut self, column: Column, value: String)
        requires
            old(self)@.len() == COLUMNS,
        ensures
            final(self)@ == old(self)@.update(column.place(), Some(value@)),
    {
        self.list.set(column.index(), Some(value));
        assert(self@ =~= old(self)@.update(column.place(), Some(value@)));
    }

    /// Whether a cell was written.
    pub fn has(&self, column: Column) -> (yes: bool)
        requires
            self@.len() == COLUMNS,
        ensures
            yes == (self@[column.place()] is Some),
    {
        self.list[column.index()].is_some()
    }

    /// What a cell holds.
    pub fn get(&self, column: Column) -> (value: Option<&str>)
        requires
            self@.len() == COLUMNS,
        ensures
            value is Some <==> self@[column.place()] is Some,
            value matches Some(s) ==> self@[column.place()] == Some(s@),
    {
        match &self.list[column.index()] {
            Some(s) => Some(s.as_str()),
            None => None,
        }
    }
}

/// What one reading says: its cells, the tags of its frames, and what has no
/// column.
#[derive(Debug)]
pub struct Row {
    pub cells: Cells,
    pub tags: Vec<String>,
    pub extra: Vec<String>,
}

/// A row as a mathematical value.
#[verifier::ext_equal]
pub struct RowView {
    pub cells: Seq<Option<Seq<char>>>,
    pub tags: Seq<Seq<char>>,
    pub extra: Seq<Seq<char>>,
}

impl View for Row {
    type V = RowView;

    open spec fn view(&self) -> RowView {
        RowView { cells: self.cells@, tags: text::views(self.tags@), extra: text::views(self.extra@) }
    }
}

impl RowView {
    pub open spec fn wf(self) -> bool {
        self.cells.len() == COLUMNS
    }

    /// Whether a column is filled.
    pub open spec fn says(self, column: Column) -> bool {
        self.cells[column.place()] is Some
    }

    /// Whether the row carries a measurement: the raw RMS, or the scaled
    /// current.
    pub open spec fn has_reading(self) -> bool {
        self.says(Column::RmsLsb) || self.says(Column::CurrentMa)
    }

    /// Whether `other` belongs to a different reading: it repeats a tag, or
    /// reports a measurement this row already has. One reading sends each of
    /// its frames once.
    pub open spec fn collides_with(self, other: RowView) -> bool {
        ||| exists|i: int| 0 <= i < other.tags.len() && self.tags.contains(#[trigger] other.tags[i])
        ||| self.says(Column::RmsLsb) && other.says(Column::RmsLsb)
        ||| self.says(Column::CurrentMa) && other.says(Column::CurrentMa)
    }

    /// With a later frame of the same reading folded in.
    pub open spec fn merged(self, other: RowView) -> RowView {
        RowView {
            cells: Seq::new(
                COLUMNS as nat,
                |i: int|
                    if other.cells[i] is Some {
                        other.cells[i]
                    } else {
                        self.cells[i]
                    },
            ),
            tags: self.tags + other.tags,
            extra: self.extra + other.extra,
        }
    }
}

fn move_all(to: &mut Vec<String>, from: Vec<String>)
    ensures
        text::views(final(to)@) == text::views(old(to)@) + text::views(from@),
{
    let ghost before = to@;
    let mut i: usize = 0;
    while i < from.len()
        invariant
            i <= from@.len(),
            text::views(to@) == text::views(before) + text::views(from@).take(i as int),
        decreases from@.len() - i,
    {
        let ghost now = to@;
        to.push(from[i].clone());
        assert(text::views(to@) =~= text::views(now).push(from@[i as int]@));
        assert(text::views(from@).take(i + 1) =~= text::views(from@).take(i as int).push(from@[i as int]@));
        i += 1;
    }
    assert(text::views(from@).take(i as int) =~= text::views(from@));
}

fn contains_string(list: &Vec<String>, s: &String) -> (yes: bool)
    ensures
        yes == text::views(list@).contains(s@),
{
    let mut i: usize = 0;
    while i < list.len()
        invariant
            i <= list@.len(),
            forall|k: int| 0 <= k < i ==> #[trigger] text::views(list@)[k] != s@,
        decreases list@.len() - i,
    {
        if list[i] == *s {
            assert(text::views(list@)[i as int] == s@);
            return true;
        }
        assert(text::views(list@)[i as int] != s@);
        i += 1;
    }
    false
}

impl Row {
    pub fn has_reading(&self) -> (yes: bool)
        requires
            self@.wf(),
        ensures
            yes == self@.has_reading(),
    {
        self.cells.has(Column::RmsLsb) || self.cells.has(Column::CurrentMa)
    }

    /// Whether `other` belongs to a different reading and must not be folded
    /// in.
    pub fn collides_with(&self, other: &Row) -> (yes: bool)
        requires
            self@.wf(),
            other@.wf(),
        ensures
            yes == self@.collides_with(other@),
    {
        let mut i: usize = 0;
        while i < other.tags.len()
            invariant
                i <= other.tags@.len(),
                forall|k: int| 0 <= k < i ==> !self@.tags.contains(#[trigger] other@.tags[k]),
            decreases other.tags@.len() - i,
        {
            if contains_string(&self.tags, &other.tags[i]) {
                assert(self@.tags.contains(other@.tags[i as int]));
                return true;
            }
            i += 1;
        }
        (self.cells.has(Column::RmsLsb) && other.cells.has(Column::RmsLsb)) || (self.cells.has(Column::CurrentMa)
            && other.cells.has(Column::CurrentMa))
    }

    /// Folds a later frame of the same reading in.
    pub fn merge(&mut self, other: Row)
        requires
            old(self)@.wf(),
            other@.wf(),
        ensures
            final(self)@ == old(self)@.merged(other@),
            final(self)@.wf(),
    {
        let ghost before = self@;
        self.cells.overlay(&other.cells);
        move_all(&mut self.tags, other.tags);
        move_all(&mut self.extra, other.extra);
        assert(self@ =~= before.merged(other@));
    }
}

impl Cells {
    /// Take over every cell that `other` fills.
    fn overlay(&mut self, other: &Cells)
        requires
            old(self)@.len() == COLUMNS,
            other@.len() == COLUMNS,
        ensures
            final(self)@ == Seq::new(
                COLUMNS as nat,
                |i: int|
                    if other@[i] is Some {
                        other@[i]
                    } else {
                        old(self)@[i]
                    },
            ),
    {
        let mut i: usize = 0;
        while i < COLUMNS
            invariant
                i <= COLUMNS,
                self@.len() == COLUMNS,
                old(self)@.len() == COLUMNS,
                other@.len() == COLUMNS,
                forall|k: int|
                    0 <= k < COLUMNS ==> #[trigger] self@[k] == if k < i && other@[k] is Some {
                        other@[k]
                    } else {
                        old(self)@[k]
                    },
            decreases COLUMNS - i,
        {
            let ghost now = self@;
            if let Some(value) = &other.list[i] {
                let copy: String = value.clone();
                self.list.set(i, Some(copy));
                assert(self@ =~= now.update(i as int, Some(value@)));
                assert(other@[i as int] == Some(value@));
            } else {
                assert(other@[i as int] is None);
            }
            i += 1;
        }
        assert(self@ =~= Seq::new(
            COLUMNS as nat,
            |i: int|
                if other@[i] is Some {
                    other@[i]
                } else {
                    old(self)@[i]
                },
        ));
    }
}

// ---- Frames -------------------------------------------------------------

pub open spec fn is_upper(c: char) -> bool {
    65 <= c as int <= 90
}

pub open spec fn is_alpha(c: char) -> bool {
    65 <= c as int <= 90 || 97 <= c as int <= 122
}

pub open spec fn is_digit(c: char) -> bool {
    48 <= c as int <= 57
}

/// A frame's tag: upper-case letters, digits and underscores, a letter first.
pub open spec fn tag_ok(s: Seq<char>) -> bool {
    &&& s.len() > 0
    &&& is_upper(s[0])
    &&& forall|i: int| 0 <= i < s.len() ==> is_upper(#[trigger] s[i]) || is_digit(s[i]) || s[i] == '_'
}

/// A frame's key: letters, digits and underscores, no digit first.
pub open spec fn key_ok(s: Seq<char>) -> bool {
    &&& s.len() > 0
    &&& is_alpha(s[0]) || s[0] == '_'
    &&& forall|i: int| 0 <= i < s.len() ==> is_alpha(#[trigger] s[i]) || is_digit(s[i]) || s[i] == '_'
}

/// A part of a frame is a key and a value.
pub open spec fn pair_ok(part: Seq<char>) -> bool {
    text::halves(part, '=') matches Some((key, _)) && key_ok(key)
}

/// The cells a run of pairs fills, a later one over an earlier one.
pub open spec fn filled(parts: Seq<Seq<char>>) -> Seq<Option<Seq<char>>>
    decreases parts.len(),
{
    if parts.len() == 0 {
        no_cells()
    } else {
        let before = filled(parts.drop_last());
        match text::halves(parts.last(), '=') {
            Some((key, value)) => match column_for(key) {
                Some(column) => before.update(column.place(), Some(value)),
                None => before,
            },
            None => before,
        }
    }
}

/// The pairs that have no column.
pub open spec fn leftover(parts: Seq<Seq<char>>) -> Seq<Seq<char>>
    decreases parts.len(),
{
    if parts.len() == 0 {
        Seq::empty()
    } else {
        let before = leftover(parts.drop_last());
        match text::halves(parts.last(), '=') {
            Some((key, _)) => if column_for(key) is None {
                before.push(parts.last())
            } else {
                before
            },
            None => before,
        }
    }
}

/// What a line says, if it is a frame: a tag, then one or more pairs, with
/// commas in between.
pub open spec fn frame(line: Seq<char>) -> Option<RowView> {
    let parts = text::pieces(line, ',');
    let pairs = parts.skip(1);
    if tag_ok(parts[0]) && pairs.len() > 0 && forall|i: int| 0 <= i < pairs.len() ==> pair_ok(#[trigger] pairs[i]) {
        Some(
            RowView {
                cells: filled(pairs),
                tags: seq![parts[0]],
                extra: seq![text::joined(seq![parts[0]] + leftover(pairs), ","@)],
            },
        )
    } else {
        None
    }
}

fn tag_char(c: char) -> (yes: bool)
    ensures
        yes == (is_upper(c) || is_digit(c) || c == '_'),
{
    let u: u32 = c as u32;
    (65 <= u && u <= 90) || (48 <= u && u <= 57) || c == '_'
}

fn key_char(c: char) -> (yes: bool)
    ensures
        yes == (is_alpha(c) || is_digit(c) || c == '_'),
{
    let u: u32 = c as u32;
    (65 <= u && u <= 90) || (97 <= u && u <= 122) || (48 <= u && u <= 57) || c == '_'
}

fn digit_char(c: char) -> (yes: bool)
    ensures
        yes == is_digit(c),
{
    let u: u32 = c as u32;
    48 <= u && u <= 57
}

fn is_tag(s: &str) -> (yes: bool)
    ensures
        yes == tag_ok(s@),
{
    let chars: Vec<char> = text::chars_of(s);
    if chars.len() == 0 {
        return false;
    }
    if digit_char(chars[0]) || chars[0] == '_' {
        return false;
    }
    let mut i: usize = 0;
    while i < chars.len()
        invariant
            i <= chars@.len(),
            chars@ == s@,
            !is_digit(s@[0]) && s@[0] != '_',
            forall|k: int| 0 <= k < i ==> is_upper(#[trigger] s@[k]) || is_digit(s@[k]) || s@[k] == '_',
        decreases chars@.len() - i,
    {
        if !tag_char(chars[i]) {
            assert(!(is_upper(s@[i as int]) || is_digit(s@[i as int]) || s@[i as int] == '_'));
            return false;
        }
        i += 1;
    }
    true
}

fn is_key(s: &str) -> (yes: bool)
    ensures
        yes == key_ok(s@),
{
    let chars: Vec<char> = text::chars_of(s);
    if chars.len() == 0 {
        return false;
    }
    if digit_char(chars[0]) {
        return false;
    }
    let mut i: usize = 0;
    while i < chars.len()
        invariant
            i <= chars@.len(),
            chars@ == s@,
            !is_digit(s@[0]),
            forall|k: int| 0 <= k < i ==> is_alpha(#[trigger] s@[k]) || is_digit(s@[k]) || s@[k] == '_',
        decreases chars@.len() - i,
    {
        if !key_char(chars[i]) {
            assert(!(is_alpha(s@[i as int]) || is_digit(s@[i as int]) || s@[i as int] == '_'));
            return false;
        }
        i += 1;
    }
    true
}

/// `TAG,KEY=VALUE,KEY=VALUE...`, which is the shape of the meter's frames and
/// of anything else it may start sending.
pub fn parse_frame(line: &str) -> (row: Option<Row>)
    ensures
        row is Some <==> frame(line@) is Some,
        row matches Some(r) ==> frame(line@) == Some(r@) && r@.wf(),
{
    let parts: Vec<String> = text::split(line, ',');
    let ghost views = text::views(parts@);
    let ghost pairs = views.skip(1);
    proof {
        text::lemma_pieces_nonempty(line@, ',');
    }
    if !is_tag(parts[0].as_str()) {
        assert(views[0] == parts@[0]@);
        return None;
    }
    let mut cells: Cells = Cells::new();
    let mut extra: Vec<String> = Vec::new();
    extra.push(parts[0].clone());
    assert(text::views(extra@) =~= seq![views[0]]);
    assert(pairs.take(0) =~= Seq::<Seq<char>>::empty());
    assert(seq![views[0]] + leftover(pairs.take(0)) =~= seq![views[0]]);
    let mut i: usize = 1;
    while i < parts.len()
        invariant
            1 <= i <= parts@.len(),
            views == text::views(parts@),
            views == text::pieces(line@, ','),
            pairs == views.skip(1),
            tag_ok(views[0]),
            cells@ == filled(pairs.take(i - 1)),
            cells@.len() == COLUMNS,
            text::views(extra@) == seq![views[0]] + leftover(pairs.take(i - 1)),
            forall|k: int| 0 <= k < i - 1 ==> pair_ok(#[trigger] pairs[k]),
        decreases parts@.len() - i,
    {
        let part: &String = &parts[i];
        proof {
            assert(pairs[i - 1] == part@);
            assert(pairs.take(i as int).drop_last() =~= pairs.take(i - 1));
        }
        let halves: Option<(String, String)> = text::split_once(part.as_str(), '=');
        match halves {
            None => {
                assert(!pair_ok(pairs[i - 1]));
                return None;
            },
            Some((key, value)) => {
                if !is_key(key.as_str()) {
                    assert(!pair_ok(pairs[i - 1]));
                    return None;
                }
                match field_for(key.as_str()) {
                    Some(column) => {
                        cells.set(column, value);
                    },
                    None => {
                        let ghost before = extra@;
                        extra.push(part.clone());
                        assert(text::views(extra@) =~= text::views(before).push(part@));
                    },
                }
                assert(text::views(extra@) =~= seq![views[0]] + leftover(pairs.take(i as int)));
            },
        }
        i += 1;
    }
    if parts.len() == 1 {
        return None;
    }
    assert(pairs.take(i - 1) =~= pairs);
    let mut tags: Vec<String> = Vec::new();
    tags.push(parts[0].clone());
    let mut all: Vec<String> = Vec::new();
    all.push(text::join(&extra, ","));
    let row: Row = Row { cells, tags, extra: all };
    assert(row@ =~= frame(line@)->0);
    Some(row)
}

// ---- Lines --------------------------------------------------------------

/// Where the first line ends, or the length where none does.
pub open spec fn newline(bytes: Seq<u8>) -> int
    decreases bytes.len(),
{
    if bytes.len() == 0 || bytes[0] == 10 {
        0
    } else {
        1 + newline(bytes.skip(1))
    }
}

pub proof fn lemma_newline(bytes: Seq<u8>)
    ensures
        0 <= newline(bytes) <= bytes.len(),
        newline(bytes) < bytes.len() ==> bytes[newline(bytes)] == 10,
        forall|i: int| 0 <= i < newline(bytes) ==> bytes[i] != 10,
    decreases bytes.len(),
{
    if bytes.len() > 0 && bytes[0] != 10 {
        lemma_newline(bytes.skip(1));
        assert forall|i: int| 0 <= i < newline(bytes) implies bytes[i] != 10 by {
            if i > 0 {
                assert(bytes.skip(1)[i - 1] == bytes[i]);
            }
        }
    }
}

/// The first newline is the one that nothing stands before.
pub proof fn lemma_newline_is(bytes: Seq<u8>, at: int)
    requires
        0 <= at <= bytes.len(),
        at < bytes.len() ==> bytes[at] == 10,
        forall|i: int| 0 <= i < at ==> bytes[i] != 10,
    ensures
        newline(bytes) == at,
{
    lemma_newline(bytes);
}

/// A line's text: carriage returns dropped, whitespace trimmed.
pub open spec fn line_text(bytes: Seq<u8>) -> Seq<char> {
    cleaned(text::lossy(bytes))
}

/// Without carriage returns, and without whitespace at either end.
pub open spec fn cleaned(line: Seq<char>) -> Seq<char> {
    text::trimmed(text::without(line, '\r'))
}

/// A decoded line as it is queued.
pub fn clean_line(line: &str) -> (clean: String)
    ensures
        clean@ == cleaned(line@),
{
    let plain: String = text::remove(line, '\r');
    text::trim(plain.as_str())
}

/// The whole lines in a run of bytes, empty ones left out.
pub open spec fn lines_in(bytes: Seq<u8>) -> Seq<Seq<char>>
    decreases bytes.len(),
{
    proof {
        lemma_newline(bytes);
    }
    let end = newline(bytes);
    if end < bytes.len() {
        let line = line_text(bytes.take(end));
        let rest = lines_in(bytes.skip(end + 1));
        if line.len() > 0 {
            seq![line] + rest
        } else {
            rest
        }
    } else {
        Seq::empty()
    }
}

/// The whole lines in a run of ASCII bytes, a character per byte.
pub open spec fn plain_lines_in(bytes: Seq<u8>) -> Seq<Seq<char>>
    decreases bytes.len(),
{
    proof {
        lemma_newline(bytes);
    }
    let end = newline(bytes);
    if end < bytes.len() {
        let line = cleaned(text::chars_in(bytes.take(end)));
        let rest = plain_lines_in(bytes.skip(end + 1));
        if line.len() > 0 {
            seq![line] + rest
        } else {
            rest
        }
    } else {
        Seq::empty()
    }
}

/// What follows the last whole line.
pub open spec fn tail_of(bytes: Seq<u8>) -> Seq<u8>
    decreases bytes.len(),
{
    proof {
        lemma_newline(bytes);
    }
    let end = newline(bytes);
    if end < bytes.len() {
        tail_of(bytes.skip(end + 1))
    } else {
        bytes
    }
}

fn find_newline(bytes: &[u8], from: usize) -> (at: usize)
    requires
        from <= bytes@.len(),
    ensures
        from <= at <= bytes@.len(),
        at - from == newline(bytes@.skip(from as int)),
{
    let mut i: usize = from;
    while i < bytes.len()
        invariant
            from <= i <= bytes@.len(),
            forall|k: int| from <= k < i ==> bytes@[k] != 10,
        decreases bytes@.len() - i,
    {
        if bytes[i] == 10 {
            proof {
                lemma_newline_is(bytes@.skip(from as int), i - from);
            }
            return i;
        }
        i += 1;
    }
    proof {
        lemma_newline_is(bytes@.skip(from as int), i - from);
    }
    i
}

/// Drains whole lines out of `pending`, leaving any partial tail behind.
///
/// Notifications have no relation to line boundaries: a frame routinely
/// arrives split over two, and two frames in one. ASCII lines are queued as
/// they were sent.
pub fn split_lines(pending: &mut Vec<u8>, out: &mut VecDeque<String>)
    ensures
        text::views(final(out)@) == text::views(old(out)@) + lines_in(old(pending)@),
        text::is_ascii(old(pending)@) ==> lines_in(old(pending)@) == plain_lines_in(old(pending)@),
        final(pending)@ == tail_of(old(pending)@),
{
    let ghost all = pending@;
    let ghost before = text::views(out@);
    let mut from: usize = 0;
    assert(all.skip(0) =~= all);
    assert(text::views(out@) + lines_in(all.skip(0)) =~= before + lines_in(all));
    assert(text::views(out@) + plain_lines_in(all.skip(0)) =~= before + plain_lines_in(all));
    loop
        invariant_except_break
            from <= pending@.len(),
            pending@ == all,
            text::views(out@) + lines_in(all.skip(from as int)) == before + lines_in(all),
            text::is_ascii(all) ==> text::views(out@) + plain_lines_in(all.skip(from as int)) == before
                + plain_lines_in(all),
            tail_of(all.skip(from as int)) == tail_of(all),
        ensures
            from <= pending@.len(),
            pending@ == all,
            text::views(out@) == before + lines_in(all),
            text::is_ascii(all) ==> text::views(out@) == before + plain_lines_in(all),
            all.skip(from as int) == tail_of(all),
        decreases pending@.len() + 1 - from,
    {
        let ghost rest = all.skip(from as int);
        let end: usize = find_newline(pending.as_slice(), from);
        proof {
            lemma_newline(rest);
        }
        if end == pending.len() {
            assert(text::views(out@) + lines_in(rest) =~= text::views(out@));
            assert(text::views(out@) + plain_lines_in(rest) =~= text::views(out@));
            break;
        }
        let line: &[u8] = vstd::slice::slice_subrange(pending.as_slice(), from, end);
        assert(line@ =~= rest.take(end - from));
        let decoded: String = text::decode_lossy(line);
        proof {
            if text::is_ascii(all) {
                assert forall|i: int| 0 <= i < line@.len() implies #[trigger] line@[i] < 128 by {
                    assert(line@[i] == all[from + i]);
                }
                text::lemma_ascii_decodes(line@);
            }
        }
        let clean: String = clean_line(decoded.as_str());
        assert(rest.skip(end - from + 1) =~= all.skip(end + 1));
        let ghost queued = out@;
        if !clean.as_str().is_empty() {
            out.push_back(clean);
            assert(text::views(out@) =~= text::views(queued).push(clean@));
            assert(text::views(out@) + lines_in(all.skip(end + 1)) =~= text::views(queued) + lines_in(rest));
            assert(text::is_ascii(all) ==> text::views(out@) + plain_lines_in(all.skip(end + 1)) =~= text::views(queued)
                + plain_lines_in(rest));
        } else {
            assert(lines_in(rest) =~= lines_in(all.skip(end + 1)));
            assert(text::is_ascii(all) ==> plain_lines_in(rest) =~= plain_lines_in(all.skip(end + 1)));
        }
        from = end + 1;
    }
    let mut tail: Vec<u8> = Vec::new();
    let mut i: usize = from;
    while i < pending.len()
        invariant
            from <= i <= pending@.len(),
            pending@ == all,
            tail@ == all.subrange(from as int, i as int),
        decreases pending@.len() - i,
    {
        tail.push(pending[i]);
        assert(all.subrange(from as int, i + 1) =~= all.subrange(from as int, i as int).push(all[i as int]));
        i += 1;
    }
    assert(tail@ =~= all.skip(from as int));
    *pending = tail;
    proof {
        if text::is_ascii(all) {
            let n = before.len() as int;
            assert((before + lines_in(all)).skip(n) =~= lines_in(all));
            assert((before + plain_lines_in(all)).skip(n) =~= plain_lines_in(all));
        }
    }
}

/// How bytes are split over notifications makes no difference to the lines
/// that come of them.
pub proof fn law_notifications_do_not_matter(first: Seq<u8>, second: Seq<u8>)
    ensures
        lines_in(first + second) == lines_in(first) + lines_in(tail_of(first) + second),
        tail_of(first + second) == tail_of(tail_of(first) + second),
    decreases first.len(),
{
    lemma_newline(first);
    let end = newline(first);
    let both = first + second;
    if end < first.len() {
        lemma_newline_is(both, end);
        assert(both.take(end) =~= first.take(end));
        assert(both.skip(end + 1) =~= first.skip(end + 1) + second);
        law_notifications_do_not_matter(first.skip(end + 1), second);
        assert(lines_in(both) =~= lines_in(first) + lines_in(tail_of(first) + second));
    } else {
        assert(Seq::<Seq<char>>::empty() + lines_in(both) =~= lines_in(both));
    }
}

/// The receiving side of the link: bytes that are not a line yet, and lines
/// that nobody has asked for yet.
#[derive(Debug)]
pub struct Wire {
    pending: Vec<u8>,
    queue: VecDeque<String>,
}

#[verifier::ext_equal]
pub struct WireView {
    pub pending: Seq<u8>,
    pub queue: Seq<Seq<char>>,
}

impl View for Wire {
    type V = WireView;

    closed spec fn view(&self) -> WireView {
        WireView { pending: self.pending@, queue: text::views(self.queue@) }
    }
}

impl Wire {
    pub fn new() -> (wire: Wire)
        ensures
            wire@.pending.len() == 0,
            wire@.queue.len() == 0,
    {
        Wire { pending: Vec::new(), queue: VecDeque::new() }
    }

    /// Take one notification's bytes.
    pub fn receive(&mut self, data: &[u8])
        ensures
            final(self)@ == (WireView {
                pending: tail_of(old(self)@.pending + data@),
                queue: old(self)@.queue + lines_in(old(self)@.pending + data@),
            }),
            text::is_ascii(old(self)@.pending + data@) ==> final(self)@.queue == old(self)@.queue + plain_lines_in(
                old(self)@.pending + data@,
            ),
    {
        let ghost before = self.pending@;
        let mut i: usize = 0;
        while i < data.len()
            invariant
                i <= data@.len(),
                self.pending@ == before + data@.take(i as int),
                self.queue == old(self).queue,
            decreases data@.len() - i,
        {
            self.pending.push(data[i]);
            assert(data@.take(i + 1) =~= data@.take(i as int).push(data@[i as int]));
            i += 1;
        }
        assert(data@.take(i as int) =~= data@);
        split_lines(&mut self.pending, &mut self.queue);
    }

    /// The next whole line, if there is one.
    pub fn next_line(&mut self) -> (line: Option<String>)
        ensures
            match line {
                Some(text) => {
                    &&& old(self)@.queue.len() > 0
                    &&& text@ == old(self)@.queue[0]
                    &&& final(self)@ == (WireView { queue: old(self)@.queue.skip(1), ..old(self)@ })
                },
                None => old(self)@.queue.len() == 0 && final(self)@ == old(self)@,
            },
    {
        let line: Option<String> = self.queue.pop_front();
        assert(line is Some ==> self@.queue =~= old(self)@.queue.skip(1));
        line
    }

    fn is_silent(&self) -> (yes: bool)
        ensures
            yes == (self@.pending.len() == 0 && self@.queue.len() == 0),
    {
        self.pending.len() == 0 && self.queue.len() == 0
    }
}

/// Throwing away what nobody asked for, so that a request starts from
/// silence. Lines are discarded, never bytes: a partial tail is waited out,
/// and dropped only if it never completes.
#[derive(Clone, Copy, Debug, PartialEq, Eq, Structural)]
pub enum Discard {
    /// Wait a moment for another line; so many were dropped.
    Quiet(u64),
    /// Wait, once, a while longer for the tail to complete.
    Stranded(u64),
    /// The link is silent.
    Silent(u64),
}

/// How long a line is waited for while discarding, in milliseconds.
pub const QUIET_MS: u64 = 60;

/// How long a stranded tail is given to complete, in milliseconds.
pub const STRANDED_MS: u64 = 300;

impl Discard {
    pub open spec fn count(self) -> u64 {
        match self {
            Discard::Quiet(n) => n,
            Discard::Stranded(n) => n,
            Discard::Silent(n) => n,
        }
    }

    /// After a line was dropped; whether the link is silent now.
    pub open spec fn after_line(self, silent: bool) -> Discard {
        match self {
            Discard::Quiet(n) => Discard::Quiet((n + 1) as u64),
            Discard::Stranded(n) => if silent {
                Discard::Silent((n + 1) as u64)
            } else {
                Discard::Stranded((n + 1) as u64)
            },
            Discard::Silent(n) => Discard::Silent(n),
        }
    }

    /// After no line came; whether part of one is there.
    pub open spec fn after_wait(self, partial: bool) -> Discard {
        match self {
            Discard::Quiet(n) => if partial {
                Discard::Stranded(n)
            } else {
                Discard::Silent(n)
            },
            Discard::Stranded(n) => Discard::Silent(n),
            Discard::Silent(n) => Discard::Silent(n),
        }
    }

    pub fn start() -> (state: Discard)
        ensures
            state == Discard::Quiet(0),
    {
        Discard::Quiet(0)
    }

    /// A line came in time and was dropped; this is what is left.
    pub fn dropped(self, wire: &Wire) -> (next: Discard)
        requires
            self.count() < u64::MAX,
        ensures
            next == self.after_line(wire@.pending.len() == 0 && wire@.queue.len() == 0),
            next == match self {
                Discard::Quiet(n) => Discard::Quiet((n + 1) as u64),
                Discard::Stranded(n) => if wire@.pending.len() == 0 && wire@.queue.len() == 0 {
                    Discard::Silent((n + 1) as u64)
                } else {
                    Discard::Stranded((n + 1) as u64)
                },
                Discard::Silent(n) => Discard::Silent(n),
            },
    {
        match self {
            Discard::Quiet(n) => Discard::Quiet(n + 1),
            Discard::Stranded(n) => if wire.is_silent() {
                Discard::Silent(n + 1)
            } else {
                Discard::Stranded(n + 1)
            },
            Discard::Silent(n) => Discard::Silent(n),
        }
    }

    /// No line came in time, or none can come any more.
    pub fn quiet(self, wire: &mut Wire) -> (next: Discard)
        requires
            old(wire)@.queue.len() == 0,
        ensures
            final(wire)@.queue.len() == 0,
            next == self.after_wait(old(wire)@.pending.len() > 0),
            match self {
                Discard::Quiet(n) => {
                    &&& final(wire)@ == old(wire)@
                    &&& next == if old(wire)@.pending.len() == 0 {
                        Discard::Silent(n)
                    } else {
                        Discard::Stranded(n)
                    }
                },
                Discard::Stranded(n) => next == Discard::Silent(n) && final(wire)@.pending.len() == 0,
                Discard::Silent(n) => next == Discard::Silent(n) && final(wire)@ == old(wire)@,
            },
            next is Silent && !(self is Silent) ==> final(wire)@.pending.len() == 0,
    {
        match self {
            Discard::Quiet(n) => if wire.is_silent() {
                Discard::Silent(n)
            } else {
                Discard::Stranded(n)
            },
            Discard::Stranded(n) => {
                wire.pending.clear();
                Discard::Silent(n)
            },
            Discard::Silent(n) => Discard::Silent(n),
        }
    }
}

// ---- The log file -------------------------------------------------------

/// The names of the columns.
pub open spec fn names() -> Seq<Seq<char>> {
    Seq::new(COLUMNS as nat, |i: int| column_name(i))
}

/// The first line of a log.
pub fn header() -> (line: String)
    ensures
        line@ == text::joined(names(), ","@),
{
    let mut list: Vec<String> = Vec::new();
    let mut i: usize = 0;
    while i < COLUMNS
        invariant
            i <= COLUMNS,
            text::views(list@) == names().take(i as int),
        decreases COLUMNS - i,
    {
        let ghost before = list@;
        list.push(name_at(i).to_owned());
        assert(text::views(list@) =~= text::views(before).push(column_name(i as int)));
        assert(names().take(i + 1) =~= names().take(i as int).push(column_name(i as int)));
        i += 1;
    }
    assert(names().take(i as int) =~= names());
    text::join(&list, ",")
}

/// Whether rows may be appended under this first line. Rows of one shape
/// under a header of another would parse without complaint and mean something
/// else.
pub fn header_matches(first: &str) -> (yes: bool)
    ensures
        yes == (text::trimmed(first@) == text::joined(names(), ","@)),
{
    let trimmed: String = text::trim(first);
    let want: String = header();
    text::same(trimmed.as_str(), want.as_str())
}

/// A character that has to be quoted.
pub open spec fn is_special(c: char) -> bool {
    c == ',' || c == '"' || c == '\n' || c == '\r'
}

/// With every quote doubled.
pub open spec fn doubled(s: Seq<char>) -> Seq<char>
    decreases s.len(),
{
    if s.len() == 0 {
        s
    } else if s[0] == '"' {
        seq!['"', '"'] + doubled(s.skip(1))
    } else {
        seq![s[0]] + doubled(s.skip(1))
    }
}

/// A value as it is written in a row.
pub open spec fn escaped(s: Seq<char>) -> Seq<char> {
    if exists|i: int| 0 <= i < s.len() && is_special(#[trigger] s[i]) {
        seq!['"'] + doubled(s) + seq!['"']
    } else {
        s
    }
}

/// A value as it is written in a row: quoted where it holds a separator, a
/// quote or a line end.
pub fn escape(value: &str) -> (out: String)
    ensures
        out@ == escaped(value@),
{
    let chars: Vec<char> = text::chars_of(value);
    let mut special: bool = false;
    let mut i: usize = 0;
    while i < chars.len()
        invariant
            i <= chars@.len(),
            chars@ == value@,
            special == exists|k: int| 0 <= k < i && is_special(#[trigger] value@[k]),
        decreases chars@.len() - i,
    {
        let c: char = chars[i];
        if c == ',' || c == '"' || c == '\n' || c == '\r' {
            special = true;
            assert(is_special(value@[i as int]));
        }
        i += 1;
    }
    if !special {
        return value.to_owned();
    }
    let mut out: String = String::new();
    out.push('"');
    let mut j: usize = 0;
    assert(chars@.skip(0) =~= value@);
    while j < chars.len()
        invariant
            j <= chars@.len(),
            chars@ == value@,
            out@ + doubled(value@.skip(j as int)) == seq!['"'] + doubled(value@),
        decreases chars@.len() - j,
    {
        let ghost before = out@;
        let ghost rest = value@.skip(j as int);
        let c: char = chars[j];
        assert(rest[0] == c);
        assert(rest.skip(1) =~= value@.skip(j + 1));
        if c == '"' {
            out.push('"');
        }
        out.push(c);
        assert(out@ + doubled(rest.skip(1)) =~= before + doubled(rest));
        j += 1;
    }
    assert(value@.skip(j as int) =~= Seq::<char>::empty());
    assert(out@ =~= seq!['"'] + doubled(value@));
    out.push('"');
    assert(out@ =~= escaped(value@));
    out
}

/// The values of a row, an empty one where nothing was said.
pub open spec fn values(cells: Seq<Option<Seq<char>>>) -> Seq<Seq<char>> {
    cells.map_values(
        |cell: Option<Seq<char>>|
            match cell {
                Some(s) => s,
                None => Seq::empty(),
            },
    )
}

/// A row as it is written.
pub open spec fn csv(values: Seq<Seq<char>>) -> Seq<char> {
    text::joined(values.map_values(|s: Seq<char>| escaped(s)), ","@)
}

impl Cells {
    /// The row as it is written to the log.
    pub fn to_csv(&self) -> (line: String)
        requires
            self@.len() == COLUMNS,
        ensures
            line@ == csv(values(self@)),
    {
        let ghost want = values(self@).map_values(|s: Seq<char>| escaped(s));
        let mut list: Vec<String> = Vec::new();
        let mut i: usize = 0;
        while i < COLUMNS
            invariant
                i <= COLUMNS,
                self@.len() == COLUMNS,
                want == values(self@).map_values(|s: Seq<char>| escaped(s)),
                text::views(list@) == want.take(i as int),
            decreases COLUMNS - i,
        {
            let ghost before = list@;
            let cell: String = match &self.list[i] {
                Some(s) => escape(s.as_str()),
                None => {
                    let empty: String = String::new();
                    escape(empty.as_str())
                },
            };
            assert(cell@ == escaped(values(self@)[i as int]));
            list.push(cell);
            assert(text::views(list@) =~= text::views(before).push(cell@));
            assert(want.take(i + 1) =~= want.take(i as int).push(want[i as int]));
            i += 1;
        }
        assert(want.take(i as int) =~= want);
        text::join(&list, ",")
    }
}

/// Where in a field a reader of the log stands.
pub enum Field {
    Start,
    Plain,
    Quoted,
    /// A quote inside quotes: the end of them, or half of a doubled one.
    Quote,
}

/// The fields of a row, as a reader of comma-separated values takes them
/// apart.
pub open spec fn fields(s: Seq<char>, so_far: Seq<char>, at: Field) -> Seq<Seq<char>>
    decreases s.len(),
{
    if s.len() == 0 {
        seq![so_far]
    } else {
        let c = s[0];
        let rest = s.skip(1);
        match at {
            Field::Quoted => if c == '"' {
                fields(rest, so_far, Field::Quote)
            } else {
                fields(rest, so_far.push(c), Field::Quoted)
            },
            Field::Quote => if c == '"' {
                fields(rest, so_far.push(c), Field::Quoted)
            } else if c == ',' {
                seq![so_far] + fields(rest, Seq::empty(), Field::Start)
            } else {
                fields(rest, so_far.push(c), Field::Plain)
            },
            Field::Start if c == '"' => fields(rest, so_far, Field::Quoted),
            _ => if c == ',' {
                seq![so_far] + fields(rest, Seq::empty(), Field::Start)
            } else {
                fields(rest, so_far.push(c), Field::Plain)
            },
        }
    }
}

proof fn lemma_quoted(v: Seq<char>, tail: Seq<char>, so_far: Seq<char>)
    ensures
        fields(doubled(v) + seq!['"'] + tail, so_far, Field::Quoted) == fields(tail, so_far + v, Field::Quote),
    decreases v.len(),
{
    let all = doubled(v) + seq!['"'] + tail;
    if v.len() == 0 {
        assert(all[0] == '"');
        assert(all.skip(1) =~= tail);
        assert(so_far + v =~= so_far);
    } else {
        let rest = v.skip(1);
        let after = doubled(rest) + seq!['"'] + tail;
        lemma_quoted(rest, tail, so_far.push(v[0]));
        assert(so_far.push(v[0]) + rest =~= so_far + v);
        if v[0] == '"' {
            assert(all[0] == '"' && all[1] == '"');
            assert(all.skip(1)[0] == '"');
            assert(all.skip(1).skip(1) =~= after);
            assert(fields(all.skip(1), so_far, Field::Quote) == fields(after, so_far.push('"'), Field::Quoted));
        } else {
            assert(all[0] == v[0]);
            assert(all.skip(1) =~= after);
        }
    }
}

proof fn lemma_plain(v: Seq<char>, tail: Seq<char>, so_far: Seq<char>)
    requires
        forall|i: int| 0 <= i < v.len() ==> !is_special(#[trigger] v[i]),
        v.len() > 0,
    ensures
        fields(v + tail, so_far, Field::Plain) == fields(tail, so_far + v, Field::Plain),
        so_far.len() == 0 ==> fields(v + tail, so_far, Field::Start) == fields(tail, so_far + v, Field::Plain),
    decreases v.len(),
{
    let all = v + tail;
    let rest = v.skip(1);
    assert(!is_special(v[0]));
    assert(all[0] == v[0]);
    assert(all.skip(1) =~= rest + tail);
    if rest.len() > 0 {
        assert forall|i: int| 0 <= i < rest.len() implies !is_special(#[trigger] rest[i]) by {
            assert(rest[i] == v[i + 1]);
        }
        lemma_plain(rest, tail, so_far.push(v[0]));
        assert(so_far.push(v[0]) + rest =~= so_far + v);
    } else {
        assert(rest + tail =~= tail);
        assert(so_far.push(v[0]) =~= so_far + v);
    }
}

proof fn lemma_field(v: Seq<char>, tail: Seq<char>)
    requires
        tail.len() > 0 ==> tail[0] == ',',
    ensures
        fields(escaped(v) + tail, Seq::empty(), Field::Start) == if tail.len() == 0 {
            seq![v]
        } else {
            seq![v] + fields(tail.skip(1), Seq::empty(), Field::Start)
        },
{
    let none = Seq::<char>::empty();
    let all = escaped(v) + tail;
    assert(none + v =~= v);
    if exists|i: int| 0 <= i < v.len() && is_special(#[trigger] v[i]) {
        assert(all[0] == '"');
        assert(all.skip(1) =~= doubled(v) + seq!['"'] + tail);
        lemma_quoted(v, tail, none);
    } else if v.len() > 0 {
        lemma_plain(v, tail, none);
    } else {
        assert(all =~= tail);
        assert(v =~= none);
    }
}

/// A row reads back as the values that were written, whatever they hold.
pub proof fn law_rows_read_back(list: Seq<Seq<char>>)
    requires
        list.len() > 0,
    ensures
        fields(csv(list), Seq::empty(), Field::Start) == list,
    decreases list.len(),
{
    let out = list.map_values(|s: Seq<char>| escaped(s));
    let none = Seq::<char>::empty();
    reveal_strlit(",");
    if list.len() == 1 {
        assert(out =~= seq![escaped(list[0])]);
        assert(csv(list) =~= escaped(list[0]) + none);
        lemma_field(list[0], none);
        assert(seq![list[0]] =~= list);
    } else {
        let rest = list.skip(1);
        let out_rest = rest.map_values(|s: Seq<char>| escaped(s));
        assert(out.skip(1) =~= out_rest);
        text::lemma_joined_from_the_front(out, ","@);
        let tail = ","@ + csv(rest);
        assert(csv(list) =~= escaped(list[0]) + tail);
        assert(tail[0] == ',');
        assert(tail.skip(1) =~= csv(rest));
        lemma_field(list[0], tail);
        law_rows_read_back(rest);
        assert(seq![list[0]] + rest =~= list);
    }
}

// ---- Finding the meter --------------------------------------------------

/// The GATT characteristic that carries the link: 0xFFE1 in the base UUID.
pub const CHAR_UUID: u128 = 0x0000ffe1_0000_1000_8000_00805f9b34fb;

/// Whether an upper-case name is one a meter advertises.
pub open spec fn meter_name(upper: Seq<char>) -> bool {
    ||| text::occurs(upper, "HC-42"@)
    ||| text::occurs(upper, "HC42"@)
    ||| text::occurs(upper, "METER"@)
    ||| text::occurs(upper, "AMMETER"@)
    ||| text::occurs(upper, "BYJX_"@)
}

/// Whether an upper-case name passes an upper-case filter, or, without one,
/// is a meter's.
pub open spec fn passes(upper: Seq<char>, filter: Option<Seq<char>>) -> bool {
    match filter {
        Some(f) => text::occurs(upper, f),
        None => meter_name(upper),
    }
}

/// Whether an upper-case name passes an upper-case filter, or, without one,
/// is a meter's.
pub fn name_passes(upper: &str, filter: Option<&str>) -> (yes: bool)
    ensures
        yes == passes(
            upper@,
            match filter {
                Some(f) => Some(f@),
                None => None,
            },
        ),
{
    match filter {
        Some(f) => text::contains(upper, f),
        None => text::contains(upper, "HC-42") || text::contains(upper, "HC42") || text::contains(upper, "METER")
            || text::contains(upper, "AMMETER") || text::contains(upper, "BYJX_"),
    }
}

/// Whether an advertised name is that of a meter worth connecting to. Case
/// does not count, and a device without a name never is.
pub fn is_candidate(name: Option<&str>, filter: Option<&str>) -> (yes: bool)
    ensures
        yes == match name {
            Some(n) => passes(
                text::uppercase(n@),
                match filter {
                    Some(f) => Some(text::uppercase(f@)),
                    None => None,
                },
            ),
            None => false,
        },
{
    match name {
        None => false,
        Some(n) => {
            let upper: String = text::to_uppercase(n);
            match filter {
                Some(f) => {
                    let wanted: String = text::to_uppercase(f);
                    name_passes(upper.as_str(), Some(wanted.as_str()))
                },
                None => name_passes(upper.as_str(), None),
            }
        },
    }
}

/// Whether a device is the one asked for: by part of its identifier or its
/// address where one was given, by its name otherwise.
pub fn is_wanted(
    address: Option<&str>,
    id: &str,
    mac: &str,
    name: Option<&str>,
    filter: Option<&str>,
) -> (yes: bool)
    ensures
        yes == match address {
            Some(a) => text::occurs(text::uppercase(id@), text::uppercase(a@)) || text::occurs(
                text::uppercase(mac@),
                text::uppercase(a@),
            ),
            None => match name {
                Some(n) => passes(
                    text::uppercase(n@),
                    match filter {
                        Some(f) => Some(text::uppercase(f@)),
                        None => None,
                    },
                ),
                None => false,
            },
        },
{
    match address {
        Some(a) => {
            let wanted: String = text::to_uppercase(a);
            let by_id: String = text::to_uppercase(id);
            if text::contains(by_id.as_str(), wanted.as_str()) {
                return true;
            }
            let by_mac: String = text::to_uppercase(mac);
            text::contains(by_mac.as_str(), wanted.as_str())
        },
        None => is_candidate(name, filter),
    }
}

// ---- The run ------------------------------------------------------------

/// What asks the meter for a reading, one address or whoever hears it.
pub open spec fn request_text(addr: Option<u8>) -> Seq<char> {
    match addr {
        Some(n) => "MEAS,ADDR="@ + text::decimal(n as int) + "\n"@,
        None => "MEAS\n"@,
    }
}

/// What asks the meter for a reading, one address or whoever hears it.
pub fn request(addr: Option<u8>) -> (line: String)
    ensures
        line@ == request_text(addr),
{
    match addr {
        Some(n) => {
            let mut line: String = "MEAS,ADDR=".to_owned();
            text::push_decimal(&mut line, n as u64);
            line.append("\n");
            line
        },
        None => "MEAS\n".to_owned(),
    }
}

/// A reading in hand: when its first frame arrived, what it says, and the
/// lines it was taken from.
#[derive(Debug)]
pub struct Reading {
    pub arrived: u64,
    pub row: Row,
    pub raw: String,
}

#[verifier::ext_equal]
pub struct ReadingView {
    pub arrived: u64,
    pub row: RowView,
    pub raw: Seq<char>,
}

impl View for Reading {
    type V = ReadingView;

    open spec fn view(&self) -> ReadingView {
        ReadingView { arrived: self.arrived, row: self.row@, raw: self.raw@ }
    }
}

/// What a line says while an answer is awaited.
#[derive(Debug)]
pub enum Heard {
    /// The answer.
    Reading(Reading),
    /// A frame without a measurement.
    Other,
    /// Not a frame.
    Unparsed,
}

/// What a line says while the rest of a reading is collected.
#[derive(Clone, Copy, Debug, PartialEq, Eq, Structural)]
pub enum Burst {
    /// Another frame of this reading.
    Merged,
    /// The first frame of the next one: stop collecting.
    Carried,
    /// A frame that was there before and measures nothing, such as a second
    /// heartbeat: it opens no row, and is dropped.
    Repeated,
    /// Not a frame.
    Unparsed,
}

/// What to do next.
#[derive(Debug)]
pub enum Next {
    /// End the run.
    Stop,
    /// Paused: look again in a moment.
    Nap,
    /// Ask the meter for a reading.
    Request { with_response: bool },
    /// A reading is in hand already: pair it with the reference.
    Pair(Reading),
}

/// What a key press did.
#[derive(Clone, Copy, Debug, PartialEq, Eq, Structural)]
pub enum Key {
    Stopped,
    Paused,
    Resumed,
}

/// The run: one request outstanding at a time, and the next only once the
/// previous reading has been paired with the reference.
#[derive(Debug)]
pub struct Session {
    quit: bool,
    paused: bool,
    with_response: bool,
    carry: Option<Reading>,
    rows: u64,
}

#[verifier::ext_equal]
pub struct SessionView {
    pub quit: bool,
    pub paused: bool,
    /// Writes wait for a response, the stack having refused those without.
    pub with_response: bool,
    /// A reading that arrived while another one was collected.
    pub carry: Option<ReadingView>,
    pub rows: u64,
}

impl View for Session {
    type V = SessionView;

    closed spec fn view(&self) -> SessionView {
        SessionView {
            quit: self.quit,
            paused: self.paused,
            with_response: self.with_response,
            carry: match self.carry {
                Some(reading) => Some(reading@),
                None => None,
            },
            rows: self.rows,
        }
    }
}

impl SessionView {
    /// What is carried over is a whole reading.
    pub open spec fn wf(self) -> bool {
        self.carry matches Some(reading) ==> reading.row.wf() && reading.row.has_reading()
    }
}

/// How long the next request is held back.
pub open spec fn held_back(in_hand: bool, arrived: int, gap: int, now: int) -> int {
    if in_hand || now >= arrived + gap {
        0
    } else {
        arrived + gap - now
    }
}

/// What a line says while an answer is awaited.
pub fn hear(line: &str, now: u64) -> (heard: Heard)
    ensures
        match heard {
            Heard::Reading(reading) => {
                &&& frame(line@) == Some(reading@.row)
                &&& reading@.row.has_reading()
                &&& reading@.row.wf()
                &&& reading@.arrived == now
                &&& reading@.raw == line@
            },
            Heard::Other => frame(line@) matches Some(row) && !row.has_reading(),
            Heard::Unparsed => frame(line@) is None,
        },
{
    match parse_frame(line) {
        Some(row) => if row.has_reading() {
            Heard::Reading(Reading { arrived: now, row, raw: line.to_owned() })
        } else {
            Heard::Other
        },
        None => Heard::Unparsed,
    }
}

impl ReadingView {
    /// With a later frame of the same reading folded in.
    pub open spec fn joined_by(self, line: Seq<char>, row: RowView) -> ReadingView {
        ReadingView { raw: self.raw + " | "@ + line, row: self.row.merged(row), ..self }
    }

    /// The cells of its row, with what the reference said and when.
    pub open spec fn recorded(self, time: Seq<char>, amps: Seq<char>, lag_ms: int) -> Seq<Option<Seq<char>>> {
        self.row.cells.update(Column::Time.place(), Some(time)).update(Column::DmmA.place(), Some(amps)).update(
            Column::LagMs.place(),
            Some(text::decimal(lag_ms)),
        ).update(Column::Extra.place(), Some(text::joined(self.row.extra, ","@))).update(
            Column::Raw.place(),
            Some(self.raw),
        )
    }
}

/// What a line is to a reading that is being collected.
pub open spec fn sorted_as(so_far: RowView, line: Seq<char>) -> Burst {
    match frame(line) {
        None => Burst::Unparsed,
        Some(row) => if !so_far.collides_with(row) {
            Burst::Merged
        } else if row.has_reading() {
            Burst::Carried
        } else {
            Burst::Repeated
        },
    }
}

impl Session {
    pub fn new() -> (session: Session)
        ensures
            session@ == (SessionView { quit: false, paused: false, with_response: false, carry: None, rows: 0 }),
            session@.wf(),
    {
        Session { quit: false, paused: false, with_response: false, carry: None, rows: 0 }
    }

    /// Stop after the reading in flight.
    pub fn stop(&mut self)
        ensures
            final(self)@ == (SessionView { quit: true, ..old(self)@ }),
    {
        self.quit = true;
    }

    /// A line from the keyboard: `q` stops, anything else pauses or resumes.
    pub fn key(&mut self, line: &str) -> (key: Key)
        ensures
            ({
                let k = text::trimmed(line@);
                if k == "q"@ || k == "Q"@ {
                    key == Key::Stopped && final(self)@ == (SessionView { quit: true, ..old(self)@ })
                } else {
                    &&& key == if old(self)@.paused {
                        Key::Resumed
                    } else {
                        Key::Paused
                    }
                    &&& final(self)@ == (SessionView { paused: !old(self)@.paused, ..old(self)@ })
                }
            }),
    {
        let k: String = text::trim(line);
        if text::same(k.as_str(), "q") || text::same(k.as_str(), "Q") {
            self.quit = true;
            Key::Stopped
        } else {
            self.paused = !self.paused;
            if self.paused {
                Key::Paused
            } else {
                Key::Resumed
            }
        }
    }

    /// What to do next. A reading already in hand needs no request: asking
    /// for another one on top of it is how a backlog gets built.
    pub fn next(&mut self) -> (next: Next)
        requires
            old(self)@.wf(),
        ensures
            final(self)@.wf(),
            match next {
                Next::Stop => old(self)@.quit && final(self)@ == old(self)@,
                Next::Nap => !old(self)@.quit && old(self)@.paused && final(self)@ == old(self)@,
                Next::Pair(reading) => {
                    &&& !old(self)@.quit && !old(self)@.paused
                    &&& old(self)@.carry == Some(reading@)
                    &&& reading@.row.wf() && reading@.row.has_reading()
                    &&& final(self)@ == (SessionView { carry: None, ..old(self)@ })
                },
                Next::Request { with_response } => {
                    &&& !old(self)@.quit && !old(self)@.paused
                    &&& old(self)@.carry is None
                    &&& with_response == old(self)@.with_response
                    &&& final(self)@ == old(self)@
                },
            },
    {
        if self.quit {
            return Next::Stop;
        }
        if self.paused {
            return Next::Nap;
        }
        match self.carry.take() {
            Some(reading) => Next::Pair(reading),
            None => Next::Request { with_response: self.with_response },
        }
    }

    /// The request could not be written. Says whether that was the first
    /// refusal of a write without response, after which writes ask for one.
    pub fn write_failed(&mut self) -> (fell_back: bool)
        ensures
            fell_back == !old(self)@.with_response,
            final(self)@ == (SessionView { with_response: true, ..old(self)@ }),
    {
        let fell_back: bool = !self.with_response;
        self.with_response = true;
        fell_back
    }

    /// A line that came while the rest of a reading was being collected. A
    /// frame that reports what the reading already has is the start of the
    /// next one, unless it measures nothing: then it belongs to no row.
    pub fn collect(&mut self, reading: &mut Reading, line: &str, now: u64) -> (burst: Burst)
        requires
            old(self)@.carry is None,
            old(reading)@.row.wf(),
        ensures
            final(self)@.wf(),
            final(reading)@.row.wf(),
            burst == sorted_as(old(reading)@.row, line@),
            old(reading)@.row.has_reading() ==> final(reading)@.row.has_reading(),
            match frame(line@) {
                None => {
                    &&& burst == Burst::Unparsed
                    &&& final(self)@ == old(self)@
                    &&& final(reading)@ == old(reading)@
                },
                Some(row) => if old(reading)@.row.collides_with(row) && !row.has_reading() {
                    &&& burst == Burst::Repeated
                    &&& final(self)@ == old(self)@
                    &&& final(reading)@ == old(reading)@
                } else if old(reading)@.row.collides_with(row) {
                    &&& burst == Burst::Carried
                    &&& final(reading)@ == old(reading)@
                    &&& final(self)@ == (SessionView {
                        carry: Some(ReadingView { arrived: now, row, raw: line@ }),
                        ..old(self)@
                    })
                } else {
                    &&& burst == Burst::Merged
                    &&& final(self)@ == old(self)@
                    &&& final(reading)@ == old(reading)@.joined_by(line@, row)
                },
            },
    {
        match parse_frame(line) {
            None => Burst::Unparsed,
            Some(row) => if reading.row.collides_with(&row) {
                if !row.has_reading() {
                    return Burst::Repeated;
                }
                self.carry = Some(Reading { arrived: now, row, raw: line.to_owned() });
                Burst::Carried
            } else {
                reading.raw.append(" | ");
                reading.raw.append(line);
                reading.row.merge(row);
                assert(reading@ =~= old(reading)@.joined_by(line@, row@));
                Burst::Merged
            },
        }
    }

    /// The row of a finished reading: when it is written, what the reference
    /// said, and how far that trails the meter's frame.
    pub fn record(&mut self, reading: Reading, time: String, amps: Option<String>, lag_ms: u64) -> (cells: Cells)
        requires
            reading@.row.wf(),
            old(self)@.rows < u64::MAX,
        ensures
            final(self)@ == (SessionView { rows: (old(self)@.rows + 1) as u64, ..old(self)@ }),
            cells@.len() == COLUMNS,
            cells@ == reading@.recorded(
                time@,
                match amps {
                    Some(a) => a@,
                    None => Seq::empty(),
                },
                lag_ms as int,
            ),
    {
        let extra: String = text::join(&reading.row.extra, ",");
        let mut cells: Cells = reading.row.cells;
        cells.set(Column::Time, time);
        let reference: String = match amps {
            Some(a) => a,
            None => String::new(),
        };
        cells.set(Column::DmmA, reference);
        cells.set(Column::LagMs, text::decimal_string(lag_ms));
        cells.set(Column::Extra, extra);
        cells.set(Column::Raw, reading.raw);
        self.rows = self.rows + 1;
        cells
    }

    /// How long to hold the next request back: the meter does not listen for
    /// a while after it has answered. Timed from the answer, and not at all
    /// when a reading is already in hand.
    pub fn hold_back(&self, arrived: u64, gap: u64, now: u64) -> (wait: u64)
        requires
            arrived + gap <= u64::MAX,
        ensures
            wait == held_back(self@.carry is Some, arrived as int, gap as int, now as int),
            wait == if self@.carry is Some || now >= arrived + gap {
                0
            } else {
                arrived + gap - now
            },
    {
        match &self.carry {
            Some(_) => 0,
            None => if now >= arrived + gap {
                0
            } else {
                arrived + gap - now
            },
        }
    }

    /// How many rows were written.
    pub fn rows(&self) -> (n: u64)
        ensures
            n == self@.rows,
    {
        self.rows
    }
}

/// One row is one reading: folding in a frame that does not collide never
/// replaces a measurement the row has, and never repeats a tag.
pub proof fn law_one_row_is_one_reading(row: RowView, other: RowView)
    requires
        row.wf(),
        other.wf(),
        !row.collides_with(other),
    ensures
        row.says(Column::RmsLsb) ==> row.merged(other).cells[Column::RmsLsb.place()]
            == row.cells[Column::RmsLsb.place()],
        row.says(Column::CurrentMa) ==> row.merged(other).cells[Column::CurrentMa.place()]
            == row.cells[Column::CurrentMa.place()],
        row.tags.no_duplicates() && other.tags.no_duplicates() ==> row.merged(other).tags.no_duplicates(),
{
    if row.tags.no_duplicates() && other.tags.no_duplicates() {
        let tags = row.merged(other).tags;
        let n = row.tags.len();
        assert forall|i: int, j: int| 0 <= i < tags.len() && 0 <= j < tags.len() && i != j implies tags[i]
            != tags[j] by {
            if i < n && j >= n {
                assert(!row.tags.contains(other.tags[j - n]));
                assert(tags[i] == row.tags[i]);
            } else if i >= n && j < n {
                assert(!row.tags.contains(other.tags[i - n]));
                assert(tags[j] == row.tags[j]);
            }
        }
    }
}

/// Every row that is written holds a measurement, the raw RMS or the scaled
/// current: what opens a row has one, folding a frame in keeps it, and so does
/// writing the row.
pub proof fn law_every_row_holds_a_reading(
    reading: ReadingView,
    line: Seq<char>,
    other: RowView,
    time: Seq<char>,
    amps: Seq<char>,
    lag_ms: int,
)
    requires
        reading.row.wf(),
        reading.row.has_reading(),
        other.wf(),
    ensures
        reading.joined_by(line, other).row.wf(),
        reading.joined_by(line, other).row.has_reading(),
        ({
            let cells = reading.recorded(time, amps, lag_ms);
            cells[Column::RmsLsb.place()] is Some || cells[Column::CurrentMa.place()] is Some
        }),
{
}

/// A frame of a reading that is already complete collides with it, so the
/// same frame sent again never lands in the same row.
pub proof fn law_repeated_frame_is_not_folded_in(line: Seq<char>, row: RowView, later: RowView)
    requires
        frame(line) == Some(row),
        later.wf(),
    ensures
        row.collides_with(row),
        row.merged(later).collides_with(row),
{
    assert(row.tags[0] == text::pieces(line, ',')[0]);
    assert(row.tags.contains(row.tags[0]));
    assert(row.merged(later).tags[0] == row.tags[0]);
    assert(row.merged(later).tags.contains(row.tags[0]));
}

// ---- What the log is for ------------------------------------------------

/// The cells stand under their names, in this order.
pub proof fn law_cells_stand_under_their_names(column: Column)
    ensures
        names().len() == 13,
        0 <= column.place() < 13,
        names()[column.place()] == match column {
            Column::Time => "time"@,
            Column::DmmA => "dmm_a"@,
            Column::LagMs => "lag_ms"@,
            Column::RmsLsb => "rms_lsb"@,
            Column::Gain => "gain"@,
            Column::Flag => "flag"@,
            Column::CurrentMa => "current_ma"@,
            Column::Status => "status"@,
            Column::Addr => "addr"@,
            Column::Mean => "mean"@,
            Column::Pp => "pp"@,
            Column::Extra => "extra"@,
            Column::Raw => "raw"@,
        },
{
}

/// No two columns share a place.
pub proof fn law_columns_have_places_of_their_own(a: Column, b: Column)
    requires
        a != b,
    ensures
        a.place() != b.place(),
{
}

/// A row that is written says when it was, what the reference said, and by how
/// many milliseconds that trails the meter, whatever the lag: its digits are
/// worth it. The rest of the row is the reading's own.
pub proof fn law_row_says_what_was_recorded(
    reading: ReadingView,
    time: Seq<char>,
    amps: Seq<char>,
    lag_ms: int,
    column: Column,
)
    requires
        reading.row.wf(),
        lag_ms >= 0,
    ensures
        ({
            let cell = reading.recorded(time, amps, lag_ms)[column.place()];
            match column {
                Column::Time => cell == Some(time),
                Column::DmmA => cell == Some(amps),
                Column::LagMs => cell matches Some(lag) && text::worth(lag) == lag_ms && forall|i: int|
                    0 <= i < lag.len() ==> '0' <= #[trigger] lag[i] <= '9',
                Column::Extra => cell == Some(text::joined(reading.row.extra, ","@)),
                Column::Raw => cell == Some(reading.raw),
                _ => cell == reading.row.cells[column.place()],
            }
        }),
        reading.recorded(time, amps, lag_ms).len() == 13,
{
    text::law_decimal_is_worth_its_number(lag_ms);
}

/// Two lags are written the same only if they are.
pub proof fn law_lags_are_told_apart(reading: ReadingView, time: Seq<char>, amps: Seq<char>, a: int, b: int)
    requires
        reading.row.wf(),
        a >= 0,
        b >= 0,
        a != b,
    ensures
        reading.recorded(time, amps, a)[Column::LagMs.place()] != reading.recorded(
            time,
            amps,
            b,
        )[Column::LagMs.place()],
{
    law_row_says_what_was_recorded(reading, time, amps, a, Column::LagMs);
    law_row_says_what_was_recorded(reading, time, amps, b, Column::LagMs);
}

/// A frame carries a reading exactly if it reports the raw RMS or the scaled
/// current, and two frames belong to different readings exactly if they share
/// a tag or both report the same one of the two.
pub proof fn law_readings_are_told_apart_by_tags_and_measurements(row: RowView, other: RowView)
    requires
        row.wf(),
        other.wf(),
    ensures
        row.has_reading() <==> row.cells[Column::RmsLsb.place()] is Some || row.cells[Column::CurrentMa.place()] is Some,
        row.collides_with(other) <==> {
            ||| exists|tag: Seq<char>| #[trigger] row.tags.contains(tag) && other.tags.contains(tag)
            ||| row.cells[Column::RmsLsb.place()] is Some && other.cells[Column::RmsLsb.place()] is Some
            ||| row.cells[Column::CurrentMa.place()] is Some && other.cells[Column::CurrentMa.place()] is Some
        },
        row.collides_with(other) == other.collides_with(row),
{
    if exists|tag: Seq<char>| #[trigger] row.tags.contains(tag) && other.tags.contains(tag) {
        let tag = choose|tag: Seq<char>| #[trigger] row.tags.contains(tag) && other.tags.contains(tag);
        let i = choose|i: int| 0 <= i < other.tags.len() && other.tags[i] == tag;
        let j = choose|j: int| 0 <= j < row.tags.len() && row.tags[j] == tag;
        assert(row.tags.contains(other.tags[i]));
        assert(other.tags.contains(row.tags[j]));
    }
    if exists|i: int| 0 <= i < other.tags.len() && row.tags.contains(#[trigger] other.tags[i]) {
        let i = choose|i: int| 0 <= i < other.tags.len() && row.tags.contains(#[trigger] other.tags[i]);
        assert(row.tags.contains(other.tags[i]) && other.tags.contains(other.tags[i]));
    }
    if exists|j: int| 0 <= j < row.tags.len() && other.tags.contains(#[trigger] row.tags[j]) {
        let j = choose|j: int| 0 <= j < row.tags.len() && other.tags.contains(#[trigger] row.tags[j]);
        assert(row.tags.contains(row.tags[j]) && other.tags.contains(row.tags[j]));
    }
}

/// Folding a frame in keeps every cell it does not fill and takes every cell
/// it does; tags and extras follow those that were there, and so does the line
/// it was taken from.
pub proof fn law_folding_in_keeps_everything(reading: ReadingView, line: Seq<char>, other: RowView, i: int)
    requires
        reading.row.wf(),
        other.wf(),
        0 <= i < 13,
    ensures
        ({
            let now = reading.joined_by(line, other);
            &&& other.cells[i] is Some ==> now.row.cells[i] == other.cells[i]
            &&& other.cells[i] is None ==> now.row.cells[i] == reading.row.cells[i]
            &&& now.row.cells.len() == 13
            &&& now.row.tags == reading.row.tags + other.tags
            &&& now.row.extra == reading.row.extra + other.extra
            &&& now.raw == reading.raw + " | "@ + line
            &&& now.arrived == reading.arrived
        }),
{
}

/// A line ends at its line feed: what stands before it is a line, unless it is
/// blank, and what follows is dealt with as if nothing had gone before.
/// Without a line feed everything is kept for later.
pub proof fn law_line_feeds_end_lines(line: Seq<u8>, rest: Seq<u8>)
    requires
        !line.contains(10),
    ensures
        lines_in(line) == Seq::<Seq<char>>::empty(),
        tail_of(line) == line,
        tail_of(line + seq![10u8] + rest) == tail_of(rest),
        lines_in(line + seq![10u8] + rest) == if line_text(line).len() == 0 {
            lines_in(rest)
        } else {
            seq![line_text(line)] + lines_in(rest)
        },
{
    let all = line + seq![10u8] + rest;
    let n = line.len() as int;
    assert forall|i: int| 0 <= i < n implies line[i] != 10 && all[i] != 10 by {
        assert(line.contains(line[i]));
    }
    lemma_newline_is(line, n);
    lemma_newline_is(all, n);
    assert(all.take(n) =~= line);
    assert(all.skip(n + 1) =~= rest);
}

/// A line's text is what was decoded, without carriage returns, and without
/// blanks at its ends.
pub proof fn law_lines_lose_carriage_returns_and_blank_ends(line: Seq<char>)
    ensures
        ({
            let plain = line.filter(|c: char| c != '\r');
            exists|a: int, b: int|
                {
                    &&& 0 <= a <= b <= plain.len()
                    &&& cleaned(line) == #[trigger] plain.subrange(a, b)
                    &&& forall|i: int| 0 <= i < a || b <= i < plain.len() ==> text::is_white(#[trigger] plain[i])
                    &&& a < b ==> !text::is_white(plain[a]) && !text::is_white(plain[b - 1])
                }
        }),
{
    text::law_removal_keeps_the_rest(line, '\r');
    text::law_trimming_takes_the_ends(line.filter(|c: char| c != '\r'));
}

/// A value is quoted only where it has to be: one without a comma, a quote or
/// a line end is written as it is.
pub proof fn law_plain_values_are_written_as_they_are(s: Seq<char>)
    ensures
        !s.contains(',') && !s.contains('"') && !s.contains('\n') && !s.contains('\r') ==> escaped(s) == s,
        s.contains(',') || s.contains('"') || s.contains('\n') || s.contains('\r') ==> escaped(s)[0] == '"'
            && escaped(s).last() == '"' && escaped(s).len() >= s.len() + 2,
{
    lemma_doubled_is_longer(s);
    if exists|i: int| 0 <= i < s.len() && is_special(#[trigger] s[i]) {
        let i = choose|i: int| 0 <= i < s.len() && is_special(#[trigger] s[i]);
        assert(s.contains(s[i]));
    }
    if s.contains(',') || s.contains('"') || s.contains('\n') || s.contains('\r') {
        let i = choose|i: int| 0 <= i < s.len() && (s[i] == ',' || s[i] == '"' || s[i] == '\n' || s[i] == '\r');
        assert(is_special(s[i]));
    }
}

proof fn lemma_doubled_is_longer(s: Seq<char>)
    ensures
        doubled(s).len() >= s.len(),
    decreases s.len(),
{
    if s.len() > 0 {
        lemma_doubled_is_longer(s.skip(1));
    }
}

/// A column is found by its key in whatever case, and the key decides alone.
pub proof fn law_keys_are_found_in_any_case(key: Seq<char>, other: Seq<char>)
    requires
        text::ascii_upper(key) == text::ascii_upper(other),
    ensures
        column_for(key) == column_for(other),
{
}

/// A row's values are its cells, in order, and an empty one where nothing was
/// said.
pub proof fn law_values_are_the_cells(cells: Seq<Option<Seq<char>>>, i: int)
    requires
        0 <= i < cells.len(),
    ensures
        values(cells).len() == cells.len(),
        cells[i] matches Some(s) ==> values(cells)[i] == s,
        cells[i] is None ==> values(cells)[i].len() == 0,
{
}

/// Without a filter a meter is known by one of the names its radio goes by,
/// anywhere in what it advertises; with one, by the filter alone.
pub proof fn law_meters_are_known_by_their_names(before: Seq<char>, name: Seq<char>, after: Seq<char>, filter: Seq<char>)
    requires
        name == "HC-42"@ || name == "HC42"@ || name == "METER"@ || name == "BYJX_"@,
    ensures
        passes(before + name + after, None),
        passes(before + filter + after, Some(filter)),
        passes(filter, Some(name)) <==> exists|at: int|
            0 <= at <= filter.len() - name.len() && #[trigger] filter.subrange(at, at + name.len()) == name,
{
    let all = before + name + after;
    let n = before.len() as int;
    assert(all.subrange(n, n + name.len()) =~= name);
    assert(text::occurs_at(all, name, n));
    let filtered = before + filter + after;
    assert(filtered.subrange(n, n + filter.len()) =~= filter);
    assert(text::occurs_at(filtered, filter, n));
    if text::occurs(filter, name) {
        let at = choose|at: int| text::occurs_at(filter, name, at);
        assert(filter.subrange(at, at + name.len()) == name);
    }
    if exists|at: int| 0 <= at <= filter.len() - name.len() && #[trigger] filter.subrange(at, at + name.len()) == name {
        let at = choose|at: int|
            0 <= at <= filter.len() - name.len() && #[trigger] filter.subrange(at, at + name.len()) == name;
        assert(text::occurs_at(filter, name, at));
    }
}

/// A tag is written in capitals, digits and underscores and starts with a
/// capital; a key may have small letters too, and may start with an underscore.
pub proof fn law_tags_and_keys_are_words(s: Seq<char>)
    ensures
        tag_ok(s) <==> {
            &&& s.len() > 0
            &&& 'A' <= s[0] <= 'Z'
            &&& forall|i: int|
                0 <= i < s.len() ==> 'A' <= #[trigger] s[i] <= 'Z' || '0' <= s[i] <= '9' || s[i] == '_'
        },
        key_ok(s) <==> {
            &&& s.len() > 0
            &&& !('0' <= s[0] <= '9')
            &&& forall|i: int|
                0 <= i < s.len() ==> 'A' <= #[trigger] s[i] <= 'Z' || 'a' <= s[i] <= 'z' || '0' <= s[i] <= '9' || s[i]
                    == '_'
        },
{
}

/// What is no tag followed by pairs is no frame: a frame's parts are a tag and
/// one pair or more, each with a key in front of its first equals sign.
pub proof fn law_frames_are_tags_with_pairs(line: Seq<char>, i: int)
    requires
        frame(line) is Some,
        1 <= i < text::pieces(line, ',').len(),
    ensures
        text::pieces(line, ',').len() >= 2,
        tag_ok(text::pieces(line, ',')[0]),
        text::halves(text::pieces(line, ',')[i], '=') matches Some((key, _)) && key_ok(key),
        frame(line)->0.tags == seq![text::pieces(line, ',')[0]],
{
    let pairs = text::pieces(line, ',').skip(1);
    assert(pair_ok(pairs[i - 1]));
}

/// A line of a single part is no frame.
pub proof fn law_single_words_are_no_frames(line: Seq<char>)
    requires
        !line.contains(','),
    ensures
        frame(line) is None,
{
    assert forall|i: int| 0 <= i < line.len() implies line[i] != ',' by {
        assert(line.contains(line[i]));
    }
    text::lemma_pieces_step(line, ',', line);
}

/// A request is made as soon as the gap after the last answer is over and no
/// sooner, unless a reading is in hand, which needs no request to wait for.
pub proof fn law_requests_keep_their_distance(arrived: int, gap: int, now: int)
    requires
        arrived <= now,
        gap >= 0,
    ensures
        now + held_back(false, arrived, gap, now) >= arrived + gap,
        held_back(false, arrived, gap, now) > 0 ==> now + held_back(false, arrived, gap, now) == arrived + gap,
        0 <= held_back(false, arrived, gap, now) <= gap,
        held_back(true, arrived, gap, now) == 0,
{
}

/// Every line that comes while a reading is collected is one of four things:
/// no frame; a frame of the same reading; the first of the next one, which
/// carries a measurement; or one that was there before and carries none.
pub proof fn law_lines_are_sorted(so_far: RowView, line: Seq<char>, row: RowView)
    requires
        so_far.wf(),
        row.wf(),
        frame(line) == Some(row),
    ensures
        ({
            let repeats = (exists|tag: Seq<char>| #[trigger] so_far.tags.contains(tag) && row.tags.contains(tag)) || (
            so_far.cells[Column::RmsLsb.place()] is Some && row.cells[Column::RmsLsb.place()] is Some) || (
            so_far.cells[Column::CurrentMa.place()] is Some && row.cells[Column::CurrentMa.place()] is Some);
            let measures = row.cells[Column::RmsLsb.place()] is Some || row.cells[Column::CurrentMa.place()] is Some;
            &&& sorted_as(so_far, line) == Burst::Merged <==> !repeats
            &&& sorted_as(so_far, line) == Burst::Carried <==> repeats && measures
            &&& sorted_as(so_far, line) == Burst::Repeated <==> repeats && !measures
        }),
{
    law_readings_are_told_apart_by_tags_and_measurements(so_far, row);
    law_readings_are_told_apart_by_tags_and_measurements(row, so_far);
}

/// Discarding counts every line it drops and no other, is over only once the
/// link is silent or a tail was given its time, and gives a tail its time only
/// once.
pub proof fn law_discarding_ends_in_silence(state: Discard, silent: bool, partial: bool)
    requires
        state.count() < u64::MAX,
        !(state is Silent),
    ensures
        state.after_line(silent).count() == state.count() + 1,
        state.after_wait(partial).count() == state.count(),
        state.after_line(silent) is Silent <==> state is Stranded && silent,
        state.after_wait(partial) is Silent <==> state is Stranded || !partial,
        state.after_wait(partial) is Stranded <==> state is Quiet && partial,
        state.after_wait(partial).after_wait(partial) is Silent,
{
}

} // verus!
