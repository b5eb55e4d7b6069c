//! The field calibration table in flash: one sector, seven record slots.
//!
//! The supply can vanish mid-write, and two properties follow from that.
//! Records are appended, so the previous table stays readable while the next
//! one is written and an erase is needed on one store in seven; and the word
//! that makes a slot count as a record is programmed last, so a store cut
//! short leaves a slot that [`load`] skips. What gets past both still has to
//! match its checksum.

use crate::cal::{Table, TableView, FIELD_MAX};
use vstd::prelude::*;

verus! {

/// Address of the sector.
pub const SECTOR: u32 = 0x0001_FC00;

/// The same sector through the read alias that skips error correction.
pub const SECTOR_RAW: u32 = 0x0041_FC00;

/// The sector's size in 32-bit cells.
pub const SECTOR_CELLS: usize = 256;

/// Bytes in one flash word, the unit of programming: two cells.
pub const WORD: u32 = 8;

/// Write-protection bit that covers the sector.
pub const WEPROT_B_BIT: u32 = 11;

/// Marks a slot as holding a record, in this layout.
pub const MAGIC: u32 = 0x4341_4C31;

/// Flash words in a record: magic and sequence, length and checksum, points.
pub const RECORD_WORDS: usize = 18;

/// Cells in a record.
pub const RECORD_CELLS: usize = 36;

/// Records the sector has room for.
pub const SLOTS: usize = 7;

/// What an erased cell reads as.
pub const BLANK: u32 = 0xFFFF_FFFF;

#[derive(Clone, Copy, Debug, PartialEq, Eq, Structural)]
pub enum StoreError {
    /// The flash controller reported a failed command: the table in flash is
    /// not the table that was to be stored.
    Flash,
}

// ---- The checksum -------------------------------------------------------

/// One step of the reflected CRC-32 division.
pub open spec fn crc_bit(acc: u32) -> u32 {
    if acc & 1 != 0 {
        (acc >> 1) ^ 0xEDB8_8320
    } else {
        acc >> 1
    }
}

pub open spec fn crc_bits(acc: u32, n: nat) -> u32
    decreases n,
{
    if n == 0 {
        acc
    } else {
        crc_bit(crc_bits(acc, (n - 1) as nat))
    }
}

/// One byte into the running remainder.
pub open spec fn crc_byte(acc: u32, byte: u32) -> u32 {
    crc_bits(acc ^ byte, 8)
}

/// A 32-bit word into the running remainder, low byte first.
pub open spec fn crc_word(acc: u32, word: u32) -> u32 {
    crc_byte(
        crc_byte(
            crc_byte(crc_byte(acc, word % 256), (word / 256) % 256),
            (word / 0x1_0000) % 256,
        ),
        word / 0x100_0000,
    )
}

pub open spec fn crc_words(acc: u32, words: Seq<u32>) -> u32
    decreases words.len(),
{
    if words.len() == 0 {
        acc
    } else {
        crc_word(crc_words(acc, words.drop_last()), words.last())
    }
}

/// The points of a table as cells, coordinate after coordinate.
pub open spec fn point_cells(points: Seq<(u32, u32)>) -> Seq<u32> {
    Seq::new(
        2 * points.len(),
        |k: int|
            if k % 2 == 0 {
                points[k / 2].0
            } else {
                points[k / 2].1
            },
    )
}

/// CRC-32 over a record without its magic word and the checksum itself: the
/// sequence number, the length, and every slot of the table, used or not.
pub open spec fn checksum(table: TableView, seq: u32) -> u32 {
    !crc_words(0xFFFF_FFFF, seq![seq, table.len as u32] + point_cells(table.points))
}

fn feed_byte(acc: u32, byte: u32) -> (next: u32)
    ensures
        next == crc_byte(acc, byte),
{
    let start: u32 = acc ^ byte;
    let mut r: u32 = start;
    let mut n: u32 = 0;
    while n < 8
        invariant
            n <= 8,
            r == crc_bits(start, n as nat),
        decreases 8 - n,
    {
        r = if r & 1 != 0 { (r >> 1) ^ 0xEDB8_8320 } else { r >> 1 };
        n += 1;
    }
    r
}

fn feed(acc: u32, word: u32) -> (next: u32)
    ensures
        next == crc_word(acc, word),
{
    let a: u32 = feed_byte(acc, word % 256);
    let b: u32 = feed_byte(a, (word / 256) % 256);
    let c: u32 = feed_byte(b, (word / 0x1_0000) % 256);
    feed_byte(c, word / 0x100_0000)
}

/// CRC-32 over the whole record except the magic word, sequence included.
fn crc(table: &Table, seq: u32) -> (sum: u32)
    requires
        table.len <= FIELD_MAX,
    ensures
        sum == checksum(table@, seq),
{
    let ghost all = seq![seq, table@.len as u32] + point_cells(table@.points);
    let mut acc: u32 = 0xFFFF_FFFF;
    proof {
        assert(all.take(0) =~= Seq::<u32>::empty());
        lemma_crc_take(all, 0);
        lemma_crc_take(all, 1);
    }
    acc = feed(acc, seq);
    acc = feed(acc, table.len as u32);
    let mut i: usize = 0;
    while i < FIELD_MAX
        invariant
            i <= FIELD_MAX,
            table.len <= FIELD_MAX,
            all == seq![seq, table@.len as u32] + point_cells(table@.points),
            table@.points.len() == FIELD_MAX,
            acc == crc_words(0xFFFF_FFFF, all.take(2 + 2 * i)),
        decreases FIELD_MAX - i,
    {
        let (lsb, amps) = table.points[i];
        proof {
            lemma_crc_take(all, 2 + 2 * i);
            lemma_crc_take(all, 3 + 2 * i);
            assert(all[2 + 2 * i] == table@.points[i as int].0);
            assert(all[3 + 2 * i] == table@.points[i as int].1);
        }
        acc = feed(acc, lsb);
        acc = feed(acc, amps);
        i += 1;
    }
    assert(all.take(34) =~= all);
    !acc
}

proof fn lemma_crc_take(words: Seq<u32>, n: int)
    requires
        0 <= n < words.len(),
    ensures
        crc_words(0xFFFF_FFFF, words.take(n + 1)) == crc_word(crc_words(0xFFFF_FFFF, words.take(n)), words[n]),
{
    assert(words.take(n + 1).drop_last() =~= words.take(n));
}

// ---- Reading ------------------------------------------------------------

/// Cell `k` of a slot.
pub open spec fn cell(sector: Seq<u32>, slot: int, k: int) -> u32 {
    sector[slot * RECORD_CELLS + k]
}

/// The table a slot would hold, whether or not it is a record.
pub open spec fn slot_table(sector: Seq<u32>, slot: int) -> TableView {
    TableView {
        points: Seq::new(
            FIELD_MAX as nat,
            |i: int| (cell(sector, slot, 4 + 2 * i), cell(sector, slot, 5 + 2 * i)),
        ),
        len: cell(sector, slot, 2) as nat,
    }
}

/// Sequence number and table of the record in a slot, if it holds one: the
/// magic word, a length that is either none or at least two points, and a
/// checksum that matches.
pub open spec fn record(sector: Seq<u32>, slot: int) -> Option<(u32, TableView)> {
    let table = slot_table(sector, slot);
    let seq = cell(sector, slot, 1);
    if cell(sector, slot, 0) == MAGIC && table.len != 1 && table.len <= FIELD_MAX && checksum(table, seq) == cell(
        sector,
        slot,
        3,
    ) {
        Some((seq, table))
    } else {
        None
    }
}

/// The slot holds a record.
pub open spec fn holds(sector: Seq<u32>, slot: int) -> bool {
    0 <= slot < SLOTS && record(sector, slot) is Some
}

/// The sequence number of the record in a slot.
pub open spec fn seq_of(sector: Seq<u32>, slot: int) -> u32 {
    match record(sector, slot) {
        Some((seq, _)) => seq,
        None => 0,
    }
}

/// The table of the record in a slot.
pub open spec fn table_of(sector: Seq<u32>, slot: int) -> TableView {
    match record(sector, slot) {
        Some((_, table)) => table,
        None => TableView::empty(),
    }
}

/// The slot holds the newest record: no other has a higher sequence number,
/// and none before it the same.
pub open spec fn is_newest(sector: Seq<u32>, slot: int) -> bool {
    &&& holds(sector, slot)
    &&& forall|other: int| #[trigger]
        holds(sector, other) ==> seq_of(sector, other) < seq_of(sector, slot) || (seq_of(sector, other) == seq_of(
            sector,
            slot,
        ) && slot <= other)
}

/// The table of the newest record.
pub open spec fn loaded(sector: Seq<u32>) -> Option<TableView> {
    if exists|slot: int| is_newest(sector, slot) {
        Some(table_of(sector, choose|slot: int| is_newest(sector, slot)))
    } else {
        None
    }
}

/// Every cell of the slot still reads as erased.
pub open spec fn blank(sector: Seq<u32>, slot: int) -> bool {
    forall|k: int| 0 <= k < RECORD_CELLS ==> #[trigger] cell(sector, slot, k) == BLANK
}

/// `(sequence, table)` if the slot holds a record whose checksum matches.
fn read_slot(sector: &[u32; SECTOR_CELLS], slot: usize) -> (found: Option<(u32, Table)>)
    requires
        slot < SLOTS,
    ensures
        found is Some <==> record(sector@, slot as int) is Some,
        found matches Some(f) ==> record(sector@, slot as int) == Some((f.0, f.1@)),
{
    let base: usize = slot * RECORD_CELLS;
    if sector[base] != MAGIC {
        return None;
    }
    let seq: u32 = sector[base + 1];
    let len: u32 = sector[base + 2];
    let stored: u32 = sector[base + 3];
    if len == 1 || len > FIELD_MAX as u32 {
        return None;
    }
    let mut table: Table = Table::empty();
    table.len = len as usize;
    let mut i: usize = 0;
    while i < FIELD_MAX
        invariant
            i <= FIELD_MAX,
            base == slot * RECORD_CELLS,
            slot < SLOTS,
            table.len == len,
            forall|k: int|
                0 <= k < i ==> #[trigger] table.points@[k] == (
                    cell(sector@, slot as int, 4 + 2 * k),
                    cell(sector@, slot as int, 5 + 2 * k),
                ),
        decreases FIELD_MAX - i,
    {
        table.points[i] = (sector[base + 4 + 2 * i], sector[base + 5 + 2 * i]);
        i += 1;
    }
    assert(table@ =~= slot_table(sector@, slot as int));
    if crc(&table, seq) != stored {
        return None;
    }
    Some((seq, table))
}

/// Blank means every cell still reads as erased.
fn slot_is_blank(sector: &[u32; SECTOR_CELLS], slot: usize) -> (yes: bool)
    requires
        slot < SLOTS,
    ensures
        yes == blank(sector@, slot as int),
{
    let base: usize = slot * RECORD_CELLS;
    let mut k: usize = 0;
    while k < RECORD_CELLS
        invariant
            k <= RECORD_CELLS,
            base == slot * RECORD_CELLS,
            slot < SLOTS,
            forall|j: int| 0 <= j < k ==> #[trigger] cell(sector@, slot as int, j) == BLANK,
        decreases RECORD_CELLS - k,
    {
        if sector[base + k] != BLANK {
            assert(cell(sector@, slot as int, k as int) != BLANK);
            return false;
        }
        k += 1;
    }
    true
}

proof fn lemma_newest_is_loaded(sector: Seq<u32>, slot: int)
    requires
        is_newest(sector, slot),
    ensures
        loaded(sector) == Some(table_of(sector, slot)),
{
    let chosen = choose|slot: int| is_newest(sector, slot);
    assert(is_newest(sector, chosen));
    assert(chosen == slot);
}

/// Read the newest valid record. `None` means there is no table in flash: the
/// sector was never written, or nothing in it survives its checksum.
pub fn load(sector: &[u32; SECTOR_CELLS]) -> (table: Option<Table>)
    ensures
        table is Some <==> loaded(sector@) is Some,
        table matches Some(t) ==> loaded(sector@) == Some(t@),
{
    let mut best: Option<(u32, Table)> = None;
    let ghost mut at: int = 0;
    let mut slot: usize = 0;
    while slot < SLOTS
        invariant
            slot <= SLOTS,
            best is None ==> forall|other: int| 0 <= other < slot ==> !#[trigger] holds(sector@, other),
            best matches Some(b) ==> {
                &&& 0 <= at < slot
                &&& holds(sector@, at)
                &&& record(sector@, at) == Some((b.0, b.1@))
                &&& forall|other: int|
                    #![trigger holds(sector@, other)]
                    0 <= other < slot && holds(sector@, other) ==> seq_of(sector@, other) < b.0 || (seq_of(
                        sector@,
                        other,
                    ) == b.0 && at <= other)
            },
        decreases SLOTS - slot,
    {
        let found: Option<(u32, Table)> = read_slot(sector, slot);
        if let Some((seq, table)) = found {
            let newer: bool = match best {
                None => true,
                Some((best_seq, _)) => seq > best_seq,
            };
            if newer {
                best = Some((seq, table));
                proof {
                    at = slot as int;
                }
            }
        }
        slot += 1;
    }
    match best {
        None => {
            assert(forall|other: int| !#[trigger] is_newest(sector@, other));
            None
        },
        Some((_, table)) => {
            proof {
                assert(is_newest(sector@, at));
                lemma_newest_is_loaded(sector@, at);
            }
            Some(table)
        },
    }
}

// ---- Writing ------------------------------------------------------------

/// The slot holds the record an append follows: no other has a higher
/// sequence number, and none after it the same.
pub open spec fn is_latest(sector: Seq<u32>, slot: int) -> bool {
    &&& holds(sector, slot)
    &&& forall|other: int| #[trigger]
        holds(sector, other) ==> seq_of(sector, other) < seq_of(sector, slot) || (seq_of(sector, other) == seq_of(
            sector,
            slot,
        ) && other <= slot)
}

/// Where the scan of a sector says the next record goes, and the newest
/// sequence number it saw.
pub open spec fn scanned(sector: Seq<u32>) -> (int, u32) {
    if exists|slot: int| is_latest(sector, slot) {
        let slot = choose|slot: int| is_latest(sector, slot);
        (slot + 1, seq_of(sector, slot))
    } else {
        (0, 0)
    }
}

/// The append point: after the last store of this power cycle, or, before
/// there was one, where the scan says.
pub open spec fn append_point(last: Option<(usize, u32)>, sector: Seq<u32>) -> (int, u32) {
    match last {
        Some((slot, seq)) => (slot + 1, seq),
        None => scanned(sector),
    }
}

proof fn lemma_latest_is_scanned(sector: Seq<u32>, slot: int)
    requires
        is_latest(sector, slot),
    ensures
        scanned(sector) == (slot + 1, seq_of(sector, slot)),
{
    let chosen = choose|slot: int| is_latest(sector, slot);
    assert(is_latest(sector, chosen));
    assert(chosen == slot);
}

/// Where the next record goes, and the newest sequence number so far.
///
/// `last` is where the store before this one landed in this power cycle. It
/// is preferred to a scan because a read right after a program may still see
/// the old contents.
pub fn find_append_point(last: Option<(usize, u32)>, sector: &[u32; SECTOR_CELLS]) -> (at: (usize, u32))
    requires
        last matches Some(l) ==> l.0 < SLOTS,
    ensures
        at.0 == append_point(last, sector@).0,
        at.1 == append_point(last, sector@).1,
        at.0 <= SLOTS,
{
    if let Some((slot, seq)) = last {
        return (slot + 1, seq);
    }
    let mut newest: u32 = 0;
    let mut next: usize = 0;
    let mut slot: usize = 0;
    while slot < SLOTS
        invariant
            slot <= SLOTS,
            next <= slot,
            next == 0 ==> newest == 0 && forall|other: int| 0 <= other < slot ==> !#[trigger] holds(sector@, other),
            next > 0 ==> {
                &&& holds(sector@, next - 1)
                &&& seq_of(sector@, next - 1) == newest
                &&& forall|other: int|
                    #![trigger holds(sector@, other)]
                    0 <= other < slot && holds(sector@, other) ==> seq_of(sector@, other) < newest || (seq_of(
                        sector@,
                        other,
                    ) == newest && other < next)
            },
        decreases SLOTS - slot,
    {
        if let Some((seq, _)) = read_slot(sector, slot) {
            if seq >= newest {
                newest = seq;
                next = slot + 1;
            }
        }
        slot += 1;
    }
    proof {
        if next > 0 {
            assert(is_latest(sector@, next - 1));
            lemma_latest_is_scanned(sector@, next - 1);
        } else {
            assert(forall|other: int| !#[trigger] is_latest(sector@, other));
        }
    }
    (next, newest)
}

/// One flash word to program: its position in the sector, and its two cells.
#[derive(Clone, Copy, Debug, PartialEq, Eq, Structural)]
pub struct Program {
    pub word: usize,
    pub lo: u32,
    pub hi: u32,
}

impl Program {
    /// The address the controller is given.
    pub fn address(&self) -> (addr: u32)
        requires
            self.word < SECTOR_CELLS / 2,
        ensures
            addr == SECTOR + self.word * WORD,
    {
        SECTOR + self.word as u32 * WORD
    }
}

/// A store, ready to be carried out: erase if it says so, then program the
/// words in order. Stop at the first command that fails.
#[derive(Debug)]
pub struct StorePlan {
    pub erase: bool,
    pub slot: usize,
    pub seq: u32,
    pub writes: Vec<Program>,
}

/// What word `j` of a record holds, other than the first.
pub open spec fn body_word(table: TableView, seq: u32, j: int) -> (u32, u32) {
    if j == 1 {
        (table.len as u32, checksum(table, seq))
    } else {
        table.points[j - 2]
    }
}

/// The words of a record in the order they are programmed: everything else
/// first, the word that makes it a record last.
pub open spec fn record_writes(slot: int, table: TableView, seq: u32) -> Seq<Program> {
    Seq::new(
        RECORD_WORDS as nat,
        |i: int|
            if i < RECORD_WORDS - 1 {
                Program {
                    word: (slot * RECORD_WORDS + i + 1) as usize,
                    lo: body_word(table, seq, i + 1).0,
                    hi: body_word(table, seq, i + 1).1,
                }
            } else {
                Program { word: (slot * RECORD_WORDS) as usize, lo: MAGIC, hi: seq }
            },
    )
}

/// Whether the store has to erase first: the append point has run off the
/// end, or the slot it lands on holds debris.
pub open spec fn must_erase(last: Option<(usize, u32)>, sector: Seq<u32>) -> bool {
    append_point(last, sector).0 >= SLOTS || !blank(sector, append_point(last, sector).0)
}

/// Append `table` as the newest record, erasing the sector first if there is
/// no blank slot left.
///
/// The table is validated by the caller; any length a record can carry is
/// stored as it is.
pub fn store(last: Option<(usize, u32)>, sector: &[u32; SECTOR_CELLS], table: &Table) -> (plan: StorePlan)
    requires
        last matches Some(l) ==> l.0 < SLOTS,
        append_point(last, sector@).1 < u32::MAX,
        table.len <= FIELD_MAX,
    ensures
        plan.erase == must_erase(last, sector@),
        plan.slot == if plan.erase { 0 } else { append_point(last, sector@).0 },
        plan.slot < SLOTS,
        plan.seq == append_point(last, sector@).1 + 1,
        plan.writes@ == record_writes(plan.slot as int, table@, plan.seq),
{
    let (next, newest) = find_append_point(last, sector);
    let erase: bool = next >= SLOTS || !slot_is_blank(sector, next);
    let slot: usize = if erase { 0 } else { next };
    let seq: u32 = newest + 1;
    let base: usize = slot * RECORD_WORDS;
    let ghost want = record_writes(slot as int, table@, seq);
    let mut writes: Vec<Program> = Vec::new();
    writes.push(Program { word: base + 1, lo: table.len as u32, hi: crc(table, seq) });
    let mut i: usize = 0;
    while i < FIELD_MAX
        invariant
            i <= FIELD_MAX,
            slot < SLOTS,
            base == slot * RECORD_WORDS,
            table@.points.len() == FIELD_MAX,
            want == record_writes(slot as int, table@, seq),
            writes@ =~= want.take(i + 1),
        decreases FIELD_MAX - i,
    {
        let (lsb, amps) = table.points[i];
        writes.push(Program { word: base + 2 + i, lo: lsb, hi: amps });
        i += 1;
    }
    writes.push(Program { word: base, lo: MAGIC, hi: seq });
    assert(writes@ =~= want);
    StorePlan { erase, slot, seq, writes }
}

/// One command for the flash controller.
#[derive(Clone, Copy, Debug, PartialEq, Eq, Structural)]
pub enum Command {
    /// Erase the sector at [`SECTOR`].
    Erase,
    /// Program the word at this address.
    Program { addr: u32, lo: u32, hi: u32 },
}

/// The commands of a plan, in order.
pub open spec fn commands(erase: bool, writes: Seq<Program>) -> Seq<Command> {
    let programs = writes.map_values(
        |w: Program| Command::Program { addr: (SECTOR + w.word * WORD) as u32, lo: w.lo, hi: w.hi },
    );
    if erase {
        seq![Command::Erase] + programs
    } else {
        programs
    }
}

/// A store being carried out, one controller command at a time.
#[derive(Debug)]
pub struct StoreRun {
    plan: StorePlan,
    erased: bool,
    done: usize,
}

impl StoreRun {
    pub closed spec fn wf(&self) -> bool {
        &&& self.done <= self.plan.writes@.len()
        &&& !self.erased ==> self.done == 0
        &&& forall|i: int| 0 <= i < self.plan.writes@.len() ==> #[trigger] self.plan.writes@[i].word < SECTOR_CELLS / 2
    }

    /// Commands that are still to be given.
    pub closed spec fn left(&self) -> Seq<Command> {
        commands(!self.erased, self.plan.writes@.skip(self.done as int))
    }

    /// Where the record goes, and its sequence number.
    pub closed spec fn target(&self) -> (usize, u32) {
        (self.plan.slot, self.plan.seq)
    }

    pub fn new(plan: StorePlan) -> (run: StoreRun)
        requires
            forall|i: int| 0 <= i < plan.writes@.len() ==> #[trigger] plan.writes@[i].word < SECTOR_CELLS / 2,
        ensures
            run.wf(),
            run.left() == commands(plan.erase, plan.writes@),
            run.target() == (plan.slot, plan.seq),
    {
        let run: StoreRun = StoreRun { erased: !plan.erase, plan, done: 0 };
        assert(run.plan.writes@.skip(0) =~= run.plan.writes@);
        run
    }

    /// The command to give next, if any is left.
    pub fn command(&self) -> (next: Option<Command>)
        requires
            self.wf(),
        ensures
            next == if self.left().len() == 0 {
                None
            } else {
                Some(self.left()[0])
            },
    {
        if !self.erased {
            return Some(Command::Erase);
        }
        if self.done < self.plan.writes.len() {
            let w: Program = self.plan.writes[self.done];
            Some(Command::Program { addr: w.address(), lo: w.lo, hi: w.hi })
        } else {
            None
        }
    }

    /// Take the controller's verdict on that command. A failure ends the
    /// store.
    pub fn report(self, pass: bool) -> (run: Result<StoreRun, StoreError>)
        requires
            self.wf(),
            self.left().len() > 0,
        ensures
            !pass ==> run == Err::<StoreRun, StoreError>(StoreError::Flash),
            pass ==> {
                &&& run matches Ok(r)
                &&& r.wf()
                &&& r.left() == self.left().skip(1)
                &&& r.target() == self.target()
            },
    {
        if !pass {
            return Err(StoreError::Flash);
        }
        let ghost before = self.left();
        let mut run: StoreRun = self;
        if !run.erased {
            run.erased = true;
            assert(run.left() =~= before.skip(1));
        } else {
            assert(before.len() == run.plan.writes.len() - run.done);
            run.done = run.done + 1;
            assert(run.left() =~= before.skip(1));
        }
        Ok(run)
    }

    /// What the next store takes as `last`: this record's place once every
    /// command has passed, and what it was before otherwise.
    pub fn landed(&self, last: Option<(usize, u32)>) -> (now: Option<(usize, u32)>)
        requires
            self.wf(),
        ensures
            now == if self.left().len() == 0 {
                Some(self.target())
            } else {
                last
            },
    {
        if self.erased && self.done == self.plan.writes.len() {
            Some((self.plan.slot, self.plan.seq))
        } else {
            last
        }
    }
}

// ---- What the sector looks like afterwards ------------------------------

/// The sector after one word has been programmed.
pub open spec fn programmed(sector: Seq<u32>, write: Program) -> Seq<u32> {
    sector.update(2 * write.word, write.lo).update(2 * write.word + 1, write.hi)
}

/// The sector after a run of words has been programmed.
pub open spec fn after(sector: Seq<u32>, writes: Seq<Program>) -> Seq<u32>
    decreases writes.len(),
{
    if writes.len() == 0 {
        sector
    } else {
        programmed(after(sector, writes.drop_last()), writes.last())
    }
}

/// The sector after an erase.
pub open spec fn erased() -> Seq<u32> {
    Seq::new(SECTOR_CELLS as nat, |i: int| BLANK)
}

/// What the words of a store are programmed onto.
pub open spec fn ground(last: Option<(usize, u32)>, sector: Seq<u32>) -> Seq<u32> {
    if must_erase(last, sector) {
        erased()
    } else {
        sector
    }
}

/// The slot a store goes to.
pub open spec fn target_slot(last: Option<(usize, u32)>, sector: Seq<u32>) -> int {
    if must_erase(last, sector) {
        0
    } else {
        append_point(last, sector).0
    }
}

/// The sequence number a store gets.
pub open spec fn next_seq(last: Option<(usize, u32)>, sector: Seq<u32>) -> u32 {
    (append_point(last, sector).1 + 1) as u32
}

/// The words a store programs.
pub open spec fn store_writes(last: Option<(usize, u32)>, sector: Seq<u32>, table: TableView) -> Seq<Program> {
    record_writes(target_slot(last, sector), table, next_seq(last, sector))
}

/// The sector after the first `k` words of a store.
pub open spec fn stored(last: Option<(usize, u32)>, sector: Seq<u32>, table: TableView, k: int) -> Seq<u32> {
    after(ground(last, sector), store_writes(last, sector, table).take(k))
}

/// What is remembered of the last store agrees with the sector: nothing in it
/// is newer.
pub open spec fn remembers(last: Option<(usize, u32)>, sector: Seq<u32>) -> bool {
    &&& sector.len() == SECTOR_CELLS
    &&& last matches Some((slot, seq)) ==> slot < SLOTS && forall|other: int| #[trigger]
        holds(sector, other) ==> seq_of(sector, other) <= seq
}

/// A table a record can carry.
pub open spec fn storable(table: TableView) -> bool {
    table.points.len() == FIELD_MAX && table.len != 1 && table.len <= FIELD_MAX
}

/// Cell `c` of the sector after the first `k` words of a record.
spec fn image(sector: Seq<u32>, slot: int, table: TableView, seq: u32, k: int, c: int) -> u32 {
    let j = c / 2 - slot * RECORD_WORDS;
    if 1 <= j <= k && j < RECORD_WORDS {
        if c % 2 == 0 {
            body_word(table, seq, j).0
        } else {
            body_word(table, seq, j).1
        }
    } else if j == 0 && k >= RECORD_WORDS {
        if c % 2 == 0 {
            MAGIC
        } else {
            seq
        }
    } else {
        sector[c]
    }
}

proof fn lemma_image(sector: Seq<u32>, slot: int, table: TableView, seq: u32, k: int)
    requires
        sector.len() == SECTOR_CELLS,
        0 <= slot < SLOTS,
        0 <= k <= RECORD_WORDS,
    ensures
        after(sector, record_writes(slot, table, seq).take(k)).len() == SECTOR_CELLS,
        forall|c: int|
            0 <= c < SECTOR_CELLS ==> #[trigger] after(sector, record_writes(slot, table, seq).take(k))[c] == image(
                sector,
                slot,
                table,
                seq,
                k,
                c,
            ),
    decreases k,
{
    let writes = record_writes(slot, table, seq);
    if k > 0 {
        lemma_image(sector, slot, table, seq, k - 1);
        assert(writes.take(k).drop_last() =~= writes.take(k - 1));
    } else {
        assert(writes.take(0) =~= Seq::<Program>::empty());
    }
}

proof fn lemma_same_cells(a: Seq<u32>, b: Seq<u32>, slot: int)
    requires
        forall|k: int|
            #![trigger cell(a, slot, k)]
            #![trigger cell(b, slot, k)]
            0 <= k < RECORD_CELLS ==> cell(a, slot, k) == cell(b, slot, k),
    ensures
        record(a, slot) == record(b, slot),
        blank(a, slot) == blank(b, slot),
{
    assert(slot_table(a, slot) =~= slot_table(b, slot));
}

proof fn lemma_same_records(a: Seq<u32>, b: Seq<u32>)
    requires
        forall|slot: int| 0 <= slot < SLOTS ==> record(a, slot) == #[trigger] record(b, slot),
    ensures
        loaded(a) == loaded(b),
{
    assert forall|slot: int|
        #![trigger holds(a, slot)]
        #![trigger holds(b, slot)]
        holds(a, slot) == holds(b, slot) && (holds(a, slot) ==> seq_of(a, slot) == seq_of(b, slot)) by {
        assert(0 <= slot < SLOTS ==> record(a, slot) == record(b, slot));
    }
    if exists|slot: int| is_newest(a, slot) {
        let slot = choose|slot: int| is_newest(a, slot);
        assert(is_newest(b, slot));
        lemma_newest_is_loaded(a, slot);
        lemma_newest_is_loaded(b, slot);
        assert(record(a, slot) == record(b, slot));
    } else {
        assert forall|slot: int| !#[trigger] is_newest(b, slot) by {
            if is_newest(b, slot) {
                assert(is_newest(a, slot));
            }
        }
    }
}

proof fn lemma_append_point_in_range(last: Option<(usize, u32)>, sector: Seq<u32>)
    requires
        remembers(last, sector),
    ensures
        0 <= append_point(last, sector).0 <= SLOTS,
        0 <= target_slot(last, sector) < SLOTS,
        blank(ground(last, sector), target_slot(last, sector)),
        ground(last, sector).len() == SECTOR_CELLS,
{
    if last is None && exists|slot: int| is_latest(sector, slot) {
        let slot = choose|slot: int| is_latest(sector, slot);
        assert(holds(sector, slot));
    }
    assert(blank(erased(), 0));
}

/// Nothing in the sector is newer than the append point's sequence number.
proof fn lemma_append_point_is_newest(last: Option<(usize, u32)>, sector: Seq<u32>, other: int)
    requires
        remembers(last, sector),
        holds(sector, other),
    ensures
        seq_of(sector, other) <= append_point(last, sector).1,
{
    if last is None {
        lemma_latest_exists(sector, SLOTS as int, other);
        let slot = choose|slot: int| is_latest(sector, slot);
        assert(is_latest(sector, slot));
    }
}

/// `slot` is the latest among the first `n` slots.
spec fn latest_among(sector: Seq<u32>, n: int, slot: int) -> bool {
    &&& 0 <= slot < n
    &&& holds(sector, slot)
    &&& forall|other: int|
        #![trigger holds(sector, other)]
        0 <= other < n && holds(sector, other) ==> seq_of(sector, other) < seq_of(sector, slot) || (seq_of(
            sector,
            other,
        ) == seq_of(sector, slot) && other <= slot)
}

proof fn lemma_latest_among(sector: Seq<u32>, n: int, witness: int)
    requires
        0 <= witness < n <= SLOTS,
        holds(sector, witness),
    ensures
        exists|slot: int| latest_among(sector, n, slot),
    decreases n,
{
    if witness == n - 1 && forall|other: int| 0 <= other < n - 1 ==> !#[trigger] holds(sector, other) {
        assert(latest_among(sector, n, n - 1));
    } else {
        let w = if witness < n - 1 {
            witness
        } else {
            choose|other: int| 0 <= other < n - 1 && #[trigger] holds(sector, other)
        };
        let fewer = n - 1;
        lemma_latest_among(sector, fewer, w);
        let slot = choose|slot: int| latest_among(sector, fewer, slot);
        if holds(sector, n - 1) && seq_of(sector, n - 1) >= seq_of(sector, slot) {
            assert(latest_among(sector, n, n - 1));
        } else {
            assert(latest_among(sector, n, slot));
        }
    }
}

proof fn lemma_latest_exists(sector: Seq<u32>, n: int, witness: int)
    requires
        n == SLOTS,
        holds(sector, witness),
    ensures
        exists|slot: int| is_latest(sector, slot),
{
    lemma_latest_among(sector, n, witness);
    let slot = choose|slot: int| latest_among(sector, n, slot);
    assert(is_latest(sector, slot));
}

/// The records of a sector after the first `k` words of a store.
proof fn lemma_records_after(last: Option<(usize, u32)>, sector: Seq<u32>, table: TableView, k: int)
    requires
        remembers(last, sector),
        storable(table),
        0 <= k <= RECORD_WORDS,
    ensures
        stored(last, sector, table, k).len() == SECTOR_CELLS,
        forall|slot: int|
            #![trigger record(stored(last, sector, table, k), slot)]
            0 <= slot < SLOTS && slot != target_slot(last, sector) ==> record(stored(last, sector, table, k), slot)
                == record(ground(last, sector), slot),
        forall|slot: int|
            #![trigger blank(stored(last, sector, table, k), slot)]
            0 <= slot < SLOTS && slot != target_slot(last, sector) ==> blank(stored(last, sector, table, k), slot)
                == blank(ground(last, sector), slot),
        record(ground(last, sector), target_slot(last, sector)) is None,
        k < RECORD_WORDS ==> record(stored(last, sector, table, k), target_slot(last, sector)) is None,
        k == RECORD_WORDS ==> record(stored(last, sector, table, k), target_slot(last, sector)) == Some(
            (next_seq(last, sector), table),
        ),
{
    let target = target_slot(last, sector);
    let base = ground(last, sector);
    let seq = next_seq(last, sector);
    let now = stored(last, sector, table, k);
    lemma_append_point_in_range(last, sector);
    lemma_image(base, target, table, seq, k);
    assert(cell(base, target, 0) == BLANK);
    assert forall|slot: int| 0 <= slot < SLOTS && slot != target implies record(now, slot) == record(base, slot)
        && blank(now, slot) == blank(base, slot) by {
        assert forall|c: int| 0 <= c < RECORD_CELLS implies #[trigger] cell(now, slot, c) == cell(base, slot, c) by {
            let at = slot * RECORD_CELLS + c;
            assert(now[at] == image(base, target, table, seq, k, at));
        }
        lemma_same_cells(now, base, slot);
    }
    assert forall|c: int| 0 <= c < RECORD_CELLS implies #[trigger] cell(now, target, c) == image(
        base,
        target,
        table,
        seq,
        k,
        target * RECORD_CELLS + c,
    ) by {
        let at = target * RECORD_CELLS + c;
        assert(now[at] == image(base, target, table, seq, k, at));
    }
    let first = cell(now, target, 0);
    if k == RECORD_WORDS {
        assert(first == MAGIC);
        assert(cell(now, target, 1) == seq);
        assert(cell(now, target, 2) == table.len);
        assert forall|i: int| 0 <= i < FIELD_MAX implies #[trigger] slot_table(now, target).points[i]
            == table.points[i] by {
            assert(cell(now, target, 4 + 2 * i) == table.points[i].0);
            assert(cell(now, target, 5 + 2 * i) == table.points[i].1);
        }
        assert(slot_table(now, target) =~= table);
        assert(cell(now, target, 3) == checksum(table, seq));
    } else {
        assert(first == BLANK);
    }
}

/// After a completed store its slot holds the one newest record.
proof fn lemma_stored_is_newest(last: Option<(usize, u32)>, sector: Seq<u32>, table: TableView)
    requires
        remembers(last, sector),
        storable(table),
        append_point(last, sector).1 < u32::MAX,
    ensures
        0 <= target_slot(last, sector) < SLOTS,
        stored(last, sector, table, RECORD_WORDS as int).len() == SECTOR_CELLS,
        record(stored(last, sector, table, RECORD_WORDS as int), target_slot(last, sector)) == Some(
            (next_seq(last, sector), table),
        ),
        forall|other: int| #[trigger]
            holds(stored(last, sector, table, RECORD_WORDS as int), other) && other != target_slot(last, sector)
                ==> seq_of(stored(last, sector, table, RECORD_WORDS as int), other) < next_seq(last, sector),
{
    let target = target_slot(last, sector);
    let base = ground(last, sector);
    let now = stored(last, sector, table, RECORD_WORDS as int);
    lemma_append_point_in_range(last, sector);
    lemma_records_after(last, sector, table, RECORD_WORDS as int);
    assert forall|other: int| #[trigger] holds(now, other) && other != target implies seq_of(now, other) < next_seq(
        last,
        sector,
    ) by {
        assert(record(now, other) == record(base, other));
        if must_erase(last, sector) {
            assert(cell(base, other, 0) == BLANK);
        } else {
            assert(holds(sector, other));
            lemma_append_point_is_newest(last, sector, other);
        }
    }
}

/// What `load` returns after a completed store is what was stored, and the
/// store's place is then the one to remember.
pub proof fn law_load_returns_what_was_stored(last: Option<(usize, u32)>, sector: Seq<u32>, table: TableView)
    requires
        remembers(last, sector),
        storable(table),
        append_point(last, sector).1 < u32::MAX,
    ensures
        loaded(stored(last, sector, table, RECORD_WORDS as int)) == Some(table),
        remembers(
            Some((target_slot(last, sector) as usize, next_seq(last, sector))),
            stored(last, sector, table, RECORD_WORDS as int),
        ),
{
    let target = target_slot(last, sector);
    let now = stored(last, sector, table, RECORD_WORDS as int);
    lemma_stored_is_newest(last, sector, table);
    assert(is_newest(now, target));
    lemma_newest_is_loaded(now, target);
}

/// A store cut short after any word but the last leaves what `load` returns
/// unchanged, as long as it did not have to erase.
pub proof fn law_interrupted_append_changes_nothing(
    last: Option<(usize, u32)>,
    sector: Seq<u32>,
    table: TableView,
    k: int,
)
    requires
        remembers(last, sector),
        storable(table),
        !must_erase(last, sector),
        0 <= k < RECORD_WORDS,
    ensures
        loaded(stored(last, sector, table, k)) == loaded(sector),
{
    lemma_append_point_in_range(last, sector);
    lemma_records_after(last, sector, table, k);
    lemma_same_records(stored(last, sector, table, k), sector);
}

/// A store cut short between its erase and its last word leaves no table at
/// all, rather than half of one.
pub proof fn law_interrupted_rewrite_leaves_no_table(
    last: Option<(usize, u32)>,
    sector: Seq<u32>,
    table: TableView,
    k: int,
)
    requires
        remembers(last, sector),
        storable(table),
        must_erase(last, sector),
        0 <= k < RECORD_WORDS,
    ensures
        loaded(stored(last, sector, table, k)) is None,
{
    lemma_append_point_in_range(last, sector);
    lemma_records_after(last, sector, table, k);
    let now = stored(last, sector, table, k);
    assert forall|slot: int| !#[trigger] holds(now, slot) by {
        if 0 <= slot < SLOTS && slot != target_slot(last, sector) {
            assert(record(now, slot) == record(erased(), slot));
            assert(cell(erased(), slot, 0) == BLANK);
        }
    }
    assert(forall|slot: int| !#[trigger] is_newest(now, slot));
}

/// No word is programmed twice without an erase in between: a store's words
/// are all different, and each reads as erased until its turn.
pub proof fn law_words_are_programmed_once(
    last: Option<(usize, u32)>,
    sector: Seq<u32>,
    table: TableView,
    i: int,
    j: int,
)
    requires
        remembers(last, sector),
        0 <= i < j < RECORD_WORDS,
    ensures
        store_writes(last, sector, table)[i].word != store_writes(last, sector, table)[j].word,
        ({
            let word = store_writes(last, sector, table)[j].word as int;
            &&& stored(last, sector, table, j)[2 * word] == BLANK
            &&& stored(last, sector, table, j)[2 * word + 1] == BLANK
        }),
        ({
            let word = store_writes(last, sector, table)[0].word as int;
            &&& ground(last, sector)[2 * word] == BLANK
            &&& ground(last, sector)[2 * word + 1] == BLANK
        }),
{
    lemma_append_point_in_range(last, sector);
    let target = target_slot(last, sector);
    let base = ground(last, sector);
    let seq = next_seq(last, sector);
    let writes = store_writes(last, sector, table);
    lemma_image(base, target, table, seq, j);
    let word = writes[j].word as int;
    let first = writes[0].word as int;
    assert(cell(base, target, 2 * (word - target * RECORD_WORDS)) == BLANK);
    assert(cell(base, target, 2 * (word - target * RECORD_WORDS) + 1) == BLANK);
    assert(cell(base, target, 2 * (first - target * RECORD_WORDS)) == BLANK);
    assert(cell(base, target, 2 * (first - target * RECORD_WORDS) + 1) == BLANK);
    assert(stored(last, sector, table, j)[2 * word] == image(base, target, table, seq, j, 2 * word));
    assert(stored(last, sector, table, j)[2 * word + 1] == image(base, target, table, seq, j, 2 * word + 1));
}

/// The slots from `n` on are all blank.
pub open spec fn tail_blank(sector: Seq<u32>, n: int) -> bool {
    forall|slot: int| n <= slot < SLOTS ==> #[trigger] blank(sector, slot)
}

/// Appending uses the slots up one by one: while the slots from the append
/// point on are blank and there is one, a store erases nothing, takes the
/// next slot, and leaves the rest blank. So from a blank sector six stores in
/// seven do not erase.
pub proof fn law_stores_fill_the_sector_in_order(last: Option<(usize, u32)>, sector: Seq<u32>, table: TableView)
    requires
        remembers(last, sector),
        storable(table),
        append_point(last, sector).0 < SLOTS,
        tail_blank(sector, append_point(last, sector).0),
    ensures
        !must_erase(last, sector),
        target_slot(last, sector) == append_point(last, sector).0,
        tail_blank(stored(last, sector, table, RECORD_WORDS as int), target_slot(last, sector) + 1),
{
    lemma_append_point_in_range(last, sector);
    assert(blank(sector, append_point(last, sector).0));
    lemma_records_after(last, sector, table, RECORD_WORDS as int);
    let now = stored(last, sector, table, RECORD_WORDS as int);
    assert forall|slot: int| target_slot(last, sector) + 1 <= slot < SLOTS implies #[trigger] blank(now, slot) by {
        assert(blank(sector, slot));
    }
}

/// A power cycle between two stores does not move the second one: the scan
/// finds the append point that would have been remembered.
pub proof fn law_scan_agrees_with_memory(last: Option<(usize, u32)>, sector: Seq<u32>, table: TableView)
    requires
        remembers(last, sector),
        storable(table),
        append_point(last, sector).1 < u32::MAX,
    ensures
        append_point(None, stored(last, sector, table, RECORD_WORDS as int)) == append_point(
            Some((target_slot(last, sector) as usize, next_seq(last, sector))),
            stored(last, sector, table, RECORD_WORDS as int),
        ),
{
    let target = target_slot(last, sector);
    let now = stored(last, sector, table, RECORD_WORDS as int);
    lemma_stored_is_newest(last, sector, table);
    assert(is_latest(now, target));
    lemma_latest_is_scanned(now, target);
}

// ---- What the checksum is for -------------------------------------------

/// One step divides by the CRC-32 polynomial. The top bit of a remainder is its
/// term of degree 0, the next one that of degree 1, and so on: every term moves
/// up a degree, and the one that moves beyond the last is added to the terms of
/// degree 26, 23, 22, 16, 12, 11, 10, 8, 7, 5, 4, 2, 1 and 0.
pub proof fn law_remainders_are_of_the_crc32_polynomial(acc: u32, degree: u32)
    requires
        degree < 32,
    ensures
        ({
            let tap = degree == 0 || degree == 1 || degree == 2 || degree == 4 || degree == 5 || degree == 7 || degree == 8
                || degree == 10 || degree == 11 || degree == 12 || degree == 16 || degree == 22 || degree == 23 || degree == 26;
            let moved = if degree == 0 {
                0u32
            } else {
                (acc >> ((32 - degree) as u32)) & 1
            };
            (crc_bit(acc) >> ((31 - degree) as u32)) & 1 == if tap {
                moved ^ (acc & 1)
            } else {
                moved
            }
        }),
{
    let up: u32 = (31 - degree) as u32;
    let from: u32 = if degree == 0 {
        0
    } else {
        (32 - degree) as u32
    };
    let moved = if degree == 0 {
        0u32
    } else {
        (acc >> from) & 1
    };
    let one = acc & 1;
    let next = crc_bit(acc);
    let tap = degree == 0 || degree == 1 || degree == 2 || degree == 4 || degree == 5 || degree == 7 || degree == 8 || degree
        == 10 || degree == 11 || degree == 12 || degree == 16 || degree == 22 || degree == 23 || degree == 26;
    assert((next >> up) & 1 == if tap {
        moved ^ one
    } else {
        moved
    }) by (bit_vector)
        requires
            degree < 32,
            up == 31 - degree,
            one == acc & 1,
            degree == 0 ==> moved == 0,
            degree > 0 ==> moved == (acc >> ((32 - degree) as u32)) & 1,
            next == if acc & 1 != 0 {
                (acc >> 1) ^ 0xEDB8_8320
            } else {
                acc >> 1
            },
            tap == (degree == 0 || degree == 1 || degree == 2 || degree == 4 || degree == 5 || degree == 7 || degree == 8
                || degree == 10 || degree == 11 || degree == 12 || degree == 16 || degree == 22 || degree == 23 || degree == 26),
    ;
}

/// A word goes in a bit at a time, the lowest first: all thirty-two of its bits
/// take part.
pub proof fn law_words_go_in_lowest_bit_first(acc: u32, word: u32)
    ensures
        crc_word(acc, word) == crc_bits(acc ^ word, 32),
{
    let b0: u32 = word % 256;
    let b1: u32 = (word / 256) % 256;
    let b2: u32 = (word / 0x1_0000) % 256;
    let b3: u32 = word / 0x100_0000;
    let r1: u32 = word / 256;
    let r2: u32 = word / 0x1_0000;
    let r3: u32 = word / 0x100_0000;
    assert(word == b0 ^ (r1 << 8) && r1 == b1 ^ (r2 << 8) && r2 == b2 ^ (r3 << 8) && r1 < 0x100_0000 && r2 < 0x1_0000
        && r3 < 256) by (bit_vector)
        requires
            b0 == word % 256,
            b1 == (word / 256) % 256,
            b2 == (word / 0x1_0000) % 256,
            r1 == word / 256,
            r2 == word / 0x1_0000,
            r3 == word / 0x100_0000,
    ;
    let a1 = crc_byte(acc, b0);
    let a2 = crc_byte(a1, b1);
    let a3 = crc_byte(a2, b2);
    lemma_byte_of_word(acc, b0, r1);
    assert(crc_bits(acc ^ word, 8) == a1 ^ r1);
    lemma_byte_of_word(a1, b1, r2);
    assert(crc_bits(a1 ^ r1, 8) == a2 ^ r2);
    lemma_byte_of_word(a2, b2, r3);
    assert(crc_bits(a2 ^ r2, 8) == a3 ^ r3);
    lemma_bits_add(acc ^ word, 8, 8);
    lemma_bits_add(acc ^ word, 16, 8);
    lemma_bits_add(acc ^ word, 24, 8);
}

proof fn lemma_bits_add(acc: u32, m: nat, n: nat)
    ensures
        crc_bits(acc, m + n) == crc_bits(crc_bits(acc, m), n),
    decreases n,
{
    if n > 0 {
        lemma_bits_add(acc, m, (n - 1) as nat);
        assert((m + n - 1) as nat == m + (n - 1) as nat);
    }
}

proof fn lemma_byte_of_word(acc: u32, low: u32, rest: u32)
    requires
        rest < 0x100_0000,
    ensures
        crc_bits(acc ^ (low ^ (rest << 8)), 8) == crc_byte(acc, low) ^ rest,
{
    let x = acc ^ low;
    assert(acc ^ (low ^ (rest << 8)) == x ^ (rest << 8)) by (bit_vector)
        requires
            x == acc ^ low,
    ;
    assert(rest << 0 == rest) by (bit_vector);
    lemma_bits_shift(x, rest, 8);
}

proof fn lemma_bits_shift(x: u32, rest: u32, n: nat)
    requires
        rest < 0x100_0000,
        n <= 8,
    ensures
        crc_bits(x ^ (rest << 8), n) == crc_bits(x, n) ^ (rest << ((8 - n) as u32)),
    decreases n,
{
    if n > 0 {
        lemma_bits_shift(x, rest, (n - 1) as nat);
        let a = crc_bits(x, (n - 1) as nat);
        let k: u32 = (9 - n) as u32;
        let b = a ^ (rest << k);
        let low = (8 - n) as u32;
        let from = crc_bit(a);
        let to = crc_bit(b);
        assert(to == from ^ (rest << low)) by (bit_vector)
            requires
                rest < 0x100_0000,
                1 <= k <= 8,
                low == k - 1,
                b == a ^ (rest << k),
                from == if a & 1 != 0 {
                    (a >> 1) ^ 0xEDB8_8320
                } else {
                    a >> 1
                },
                to == if b & 1 != 0 {
                    (b >> 1) ^ 0xEDB8_8320
                } else {
                    b >> 1
                },
        ;
    }
}

proof fn lemma_bit_tells_apart(a: u32, b: u32)
    requires
        crc_bit(a) == crc_bit(b),
    ensures
        a == b,
{
    let x = crc_bit(a);
    let y = crc_bit(b);
    assert(a == b) by (bit_vector)
        requires
            x == y,
            x == if a & 1 != 0 {
                (a >> 1) ^ 0xEDB8_8320
            } else {
                a >> 1
            },
            y == if b & 1 != 0 {
                (b >> 1) ^ 0xEDB8_8320
            } else {
                b >> 1
            },
    ;
}

proof fn lemma_bits_tell_apart(a: u32, b: u32, n: nat)
    requires
        crc_bits(a, n) == crc_bits(b, n),
    ensures
        a == b,
    decreases n,
{
    if n > 0 {
        lemma_bit_tells_apart(crc_bits(a, (n - 1) as nat), crc_bits(b, (n - 1) as nat));
        lemma_bits_tell_apart(a, b, (n - 1) as nat);
    }
}

proof fn lemma_words_tell_apart(a: u32, b: u32, x: u32, y: u32)
    requires
        crc_word(a, x) == crc_word(b, y),
    ensures
        a ^ x == b ^ y,
        a == b ==> x == y,
        x == y ==> a == b,
{
    law_words_go_in_lowest_bit_first(a, x);
    law_words_go_in_lowest_bit_first(b, y);
    lemma_bits_tell_apart(a ^ x, b ^ y, 32);
    assert(a == b ==> x == y) by (bit_vector)
        requires
            a ^ x == b ^ y,
    ;
    assert(x == y ==> a == b) by (bit_vector)
        requires
            a ^ x == b ^ y,
    ;
}

proof fn lemma_one_word_tells(a: Seq<u32>, b: Seq<u32>, at: int, acc: u32)
    requires
        a.len() == b.len(),
        0 <= at < a.len(),
        a[at] != b[at],
        forall|i: int| 0 <= i < a.len() && i != at ==> a[i] == b[i],
    ensures
        crc_words(acc, a) != crc_words(acc, b),
    decreases a.len(),
{
    let p = a.drop_last();
    let q = b.drop_last();
    let n = a.len() - 1;
    if crc_words(acc, a) == crc_words(acc, b) {
        lemma_words_tell_apart(crc_words(acc, p), crc_words(acc, q), a[n], b[n]);
        if at == n {
            assert(p =~= q);
        } else {
            assert forall|i: int| 0 <= i < p.len() && i != at implies p[i] == q[i] by {
                assert(a[i] == b[i]);
            }
            lemma_one_word_tells(p, q, at, acc);
        }
    }
}

/// A checksum tells any two records apart that differ in one word: the
/// sequence number, the length, or either coordinate of any slot of the table,
/// used or not.
pub proof fn law_checksum_tells_one_word_apart(a: TableView, b: TableView, s: u32, t: u32, at: int)
    requires
        a.points.len() == 16,
        b.points.len() == 16,
        a.len <= 16,
        b.len <= 16,
        ({
            let x = seq![s, a.len as u32] + point_cells(a.points);
            let y = seq![t, b.len as u32] + point_cells(b.points);
            0 <= at < 34 && x[at] != y[at] && forall|i: int| 0 <= i < 34 && i != at ==> x[i] == y[i]
        }),
    ensures
        checksum(a, s) != checksum(b, t),
{
    let x = seq![s, a.len as u32] + point_cells(a.points);
    let y = seq![t, b.len as u32] + point_cells(b.points);
    lemma_one_word_tells(x, y, at, 0xFFFF_FFFF);
    let p = crc_words(0xFFFF_FFFF, x);
    let q = crc_words(0xFFFF_FFFF, y);
    assert(!p != !q) by (bit_vector)
        requires
            p != q,
    ;
}

/// A record that one cell was damaged in is no record any more, whichever cell
/// it is and whatever it turned into.
pub proof fn law_one_damaged_cell_is_noticed(sector: Seq<u32>, slot: int, at: int, value: u32)
    requires
        sector.len() == 256,
        holds(sector, slot),
        0 <= at < 36,
        value != cell(sector, slot, at),
    ensures
        !holds(sector.update(slot * 36 + at, value), slot),
{
    let now = sector.update(slot * 36 + at, value);
    let before = slot_table(sector, slot);
    let after = slot_table(now, slot);
    let s = cell(sector, slot, 1);
    let t = cell(now, slot, 1);
    assert forall|k: int| 0 <= k < 36 implies #[trigger] cell(now, slot, k) == if k == at {
        value
    } else {
        cell(sector, slot, k)
    } by {}
    if holds(now, slot) {
        assert(at != 0);
        let x = seq![s, before.len as u32] + point_cells(before.points);
        let y = seq![t, after.len as u32] + point_cells(after.points);
        assert forall|i: int| 0 <= i < 34 implies #[trigger] x[i] == cell(sector, slot, word_cell(i)) && y[i] == cell(
            now,
            slot,
            word_cell(i),
        ) by {
            if i >= 2 {
                let k = i - 2;
                assert(point_cells(before.points)[k] == cell(sector, slot, 4 + k));
                assert(point_cells(after.points)[k] == cell(now, slot, 4 + k));
            }
        }
        if at == 3 {
            assert(before =~= after);
        } else {
            let i = if at <= 2 {
                at - 1
            } else {
                at - 2
            };
            assert(word_cell(i) == at);
            assert(x[i] == cell(sector, slot, at) && y[i] == value);
            assert forall|j: int| 0 <= j < 34 && j != i implies x[j] == y[j] by {
                assert(word_cell(j) != at);
                assert(x[j] == cell(sector, slot, word_cell(j)));
            }
            law_checksum_tells_one_word_apart(before, after, s, t, i);
        }
    }
}

/// Which cell of a record word `i` of its checksum is taken from.
spec fn word_cell(i: int) -> int {
    if i < 2 {
        i + 1
    } else {
        i + 2
    }
}

/// A record is laid out in thirty-six cells: the magic word, the sequence
/// number, the length, the checksum, and the sixteen points in order.
pub proof fn law_record_is_laid_out(last: Option<(usize, u32)>, sector: Seq<u32>, table: TableView, i: int)
    requires
        remembers(last, sector),
        storable(table),
        0 <= i < 16,
    ensures
        ({
            let now = stored(last, sector, table, 18);
            let at = 36 * target_slot(last, sector);
            &&& now.len() == 256
            &&& now[at] == 0x4341_4C31
            &&& now[at + 1] == next_seq(last, sector)
            &&& now[at + 2] == table.len
            &&& now[at + 3] == checksum(table, next_seq(last, sector))
            &&& now[at + 4 + 2 * i] == table.points[i].0
            &&& now[at + 5 + 2 * i] == table.points[i].1
        }),
{
    let target = target_slot(last, sector);
    let base = ground(last, sector);
    let seq = next_seq(last, sector);
    let now = stored(last, sector, table, 18);
    let at = 36 * target;
    lemma_append_point_in_range(last, sector);
    lemma_image(base, target, table, seq, 18);
    assert(now[at] == image(base, target, table, seq, 18, at));
    assert(now[at + 1] == image(base, target, table, seq, 18, at + 1));
    assert(now[at + 2] == image(base, target, table, seq, 18, at + 2));
    assert(now[at + 3] == image(base, target, table, seq, 18, at + 3));
    assert(now[at + 4 + 2 * i] == image(base, target, table, seq, 18, at + 4 + 2 * i));
    assert(now[at + 5 + 2 * i] == image(base, target, table, seq, 18, at + 5 + 2 * i));
}

/// A table is found exactly if a slot holds a record, and it is that of a
/// record no other is newer than.
pub proof fn law_newest_record_is_loaded(sector: Seq<u32>, slot: int)
    requires
        holds(sector, slot),
    ensures
        loaded(sector) is Some,
        exists|newest: int|
            {
                &&& #[trigger] holds(sector, newest)
                &&& loaded(sector) == Some(table_of(sector, newest))
                &&& seq_of(sector, slot) <= seq_of(sector, newest)
            },
{
    lemma_newest_exists(sector, 7, slot);
    let newest = choose|newest: int| is_newest(sector, newest);
    assert(is_newest(sector, newest));
    lemma_newest_is_loaded(sector, newest);
    assert(holds(sector, newest));
}

/// `slot` is the newest among the first `n` slots.
spec fn newest_among(sector: Seq<u32>, n: int, slot: int) -> bool {
    &&& 0 <= slot < n
    &&& holds(sector, slot)
    &&& forall|other: int|
        #![trigger holds(sector, other)]
        0 <= other < n && holds(sector, other) ==> seq_of(sector, other) < seq_of(sector, slot) || (seq_of(
            sector,
            other,
        ) == seq_of(sector, slot) && slot <= other)
}

proof fn lemma_newest_among(sector: Seq<u32>, n: int, witness: int)
    requires
        0 <= witness < n <= SLOTS,
        holds(sector, witness),
    ensures
        exists|slot: int| newest_among(sector, n, slot),
    decreases n,
{
    if witness == n - 1 && forall|other: int| 0 <= other < n - 1 ==> !#[trigger] holds(sector, other) {
        assert(newest_among(sector, n, n - 1));
    } else {
        let w = if witness < n - 1 {
            witness
        } else {
            choose|other: int| 0 <= other < n - 1 && #[trigger] holds(sector, other)
        };
        let fewer = n - 1;
        lemma_newest_among(sector, fewer, w);
        let slot = choose|slot: int| newest_among(sector, fewer, slot);
        if holds(sector, n - 1) && seq_of(sector, n - 1) > seq_of(sector, slot) {
            assert(newest_among(sector, n, n - 1));
        } else {
            assert(newest_among(sector, n, slot));
        }
    }
}

proof fn lemma_newest_exists(sector: Seq<u32>, n: int, witness: int)
    requires
        n == SLOTS,
        holds(sector, witness),
    ensures
        exists|slot: int| is_newest(sector, slot),
{
    lemma_newest_among(sector, n, witness);
    let slot = choose|slot: int| newest_among(sector, n, slot);
    assert(is_newest(sector, slot));
}

/// What is given to the flash controller is the erase, where there is one, and
/// then every word, in order, at eight bytes a word from the sector's start.
pub proof fn law_commands_carry_out_the_plan(erase: bool, writes: Seq<Program>, i: int)
    requires
        0 <= i < writes.len(),
        writes[i].word < 128,
    ensures
        ({
            let all = commands(erase, writes);
            let first: int = if erase {
                1
            } else {
                0
            };
            &&& all.len() == writes.len() + first
            &&& erase ==> all[0] == Command::Erase
            &&& all[first + i] == (Command::Program {
                addr: (0x1_FC00 + 8 * writes[i].word) as u32,
                lo: writes[i].lo,
                hi: writes[i].hi,
            })
        }),
{
}

/// A record holds no table or one of two points to sixteen, never a single
/// point.
pub proof fn law_records_hold_whole_tables(sector: Seq<u32>, slot: int)
    requires
        holds(sector, slot),
    ensures
        table_of(sector, slot).len == 0 || 2 <= table_of(sector, slot).len <= 16,
        table_of(sector, slot).points.len() == 16,
        sector[36 * slot] == 0x4341_4C31,
{
}

} // verus!
