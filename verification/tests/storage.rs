use ammeter::cal::Table;
use ammeter::nvcal::{
    find_append_point, load, store, Command, Program, StoreError, StorePlan, StoreRun, BLANK, MAGIC, RECORD_CELLS,
    RECORD_WORDS, SECTOR, SECTOR_CELLS, SLOTS,
};

type Sector = [u32; SECTOR_CELLS];

fn table(points: &[(f32, f32)]) -> Table {
    let mut table = Table::empty();
    for (i, p) in points.iter().enumerate() {
        table.points[i] = (p.0.to_bits(), p.1.to_bits());
    }
    table.len = points.len();
    table
}

fn two() -> Table {
    table(&[(10.0, 0.1), (20.0, 0.2)])
}

fn three() -> Table {
    table(&[(11.0, 0.1), (21.0, 0.25), (31.0, 0.5)])
}

fn program(sector: &mut Sector, write: &Program) {
    assert_eq!(sector[2 * write.word], BLANK);
    assert_eq!(sector[2 * write.word + 1], BLANK);
    sector[2 * write.word] = write.lo;
    sector[2 * write.word + 1] = write.hi;
}

fn carry_out(sector: &mut Sector, plan: &StorePlan, words: usize) {
    if plan.erase {
        *sector = [BLANK; SECTOR_CELLS];
    }
    for write in plan.writes.iter().take(words) {
        program(sector, write);
    }
}

fn put(sector: &mut Sector, last: Option<(usize, u32)>, table: &Table) -> (usize, u32) {
    let plan = store(last, sector, table);
    carry_out(sector, &plan, plan.writes.len());
    (plan.slot, plan.seq)
}

#[test]
fn a_blank_sector_holds_no_table() {
    assert!(load(&[BLANK; SECTOR_CELLS]).is_none());
    assert!(load(&[0; SECTOR_CELLS]).is_none());
}

#[test]
fn what_was_stored_is_loaded() {
    let mut sector = [BLANK; SECTOR_CELLS];
    let last = put(&mut sector, None, &two());
    assert_eq!(last, (0, 1));
    assert_eq!(load(&sector).unwrap().as_slice(), two().as_slice());
    put(&mut sector, Some(last), &three());
    assert_eq!(load(&sector).unwrap().as_slice(), three().as_slice());
}

#[test]
fn a_record_is_laid_out_word_by_word() {
    let plan = store(None, &[BLANK; SECTOR_CELLS], &two());
    assert!(!plan.erase);
    assert_eq!((plan.slot, plan.seq), (0, 1));
    assert_eq!(plan.writes.len(), RECORD_WORDS);
    assert_eq!(plan.writes[0], Program { word: 1, lo: 2, hi: CHECKSUM_OF_TWO });
    assert_eq!(plan.writes[1], Program { word: 2, lo: 10.0f32.to_bits(), hi: 0.1f32.to_bits() });
    assert_eq!(plan.writes[17], Program { word: 0, lo: MAGIC, hi: 1 });
    assert_eq!(plan.writes[17].address(), SECTOR);
    assert_eq!(plan.writes[0].address(), SECTOR + 8);
}

/// CRC-32 of the sequence number, the length and the sixteen points.
const CHECKSUM_OF_TWO: u32 = 0xFEBE_186E;

#[test]
fn stores_fill_the_sector_before_it_is_erased() {
    let mut sector = [BLANK; SECTOR_CELLS];
    let mut last = None;
    for n in 0..SLOTS {
        let plan = store(last, &sector, &two());
        assert!(!plan.erase);
        assert_eq!(plan.slot, n);
        carry_out(&mut sector, &plan, plan.writes.len());
        last = Some((plan.slot, plan.seq));
    }
    assert_eq!(last, Some((6, 7)));
    let plan = store(last, &sector, &three());
    assert!(plan.erase);
    assert_eq!((plan.slot, plan.seq), (0, 8));
    carry_out(&mut sector, &plan, plan.writes.len());
    assert_eq!(load(&sector).unwrap().as_slice(), three().as_slice());
}

#[test]
fn an_interrupted_append_changes_nothing() {
    let mut sector = [BLANK; SECTOR_CELLS];
    let last = put(&mut sector, None, &two());
    for words in 0..RECORD_WORDS {
        let mut torn = sector;
        let plan = store(Some(last), &torn, &three());
        carry_out(&mut torn, &plan, words);
        assert_eq!(load(&torn).unwrap().as_slice(), two().as_slice());
    }
}

#[test]
fn a_slot_that_was_begun_is_not_programmed_again() {
    let mut sector = [BLANK; SECTOR_CELLS];
    let last = put(&mut sector, None, &two());
    let torn = store(Some(last), &sector, &three());
    assert_eq!(torn.slot, 1);
    carry_out(&mut sector, &torn, 3);
    let next = store(Some(last), &sector, &three());
    assert!(next.erase);
    assert_eq!(next.slot, 0);
}

#[test]
fn a_damaged_record_is_passed_over() {
    let mut sector = [BLANK; SECTOR_CELLS];
    let last = put(&mut sector, None, &two());
    put(&mut sector, Some(last), &three());
    sector[RECORD_CELLS + 5] ^= 1;
    assert_eq!(load(&sector).unwrap().as_slice(), two().as_slice());
    sector[5] ^= 1;
    assert!(load(&sector).is_none());
}

#[test]
fn an_empty_table_is_a_record_too() {
    let mut sector = [BLANK; SECTOR_CELLS];
    let last = put(&mut sector, None, &two());
    put(&mut sector, Some(last), &Table::empty());
    assert_eq!(load(&sector).unwrap().len, 0);
}

#[test]
fn the_append_point_is_found_without_memory() {
    let mut sector = [BLANK; SECTOR_CELLS];
    assert_eq!(find_append_point(None, &sector), (0, 0));
    let last = put(&mut sector, None, &two());
    assert_eq!(find_append_point(None, &sector), find_append_point(Some(last), &sector));
    assert_eq!(find_append_point(None, &sector), (1, 1));
}

#[test]
fn a_store_is_carried_out_a_command_at_a_time() {
    let sector = [BLANK; SECTOR_CELLS];
    let mut run = StoreRun::new(store(None, &sector, &two()));
    let mut commands = Vec::new();
    while let Some(command) = run.command() {
        assert_eq!(run.landed(None), None);
        commands.push(command);
        run = run.report(true).unwrap();
    }
    assert_eq!(commands.len(), RECORD_WORDS);
    assert_eq!(commands[0], Command::Program { addr: SECTOR + 8, lo: 2, hi: CHECKSUM_OF_TWO });
    assert_eq!(commands[17], Command::Program { addr: SECTOR, lo: MAGIC, hi: 1 });
    assert_eq!(run.landed(None), Some((0, 1)));
}

#[test]
fn an_erase_comes_first() {
    let mut sector = [BLANK; SECTOR_CELLS];
    let mut last = None;
    for _ in 0..SLOTS {
        last = Some(put(&mut sector, last, &two()));
    }
    let run = StoreRun::new(store(last, &sector, &two()));
    assert_eq!(run.command(), Some(Command::Erase));
    let run = run.report(true).unwrap();
    assert!(matches!(run.command(), Some(Command::Program { .. })));
    assert_eq!(run.report(false).err(), Some(StoreError::Flash));
}
