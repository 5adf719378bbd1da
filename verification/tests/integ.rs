use std::collections::{HashMap, VecDeque};
use std::io;

use fnv::FnvHashSet;
use ydb_ng::bitmap::{
    block_status, check_master, holds_busy, local_map_for, mark_busy, read_entry,
};
use ydb_ng::integ::child_type_of;
use ydb_ng::traverse::{do_integ, queue_children, root_item, unreachable_blocks, IntegFailure};
use ydb_ng::{
    get_block, BlkNum, BlkType, Database, FileHeader, IntegBlock, LocalBitmapStatus, RecordError,
    ValueError,
};

const BLK_SIZE: usize = 4096;

fn record(cmpc: u8, payload: &[u8]) -> Vec<u8> {
    let rsiz = (4 + payload.len()) as u16;
    let mut out = rsiz.to_le_bytes().to_vec();
    out.push(cmpc);
    out.push(0);
    out.extend_from_slice(payload);
    out
}

fn pointer(key: &[u8], blk: u32) -> Vec<u8> {
    let mut payload = key.to_vec();
    payload.extend_from_slice(&blk.to_le_bytes());
    payload
}

fn block(levl: u8, records: &[Vec<u8>]) -> Vec<u8> {
    let payload: Vec<u8> = records.concat();
    let mut raw = vec![0u8; BLK_SIZE];
    let bsiz = (16 + payload.len()) as u32;
    raw[0] = 1;
    raw[3] = levl;
    raw[4..8].copy_from_slice(&bsiz.to_le_bytes());
    raw[16..16 + payload.len()].copy_from_slice(&payload);
    raw
}

/// A local bitmap block that marks the given slots busy and all others
/// free; slot 0, the bitmap itself, is busy.
fn bitmap(busy: &[usize]) -> Vec<u8> {
    let mut raw = vec![0u8; BLK_SIZE];
    raw[4..8].copy_from_slice(&144u32.to_le_bytes());
    for byte in raw[16..144].iter_mut() {
        *byte = 0xff;
    }
    raw[16] &= !0b11;
    for slot in busy {
        raw[16 + slot / 4] &= !(0b11 << (2 * (slot % 4)));
    }
    raw
}

fn set_of(numbers: &[usize]) -> FnvHashSet<usize> {
    numbers.iter().copied().collect()
}

fn item(blk: usize, typ: BlkType, start: &[u8], end: &[u8]) -> IntegBlock {
    IntegBlock { blk_num: BlkNum::Block(blk), typ, start: start.to_vec(), end: end.to_vec() }
}

fn small_tree(busy: &[usize]) -> HashMap<usize, Vec<u8>> {
    let mut image = HashMap::new();
    image.insert(0, bitmap(busy));
    image.insert(
        1,
        block(
            1,
            &[record(0, &pointer(b"hello\0\0", 20)), record(0, &20u32.to_le_bytes())],
        ),
    );
    image.insert(20, block(0, &[record(0, b"hello\0\0world")]));
    image
}

fn read(image: &HashMap<usize, Vec<u8>>, blk_num: usize) -> io::Result<Vec<u8>> {
    image
        .get(&blk_num)
        .cloned()
        .ok_or_else(|| io::Error::new(io::ErrorKind::UnexpectedEof, "no such block"))
}

struct Run {
    busy: FnvHashSet<usize>,
    reached: Vec<usize>,
    failures: Vec<IntegFailure>,
    left: FnvHashSet<usize>,
}

fn run_integ(image: &HashMap<usize, Vec<u8>>) -> Run {
    run_integ_in_order(image, false)
}

fn run_integ_in_order(image: &HashMap<usize, Vec<u8>>, newest_first: bool) -> Run {
    let mut to_visit = FnvHashSet::default();
    let mut group = 0;
    while let Some(raw) = image.get(&(group * 512)) {
        mark_busy(raw, group, &mut to_visit).unwrap();
        group += 1;
    }
    let busy = to_visit.clone();
    let mut reached = Vec::new();
    let mut failures = Vec::new();
    let mut queue = VecDeque::new();
    queue.push_back(root_item());
    while let Some(next) = if newest_first { queue.pop_back() } else { queue.pop_front() } {
        let blk_num = match next.blk_num {
            BlkNum::Block(n) => n,
            _ => unreachable!(),
        };
        reached.push(blk_num);
        match do_integ(&next, read(image, blk_num), &mut to_visit) {
            Ok(children) => queue.extend(queue_children(children, &mut to_visit)),
            Err(cause) => failures.push(IntegFailure { blk_num, cause }),
        }
    }
    failures.extend(unreachable_blocks(&to_visit));
    Run { busy, reached, failures, left: to_visit }
}

#[test]
fn bitmap_entries_are_two_bits_each_lowest_first() {
    let map = [0b11_01_00_10u8, 0b00_10_11_01];
    assert_eq!(read_entry(&map, 0), 2);
    assert_eq!(read_entry(&map, 1), 0);
    assert_eq!(read_entry(&map, 2), 1);
    assert_eq!(read_entry(&map, 3), 3);
    assert_eq!(read_entry(&map, 4), 1);
    assert_eq!(read_entry(&map, 5), 3);
    assert_eq!(read_entry(&map, 6), 2);
    assert_eq!(read_entry(&map, 7), 0);
}

#[test]
fn local_bitmap_status_decodes_the_entry_of_the_block() {
    let mut raw = bitmap(&[1, 20]);
    raw[16 + 1] = 0b10_11_01_00;
    assert_eq!(block_status(&raw, 1).unwrap(), LocalBitmapStatus::Busy);
    assert_eq!(block_status(&raw, 20).unwrap(), LocalBitmapStatus::Busy);
    assert_eq!(block_status(&raw, 2).unwrap(), LocalBitmapStatus::Free);
    assert_eq!(block_status(&raw, 4).unwrap(), LocalBitmapStatus::Busy);
    assert_eq!(block_status(&raw, 5).unwrap(), LocalBitmapStatus::NeverUsed);
    assert_eq!(block_status(&raw, 6).unwrap(), LocalBitmapStatus::Free);
    assert_eq!(block_status(&raw, 7).unwrap(), LocalBitmapStatus::Invalid);
    assert_eq!(block_status(&raw, 512 + 7).unwrap(), LocalBitmapStatus::Invalid);
    assert_eq!(block_status(&raw, 1024 + 20).unwrap(), LocalBitmapStatus::Busy);
}

#[test]
fn database_reads_the_status_from_the_bitmap_of_the_group() {
    let db = Database {
        fhead: FileHeader { blk_size: 4096, start_vbn: 257, master_map_len: 253952 },
        master_bitmap: [0u8; 253952],
    };
    let raw = bitmap(&[3]);
    assert_eq!(db.local_block_status(&raw, 515).unwrap(), LocalBitmapStatus::Busy);
    assert_eq!(db.local_block_status(&raw, 516).unwrap(), LocalBitmapStatus::Free);
    assert_eq!(local_map_for(515), 512);
    assert_eq!(local_map_for(511), 0);
    assert_eq!(local_map_for(1024), 1024);
}

#[test]
fn status_from_a_bitmap_that_is_too_short_fails() {
    assert!(matches!(
        block_status(&[0u8; 15], 1),
        Err(ValueError::RecordError(RecordError::TooSmall))
    ));
    assert!(matches!(block_status(&[0u8; 17], 4), Err(ValueError::MalformedBlock)));
    assert_eq!(block_status(&[0u8; 17], 3).unwrap(), LocalBitmapStatus::Busy);
}

#[test]
fn mark_busy_collects_the_busy_blocks_of_the_group() {
    let mut to_visit = FnvHashSet::default();
    mark_busy(&bitmap(&[1, 20]), 0, &mut to_visit).unwrap();
    assert_eq!(to_visit, set_of(&[1, 20]));
    mark_busy(&bitmap(&[5, 511]), 2, &mut to_visit).unwrap();
    assert_eq!(to_visit, set_of(&[1, 20, 1029, 1535]));
}

#[test]
fn mark_busy_skips_the_bitmap_block_itself() {
    let mut to_visit = FnvHashSet::default();
    mark_busy(&bitmap(&[]), 3, &mut to_visit).unwrap();
    assert!(to_visit.is_empty());
}

#[test]
fn mark_busy_reads_no_further_than_the_bitmap_reaches() {
    let mut raw = vec![0xffu8; 18];
    raw[16] = 0;
    raw[17] = 0;
    let mut to_visit = FnvHashSet::default();
    mark_busy(&raw, 1, &mut to_visit).unwrap();
    assert_eq!(to_visit, set_of(&[513, 514, 515, 516, 517, 518, 519]));
    let mut whole = vec![0u8; 16 + 200];
    whole[16 + 127] = 0xff;
    let mut to_visit = FnvHashSet::default();
    mark_busy(&whole, 0, &mut to_visit).unwrap();
    assert_eq!(to_visit.len(), 507);
    assert!(to_visit.contains(&507));
    assert!(!to_visit.contains(&508));
    assert!(!to_visit.contains(&512));
}

#[test]
fn mark_busy_on_bytes_too_short_for_a_header_fails_and_adds_nothing() {
    let mut to_visit = set_of(&[9]);
    assert!(matches!(
        mark_busy(&[0u8; 10], 0, &mut to_visit),
        Err(ValueError::RecordError(RecordError::TooSmall))
    ));
    assert_eq!(to_visit, set_of(&[9]));
}

#[test]
fn master_entry_is_set_iff_the_group_holds_a_busy_block() {
    let mut master = vec![0u8; 253952];
    master[0] = 0b00_00_01_00;
    assert!(holds_busy(&bitmap(&[7])[16..]));
    assert!(!holds_busy(&bitmap(&[])[16..]));
    assert!(check_master(&master, 1, &bitmap(&[7])).is_ok());
    assert!(check_master(&master, 0, &bitmap(&[])).is_ok());
    assert!(check_master(&master, 2, &bitmap(&[])).is_ok());
}

#[test]
fn group_with_busy_blocks_that_the_master_does_not_mark_is_marked_free() {
    let master = vec![0u8; 253952];
    assert!(matches!(
        check_master(&master, 0, &bitmap(&[1, 20])),
        Err(ValueError::BlockIncorrectlyMarkedFree)
    ));
}

#[test]
fn group_without_busy_blocks_that_the_master_marks_is_marked_busy() {
    let mut master = [0u8; 253952];
    master[1] = 0b11_00_00_00;
    assert!(matches!(
        check_master(&master, 7, &bitmap(&[])),
        Err(ValueError::BlockIncorrectlyMarkedBusy)
    ));
    let db = Database {
        fhead: FileHeader { blk_size: 4096, start_vbn: 257, master_map_len: 253952 },
        master_bitmap: master,
    };
    assert!(matches!(
        db.check_master_map(7, &bitmap(&[])),
        Err(ValueError::BlockIncorrectlyMarkedBusy)
    ));
    assert!(db.check_master_map(7, &bitmap(&[2])).is_ok());
}

#[test]
fn master_check_needs_the_entry_and_the_bitmap() {
    let master = vec![0u8; 2];
    assert!(matches!(
        check_master(&master, 8, &bitmap(&[])),
        Err(ValueError::MalformedBlock)
    ));
    assert!(matches!(
        check_master(&master, 0, &[0u8; 3]),
        Err(ValueError::RecordError(RecordError::TooSmall))
    ));
}

#[test]
fn child_types_follow_the_level_of_the_parent() {
    assert_eq!(child_type_of(BlkType::DirectoryTree, 3), BlkType::DirectoryTree);
    assert_eq!(child_type_of(BlkType::DirectoryTree, 2), BlkType::DirectoryTree);
    assert_eq!(child_type_of(BlkType::DirectoryTree, 1), BlkType::IndexBlock);
    assert_eq!(child_type_of(BlkType::IndexBlock, 2), BlkType::IndexBlock);
    assert_eq!(child_type_of(BlkType::IndexBlock, 1), BlkType::DataBlock);
    assert_eq!(child_type_of(BlkType::IndexBlock, 0), BlkType::IndexBlock);
    assert_eq!(child_type_of(BlkType::DirectoryTree, 0), BlkType::IndexBlock);
}

#[test]
fn integ_lists_the_children_of_an_index_block_with_their_key_bounds() {
    let raw = block(
        1,
        &[
            record(0, &pointer(b"ga\0\0", 5)),
            record(1, &pointer(b"m\0\0", 6)),
            record(0, &7u32.to_le_bytes()),
        ],
    );
    let blk = get_block(&raw, 3, BlkType::IndexBlock).unwrap();
    let children = blk.integ(b"").unwrap();
    assert_eq!(
        children,
        vec![
            item(5, BlkType::DataBlock, b"", b"ga\0\0"),
            item(6, BlkType::DataBlock, b"ga\0\0", b"gm\0\0"),
        ]
    );
}

#[test]
fn integ_of_a_directory_block_types_its_children_by_level() {
    let records = [record(0, &pointer(b"g\0\0", 2)), record(0, &9u32.to_le_bytes())];
    let raw = block(1, &records);
    let blk = get_block(&raw, 1, BlkType::DirectoryTree).unwrap();
    assert_eq!(
        blk.integ(b"").unwrap(),
        vec![item(2, BlkType::IndexBlock, b"", b"g\0\0")]
    );
    let raw = block(2, &records);
    let blk = get_block(&raw, 1, BlkType::DirectoryTree).unwrap();
    assert_eq!(
        blk.integ(b"").unwrap(),
        vec![item(2, BlkType::DirectoryTree, b"", b"g\0\0")]
    );
}

#[test]
fn integ_of_a_data_block_lists_no_children() {
    let raw = block(0, &[record(0, b"ga\0\0one"), record(1, b"d\0\0two")]);
    let blk = get_block(&raw, 5, BlkType::DataBlock).unwrap();
    assert_eq!(blk.integ(b"").unwrap(), Vec::new());
}

#[test]
fn integ_does_not_depend_on_the_key_of_the_parent() {
    let raw = block(1, &[record(0, &pointer(b"ga\0\0", 5))]);
    let blk = get_block(&raw, 3, BlkType::IndexBlock).unwrap();
    assert_eq!(blk.integ(b"").unwrap(), blk.integ(b"zz\0\0").unwrap());
}

#[test]
fn integ_of_a_bitmap_checks_no_records() {
    let raw = block(0, &[vec![1, 2, 3]]);
    let blk = get_block(&raw, 0, BlkType::LocalBitmap).unwrap();
    assert_eq!(blk.integ(b"").unwrap(), Vec::new());
    let blk = get_block(&raw, 0, BlkType::MasterBitmap).unwrap();
    assert_eq!(blk.integ(b"").unwrap(), Vec::new());
}

#[test]
fn integ_of_an_empty_block_passes() {
    let raw = block(0, &[]);
    let blk = get_block(&raw, 5, BlkType::DataBlock).unwrap();
    assert_eq!(blk.integ(b"").unwrap(), Vec::new());
}

#[test]
fn data_block_whose_second_record_shares_nothing_has_zero_compression_count() {
    let raw = block(0, &[record(0, b"ga\0\0one"), record(0, b"gd\0\0two")]);
    let blk = get_block(&raw, 5, BlkType::DataBlock).unwrap();
    assert!(matches!(
        blk.integ(b""),
        Err(ValueError::RecordError(RecordError::ZeroCompressionCount))
    ));
}

#[test]
fn index_block_may_hold_records_that_share_nothing() {
    let raw = block(
        1,
        &[record(0, &pointer(b"ga\0\0", 5)), record(0, &pointer(b"gd\0\0", 6))],
    );
    let blk = get_block(&raw, 3, BlkType::IndexBlock).unwrap();
    assert_eq!(blk.integ(b"").unwrap().len(), 2);
}

#[test]
fn first_record_of_a_data_block_may_share_nothing() {
    let raw = block(0, &[record(0, b"ga\0\0one")]);
    let blk = get_block(&raw, 5, BlkType::DataBlock).unwrap();
    assert!(blk.integ(b"").is_ok());
}

#[test]
fn keys_out_of_order_are_an_incorrect_sort() {
    let raw = block(0, &[record(0, b"gd\0\0one"), record(1, b"a\0\0two")]);
    let blk = get_block(&raw, 5, BlkType::DataBlock).unwrap();
    assert!(matches!(
        blk.integ(b""),
        Err(ValueError::RecordError(RecordError::IncorrectSort))
    ));
}

#[test]
fn equal_keys_are_an_incorrect_sort() {
    let raw = block(0, &[record(0, b"gd\0\0one"), record(1, b"d\0\0two")]);
    let blk = get_block(&raw, 5, BlkType::DataBlock).unwrap();
    assert!(matches!(
        blk.integ(b""),
        Err(ValueError::RecordError(RecordError::IncorrectSort))
    ));
}

#[test]
fn keys_in_strictly_increasing_order_pass() {
    let raw = block(
        0,
        &[
            record(0, b"ga\0\0one"),
            record(4, b"b\0\0two"),
            record(1, b"b\0\0three"),
            record(4, b"c\0\0four"),
        ],
    );
    let blk = get_block(&raw, 5, BlkType::DataBlock).unwrap();
    assert!(blk.integ(b"").is_ok());
}

#[test]
fn record_without_terminator_has_no_terminating_character() {
    let raw = block(0, &[record(0, b"ga\0\0one"), record(1, b"xyz")]);
    let blk = get_block(&raw, 5, BlkType::DataBlock).unwrap();
    assert!(matches!(
        blk.integ(b""),
        Err(ValueError::RecordError(RecordError::NoTerminatingCharacter))
    ));
}

#[test]
fn broken_record_ends_the_check_with_too_small() {
    let raw = block(0, &[record(0, b"ga\0\0one"), vec![200, 0, 1, 0]]);
    let blk = get_block(&raw, 5, BlkType::DataBlock).unwrap();
    assert!(matches!(
        blk.integ(b""),
        Err(ValueError::RecordError(RecordError::TooSmall))
    ));
}

#[test]
fn sentinel_record_is_exempt_from_the_key_checks() {
    let raw = block(
        1,
        &[
            record(0, &pointer(b"gz\0\0", 5)),
            record(0, &[0x01, 0x01, 0x01, 0x01]),
        ],
    );
    let blk = get_block(&raw, 3, BlkType::IndexBlock).unwrap();
    assert_eq!(
        blk.integ(b"").unwrap(),
        vec![item(5, BlkType::DataBlock, b"", b"gz\0\0")]
    );
}

#[test]
fn queue_takes_each_waiting_block_once_in_order() {
    let mut to_visit = set_of(&[5, 6, 8]);
    let children = vec![
        item(6, BlkType::DataBlock, b"", b"a"),
        item(7, BlkType::DataBlock, b"a", b"b"),
        item(5, BlkType::DataBlock, b"b", b"c"),
        item(6, BlkType::DataBlock, b"c", b"d"),
        IntegBlock { blk_num: BlkNum::Unknown, typ: BlkType::DataBlock, start: vec![], end: vec![] },
    ];
    let queued = queue_children(children, &mut to_visit);
    assert_eq!(
        queued,
        vec![
            item(6, BlkType::DataBlock, b"", b"a"),
            item(5, BlkType::DataBlock, b"b", b"c"),
        ]
    );
    assert_eq!(to_visit, set_of(&[8]));
}

#[test]
fn queue_takes_nothing_when_nothing_waits() {
    let mut to_visit = FnvHashSet::default();
    let queued = queue_children(vec![item(6, BlkType::DataBlock, b"", b"a")], &mut to_visit);
    assert!(queued.is_empty());
    assert!(to_visit.is_empty());
}

#[test]
fn traversal_starts_from_the_root_of_the_directory_tree() {
    assert_eq!(root_item(), item(1, BlkType::DirectoryTree, b"", b""));
}

#[test]
fn visit_strikes_the_block_and_checks_it() {
    let image = small_tree(&[1, 20]);
    let mut to_visit = set_of(&[1, 20]);
    let children = do_integ(&root_item(), read(&image, 1), &mut to_visit).unwrap();
    assert_eq!(children, vec![item(20, BlkType::IndexBlock, b"", b"hello\0\0")]);
    assert_eq!(to_visit, set_of(&[20]));
}

#[test]
fn visit_of_a_block_that_cannot_be_read_fails_with_the_io_error() {
    let image = small_tree(&[1, 20]);
    let mut to_visit = set_of(&[1, 20, 40]);
    let next = item(40, BlkType::DataBlock, b"", b"");
    match do_integ(&next, read(&image, 40), &mut to_visit) {
        Err(ValueError::IoError(e)) => assert_eq!(e.kind(), io::ErrorKind::UnexpectedEof),
        other => panic!("unexpected {:?}", other),
    }
    assert_eq!(to_visit, set_of(&[1, 20]));
}

#[test]
fn visit_of_an_item_that_names_no_block_is_malformed() {
    let mut to_visit = set_of(&[1]);
    let next =
        IntegBlock { blk_num: BlkNum::Unknown, typ: BlkType::DataBlock, start: vec![], end: vec![] };
    assert!(matches!(
        do_integ(&next, Ok(vec![0u8; 64]), &mut to_visit),
        Err(ValueError::MalformedBlock)
    ));
    assert_eq!(to_visit, set_of(&[1]));
}

#[test]
fn visit_of_bytes_that_hold_no_block_fails() {
    let mut to_visit = set_of(&[5]);
    let next = item(5, BlkType::DataBlock, b"", b"");
    assert!(matches!(
        do_integ(&next, Ok(vec![0u8; 64]), &mut to_visit),
        Err(ValueError::MalformedBlock)
    ));
    assert!(matches!(
        do_integ(&next, Ok(vec![0u8; 4]), &mut to_visit),
        Err(ValueError::RecordError(RecordError::TooSmall))
    ));
}

#[test]
fn leftover_blocks_are_reported_as_marked_busy() {
    let report = unreachable_blocks(&set_of(&[33, 7]));
    let mut numbers: Vec<usize> = report.iter().map(|f| f.blk_num).collect();
    numbers.sort();
    assert_eq!(numbers, vec![7, 33]);
    assert!(report
        .iter()
        .all(|f| matches!(f.cause, ValueError::BlockIncorrectlyMarkedBusy)));
    assert!(unreachable_blocks(&FnvHashSet::default()).is_empty());
}

#[test]
fn integ_of_a_sound_file_reports_nothing_and_reaches_every_busy_block() {
    let run = run_integ(&small_tree(&[1, 20]));
    assert!(run.failures.is_empty());
    assert!(run.left.is_empty());
    assert_eq!(run.busy, set_of(&[1, 20]));
    assert_eq!(run.reached, vec![1, 20]);
    let reached: FnvHashSet<usize> = run.reached.iter().copied().collect();
    assert_eq!(reached, run.busy);
}

#[test]
fn integ_reports_a_busy_block_that_no_parent_points_at() {
    let run = run_integ(&small_tree(&[1, 20, 33]));
    assert_eq!(run.failures.len(), 1);
    assert_eq!(run.failures[0].blk_num, 33);
    assert!(matches!(
        run.failures[0].cause,
        ValueError::BlockIncorrectlyMarkedBusy
    ));
    assert_eq!(run.left, set_of(&[33]));
    assert_eq!(run.reached, vec![1, 20]);
}

#[test]
fn integ_reports_a_data_block_with_a_zero_compression_count() {
    let mut image = HashMap::new();
    image.insert(0, bitmap(&[1, 2, 5]));
    image.insert(1, block(1, &[record(0, &pointer(b"g\0\0", 2))]));
    image.insert(2, block(1, &[record(0, &pointer(b"gz\0\0", 5))]));
    image.insert(5, block(0, &[record(0, b"ga\0\0one"), record(0, b"gd\0\0two")]));
    let run = run_integ(&image);
    assert_eq!(run.reached, vec![1, 2, 5]);
    assert_eq!(run.failures.len(), 1);
    assert_eq!(run.failures[0].blk_num, 5);
    assert!(matches!(
        run.failures[0].cause,
        ValueError::RecordError(RecordError::ZeroCompressionCount)
    ));
    assert!(run.left.is_empty());
}

#[test]
fn integ_visits_a_block_once_whatever_points_at_it() {
    let mut image = HashMap::new();
    image.insert(0, bitmap(&[1, 2, 5]));
    image.insert(1, block(1, &[record(0, &pointer(b"g\0\0", 2))]));
    image.insert(
        2,
        block(
            2,
            &[
                record(0, &pointer(b"ga\0\0", 5)),
                record(1, &pointer(b"b\0\0", 5)),
                record(1, &pointer(b"c\0\0", 2)),
                record(1, &pointer(b"d\0\0", 1)),
            ],
        ),
    );
    image.insert(5, block(1, &[record(0, &pointer(b"gz\0\0", 2))]));
    let run = run_integ(&image);
    assert_eq!(run.reached, vec![1, 2, 5]);
    assert!(run.failures.is_empty());
    assert!(run.left.is_empty());
}

#[test]
fn integ_goes_on_after_a_block_that_cannot_be_read() {
    let mut image = HashMap::new();
    image.insert(0, bitmap(&[1, 2, 5, 6]));
    image.insert(1, block(1, &[record(0, &pointer(b"g\0\0", 2))]));
    image.insert(
        2,
        block(1, &[record(0, &pointer(b"ga\0\0", 5)), record(1, &pointer(b"b\0\0", 6))]),
    );
    image.insert(6, block(0, &[record(0, b"gb\0\0one")]));
    let run = run_integ(&image);
    assert_eq!(run.reached, vec![1, 2, 5, 6]);
    assert_eq!(run.failures.len(), 1);
    assert_eq!(run.failures[0].blk_num, 5);
    assert!(matches!(run.failures[0].cause, ValueError::IoError(_)));
    assert!(run.left.is_empty());
}

#[test]
fn integ_reaches_each_busy_block_once_in_whatever_order_it_visits() {
    let mut image = HashMap::new();
    image.insert(0, bitmap(&[1, 2, 3, 4, 5, 6, 7]));
    image.insert(1, block(1, &[record(0, &pointer(b"g\0\0", 2))]));
    image.insert(
        2,
        block(2, &[record(0, &pointer(b"gd\0\0", 3)), record(1, &pointer(b"m\0\0", 4))]),
    );
    image.insert(
        3,
        block(1, &[record(0, &pointer(b"gb\0\0", 5)), record(1, &pointer(b"d\0\0", 6))]),
    );
    image.insert(4, block(1, &[record(0, &pointer(b"gm\0\0", 7))]));
    image.insert(5, block(0, &[record(0, b"ga\0\0one")]));
    image.insert(6, block(0, &[record(0, b"gc\0\0two")]));
    image.insert(7, block(0, &[record(0, b"gk\0\0three")]));
    let oldest_first = run_integ_in_order(&image, false);
    let newest_first = run_integ_in_order(&image, true);
    assert_eq!(oldest_first.reached, vec![1, 2, 3, 4, 5, 6, 7]);
    assert_eq!(newest_first.reached, vec![1, 2, 4, 7, 3, 6, 5]);
    for run in [oldest_first, newest_first] {
        assert!(run.failures.is_empty());
        assert!(run.left.is_empty());
        let reached: FnvHashSet<usize> = run.reached.iter().copied().collect();
        assert_eq!(reached.len(), run.reached.len());
        assert_eq!(reached, run.busy);
    }
}
