use std::collections::HashMap;
use std::io;

use ydb_ng::lookup::{global_name_len, pick_child, Lookup, LookupPhase, LookupStep};
use ydb_ng::{get_block, BlkNum, BlkType, Database, FileHeader, RecordError, ValueError};

const BLK_SIZE: usize = 4096;

fn record(cmpc: u8, payload: &[u8]) -> Vec<u8> {
    let rsiz = (4 + payload.len()) as u16;
    let mut out = rsiz.to_le_bytes().to_vec();
    out.push(cmpc);
    out.push(0);
    out.extend_from_slice(payload);
    out
}

fn pointer(key: &[u8], blk: u32) -> Vec<u8> {
    let mut payload = key.to_vec();
    payload.extend_from_slice(&blk.to_le_bytes());
    payload
}

fn block(levl: u8, records: &[Vec<u8>]) -> Vec<u8> {
    let payload: Vec<u8> = records.concat();
    let mut raw = vec![0u8; BLK_SIZE];
    let bsiz = (16 + payload.len()) as u32;
    raw[0] = 1;
    raw[3] = levl;
    raw[4..8].copy_from_slice(&bsiz.to_le_bytes());
    raw[16..16 + payload.len()].copy_from_slice(&payload);
    raw
}

fn database() -> Database {
    Database {
        fhead: FileHeader { blk_size: 4096, start_vbn: 257, master_map_len: 253952 },
        master_bitmap: [0u8; 253952],
    }
}

/// Block 1 holds one record for `hello`, which points to block 20, and the
/// sentinel, which points there too; block 20 is a data block.
fn small_tree() -> HashMap<usize, Vec<u8>> {
    let mut image = HashMap::new();
    image.insert(
        1,
        block(
            1,
            &[record(0, &pointer(b"hello\0\0", 20)), record(0, &20u32.to_le_bytes())],
        ),
    );
    image.insert(20, block(0, &[record(0, b"hello\0\0world")]));
    image
}

/// A tree of three levels: directory block 1, the root 2 of a tree at
/// level 2, index blocks 3 and 4 at level 1, data blocks 5 to 8.
fn deep_tree() -> HashMap<usize, Vec<u8>> {
    let mut image = HashMap::new();
    image.insert(
        1,
        block(1, &[record(0, &pointer(b"gz\0\0", 2)), record(0, &9u32.to_le_bytes())]),
    );
    image.insert(
        2,
        block(2, &[record(0, &pointer(b"gm\0\0", 3)), record(0, &4u32.to_le_bytes())]),
    );
    image.insert(
        3,
        block(1, &[record(0, &pointer(b"gd\0\0", 5)), record(0, &6u32.to_le_bytes())]),
    );
    image.insert(
        4,
        block(1, &[record(0, &pointer(b"gt\0\0", 7)), record(0, &8u32.to_le_bytes())]),
    );
    image.insert(
        5,
        block(0, &[record(0, b"ga\0\0one"), record(1, b"d\0\0two")]),
    );
    image.insert(
        6,
        block(0, &[record(0, b"gk\0\0three"), record(1, b"m\0\0four")]),
    );
    image.insert(7, block(0, &[record(0, b"gp\0\0five")]));
    image.insert(8, block(0, &[record(0, b"gx\0\0six")]));
    image
}

fn read(image: &HashMap<usize, Vec<u8>>, blk_num: usize) -> io::Result<Vec<u8>> {
    image
        .get(&blk_num)
        .cloned()
        .ok_or_else(|| io::Error::new(io::ErrorKind::UnexpectedEof, "no such block"))
}

fn find_value_block(image: &HashMap<usize, Vec<u8>>, item: &[u8]) -> Result<BlkNum, ValueError> {
    let mut at = Lookup::start();
    loop {
        match database().find_value_block(at, item, read(image, at.blk_num))? {
            LookupStep::Read(next) => at = next,
            LookupStep::Found(blk) => return Ok(blk),
        }
    }
}

fn lookup(image: &HashMap<usize, Vec<u8>>, item: &[u8]) -> Result<Vec<u8>, ValueError> {
    let blk_num = match find_value_block(image, item)? {
        BlkNum::Block(n) => n,
        _ => 0,
    };
    let raw = read(image, blk_num)?;
    let blk = get_block(&raw, blk_num, BlkType::DataBlock)?;
    database().find_value(item, &blk)
}

#[test]
fn block_one_starts_behind_the_first_256_units_and_one_block() {
    let db = database();
    assert_eq!(db.block_offset(0), Some(131072));
    let start = db.block_offset(1).unwrap();
    assert_eq!(start, 135168);
    assert_eq!(start + db.fhead.blk_size as u64, 139264);
    assert!(db.master_bitmap.iter().all(|b| *b == 0));
    assert_eq!(db.master_bitmap.len(), 253952);
}

#[test]
fn block_offset_follows_the_formula() {
    let db = Database {
        fhead: FileHeader { blk_size: 1024, start_vbn: 513, master_map_len: 0 },
        master_bitmap: [0u8; 253952],
    };
    assert_eq!(db.block_offset(0), Some(512 * 512));
    assert_eq!(db.block_offset(7), Some(512 * 512 + 7 * 1024));
    let first = Database {
        fhead: FileHeader { blk_size: 0, start_vbn: 1, master_map_len: 0 },
        master_bitmap: [0u8; 253952],
    };
    assert_eq!(first.block_offset(usize::MAX), Some(0));
}

#[test]
fn block_offset_of_a_header_without_layout_is_none() {
    let mut db = database();
    db.fhead.start_vbn = 0;
    assert_eq!(db.block_offset(1), None);
    db.fhead.start_vbn = 257;
    db.fhead.blk_size = -1;
    assert_eq!(db.block_offset(1), None);
}

#[test]
fn block_offset_beyond_what_an_offset_holds_is_none() {
    let db = Database {
        fhead: FileHeader { blk_size: i32::MAX, start_vbn: i32::MAX, master_map_len: 0 },
        master_bitmap: [0u8; 253952],
    };
    assert_eq!(db.block_offset(usize::MAX), None);
    assert_eq!(
        db.block_offset(2),
        Some((i32::MAX as u64 - 1) * 512 + 2 * i32::MAX as u64)
    );
}

#[test]
fn point_lookup_returns_the_value_of_the_key() {
    let image = small_tree();
    assert!(matches!(
        find_value_block(&image, b"hello\0\0"),
        Ok(BlkNum::Block(20))
    ));
    assert_eq!(lookup(&image, b"hello\0\0").unwrap(), b"world");
}

#[test]
fn point_lookup_of_a_key_that_is_not_there_fails_with_subscript_not_found() {
    let image = small_tree();
    assert!(matches!(
        find_value_block(&image, b"help\0\0"),
        Ok(BlkNum::Block(20))
    ));
    assert!(matches!(
        lookup(&image, b"help\0\0"),
        Err(ValueError::SubscriptNotFound)
    ));
}

#[test]
fn descent_walks_through_the_index_levels() {
    let image = deep_tree();
    assert!(matches!(find_value_block(&image, b"ga\0\0"), Ok(BlkNum::Block(5))));
    assert!(matches!(find_value_block(&image, b"gd\0\0"), Ok(BlkNum::Block(5))));
    assert!(matches!(find_value_block(&image, b"gk\0\0"), Ok(BlkNum::Block(6))));
    assert!(matches!(find_value_block(&image, b"gm\0\0"), Ok(BlkNum::Block(6))));
    assert!(matches!(find_value_block(&image, b"gp\0\0"), Ok(BlkNum::Block(7))));
    assert!(matches!(find_value_block(&image, b"gx\0\0"), Ok(BlkNum::Block(8))));
    assert_eq!(lookup(&image, b"ga\0\0").unwrap(), b"one");
    assert_eq!(lookup(&image, b"gd\0\0").unwrap(), b"two");
    assert_eq!(lookup(&image, b"gk\0\0").unwrap(), b"three");
    assert_eq!(lookup(&image, b"gm\0\0").unwrap(), b"four");
    assert_eq!(lookup(&image, b"gp\0\0").unwrap(), b"five");
    assert_eq!(lookup(&image, b"gx\0\0").unwrap(), b"six");
    assert!(matches!(
        lookup(&image, b"gb\0\0"),
        Err(ValueError::SubscriptNotFound)
    ));
    assert!(matches!(
        lookup(&image, b"gy\0\0"),
        Err(ValueError::SubscriptNotFound)
    ));
}

#[test]
fn descent_starts_at_block_one_in_the_directory_tree() {
    let at = Lookup::start();
    assert_eq!(at, Lookup { phase: LookupPhase::Directory, blk_num: 1 });
}

#[test]
fn directory_step_follows_the_first_record_after_the_name() {
    let image = deep_tree();
    let step = Lookup::start().step_on(b"gk\0\0", &image[&1]).unwrap();
    assert_eq!(
        step,
        LookupStep::Read(Lookup { phase: LookupPhase::GlobalRoot, blk_num: 2 })
    );
    let step = Lookup::start().step_on(b"g\0\0k\0\0", &image[&1]).unwrap();
    assert_eq!(
        step,
        LookupStep::Read(Lookup { phase: LookupPhase::GlobalRoot, blk_num: 2 })
    );
    let step = Lookup::start().step_on(b"h\0\0", &image[&1]).unwrap();
    assert_eq!(
        step,
        LookupStep::Read(Lookup { phase: LookupPhase::GlobalRoot, blk_num: 9 })
    );
}

#[test]
fn index_step_follows_the_first_record_not_before_the_key() {
    let image = deep_tree();
    let at = Lookup { phase: LookupPhase::GlobalRoot, blk_num: 2 };
    assert_eq!(
        at.step_on(b"gm\0\0", &image[&2]).unwrap(),
        LookupStep::Read(Lookup { phase: LookupPhase::Subtree, blk_num: 3 })
    );
    assert_eq!(
        at.step_on(b"gn\0\0", &image[&2]).unwrap(),
        LookupStep::Read(Lookup { phase: LookupPhase::Subtree, blk_num: 4 })
    );
    let at = Lookup { phase: LookupPhase::Subtree, blk_num: 7 };
    assert_eq!(
        at.step_on(b"gp\0\0", &image[&7]).unwrap(),
        LookupStep::Found(BlkNum::Block(7))
    );
}

#[test]
fn directory_without_sentinel_is_malformed() {
    let raw = block(1, &[record(0, &pointer(b"a\0\0", 2))]);
    assert!(matches!(
        Lookup::start().step_on(b"b\0\0", &raw),
        Err(ValueError::MalformedBlock)
    ));
}

#[test]
fn directory_pointer_to_block_zero_is_malformed() {
    let raw = block(1, &[record(0, &0u32.to_le_bytes())]);
    assert!(matches!(
        Lookup::start().step_on(b"b\0\0", &raw),
        Err(ValueError::MalformedBlock)
    ));
    let short = block(1, &[record(0, b"c\0\0")]);
    assert!(matches!(
        Lookup::start().step_on(b"b\0\0", &short),
        Err(ValueError::MalformedBlock)
    ));
}

#[test]
fn root_of_the_tree_without_a_record_to_follow_is_global_not_found() {
    let raw = block(1, &[record(0, &pointer(b"a\0\0", 5))]);
    let at = Lookup { phase: LookupPhase::GlobalRoot, blk_num: 2 };
    assert!(matches!(
        at.step_on(b"b\0\0", &raw),
        Err(ValueError::GlobalNotFound)
    ));
}

#[test]
fn index_block_without_a_record_to_follow_is_subscript_not_found() {
    let raw = block(1, &[record(0, &pointer(b"a\0\0", 5))]);
    let at = Lookup { phase: LookupPhase::Subtree, blk_num: 3 };
    assert!(matches!(
        at.step_on(b"b\0\0", &raw),
        Err(ValueError::SubscriptNotFound)
    ));
}

#[test]
fn failed_read_ends_the_descent_with_its_error() {
    let image = small_tree();
    let at = Lookup { phase: LookupPhase::GlobalRoot, blk_num: 99 };
    let r = database().find_value_block(at, b"hello\0\0", read(&image, 99));
    match r {
        Err(ValueError::IoError(e)) => assert_eq!(e.kind(), io::ErrorKind::UnexpectedEof),
        other => panic!("unexpected {:?}", other),
    }
}

#[test]
fn step_on_bytes_that_hold_no_block_fails() {
    let at = Lookup::start();
    assert!(matches!(
        at.step_on(b"a\0\0", &[0u8; 8]),
        Err(ValueError::RecordError(RecordError::TooSmall))
    ));
    let mut raw = block(1, &[record(0, &20u32.to_le_bytes())]);
    raw[4..8].copy_from_slice(&5000u32.to_le_bytes());
    assert!(matches!(at.step_on(b"a\0\0", &raw), Err(ValueError::MalformedBlock)));
    let at = Lookup { phase: LookupPhase::Subtree, blk_num: 3 };
    assert!(matches!(at.step_on(b"a\0\0", &raw), Err(ValueError::MalformedBlock)));
}

#[test]
fn step_on_a_block_with_a_broken_record_fails_with_too_small() {
    let raw = block(1, &[vec![3, 0, 0, 0]]);
    assert!(matches!(
        Lookup::start().step_on(b"a\0\0", &raw),
        Err(ValueError::RecordError(RecordError::TooSmall))
    ));
}

#[test]
fn pick_child_returns_the_pointer_of_the_record_that_leads_on() {
    let raw = block(
        1,
        &[
            record(0, &pointer(b"b\0\0", 5)),
            record(0, &pointer(b"d\0\0", 6)),
            record(0, &7u32.to_le_bytes()),
        ],
    );
    let blk = get_block(&raw, 3, BlkType::IndexBlock).unwrap();
    assert_eq!(pick_child(&blk, b"a\0\0", true).unwrap(), Some(BlkNum::Block(5)));
    assert_eq!(pick_child(&blk, b"b\0\0", true).unwrap(), Some(BlkNum::Block(5)));
    assert_eq!(pick_child(&blk, b"b\0\0", false).unwrap(), Some(BlkNum::Block(6)));
    assert_eq!(pick_child(&blk, b"c\0\0", true).unwrap(), Some(BlkNum::Block(6)));
    assert_eq!(pick_child(&blk, b"e\0\0", true).unwrap(), Some(BlkNum::Block(7)));
    let empty = block(1, &[]);
    let blk = get_block(&empty, 3, BlkType::IndexBlock).unwrap();
    assert_eq!(pick_child(&blk, b"a\0\0", true).unwrap(), None);
}

#[test]
fn find_value_stops_at_the_first_record_after_the_key() {
    let raw = block(
        0,
        &[record(0, b"a\0\0one"), record(0, b"c\0\0two"), record(0, b"e\0\0three")],
    );
    let blk = get_block(&raw, 3, BlkType::DataBlock).unwrap();
    let db = database();
    assert_eq!(db.find_value(b"a\0\0", &blk).unwrap(), b"one");
    assert_eq!(db.find_value(b"c\0\0", &blk).unwrap(), b"two");
    assert_eq!(db.find_value(b"e\0\0", &blk).unwrap(), b"three");
    assert!(matches!(db.find_value(b"b\0\0", &blk), Err(ValueError::SubscriptNotFound)));
    assert!(matches!(db.find_value(b"f\0\0", &blk), Err(ValueError::SubscriptNotFound)));
    assert!(matches!(db.find_value(b"", &blk), Err(ValueError::SubscriptNotFound)));
}

#[test]
fn find_value_follows_compressed_keys() {
    let raw = block(
        0,
        &[
            record(0, b"gaa\0\0one"),
            record(2, b"b\0\0two"),
            record(1, b"b\0\0three"),
            record(2, b"c\0\0four"),
        ],
    );
    let blk = get_block(&raw, 3, BlkType::DataBlock).unwrap();
    let db = database();
    assert_eq!(db.find_value(b"gaa\0\0", &blk).unwrap(), b"one");
    assert_eq!(db.find_value(b"gab\0\0", &blk).unwrap(), b"two");
    assert_eq!(db.find_value(b"gb\0\0", &blk).unwrap(), b"three");
    assert_eq!(db.find_value(b"gbc\0\0", &blk).unwrap(), b"four");
    assert!(matches!(
        db.find_value(b"gac\0\0", &blk),
        Err(ValueError::SubscriptNotFound)
    ));
    assert!(matches!(
        db.find_value(b"gbd\0\0", &blk),
        Err(ValueError::SubscriptNotFound)
    ));
}

#[test]
fn find_value_finds_subscripts_behind_the_shared_name() {
    let raw = block(
        0,
        &[
            record(0, b"g\0\0root"),
            record(3, b"a\0\0one"),
            record(3, b"d\0\0two"),
            record(6, b"x\0\0three"),
        ],
    );
    let blk = get_block(&raw, 3, BlkType::DataBlock).unwrap();
    let db = database();
    assert_eq!(db.find_value(b"g\0\0", &blk).unwrap(), b"root");
    assert_eq!(db.find_value(b"g\0\0a\0\0", &blk).unwrap(), b"one");
    assert_eq!(db.find_value(b"g\0\0d\0\0", &blk).unwrap(), b"two");
    assert_eq!(db.find_value(b"g\0\0d\0\0x\0\0", &blk).unwrap(), b"three");
    assert!(matches!(
        db.find_value(b"g\0\0b\0\0", &blk),
        Err(ValueError::SubscriptNotFound)
    ));
}

#[test]
fn find_value_in_a_block_with_a_broken_record_fails_with_too_small() {
    let raw = block(0, &[record(0, b"a\0\0one"), vec![200, 0, 0, 0]]);
    let blk = get_block(&raw, 3, BlkType::DataBlock).unwrap();
    assert!(matches!(
        database().find_value(b"b\0\0", &blk),
        Err(ValueError::RecordError(RecordError::TooSmall))
    ));
}

#[test]
fn name_of_the_global_ends_at_the_first_zero_byte() {
    assert_eq!(global_name_len(b"hello\0\0"), 5);
    assert_eq!(global_name_len(b"g\0\0k\0\0"), 1);
    assert_eq!(global_name_len(b"abc"), 3);
    assert_eq!(global_name_len(b"\0\0"), 0);
    assert_eq!(global_name_len(b""), 0);
}

#[test]
fn block_one_is_read_from_the_bytes_behind_its_offset() {
    let db = database();
    let mut file = vec![0u8; 139264 + 10];
    for (i, byte) in file.iter_mut().enumerate() {
        *byte = (i % 251) as u8;
    }
    let block = db.get_block(&file, 1).unwrap();
    assert_eq!(block.len(), 4096);
    assert_eq!(block, file[135168..139264].to_vec());
    assert_eq!(db.get_block(&file, 0).unwrap(), file[131072..135168].to_vec());
    assert_eq!(
        db.get_block(&file[..139264], 1).unwrap(),
        file[135168..139264].to_vec()
    );
}

#[test]
fn block_behind_the_end_of_the_file_is_an_io_error() {
    let db = database();
    let file = vec![0u8; 139263];
    match db.get_block(&file, 1) {
        Err(e) => assert_eq!(e.kind(), io::ErrorKind::UnexpectedEof),
        Ok(_) => panic!("read past the end"),
    }
    assert!(db.get_block(&file, 0).is_ok());
    assert!(db.get_block(&file, usize::MAX).is_err());
    let mut broken = database();
    broken.fhead.start_vbn = 0;
    assert!(broken.get_block(&file, 0).is_err());
}
