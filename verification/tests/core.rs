use agatedb::block::{build_block, BlockIterator, IteratorError, SeekPos};
use agatedb::codec::{decode_varint_u64, encode_varint_u64, varint_u64_bytes_len};
use agatedb::error::Error;
use agatedb::format::{compare_key, get_ts, key_with_ts, same_key};
use agatedb::levels::{LevelHandler, LevelsController};
use agatedb::table::build_table;
use agatedb::value::{Entry, Value, ValuePointer};
use agatedb::wal::{Header, Wal, MAX_HEADER_SIZE};
use agatedb::AgateOptions;
use std::cmp::Ordering;

fn ikey(user: &str, ts: u64) -> Vec<u8> {
    key_with_ts(&user.as_bytes().to_vec(), ts)
}

fn val(payload: &str) -> Value {
    Value {
        meta: 1,
        user_meta: 0,
        expires_at: 0,
        value: payload.as_bytes().to_vec(),
        version: 0,
    }
}

fn tombstone() -> Value {
    Value {
        meta: 0,
        user_meta: 0,
        expires_at: 0,
        value: Vec::new(),
        version: 0,
    }
}

#[test]
fn test_iterator_error() {
    let ite1 = IteratorError::EOF;
    assert!(ite1.is_eof());

    let ite3 = IteratorError::Error("23333".to_string());
    assert!(!ite3.is_eof());
}

#[test]
fn test_header_encode() {
    let header = Header {
        key_len: 233333,
        value_len: 2333,
        expires_at: u64::MAX - 2333333,
        user_meta: b'A',
        meta: b'B',
    };

    let mut buf: Vec<u8> = Vec::new();
    header.encode(&mut buf);

    let (new_header, used) = Header::decode(&buf, 0).unwrap();
    assert_eq!(new_header, header);
    assert_eq!(used, buf.len());
    assert_eq!(header.encoded_len(), buf.len());
}

#[test]
fn test_varint_roundtrip() {
    for x in [0u64, 1, 127, 128, 300, 0xffff_ffff, u64::MAX] {
        let mut buf: Vec<u8> = Vec::new();
        encode_varint_u64(&mut buf, x);
        assert_eq!(buf.len(), varint_u64_bytes_len(x));
        let (y, end) = decode_varint_u64(&buf, 0).unwrap();
        assert_eq!(y, x);
        assert_eq!(end, buf.len());
    }
    let mut buf: Vec<u8> = Vec::new();
    encode_varint_u64(&mut buf, 300);
    assert_eq!(buf, vec![0xac, 0x02]);
}

#[test]
fn test_compare_key_laws() {
    let a = ikey("k", 5);
    assert_eq!(compare_key(&a, &a), Ordering::Equal);
    // newer versions come first
    let newer = ikey("k", 9);
    let older = ikey("k", 2);
    assert_eq!(compare_key(&newer, &older), Ordering::Less);
    assert_eq!(compare_key(&older, &newer), Ordering::Greater);
    // user keys order lexicographically
    assert_eq!(compare_key(&ikey("a", 1), &ikey("b", 9)), Ordering::Less);
    assert!(same_key(&ikey("k", 1), &ikey("k", 77)));
    assert!(!same_key(&ikey("k", 1), &ikey("l", 1)));
    assert_eq!(get_ts(&ikey("k", 42)), 42);
    assert_eq!(get_ts(&b"abc".to_vec()), 0);
}

#[test]
fn test_block_traversal() {
    let keys = vec![ikey("alpha", 3), ikey("beta", 2), ikey("gamma", 1)];
    let values = vec![val("a"), val("b"), val("c")];
    let block = build_block(&keys, &values);
    let mut it = BlockIterator::new(block);
    // forward traversal yields the input sequence
    it.seek_to_first();
    let mut seen: Vec<Vec<u8>> = Vec::new();
    while it.valid() {
        seen.push(it.key.clone());
        it.next();
    }
    assert_eq!(seen, keys);
    // backward traversal yields the reverse
    it.seek_to_last();
    let mut rev: Vec<Vec<u8>> = Vec::new();
    while it.valid() {
        rev.push(it.key.clone());
        it.prev();
    }
    let mut expect = keys.clone();
    expect.reverse();
    assert_eq!(rev, expect);
}

#[test]
fn test_block_seek() {
    let keys = vec![ikey("a", 1), ikey("b", 1), ikey("c", 1)];
    let values = vec![val("1"), val("2"), val("3")];
    let block = build_block(&keys, &values);
    let mut it = BlockIterator::new(block);
    // seek lands on the first entry at or past the target
    it.seek(&ikey("b", 1), SeekPos::Origin);
    assert!(it.valid());
    assert_eq!(it.key, keys[1]);
    // an earlier target lands on the first entry
    it.seek(&ikey("a", 9), SeekPos::Origin);
    assert!(it.valid());
    assert_eq!(it.key, keys[0]);
}

#[test]
fn test_block_seek_past_end() {
    let keys = vec![ikey("a", 1), ikey("b", 1), ikey("c", 1)];
    let values = vec![val("1"), val("2"), val("3")];
    let block = build_block(&keys, &values);
    let mut it = BlockIterator::new(block);
    it.seek(&ikey("d", 0), SeekPos::Origin);
    assert!(!it.valid());
    assert!(it.error().unwrap().is_eof());
}

#[test]
fn test_table_iterator_across_blocks() {
    let mut keys: Vec<Vec<u8>> = Vec::new();
    let mut values: Vec<Value> = Vec::new();
    for i in 0..10 {
        keys.push(ikey(&format!("key{:02}", i), 1));
        values.push(val(&format!("v{}", i)));
    }
    let table = build_table(&keys, &values, 3);
    let mut it = table.new_iterator(0);
    it.rewind();
    let mut n = 0;
    while it.valid() {
        assert_eq!(it.key(), &keys[n]);
        n += 1;
        it.next();
    }
    assert_eq!(n, 10);
    // seek straddles block boundaries
    let mut it2 = table.new_iterator(0);
    it2.seek(&ikey("key07", 9));
    assert!(it2.valid());
    assert_eq!(it2.key(), &keys[7]);
}

#[test]
fn test_merge_iterator_order() {
    let t1 = build_table(
        &vec![ikey("a", 1), ikey("c", 1)],
        &vec![val("a1"), val("c1")],
        16,
    );
    let t2 = build_table(
        &vec![ikey("b", 1), ikey("d", 1)],
        &vec![val("b2"), val("d2")],
        16,
    );
    let iters = vec![t1.new_iterator(0), t2.new_iterator(0)];
    let mut merge = agatedb::merge::MergeIterator::from_iterators(iters, false);
    merge.seek(&ikey("a", 9));
    let mut seen: Vec<Vec<u8>> = Vec::new();
    while merge.valid() {
        seen.push(merge.key().clone());
        merge.next();
    }
    assert_eq!(
        seen,
        vec![ikey("a", 1), ikey("b", 1), ikey("c", 1), ikey("d", 1)]
    );
}

#[test]
fn test_versioned_lookup() {
    // one table holding two versions of one user key, newest first
    let keys = vec![ikey("k", 5), ikey("k", 3)];
    let values = vec![val("v5"), val("v3")];
    let table = build_table(&keys, &values, 16);
    let mut handler = LevelHandler::new(AgateOptions::default(), 0);
    assert!(handler.try_add_l0_table(table));
    // at read version 4, the first entry at or past the target is the
    // newest version at or below 4
    let got = handler.get(&ikey("k", 4)).unwrap().unwrap();
    assert_eq!(got.value, b"v3".to_vec());
    assert_eq!(got.version, 3);
    // at read version 5 the newest version is visible
    let got5 = handler.get(&ikey("k", 5)).unwrap().unwrap();
    assert_eq!(got5.value, b"v5".to_vec());
    assert_eq!(got5.version, 5);
    // a user key that is not there
    assert!(handler.get(&ikey("zz", 1)).unwrap().is_none());
}

#[test]
fn test_tombstone_skip() {
    let mut opts = AgateOptions::default();
    opts.max_levels = 2;
    let mut ctl = LevelsController::new(opts).unwrap();
    // L0 holds a tombstone for "k" at the read version, so the L0
    // lookup finds it and the walk continues; L1 holds "k" at version 7
    let t0 = build_table(&vec![ikey("k", 7)], &vec![tombstone()], 16);
    assert!(ctl.try_add_l0_table(t0));
    let t1 = build_table(&vec![ikey("k", 7)], &vec![val("v7")], 16);
    // place the L1 table through the handler collection, keeping the
    // size accounting consistent
    let sz = t1.size();
    ctl.levels[1].tables.push(t1);
    ctl.levels[1].total_size += sz;
    let got = ctl.get(&ikey("k", 7), tombstone(), 0).unwrap();
    assert_eq!(got.value, b"v7".to_vec());
    assert_eq!(got.version, 7);
}

#[test]
fn test_l0_equal_key_tie() {
    // two L0 tables hold the same internal key; the earlier table wins
    let ta = build_table(&vec![ikey("k", 5)], &vec![val("first")], 16);
    let tb = build_table(&vec![ikey("k", 5)], &vec![val("second")], 16);
    let mut handler = LevelHandler::new(AgateOptions::default(), 0);
    assert!(handler.try_add_l0_table(ta));
    assert!(handler.try_add_l0_table(tb));
    let got = handler.get(&ikey("k", 5)).unwrap().unwrap();
    assert_eq!(got.value, b"first".to_vec());
}

#[test]
fn test_l0_stall() {
    let mut opts = AgateOptions::default();
    opts.num_level_zero_tables_stall = 2;
    let mut handler = LevelHandler::new(opts, 0);
    let t = || build_table(&vec![ikey("x", 1)], &vec![val("v")], 16);
    assert!(handler.try_add_l0_table(t()));
    assert!(handler.try_add_l0_table(t()));
    // the third add stalls
    assert!(!handler.try_add_l0_table(t()));
    assert_eq!(handler.num_tables(), 2);
    // after eviction to one free slot it succeeds again
    let evicted = handler.tables.pop().unwrap();
    handler.total_size -= evicted.size();
    assert!(handler.try_add_l0_table(t()));
}

#[test]
fn test_wal_create() {
    let mut opts = AgateOptions::default();
    opts.value_log_file_size = 4096;
    let wal = Wal::create(opts);
    assert_eq!(wal.size(), 8192);
    assert!(!wal.should_flush());
}

#[test]
fn test_wal_iterator() {
    let mut opts = AgateOptions::default();
    opts.value_log_file_size = 4096;
    let mut wal = Wal::create(opts.clone());
    for i in 0..20 {
        let entry = Entry::new(i.to_string().into_bytes(), i.to_string().into_bytes());
        wal.write_entry(&entry).unwrap();
    }
    // reopen the image and iterate
    let wal = Wal::open(wal.data().clone(), opts).unwrap();
    let mut it = wal.iter().unwrap();
    let mut cnt = 0;
    while let Some(entry) = it.next() {
        let entry = entry.unwrap();
        assert_eq!(entry.key, cnt.to_string().as_bytes());
        assert_eq!(entry.value, cnt.to_string().as_bytes());
        cnt += 1;
    }
    assert_eq!(cnt, 20);
}

#[test]
fn test_wal_iterator_trunc() {
    let mut opts = AgateOptions::default();
    opts.value_log_file_size = 4096;
    let mut wal = Wal::create(opts.clone());
    for i in 0..20 {
        let entry = Entry::new(i.to_string().into_bytes(), i.to_string().into_bytes());
        wal.write_entry(&entry).unwrap();
    }
    let image = wal.data().clone();

    for trunc_length in (50..100).rev() {
        // truncate the log image and reopen
        let cut: Vec<u8> = image[..trunc_length].to_vec();
        let wal = Wal::open(cut, opts.clone()).unwrap();
        let mut it = wal.iter().unwrap();
        let mut cnt = 0;
        while let Some(entry) = it.next() {
            let entry = entry.unwrap();
            assert_eq!(entry.key, cnt.to_string().as_bytes());
            assert_eq!(entry.value, cnt.to_string().as_bytes());
            cnt += 1;
        }
        assert!(cnt < 20);
    }
}

#[test]
fn test_wal_write_errors() {
    let mut opts = AgateOptions::default();
    opts.value_log_file_size = 64;
    let mut wal = Wal::create(opts);
    // the zero entry is the end-of-log sentinel and cannot be persisted
    let zero = Entry::new(Vec::new(), Vec::new());
    assert!(matches!(wal.write_entry(&zero), Err(Error::EmptyKey)));
    // an empty key with a value is representable and round-trips
    let empty_key = Entry::new(Vec::new(), b"v".to_vec());
    assert!(wal.write_entry(&empty_key).is_ok());
    let mut it = wal.iter().unwrap();
    let back = it.next().unwrap().unwrap();
    assert_eq!(back.key, Vec::<u8>::new());
    assert_eq!(back.value, b"v".to_vec());
    assert!(it.next().is_none());
    // an entry too large for the image is rejected
    let big = Entry::new(b"k".to_vec(), vec![7u8; 4096]);
    assert!(matches!(wal.write_entry(&big), Err(Error::TooLong(_))));
}

#[test]
fn test_wal_read_bounds() {
    let mut opts = AgateOptions::default();
    opts.value_log_file_size = 4096;
    let mut wal = Wal::create(opts);
    let entry = Entry::new(b"key".to_vec(), b"value".to_vec());
    wal.write_entry(&entry).unwrap();
    let ok = wal.read(&ValuePointer {
        file_id: 0,
        offset: 0,
        len: 4,
    });
    assert_eq!(ok.unwrap().len(), 4);
    let bad = wal.read(&ValuePointer {
        file_id: 0,
        offset: 9000,
        len: 10,
    });
    assert!(matches!(bad, Err(Error::LogRead(_))));
}

#[test]
fn test_wal_truncate_bookkeeping() {
    let mut opts = AgateOptions::default();
    opts.value_log_file_size = 4096;
    let mut wal = Wal::create(opts);
    wal.truncate(100).unwrap();
    assert_eq!(wal.size(), 100);
    assert_eq!(MAX_HEADER_SIZE, 21);
}

#[test]
fn test_value_decode() {
    let v = val("payload");
    let mut buf: Vec<u8> = Vec::new();
    v.encode(&mut buf);
    let mut back = Value::empty();
    assert!(back.decode(&buf));
    assert_eq!(back.meta, v.meta);
    assert_eq!(back.user_meta, v.user_meta);
    assert_eq!(back.expires_at, v.expires_at);
    assert_eq!(back.value, v.value);
}

#[test]
fn test_reserve_file_id() {
    let opts = AgateOptions::default();
    let mut ctl = LevelsController::new(opts).unwrap();
    assert_eq!(ctl.reserve_file_id(), 0);
    assert_eq!(ctl.reserve_file_id(), 1);
    assert_eq!(ctl.reserve_file_id(), 2);
}
