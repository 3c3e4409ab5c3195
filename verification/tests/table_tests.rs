//! Building sorted tables and reading them back.

use badgerkv::bloom::hash;
use badgerkv::kv::{key_with_ts, parse_key};
use badgerkv::table::builder::{Builder, Options};
use badgerkv::table::iter::TableIterator;
use badgerkv::table::reader::Table;
use badgerkv::value::ValueStruct;

fn bits_per_key(fp: f64) -> isize {
    // Bits per key from a target false-positive rate, as the builder's
    // callers derive it.
    ((-1.0f64 * fp.ln() / 0.69314718056f64) * 1.0).ceil() as isize
}

fn test_options() -> Options {
    Options {
        table_size: 30 << 20,
        bloom_bits_per_key: 10,
        block_size: 4 * 1024,
        cv_mode: badgerkv::options::ChecksumVerificationMode::OnTableAndBlockRead,
    }
}

fn build_test_builder(key_counts: u32, opts: Options) -> Builder {
    let mut builder = Builder::new(opts);
    for i in 0..key_counts {
        builder.add(
            key_with_ts(format!("{:016x}", i).into_bytes(), i as u64),
            ValueStruct::new(format!("value{:04}", i).as_bytes().to_vec()),
            0,
        );
    }
    builder
}

#[test]
fn test_empty_builder() {
    let mut opts = test_options();
    opts.bloom_bits_per_key = bits_per_key(0.1);
    let builder = Builder::new(opts);
    let empty_bytes: Vec<u8> = Vec::new();
    assert_eq!(empty_bytes, builder.finish(), "the builder should be empty");
}

#[test]
fn test_dump_build_data() {
    let opts = test_options();
    let builder = build_test_builder(100, opts);
    let bd = builder.done();
    let mut buf = Vec::new();
    let written = bd.dump(&mut buf);
    assert_eq!(written, bd.size);
    assert_eq!(written as usize, buf.len());
}

#[test]
fn test_table_open_and_iterate() {
    let n = 500u32;
    let opts = test_options();
    let builder = build_test_builder(n, opts);
    let image = builder.finish();
    let table = Table::open(image, 1, opts).unwrap();

    assert_eq!(table.id(), 1);
    assert_eq!(table.key_count(), n);
    assert_eq!(
        parse_key(table.smallest()),
        format!("{:016x}", 0).into_bytes()
    );
    assert_eq!(
        parse_key(table.biggest()),
        format!("{:016x}", n - 1).into_bytes()
    );
    table.verify_checksum().unwrap();

    // The iterator returns every key, in the order they were added.
    let mut it = TableIterator::new(table);
    assert!(it.seek_to_first());
    let mut count = 0u32;
    while it.valid() {
        let expected_key = key_with_ts(format!("{:016x}", count).into_bytes(), count as u64);
        assert_eq!(it.key(), expected_key);
        let vs = it.value_struct().unwrap();
        assert_eq!(vs.value, format!("value{:04}", count).into_bytes());
        count += 1;
        it.next();
    }
    assert_eq!(count, n);
}

#[test]
fn test_table_seek() {
    let n = 500u32;
    let opts = test_options();
    let builder = build_test_builder(n, opts);
    let image = builder.finish();
    let table = Table::open(image, 1, opts).unwrap();
    let mut it = TableIterator::new(table);

    // Seeking an exact key lands on it.
    let target = key_with_ts(format!("{:016x}", 123).into_bytes(), 123);
    assert!(it.seek(&target));
    assert_eq!(parse_key(&it.key()), format!("{:016x}", 123).into_bytes());

    // Seeking between keys lands on the next one.
    let mut between = format!("{:016x}", 123).into_bytes();
    between.push(b'x');
    let between = key_with_ts(between, 0);
    assert!(it.seek(&between));
    assert_eq!(parse_key(&it.key()), format!("{:016x}", 124).into_bytes());

    // Seeking past the end fails.
    let past = key_with_ts(b"zzzz".to_vec(), 0);
    assert!(!it.seek(&past));

    // seek_for_prev on a between-key lands on the previous one.
    let mut between2 = format!("{:016x}", 200).into_bytes();
    between2.push(b'x');
    let between2 = key_with_ts(between2, 0);
    assert!(it.seek_for_prev(&between2));
    assert_eq!(parse_key(&it.key()), format!("{:016x}", 200).into_bytes());
}

#[test]
fn test_table_backward_iteration() {
    let n = 300u32;
    let opts = test_options();
    let builder = build_test_builder(n, opts);
    let image = builder.finish();
    let table = Table::open(image, 1, opts).unwrap();
    let mut it = TableIterator::new(table);

    assert!(it.seek_to_last());
    let mut i = n;
    loop {
        i -= 1;
        assert_eq!(parse_key(&it.key()), format!("{:016x}", i).into_bytes());
        if i == 0 {
            break;
        }
        assert!(it.prev());
    }
    assert!(!it.prev());
}

#[test]
fn test_max_version() {
    let opts = test_options();
    let mut b = Builder::new(opts);
    const N: u64 = 1000;
    for i in 0..N {
        b.add(
            key_with_ts(format!("foo:{:04}", i).into_bytes(), i + 1),
            ValueStruct::new(vec![]),
            0,
        );
    }
    let image = b.finish();
    let tbl = Table::open(image, 1, opts).unwrap();
    assert_eq!(N, tbl.max_version());
}

#[test]
fn test_bloom_on_table() {
    let n = 200u32;
    let opts = test_options();
    let builder = build_test_builder(n, opts);
    let image = builder.finish();
    let table = Table::open(image, 1, opts).unwrap();
    assert!(table.has_bloom_filter());

    for i in 0..n {
        let h = hash(format!("{:016x}", i).into_bytes());
        assert!(!table.does_not_have(h));
    }
    // Without a filter nothing is ever ruled out.
    let mut opts2 = test_options();
    opts2.bloom_bits_per_key = 0;
    let builder2 = build_test_builder(10, opts2);
    let table2 = Table::open(builder2.finish(), 2, opts2).unwrap();
    assert!(!table2.has_bloom_filter());
    assert!(!table2.does_not_have(hash(b"foo".to_vec())));
}

#[test]
fn test_table_corrupt_index() {
    let opts = test_options();
    let builder = build_test_builder(10, opts);
    let mut image = builder.finish();
    // Flip a byte inside the index region: the footer checksum catches it.
    let at = image.len() - 20;
    image[at] ^= 0xff;
    assert!(Table::open(image, 1, opts).is_err());
}
