//! Unit tests for the pipeline's parts: the hash, the page rounding, the
//! partitioner, the parser, and the table.
use rowscan::aggregate::aggregate;
use rowscan::hash::FxHasher;
use rowscan::mapper::get_page_round_up;
use rowscan::parse::parse_value;
use rowscan::partition::make_partitions;
use rowscan::table::AggregationTable;
use rowscan::table::Record;
use rowscan::Error;

#[test]
fn hasher_starts_at_zero() {
    let h = FxHasher::default();
    assert_eq!(h.finish(), 0);
}

#[test]
fn hasher_known_values() {
    let mut h = FxHasher::default();
    h.write(&b"ab".to_vec());
    assert_eq!(h.finish(), 0x61000000a4b1);

    let mut h2 = FxHasher::default();
    h2.write(&b"Hamburg".to_vec());
    assert_eq!(h2.finish(), 0x3a62c4f8a1f58be0);
}

#[test]
fn hasher_is_streaming() {
    // Writing in two pieces equals writing at once.
    let mut h1 = FxHasher::default();
    h1.write(&b"Ham".to_vec());
    h1.write(&b"burg".to_vec());
    let mut h2 = FxHasher::default();
    h2.write(&b"Hamburg".to_vec());
    assert_eq!(h1.finish(), h2.finish());
}

#[test]
fn page_round_up() {
    assert_eq!(get_page_round_up(0), 0);
    assert_eq!(get_page_round_up(1), 4096);
    assert_eq!(get_page_round_up(4095), 4096);
    assert_eq!(get_page_round_up(4096), 4096);
    assert_eq!(get_page_round_up(4097), 8192);
}

#[test]
fn page_round_up_largest_input() {
    // The largest admissible length is already page-aligned.
    assert_eq!(get_page_round_up(u64::MAX - 4095), u64::MAX - 4095);
}

#[test]
fn merge_count_overflow_is_reported() {
    let saturated = AggregationTable {
        entries: vec![(
            b"k".to_vec(),
            Record { min: 0, max: 0, sum: 0, count: u64::MAX },
        )],
    };
    let one = {
        let d = b"k;0.0\n".to_vec();
        aggregate(&d, 0, d.len()).unwrap()
    };
    let mut acc = saturated;
    assert_eq!(acc.merge(one).unwrap_err(), Error::CountOverflow);
}

#[test]
fn parse_value_forms() {
    let d = b"5.0 -2.3 0.0 7 -13 120.5".to_vec();
    assert_eq!(parse_value(&d, 0, 3).unwrap(), 50);
    assert_eq!(parse_value(&d, 4, 8).unwrap(), -23);
    assert_eq!(parse_value(&d, 9, 12).unwrap(), 0);
    assert_eq!(parse_value(&d, 13, 14).unwrap(), 70);
    assert_eq!(parse_value(&d, 15, 18).unwrap(), -130);
    assert_eq!(parse_value(&d, 19, 24).unwrap(), 1205);
}

#[test]
fn parse_value_faults() {
    let bad = [
        "", "-", ".5", "3.", "3.33", "a", "1a", "--1", "1.-1", "1 2", "9999999999.0",
    ];
    for s in bad {
        let d = s.as_bytes().to_vec();
        assert_eq!(parse_value(&d, 0, d.len()).unwrap_err(), Error::BadNumber, "{}", s);
    }
}

#[test]
fn partitions_cover_and_align() {
    let data = b"aa;1.0\nbb;2.0\ncc;3.0\ndd;4.0\n".to_vec();
    for n in 1..=3 {
        let ps = make_partitions(&data, n).unwrap();
        assert_eq!(ps.len(), n);
        assert_eq!(ps[0].start, 0);
        assert_eq!(ps[n - 1].end, data.len());
        for i in 0..n - 1 {
            assert_eq!(ps[i].end, ps[i + 1].start);
            assert_eq!(data[ps[i].end - 1], b'\n');
        }
        // Concatenated in order, the ranges reproduce the file.
        let mut rebuilt = Vec::new();
        for p in &ps {
            rebuilt.extend_from_slice(&data[p.start..p.end]);
        }
        assert_eq!(rebuilt, data);
    }
}

#[test]
fn table_records_min_max_sum_count() {
    let data = b"k;1.5\nk;-2.0\nk;0.5\n".to_vec();
    let t = aggregate(&data, 0, data.len()).unwrap();
    let rec = t.get(&b"k".to_vec()).unwrap();
    assert_eq!(rec.min, -20);
    assert_eq!(rec.max, 15);
    assert_eq!(rec.sum, 0);
    assert_eq!(rec.count, 3);
    assert!(t.get(&b"j".to_vec()).is_none());
}

#[test]
fn merge_key_union() {
    let d1 = b"A;1.0\nB;2.0\n".to_vec();
    let d2 = b"B;4.0\nC;-1.0\n".to_vec();
    let mut acc = aggregate(&d1, 0, d1.len()).unwrap();
    let t2 = aggregate(&d2, 0, d2.len()).unwrap();
    acc.merge(t2).unwrap();
    assert_eq!(acc.len(), 3);
    let b = acc.get(&b"B".to_vec()).unwrap();
    assert_eq!((b.min, b.max, b.sum, b.count), (20, 40, 60, 2));
    assert!(acc.get(&b"A".to_vec()).is_some());
    assert!(acc.get(&b"C".to_vec()).is_some());
}
