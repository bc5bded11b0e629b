//! End-to-end scenarios over the whole pipeline: partition, aggregate,
//! merge, format.
use rowscan::aggregate::aggregate;

use rowscan::partition::make_partitions;
use rowscan::table::AggregationTable;
use rowscan::Error;

fn run_pipeline(data: &Vec<u8>, workers: usize) -> Result<String, Error> {
    let parts = make_partitions(data, workers)?;
    let mut tables: Vec<AggregationTable> = Vec::new();
    for p in &parts {
        assert!(p.start <= p.end && p.end <= data.len());
        tables.push(aggregate(data, p.start, p.end)?);
    }
    let mut acc = AggregationTable::new();
    for t in tables {
        acc.merge(t)?;
    }
    Ok(String::from_utf8(rowscan::format::format(&acc)).unwrap())
}

#[test]
fn two_partition_example() {
    // Splitting anywhere must produce the same merged, truncated output.
    let data = b"A;5.0\nB;-2.3\nA;9.5\nB;0.0\n".to_vec();
    let out = run_pipeline(&data, 2).unwrap();
    assert_eq!(out, "{A=5.0/9.5/7.2, B=-2.3/0.0/-1.2}");
}

#[test]
fn one_partition_equals_many() {
    let data = b"A;5.0\nB;-2.3\nA;9.5\nB;0.0\n".to_vec();
    let single = run_pipeline(&data, 1).unwrap();
    for workers in 2..=3 {
        assert_eq!(run_pipeline(&data, workers).unwrap(), single);
    }
}

#[test]
fn two_fractional_digits_fail() {
    // More than one fractional digit is a record fault, never truncated.
    let data = b"X;3.33\n".to_vec();
    let parts = make_partitions(&data, 1).unwrap();
    let r = aggregate(&data, parts[0].start, parts[0].end);
    assert_eq!(r.unwrap_err(), Error::BadNumber);
}

#[test]
fn zero_workers_fail() {
    // An explicit contract choice: zero workers is refused.
    let data = b"A;1.0\n".to_vec();
    assert_eq!(make_partitions(&data, 0).unwrap_err(), Error::ZeroWorkers);
}

#[test]
fn empty_input_renders_empty_braces() {
    let data = Vec::new();
    let out = run_pipeline(&data, 1).unwrap();
    assert_eq!(out, "{}");
}

#[test]
fn missing_separator_is_fault() {
    let data = b"Aardvark\n".to_vec();
    let r = aggregate(&data, 0, data.len());
    assert_eq!(r.unwrap_err(), Error::MissingSeparator);
}

#[test]
fn formatting_is_idempotent() {
    let data = b"k;1.5\nj;-0.5\nk;2.5\n".to_vec();
    let t = aggregate(&data, 0, data.len()).unwrap();
    let once = rowscan::format::format(&t);
    let twice = rowscan::format::format(&t);
    assert_eq!(once, twice);
    assert_eq!(String::from_utf8(once).unwrap(), "{j=-0.5/-0.5/-0.5, k=1.5/2.5/2.0}");
}

#[test]
fn merge_is_commutative() {
    let d1 = b"A;1.0\nB;2.0\n".to_vec();
    let d2 = b"B;4.0\nC;-1.0\n".to_vec();
    let t1 = aggregate(&d1, 0, d1.len()).unwrap();
    let t2 = aggregate(&d2, 0, d2.len()).unwrap();
    let mut ab = aggregate(&d1, 0, d1.len()).unwrap();
    ab.merge(t2).unwrap();
    let mut ba = aggregate(&d2, 0, d2.len()).unwrap();
    ba.merge(t1).unwrap();
    assert_eq!(rowscan::format::format(&ab), rowscan::format::format(&ba));
    assert_eq!(
        String::from_utf8(rowscan::format::format(&ab)).unwrap(),
        "{A=1.0/1.0/1.0, B=2.0/4.0/3.0, C=-1.0/-1.0/-1.0}"
    );
}

#[test]
fn mean_truncates_toward_negative_infinity() {
    // -2.3 and 0.0 give scaled sum -23 over 2: floor is -12, shown -1.2.
    let data = b"B;-2.3\nB;0.0\n".to_vec();
    let out = run_pipeline(&data, 1).unwrap();
    assert_eq!(out, "{B=-2.3/0.0/-1.2}");
}

#[test]
fn last_line_without_terminator() {
    let data = b"A;1.0\nB;2.0".to_vec();
    let out = run_pipeline(&data, 1).unwrap();
    assert_eq!(out, "{A=1.0/1.0/1.0, B=2.0/2.0/2.0}");
}

#[test]
fn summarize_matches_componentwise_run() {
    let data = b"A;5.0\nB;-2.3\nA;9.5\nB;0.0\n".to_vec();
    for workers in 1..=3 {
        let out = rowscan::pipeline::summarize(&data, workers).unwrap();
        assert_eq!(String::from_utf8(out).unwrap(), run_pipeline(&data, workers).unwrap());
    }
}

#[test]
fn summarize_faults() {
    let data = b"A;5.0\n".to_vec();
    assert_eq!(
        rowscan::pipeline::summarize(&data, 0).unwrap_err(),
        Error::ZeroWorkers
    );
    let bad = b"A;5.x\n".to_vec();
    assert_eq!(
        rowscan::pipeline::summarize(&bad, 1).unwrap_err(),
        Error::BadNumber
    );
}

#[test]
fn more_workers_than_lines_is_structural_fault() {
    // The boundary search for the third worker runs past the end.
    let data = b"A;1.0\nB;2.0\n".to_vec();
    let r = run_pipeline(&data, 40);
    assert_eq!(r.unwrap_err(), Error::NoTerminator);
}
