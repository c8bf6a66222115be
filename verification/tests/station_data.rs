use onebrc_rust::error::Error;
use onebrc_rust::station_data::{handle_chunk, StationData};

fn aggregate_of(bytes: &[u8]) -> StationData {
    let mut data = StationData::new();
    data.consume_chunk(bytes.to_vec()).unwrap();
    data
}

fn entries_of(data: &StationData) -> Vec<(Vec<u8>, i64, i64, (i64, u64))> {
    let mut entries = Vec::new();
    for key in data.sorted_keys() {
        let min = data.min_for(&key);
        let max = data.max_for(&key);
        let mean = data.mean_for(&key);
        entries.push((key, min, max, mean));
    }
    entries
}

#[test]
fn three_readings_give_exact_min_mean_and_max() {
    let data = aggregate_of(b"A;12.3\nA;7.0\nA;-4.5\n");
    assert_eq!(data.min_for(b"A"), -45);
    assert_eq!(data.max_for(b"A"), 123);
    assert_eq!(data.mean_for(b"A"), (148, 3));
    let min = data.min_for(b"A") as f64 / 10.0;
    let max = data.max_for(b"A") as f64 / 10.0;
    let (sum, count) = data.mean_for(b"A");
    let mean = sum as f64 / 10.0 / count as f64;
    assert_eq!(format!("min={:.1}/mean={:.1}/max={:.1}", min, mean, max), "min=-4.5/mean=4.9/max=12.3");
}

#[test]
fn keys_come_out_in_ascending_order() {
    let data = aggregate_of(b"b;1.0\na;2.0\n");
    assert_eq!(data.sorted_keys(), vec![b"a".to_vec(), b"b".to_vec()]);
}

#[test]
fn sorted_keys_put_a_prefix_first_and_compare_bytes() {
    let data = aggregate_of(b"ab;1.0\nb;1.0\na;1.0\nB;1.0\nabc;1.0\n\xc3\xa9;1.0\naa;1.0\n");
    assert_eq!(
        data.sorted_keys(),
        vec![
            b"B".to_vec(),
            b"a".to_vec(),
            b"aa".to_vec(),
            b"ab".to_vec(),
            b"abc".to_vec(),
            b"b".to_vec(),
            b"\xc3\xa9".to_vec(),
        ]
    );
}

#[test]
fn sorted_keys_of_an_empty_map() {
    assert!(StationData::new().sorted_keys().is_empty());
}

#[test]
fn sorted_keys_hold_each_key_once() {
    let data = aggregate_of(b"x;1.0\ny;2.0\nx;3.0\ny;4.0\nx;5.0\n");
    assert_eq!(data.sorted_keys(), vec![b"x".to_vec(), b"y".to_vec()]);
}

#[test]
fn a_key_never_seen_yields_zero() {
    let data = aggregate_of(b"A;12.3\n");
    assert_eq!(data.min_for(b"B"), 0);
    assert_eq!(data.max_for(b"B"), 0);
    assert_eq!(data.mean_for(b"B"), (0, 1));
    let empty = StationData::new();
    assert_eq!(empty.min_for(b"A"), 0);
    assert_eq!(empty.max_for(b"A"), 0);
    assert_eq!(empty.mean_for(b"A"), (0, 1));
}

#[test]
fn a_line_without_delimiter_fails_the_chunk() {
    let mut data = StationData::new();
    assert_eq!(data.consume_chunk(b"A;1.0\nB 2.0\nC;3.0\n".to_vec()), Err(Error::MalformedRecord));
    assert_eq!(data.sorted_keys(), vec![b"A".to_vec()]);
    assert!(matches!(handle_chunk(b"A;1.0\nB 2.0\n".to_vec()), Err(Error::MalformedRecord)));
}

#[test]
fn consume_line_takes_one_record() {
    let mut data = StationData::new();
    assert_eq!(data.consume_line(b"A;1.5"), Ok(()));
    assert_eq!(data.consume_line(b"A;-2.5"), Ok(()));
    assert_eq!(data.consume_line(b"B;4.0"), Ok(()));
    assert_eq!(
        entries_of(&data),
        vec![(b"A".to_vec(), -25, 15, (-10, 2)), (b"B".to_vec(), 40, 40, (40, 1))]
    );
}

#[test]
fn consume_line_leaves_the_map_alone_on_failure() {
    let mut data = StationData::new();
    data.consume_line(b"A;1.5").unwrap();
    assert_eq!(data.consume_line(b"A"), Err(Error::MalformedRecord));
    assert_eq!(data.consume_line(b"B;x"), Err(Error::MalformedRecord));
    assert_eq!(data.consume_line(b"A;99999999999999999999"), Err(Error::Overflow));
    assert_eq!(entries_of(&data), vec![(b"A".to_vec(), 15, 15, (15, 1))]);
}

#[test]
fn add_reading_reports_a_sum_out_of_range() {
    let mut data = StationData::new();
    assert_eq!(data.add_reading(b"A", i64::MAX), Ok(()));
    assert_eq!(data.add_reading(b"A", 1), Err(Error::Overflow));
    assert_eq!(data.add_reading(b"B", 1), Ok(()));
    assert_eq!(data.add_reading(b"A", -1), Ok(()));
    assert_eq!(data.mean_for(b"A"), (i64::MAX - 1, 2));
    assert_eq!(data.min_for(b"A"), -1);
    assert_eq!(data.max_for(b"A"), i64::MAX);
}

#[test]
fn consume_chunk_takes_a_last_line_without_newline() {
    let data = aggregate_of(b"A;1.0\nB;2.0");
    assert_eq!(
        entries_of(&data),
        vec![(b"A".to_vec(), 10, 10, (10, 1)), (b"B".to_vec(), 20, 20, (20, 1))]
    );
}

#[test]
fn consume_chunk_takes_a_last_line_of_one_byte_short() {
    let data = aggregate_of(b"A;1.0\nB;");
    assert_eq!(entries_of(&data), vec![(b"A".to_vec(), 10, 10, (10, 1)), (b"B".to_vec(), 0, 0, (0, 1))]);
    let mut one = StationData::new();
    assert_eq!(one.consume_chunk(b"A;1.0\nB".to_vec()), Err(Error::MalformedRecord));
}

#[test]
fn consume_chunk_takes_a_single_line_without_newline() {
    let data = aggregate_of(b"A;1.0");
    assert_eq!(entries_of(&data), vec![(b"A".to_vec(), 10, 10, (10, 1))]);
}

#[test]
fn consume_chunk_of_nothing_changes_nothing() {
    let mut data = StationData::new();
    assert_eq!(data.consume_chunk(Vec::new()), Ok(()));
    assert!(data.sorted_keys().is_empty());
}

#[test]
fn consume_chunk_rejects_an_empty_line() {
    let mut data = StationData::new();
    assert_eq!(data.consume_chunk(b"\n".to_vec()), Err(Error::MalformedRecord));
    let mut other = StationData::new();
    assert_eq!(other.consume_chunk(b"A;1.0\n\nB;2.0\n".to_vec()), Err(Error::MalformedRecord));
    assert_eq!(other.sorted_keys(), vec![b"A".to_vec()]);
}

#[test]
fn consume_chunk_adds_to_what_is_there() {
    let mut data = aggregate_of(b"A;1.0\n");
    data.consume_chunk(b"A;3.0\nB;-1.0\n".to_vec()).unwrap();
    assert_eq!(
        entries_of(&data),
        vec![(b"A".to_vec(), 10, 30, (40, 2)), (b"B".to_vec(), -10, -10, (-10, 1))]
    );
}

#[test]
fn handle_chunk_aggregates_a_chunk_on_its_own() {
    let data = handle_chunk(b"A;1.0\nB;2.0\nA;-3.0\n".to_vec()).unwrap();
    assert_eq!(
        entries_of(&data),
        vec![(b"A".to_vec(), -30, 10, (-20, 2)), (b"B".to_vec(), 20, 20, (20, 1))]
    );
}

#[test]
fn extend_merges_known_keys_and_takes_new_ones() {
    let mut left = aggregate_of(b"A;1.0\nB;2.0\n");
    let right = aggregate_of(b"B;-5.0\nC;7.0\nB;9.0\n");
    assert_eq!(left.extend(right), Ok(()));
    assert_eq!(
        entries_of(&left),
        vec![
            (b"A".to_vec(), 10, 10, (10, 1)),
            (b"B".to_vec(), -50, 90, (60, 3)),
            (b"C".to_vec(), 70, 70, (70, 1)),
        ]
    );
}

#[test]
fn extend_with_an_empty_map_changes_nothing() {
    let mut left = aggregate_of(b"A;1.0\n");
    assert_eq!(left.extend(StationData::new()), Ok(()));
    assert_eq!(entries_of(&left), vec![(b"A".to_vec(), 10, 10, (10, 1))]);
    let mut empty = StationData::new();
    assert_eq!(empty.extend(aggregate_of(b"A;1.0\n")), Ok(()));
    assert_eq!(entries_of(&empty), vec![(b"A".to_vec(), 10, 10, (10, 1))]);
}

#[test]
fn extend_reports_a_sum_out_of_range() {
    let mut left = StationData::new();
    left.add_reading(b"A", i64::MAX).unwrap();
    let mut right = StationData::new();
    right.add_reading(b"A", 1).unwrap();
    assert_eq!(left.extend(right), Err(Error::Overflow));
    assert_eq!(left.mean_for(b"A"), (i64::MAX, 1));
}

#[test]
fn merge_of_any_partition_is_the_aggregate_of_the_whole() {
    let whole = aggregate_of(b"A;1.0\nB;2.0\nA;-3.0\nC;4.5\nB;0.1\nA;9.9\n");
    let mut first = aggregate_of(b"A;1.0\nC;4.5\nA;9.9\n");
    first.extend(aggregate_of(b"B;2.0\nA;-3.0\nB;0.1\n")).unwrap();
    let mut second = aggregate_of(b"B;0.1\n");
    second.extend(aggregate_of(b"A;9.9\nA;-3.0\nA;1.0\nB;2.0\nC;4.5\n")).unwrap();
    assert_eq!(entries_of(&first), entries_of(&whole));
    assert_eq!(entries_of(&second), entries_of(&whole));
    assert_eq!(
        entries_of(&whole),
        vec![
            (b"A".to_vec(), -30, 99, (79, 3)),
            (b"B".to_vec(), 1, 20, (21, 2)),
            (b"C".to_vec(), 45, 45, (45, 1)),
        ]
    );
}
