use onebrc_rust::error::Error;
use onebrc_rust::pipeline::{Phase, Pipeline};
use onebrc_rust::station_data::{handle_chunk, StationData};

fn entries_of(data: &StationData) -> Vec<(Vec<u8>, i64, i64, (i64, u64))> {
    let mut entries = Vec::new();
    for key in data.sorted_keys() {
        let min = data.min_for(&key);
        let max = data.max_for(&key);
        let mean = data.mean_for(&key);
        entries.push((key, min, max, mean));
    }
    entries
}

fn run(input: &[u8], block_size: usize, newest_first: bool) -> Result<StationData, Error> {
    let mut pipeline = Pipeline::new(block_size);
    let mut chunks = Vec::new();
    let mut at = 0;
    while pipeline.phase() != Phase::Draining {
        let end = usize::min(at + block_size, input.len());
        chunks.push(pipeline.next_chunk(&input[at..end])?);
        at = end;
    }
    assert_eq!(pipeline.dispatched(), chunks.len());
    if newest_first {
        chunks.reverse();
    }
    for chunk in chunks {
        assert_eq!(pipeline.phase(), Phase::Draining);
        pipeline.take_result(handle_chunk(chunk))?;
    }
    assert_eq!(pipeline.phase(), Phase::Merged);
    assert_eq!(pipeline.received(), pipeline.dispatched());
    Ok(pipeline.into_data())
}

const INPUT: &[u8] = b"Hamburg;12.0\nBulawayo;8.9\nPalembang;38.8\nHamburg;-3.4\nCracow;12.6\nBulawayo;10.1\nHamburg;0.0\nCracow;-12.6\n";

#[test]
fn block_size_and_arrival_order_do_not_change_the_result() {
    let whole = handle_chunk(INPUT.to_vec()).unwrap();
    let expected = entries_of(&whole);
    assert_eq!(
        expected,
        vec![
            (b"Bulawayo".to_vec(), 89, 101, (190, 2)),
            (b"Cracow".to_vec(), -126, 126, (0, 2)),
            (b"Hamburg".to_vec(), -34, 120, (86, 3)),
            (b"Palembang".to_vec(), 388, 388, (388, 1)),
        ]
    );
    for block_size in 15..=INPUT.len() + 3 {
        assert_eq!(entries_of(&run(INPUT, block_size, false).unwrap()), expected);
        assert_eq!(entries_of(&run(INPUT, block_size, true).unwrap()), expected);
    }
}

#[test]
fn a_run_takes_a_last_line_without_newline() {
    let input = &INPUT[..INPUT.len() - 1];
    let expected = entries_of(&handle_chunk(INPUT.to_vec()).unwrap());
    for block_size in 15..=input.len() + 3 {
        assert_eq!(entries_of(&run(input, block_size, false).unwrap()), expected);
    }
}

#[test]
fn a_fresh_run_is_idle() {
    let pipeline = Pipeline::new(8);
    assert_eq!(pipeline.phase(), Phase::Idle);
    assert_eq!(pipeline.dispatched(), 0);
    assert_eq!(pipeline.received(), 0);
}

#[test]
fn a_run_walks_through_its_phases() {
    let mut pipeline = Pipeline::new(4);
    let first = pipeline.next_chunk(b"a;1\n").unwrap();
    assert_eq!(first, b"a;1\n".to_vec());
    assert_eq!(pipeline.phase(), Phase::Splitting);
    let second = pipeline.next_chunk(b"b;2").unwrap();
    assert_eq!(second, b"b;2".to_vec());
    assert_eq!(pipeline.phase(), Phase::Draining);
    assert_eq!(pipeline.dispatched(), 2);
    assert_eq!(pipeline.take_result(handle_chunk(second)), Ok(()));
    assert_eq!(pipeline.phase(), Phase::Draining);
    assert_eq!(pipeline.received(), 1);
    assert_eq!(pipeline.take_result(handle_chunk(first)), Ok(()));
    assert_eq!(pipeline.phase(), Phase::Merged);
    assert_eq!(pipeline.received(), 2);
    let data = pipeline.into_data();
    assert_eq!(entries_of(&data), vec![(b"a".to_vec(), 1, 1, (1, 1)), (b"b".to_vec(), 2, 2, (2, 1))]);
}

#[test]
fn a_run_fails_on_a_malformed_record() {
    assert!(matches!(run(b"a;1.0\nb 2.0\nc;3.0\n", 8, false), Err(Error::MalformedRecord)));
    let mut pipeline = Pipeline::new(64);
    let chunk = pipeline.next_chunk(b"a;1.0\nb 2.0\n").unwrap();
    assert_eq!(pipeline.take_result(handle_chunk(chunk)), Err(Error::MalformedRecord));
    assert_eq!(pipeline.phase(), Phase::Failed(Error::MalformedRecord));
}

#[test]
fn a_run_fails_on_a_record_longer_than_a_block() {
    let mut pipeline = Pipeline::new(4);
    assert_eq!(pipeline.next_chunk(b"abcd"), Err(Error::OversizedRecord));
    assert_eq!(pipeline.phase(), Phase::Failed(Error::OversizedRecord));
}

#[test]
fn a_run_fails_when_the_source_fails() {
    let mut pipeline = Pipeline::new(4);
    pipeline.next_chunk(b"a;1\n").unwrap();
    pipeline.read_failed();
    assert_eq!(pipeline.phase(), Phase::Failed(Error::ReadError));
}

#[test]
fn a_run_fails_when_a_merge_does_not_fit() {
    let mut pipeline = Pipeline::new(32);
    pipeline.next_chunk(b"a;922337203685477580.7\nb;1.0\n0123").unwrap();
    pipeline.next_chunk(b"").unwrap();
    let mut big = StationData::new();
    big.add_reading(b"a", i64::MAX).unwrap();
    let mut one = StationData::new();
    one.add_reading(b"a", 1).unwrap();
    assert_eq!(pipeline.take_result(Ok(big)), Ok(()));
    assert_eq!(pipeline.take_result(Ok(one)), Err(Error::Overflow));
    assert_eq!(pipeline.phase(), Phase::Failed(Error::Overflow));
}
