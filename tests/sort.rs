use std::io::{self, ErrorKind};
use std::marker::PhantomData;

use ext_sort::chunk::{ExternalChunk, ExternalChunkError};
use ext_sort::merger::BinaryHeapMerger;
use ext_sort::order::{ByFirst, Compare, Natural, Reversed};
use ext_sort::sort::{ExternalSorter, ExternalSorterBuilder, SortError};
use ext_sort::buffer::LimitedBufferBuilder;
use ext_sort::source::{Source, VecSource};

/// A run encoded with MessagePack into memory.
struct RmpChunk<T> {
    bytes: Vec<u8>,
    pos: usize,
    item_type: PhantomData<T>,
}

impl<T: serde::de::DeserializeOwned> Source<T> for RmpChunk<T> {
    type Error = rmp_serde::decode::Error;

    fn next(&mut self) -> Option<Result<T, Self::Error>> {
        if self.pos >= self.bytes.len() {
            return None;
        }
        let mut cursor = io::Cursor::new(&self.bytes[self.pos..]);
        let result = rmp_serde::decode::from_read(&mut cursor);
        self.pos += cursor.position() as usize;
        Some(result)
    }
}

impl<T: serde::Serialize + serde::de::DeserializeOwned> ExternalChunk<T> for RmpChunk<T> {
    type SerializationError = rmp_serde::encode::Error;

    fn build(
        _dir: &tempfile::TempDir,
        items: Vec<T>,
        _buf_size: Option<usize>,
    ) -> Result<Self, ExternalChunkError<Self::SerializationError>> {
        let mut bytes = Vec::new();
        for item in items {
            rmp_serde::encode::write(&mut bytes, &item).map_err(ExternalChunkError::SerializationError)?;
        }
        Ok(RmpChunk { bytes, pos: 0, item_type: PhantomData })
    }
}

type Sorter<T> = ExternalSorter<T, io::Error, RmpChunk<T>, LimitedBufferBuilder>;

fn sorter<T: serde::Serialize + serde::de::DeserializeOwned + Send>(limit: usize) -> Sorter<T> {
    match ExternalSorterBuilder::new()
        .with_buffer(LimitedBufferBuilder::new(limit, true))
        .with_threads_number(2)
        .build()
    {
        Ok(s) => s,
        Err(SortError::ThreadPoolBuildError(e)) => panic!("pool: {}", e),
        Err(SortError::TempDir(e)) => panic!("tmp: {}", e),
        Err(_) => panic!("other"),
    }
}

fn input<T>(items: Vec<T>) -> VecSource<T, io::Error> {
    VecSource::new(items.into_iter().map(Ok).collect())
}

fn drain<T, F: Compare<T>>(mut merger: BinaryHeapMerger<T, F, RmpChunk<T>>) -> Vec<T>
where
    T: serde::de::DeserializeOwned,
{
    let mut out = Vec::new();
    while let Some(item) = merger.next() {
        out.push(item.unwrap());
    }
    out
}

#[test]
fn sorts_with_count_limited_runs() {
    let s = sorter::<i32>(3);
    let merger = s.sort(input(vec![3, 1, 4, 1, 5, 9, 2, 6, 5, 3, 5])).ok().unwrap();
    assert_eq!(merger.chunks.len(), 4);
    assert_eq!(drain(merger), vec![1, 1, 2, 3, 3, 4, 5, 5, 5, 6, 9]);
}

#[test]
fn keeps_equal_items_in_input_order_across_runs() {
    let s = sorter::<(i32, char)>(2);
    let items = vec![(1, 'a'), (1, 'b'), (1, 'c'), (0, 'd'), (0, 'e')];
    let merger = s.sort_by(input(items), ByFirst { inner: Natural }).ok().unwrap();
    assert_eq!(drain(merger), vec![(0, 'd'), (0, 'e'), (1, 'a'), (1, 'b'), (1, 'c')]);
}

#[test]
fn sorts_descending_over_three_runs() {
    let s = sorter::<i32>(2);
    let merger = s.sort_by(input(vec![5, 4, 3, 2, 1]), Reversed { inner: Natural }).ok().unwrap();
    assert_eq!(merger.chunks.len(), 3);
    assert_eq!(drain(merger), vec![5, 4, 3, 2, 1]);
}

#[test]
fn input_error_stops_the_sort() {
    let s = sorter::<i32>(2);
    let dir = s.tmp_dir.path().to_path_buf();
    let source = VecSource::new(vec![
        Ok(1),
        Ok(2),
        Err(io::Error::new(ErrorKind::Other, "bad line")),
        Ok(3),
    ]);
    match s.sort(source) {
        Err(SortError::InputError(e)) => assert_eq!(e.to_string(), "bad line"),
        _ => panic!("expected an input error"),
    }
    drop(s);
    assert!(!dir.exists());
}

#[test]
fn corrupted_run_reports_decode_error_and_others_continue() {
    let dir = tempfile::tempdir().unwrap();
    let mut broken = match RmpChunk::<u64>::build(&dir, vec![1, 300, 70000], None) {
        Ok(chunk) => chunk,
        Err(_) => panic!("build failed"),
    };
    let full = broken.bytes.len();
    broken.bytes.truncate(full - 2);
    let good = match RmpChunk::<u64>::build(&dir, vec![2, 3, 100000], None) {
        Ok(chunk) => chunk,
        Err(_) => panic!("build failed"),
    };
    let mut merger = BinaryHeapMerger::new(vec![broken, good], Natural);
    let mut values = Vec::new();
    let mut errors = 0;
    while let Some(item) = merger.next() {
        match item {
            Ok(v) => values.push(v),
            Err(_) => errors += 1,
        }
    }
    assert_eq!(errors, 1);
    assert_eq!(values, vec![1, 2, 3, 100000]);
}

#[test]
fn single_item_makes_one_run() {
    let s = sorter::<i32>(3);
    let merger = s.sort(input(vec![42])).ok().unwrap();
    assert_eq!(merger.chunks.len(), 1);
    assert_eq!(drain(merger), vec![42]);
}

#[test]
fn empty_input_makes_no_run() {
    let s = sorter::<i32>(3);
    let mut merger = s.sort(input(Vec::new())).ok().unwrap();
    assert_eq!(merger.chunks.len(), 0);
    assert!(merger.next().is_none());
}

#[test]
fn temp_dir_is_removed_with_the_sorter() {
    let s = sorter::<i32>(2);
    let dir = s.tmp_dir.path().to_path_buf();
    assert!(dir.exists());
    let merger = s.sort(input(vec![2, 1, 3])).ok().unwrap();
    drop(merger);
    drop(s);
    assert!(!dir.exists());
}

#[test]
fn codec_round_trip_keeps_items() {
    let dir = tempfile::tempdir().unwrap();
    let saved: Vec<i32> = (0..100).collect();
    let mut chunk = match RmpChunk::<i32>::build(&dir, saved.clone(), None) {
        Ok(chunk) => chunk,
        Err(_) => panic!("build failed"),
    };
    let mut restored = Vec::new();
    while let Some(item) = chunk.next() {
        restored.push(item.unwrap());
    }
    assert_eq!(restored, saved);
}

#[test]
fn test_external_sorter() {
    for reversed in [false, true] {
        let s = sorter::<i32>(8);
        let items: Vec<i32> = (0..100).map(|i| (i * 37) % 100).collect();
        let merger = if reversed {
            drain(s.sort_by(input(items), Reversed { inner: Natural }).ok().unwrap())
        } else {
            drain(s.sort_by(input(items), Natural).ok().unwrap())
        };
        let mut expected: Vec<i32> = (0..100).collect();
        if reversed {
            expected.reverse();
        }
        assert_eq!(merger, expected);
    }
}

#[test]
fn test_external_sorter_stability() {
    for reversed in [false, true] {
        let pairs: Vec<(i32, i32)> = (0..20).flat_map(|x| (0..5).map(move |y| (x, y))).collect();
        let mut shuffled: Vec<(i32, i32)> = (0..100).map(|i| pairs[(i * 37) % 100]).collect();
        // order the input by the second field, so that stability shows in the output
        if reversed {
            shuffled.sort_by(|a, b| b.1.cmp(&a.1));
        } else {
            shuffled.sort_by(|a, b| a.1.cmp(&b.1));
        }
        let s = sorter::<(i32, i32)>(8);
        let out = if reversed {
            drain(s.sort_by(input(shuffled), Reversed { inner: ByFirst { inner: Natural } }).ok().unwrap())
        } else {
            drain(s.sort_by(input(shuffled), ByFirst { inner: Natural }).ok().unwrap())
        };
        let expected: Vec<(i32, i32)> = if reversed {
            pairs.iter().rev().cloned().collect()
        } else {
            pairs.clone()
        };
        assert_eq!(out, expected);
    }
}

#[test]
fn temp_dir_goes_under_the_given_parent() {
    let parent = tempfile::tempdir().unwrap();
    let s: Sorter<i32> = match ExternalSorterBuilder::new()
        .with_buffer(LimitedBufferBuilder::new(2, false))
        .with_tmp_dir(parent.path())
        .with_rw_buf_size(4096)
        .build()
    {
        Ok(s) => s,
        Err(_) => panic!("sorter not built"),
    };
    assert!(s.tmp_dir.path().starts_with(parent.path()));
    assert_eq!(s.rw_buf_size, Some(4096));
    let merger = s.sort(input(vec![3, 2, 1])).ok().unwrap();
    assert_eq!(drain(merger), vec![1, 2, 3]);
}

#[test]
fn builder_records_its_settings() {
    let b: ExternalSorterBuilder<i32, io::Error, RmpChunk<i32>, LimitedBufferBuilder> =
        ExternalSorterBuilder::new();
    assert!(b.threads_number.is_none() && b.tmp_dir.is_none() && b.rw_buf_size.is_none());
    let b = b.with_threads_number(3).with_rw_buf_size(64).with_buffer(LimitedBufferBuilder::new(5, false));
    assert_eq!(b.threads_number, Some(3));
    assert_eq!(b.rw_buf_size, Some(64));
    assert_eq!(b.buffer_builder.buffer_limit, 5);
}

#[test]
fn many_runs_merge_to_the_sorted_input() {
    let s = sorter::<u64>(1);
    let items: Vec<u64> = vec![7, 3, 3, 9, 0, 1, 8];
    let merger = s.sort(input(items)).ok().unwrap();
    assert_eq!(merger.chunks.len(), 7);
    assert_eq!(drain(merger), vec![0, 1, 3, 3, 7, 8, 9]);
}

#[test]
fn error_after_items_drops_the_sort() {
    let s = sorter::<i32>(1);
    let source = VecSource::new(vec![Ok(5), Ok(4), Err(io::Error::new(ErrorKind::Other, "late"))]);
    match s.sort(source) {
        Err(SortError::InputError(e)) => assert_eq!(e.to_string(), "late"),
        _ => panic!("expected an input error"),
    }
}

/// A codec whose writes always fail, with the error its items ask for.
struct FailingChunk;

impl Source<i32> for FailingChunk {
    type Error = String;

    fn next(&mut self) -> Option<Result<i32, String>> {
        None
    }
}

impl ExternalChunk<i32> for FailingChunk {
    type SerializationError = String;

    fn build(
        _dir: &tempfile::TempDir,
        items: Vec<i32>,
        _buf_size: Option<usize>,
    ) -> Result<Self, ExternalChunkError<String>> {
        if items.contains(&0) {
            Err(ExternalChunkError::IO(io::Error::new(ErrorKind::Other, "disk full")))
        } else {
            Err(ExternalChunkError::SerializationError(format!("cannot encode {}", items[0])))
        }
    }
}

fn failing_sorter() -> ExternalSorter<i32, io::Error, FailingChunk, LimitedBufferBuilder> {
    match ExternalSorterBuilder::new().with_buffer(LimitedBufferBuilder::new(2, false)).build() {
        Ok(s) => s,
        Err(_) => panic!("sorter not built"),
    }
}

#[test]
fn codec_io_error_is_reported_as_io() {
    match failing_sorter().sort(input(vec![3, 0])) {
        Err(SortError::IO(e)) => assert_eq!(e.to_string(), "disk full"),
        _ => panic!("expected an I/O error"),
    }
}

#[test]
fn codec_encode_error_is_reported_as_serialization() {
    match failing_sorter().sort(input(vec![7])) {
        Err(SortError::SerializationError(e)) => assert_eq!(e, "cannot encode 7"),
        _ => panic!("expected a serialization error"),
    }
}

#[test]
fn missing_parent_directory_is_a_temp_dir_error() {
    let parent = tempfile::tempdir().unwrap();
    let missing = parent.path().join("absent");
    let built: Result<Sorter<i32>, _> = ExternalSorterBuilder::new().with_tmp_dir(&missing).build();
    match built {
        Err(SortError::TempDir(_)) => {}
        _ => panic!("expected a temporary directory error"),
    }
}

#[test]
fn count_policy_cuts_runs_of_the_limit() {
    let s = sorter::<i32>(2);
    let merger = s.sort_by(input(vec![5, 4, 3, 2, 1]), Reversed { inner: Natural }).ok().unwrap();
    let mut runs = Vec::new();
    for mut chunk in merger.chunks {
        let mut run = Vec::new();
        while let Some(item) = chunk.next() {
            run.push(item.unwrap());
        }
        runs.push(run);
    }
    assert_eq!(runs, vec![vec![5, 4], vec![3, 2], vec![1]]);
}

#[test]
fn error_before_first_full_buffer_is_the_input_error() {
    let s = sorter::<i32>(3);
    let source = VecSource::new(vec![Err(io::Error::new(ErrorKind::Other, "first")), Ok(1)]);
    match s.sort(source) {
        Err(SortError::InputError(e)) => assert_eq!(e.to_string(), "first"),
        _ => panic!("expected an input error"),
    }
}
