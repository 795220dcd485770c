use hashsort::block::Block;
use hashsort::create::{create_blocks, Arguments};
use hashsort::digest::Digest;
use hashsort::digestwithid::{find_min_index, DigestWithID};
use hashsort::error::ThesisError;
use hashsort::merge::{merge_blocks, merge_handler, merge_handler_thread};

fn args(start: u64, end: u64, buffer_size: u64, threads: usize) -> Arguments {
    Arguments {
        output: String::new(),
        start,
        end,
        buffer_size,
        print_amount: 1_000_000,
        amount_of_threads: threads,
    }
}

fn expected_sorted(start: u64, end: u64) -> Vec<[u8; 16]> {
    let mut ds: Vec<[u8; 16]> = (start..=end)
        .map(|i| md5::compute(format!("{:0>16x}\n", i).as_bytes()).0)
        .collect();
    ds.sort_by(|a, b| a[10..16].cmp(&b[10..16]));
    ds
}

fn run(start: u64, end: u64, create_buffer: u64, merge_buffer: u64, threads: usize) -> Vec<[u8; 16]> {
    let blocks = create_blocks(&args(start, end, create_buffer, threads)).unwrap();
    let out = merge_blocks(blocks, &args(start, end, merge_buffer, threads)).unwrap();
    out.into_iter().map(|d| d.0).collect()
}

#[test]
fn merge_rejects_zero_threads() {
    let blocks = create_blocks(&args(0, 15, 64, 2)).unwrap();
    let r = merge_blocks(blocks, &args(0, 15, 1024, 0));
    assert!(matches!(r, Err(ThesisError::MergeError(_))));
}

#[test]
fn merge_rejects_small_per_block_window() {
    let blocks = create_blocks(&args(0, 15, 64, 2)).unwrap();
    // four blocks share the budget: 63 / 4 < 16 bytes per block
    let r = merge_blocks(blocks, &args(0, 15, 63, 2));
    assert!(matches!(r, Err(ThesisError::MergeError(_))));
}

#[test]
fn end_to_end_sixteen_indices() {
    // range [0, 15], creation budget of four digests: four blocks of four,
    // merged with two workers into one ascending run of sixteen digests
    let out = run(0, 15, 64, 1024, 2);
    assert_eq!(out.len(), 16);
    assert_eq!(out, expected_sorted(0, 15));
}

#[test]
fn end_to_end_identical_across_thread_counts() {
    let one = run(0, 15, 64, 1024, 1);
    let two = run(0, 15, 64, 1024, 2);
    let four = run(0, 15, 64, 1024, 4);
    assert_eq!(one, two);
    assert_eq!(two, four);
}

#[test]
fn merge_single_block() {
    let out = run(0, 15, 1024, 1024, 2);
    assert_eq!(out, expected_sorted(0, 15));
}

#[test]
fn merge_more_blocks_than_threads() {
    // eight blocks, three workers: the last worker absorbs the remainder
    let out = run(0, 31, 64, 4096, 3);
    assert_eq!(out, expected_sorted(0, 31));
}

#[test]
fn merge_more_threads_than_blocks() {
    let out = run(0, 15, 64, 1024, 16);
    assert_eq!(out, expected_sorted(0, 15));
}

#[test]
fn merge_with_tight_windows_pages_repeatedly() {
    // per-block window of 16 bytes: one digest in memory per block at a time
    let out = run(0, 15, 64, 64, 2);
    assert_eq!(out, expected_sorted(0, 15));
}

#[test]
fn merge_handler_matches_merge_blocks() {
    let blocks = create_blocks(&args(0, 15, 64, 2)).unwrap();
    let out = merge_handler(blocks, 2, 1024).unwrap();
    let flat: Vec<[u8; 16]> = out.into_iter().map(|d| d.0).collect();
    assert_eq!(flat, expected_sorted(0, 15));
}

#[test]
fn worker_merge_drains_its_blocks_ascending() {
    let mut blocks = create_blocks(&args(0, 15, 64, 2)).unwrap();
    for b in blocks.iter_mut() {
        b.init_merge(256).unwrap();
    }
    let out = merge_handler_thread(blocks);
    let flat: Vec<[u8; 16]> = out.into_iter().map(|d| d.0).collect();
    assert_eq!(flat, expected_sorted(0, 15));
}

#[test]
fn entry_construction_keeps_fields() {
    let d = Digest([0u8; 16]);
    let e = DigestWithID::new(4, Some(d));
    assert_eq!(e.id, 4);
    assert!(e.digest.is_some());
    let none = DigestWithID::new(9, None);
    assert_eq!(none.id, 9);
    assert!(none.digest.is_none());
}

#[test]
fn find_min_prefers_live_entries_and_small_keys() {
    let mut low = [0u8; 16];
    low[15] = 1;
    let mut high = [0u8; 16];
    high[10] = 9;
    let queue = vec![
        DigestWithID::new(0, None),
        DigestWithID::new(1, Some(Digest(high))),
        DigestWithID::new(2, Some(Digest(low))),
    ];
    assert_eq!(find_min_index(&queue), Some(2));
    let empty: Vec<DigestWithID> = Vec::new();
    assert_eq!(find_min_index(&empty), None);
}
