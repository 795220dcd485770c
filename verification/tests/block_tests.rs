use hashsort::block::Block;
use hashsort::error::ThesisError;

#[test]
fn new_rejects_reversed_range() {
    let r = Block::new(0, 5, 4);
    assert!(matches!(r, Err(ThesisError::CreateError(_))));
}

#[test]
fn new_accepts_single_index_range() {
    let b = Block::new(3, 7, 7).unwrap();
    assert_eq!(b.id, 3);
    assert_eq!(b.start, 7);
    assert_eq!(b.end, 7);
}

#[test]
fn generate_fills_one_digest_per_index() {
    let mut b = Block::new(0, 0, 15).unwrap();
    b.generate();
    assert_eq!(b.hashes.len(), 16);
}

#[test]
fn sort_orders_descending_by_key() {
    let mut b = Block::new(0, 0, 15).unwrap();
    b.generate();
    b.sort();
    for w in b.hashes.windows(2) {
        assert!(w[0].key() >= w[1].key());
    }
}

#[test]
fn write_to_file_serialises_hot_set() {
    let mut b = Block::new(0, 0, 3).unwrap();
    b.generate();
    b.sort();
    b.write_to_file();
    assert!(b.file_exists);
    assert_eq!(b.file.len(), 64);
    for (k, d) in b.hashes.iter().enumerate() {
        assert_eq!(&b.file[16 * k..16 * k + 16], &d.0[..]);
    }
}

#[test]
fn drop_hashes_leaves_file_alone() {
    let mut b = Block::new(0, 0, 3).unwrap();
    b.generate();
    b.sort();
    b.write_to_file();
    b.drop_hashes();
    assert_eq!(b.hashes.len(), 0);
    assert_eq!(b.file.len(), 64);
}

#[test]
fn init_merge_rejects_small_window() {
    for budget in 0..16u64 {
        let mut b = Block::new(0, 0, 3).unwrap();
        b.generate();
        b.sort();
        b.write_to_file();
        b.drop_hashes();
        let r = b.init_merge(budget);
        assert!(matches!(r, Err(ThesisError::MergeError(_))));
    }
}

#[test]
fn pop_before_init_yields_nothing() {
    let mut b = Block::new(0, 0, 3).unwrap();
    b.generate();
    b.sort();
    b.write_to_file();
    b.drop_hashes();
    assert!(b.pop().is_none());
}

#[test]
fn paged_pops_are_ascending_and_complete() {
    // eight digests (128 bytes), paged in three at a time (48-byte window)
    let mut b = Block::new(0, 0, 7).unwrap();
    b.generate();
    b.sort();
    b.write_to_file();
    b.drop_hashes();
    assert_eq!(b.file.len(), 128);
    b.init_merge(49).unwrap();
    // window floored to 48 bytes: the file lost its three-digest tail
    assert_eq!(b.file.len(), 80);
    assert_eq!(b.hashes.len(), 3);

    let mut popped: Vec<[u8; 16]> = Vec::new();
    while let Some(d) = b.pop() {
        popped.push(d.0);
    }
    assert_eq!(popped.len(), 8);
    for w in popped.windows(2) {
        assert!(&w[0][10..16] <= &w[1][10..16]);
    }
    // fully drained: the file is gone and further pops stay empty
    assert!(!b.file_exists);
    assert_eq!(b.file.len(), 0);
    assert!(b.pop().is_none());
}

#[test]
fn file_shrinks_by_each_paged_read() {
    let mut b = Block::new(0, 0, 7).unwrap();
    b.generate();
    b.sort();
    b.write_to_file();
    b.drop_hashes();
    b.init_merge(32).unwrap();
    let mut lengths = vec![b.file.len()];
    let mut count = 0u32;
    while b.pop().is_some() {
        count += 1;
        if b.hashes.is_empty() {
            lengths.push(b.file.len());
        }
    }
    assert_eq!(count, 8);
    assert_eq!(lengths, vec![96, 96, 64, 32, 0]);
}
