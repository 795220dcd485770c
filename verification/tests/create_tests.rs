use hashsort::create::{create_blocks, Arguments};
use hashsort::error::ThesisError;

fn args(start: u64, end: u64, buffer_size: u64) -> Arguments {
    Arguments {
        output: String::new(),
        start,
        end,
        buffer_size,
        print_amount: 1_000_000,
        amount_of_threads: 2,
    }
}

#[test]
fn create_rejects_small_buffer() {
    for budget in 0..16u64 {
        let r = create_blocks(&args(0, 15, budget));
        assert!(matches!(r, Err(ThesisError::CreateError(_))));
    }
}

#[test]
fn create_rejects_empty_range() {
    assert!(matches!(
        create_blocks(&args(5, 5, 1024)),
        Err(ThesisError::CreateError(_))
    ));
    assert!(matches!(
        create_blocks(&args(6, 5, 1024)),
        Err(ThesisError::CreateError(_))
    ));
}

#[test]
fn create_partitions_sixteen_indices_into_four_blocks() {
    // a budget of four digests' worth of bytes carves [0, 15] into four
    // blocks of four indices each
    let blocks = create_blocks(&args(0, 15, 64)).unwrap();
    assert_eq!(blocks.len(), 4);
    let expected = [(0u64, 3u64), (4, 7), (8, 11), (12, 15)];
    for (i, b) in blocks.iter().enumerate() {
        assert_eq!(b.id, i as u64);
        assert_eq!((b.start, b.end), expected[i]);
        assert!(b.file_exists);
        assert_eq!(b.file.len(), 64);
        assert!(b.hashes.is_empty());
    }
}

#[test]
fn create_block_files_are_descending() {
    let blocks = create_blocks(&args(0, 15, 64)).unwrap();
    for b in blocks.iter() {
        for k in 0..3 {
            let a = &b.file[16 * k + 10..16 * k + 16];
            let c = &b.file[16 * (k + 1) + 10..16 * (k + 1) + 16];
            assert!(a >= c);
        }
    }
}

#[test]
fn create_block_files_hold_their_ranges_digests() {
    let blocks = create_blocks(&args(0, 15, 64)).unwrap();
    for b in blocks.iter() {
        let mut stored: Vec<[u8; 16]> = (0..4)
            .map(|k| {
                let mut d = [0u8; 16];
                d.copy_from_slice(&b.file[16 * k..16 * k + 16]);
                d
            })
            .collect();
        let mut expected: Vec<[u8; 16]> = (b.start..=b.end)
            .map(|i| md5::compute(format!("{:0>16x}\n", i).as_bytes()).0)
            .collect();
        stored.sort();
        expected.sort();
        assert_eq!(stored, expected);
    }
}

#[test]
fn create_uneven_range_shortens_last_block() {
    let blocks = create_blocks(&args(0, 9, 64)).unwrap();
    assert_eq!(blocks.len(), 3);
    assert_eq!((blocks[0].start, blocks[0].end), (0, 3));
    assert_eq!((blocks[1].start, blocks[1].end), (4, 7));
    assert_eq!((blocks[2].start, blocks[2].end), (8, 9));
    assert_eq!(blocks[2].file.len(), 32);
}
