use delay_effects::frames::{block_due, interleave, BlockAssembler, BLOCK_SIZE};

#[test]
fn a_block_is_due_at_every_stride_but_the_first_and_at_the_last_sample_but_one() {
    assert_eq!(BLOCK_SIZE, 1024);
    assert!(!block_due(0, 2, 10_000));
    assert!(!block_due(1, 2, 10_000));
    assert!(!block_due(2047, 2, 10_000));
    assert!(block_due(2048, 2, 10_000));
    assert!(!block_due(2049, 2, 10_000));
    assert!(block_due(4096, 2, 10_000));
    assert!(block_due(1024, 1, 10_000));
    assert!(!block_due(1024, 2, 10_000));
    assert!(block_due(9_998, 2, 10_000));
    assert!(!block_due(9_999, 2, 10_000));
    assert!(block_due(0, 2, 2));
    assert!(!block_due(0, 2, 1));
    assert!(!block_due(0, 2, 0));
    assert!(!block_due(usize::MAX, 1, 0));
    assert!(!block_due(usize::MAX - 1, 3, usize::MAX));
    assert!(block_due(usize::MAX - 2, 3, usize::MAX));
}

#[test]
fn interleave_takes_the_channels_in_turn() {
    let block = vec![vec![1, 2, 3], vec![10, 20, 30]];
    assert_eq!(interleave(&block), vec![1, 10, 2, 20, 3, 30]);
    let block = vec![vec![7, 8, 9, 10]];
    assert_eq!(interleave(&block), vec![7, 8, 9, 10]);
    let block: Vec<Vec<i32>> = vec![vec![], vec![1, 2]];
    assert_eq!(interleave(&block), Vec::<i32>::new());
}

#[test]
fn interleave_passes_over_what_a_shorter_channel_lacks() {
    let block = vec![vec![1, 2, 3], vec![10, 20], vec![100]];
    assert_eq!(interleave(&block), vec![1, 10, 100, 2, 20, 3]);
    // the first channel decides how far the others are read
    let block = vec![vec![1], vec![10, 20, 30]];
    assert_eq!(interleave(&block), vec![1, 10]);
}

#[test]
fn the_assembler_hands_on_what_it_collected_when_a_block_is_due() {
    let channels = 2;
    let total = 5000;
    let mut assembler: BlockAssembler<usize> = BlockAssembler::new(channels, total);
    let mut handed = Vec::new();
    for i in 0..total {
        if let Some(block) = assembler.feed(i) {
            handed.push((i, block));
        }
    }
    let at: Vec<usize> = handed.iter().map(|(i, _)| *i).collect();
    assert_eq!(at, vec![2048, 4096, 4998]);
    // the first block holds one sample more for the first channel
    let first = &handed[0].1;
    assert_eq!(first.len(), 2);
    assert_eq!(first[0], (0..=2048).step_by(2).collect::<Vec<usize>>());
    assert_eq!(first[1], (1..2048).step_by(2).collect::<Vec<usize>>());
    let second = &handed[1].1;
    assert_eq!(second[0], (2050..=4096).step_by(2).collect::<Vec<usize>>());
    assert_eq!(second[1], (2049..4096).step_by(2).collect::<Vec<usize>>());
    let third = &handed[2].1;
    assert_eq!(third[0], (4098..=4998).step_by(2).collect::<Vec<usize>>());
    assert_eq!(third[1], (4097..4998).step_by(2).collect::<Vec<usize>>());
}

#[test]
fn the_assembler_starts_afresh_after_a_block() {
    let mut assembler: BlockAssembler<i32> = BlockAssembler::new(3, 4);
    assert_eq!(assembler.feed(1), None);
    assert_eq!(assembler.feed(2), None);
    assert_eq!(assembler.feed(3), Some(vec![vec![1], vec![2], vec![3]]));
    assert_eq!(assembler.feed(4), None);
    assert_eq!(assembler.feed(5), None);
    let mut single: BlockAssembler<i32> = BlockAssembler::new(1, 2);
    assert_eq!(single.feed(8), Some(vec![vec![8]]));
    assert_eq!(single.feed(9), None);
}
