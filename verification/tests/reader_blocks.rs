use multipart_upload::reader::{block_layout, RangeCursor};

#[test]
fn cursor_yields_exactly_the_range() {
    let mut cursor = RangeCursor::open(1000, 10);
    assert!(!cursor.exhausted());
    assert_eq!(cursor.next_block(4), 4);
    assert_eq!(cursor.next_block(4), 4);
    assert_eq!(cursor.next_block(4), 2);
    assert!(cursor.exhausted());
    // past the end of the range the stream only signals end-of-stream,
    // however many bytes the source holds beyond it
    assert_eq!(cursor.next_block(4), 0);
}

#[test]
fn cursor_over_empty_range_is_exhausted_immediately() {
    let mut cursor = RangeCursor::open(500, 0);
    assert!(cursor.exhausted());
    assert_eq!(cursor.next_block(8), 0);
}

#[test]
fn blocks_are_full_buffers_then_the_short_tail() {
    assert_eq!(block_layout(10, 4), vec![4, 4, 2]);
    assert_eq!(block_layout(12, 4), vec![4, 4, 4]);
    assert_eq!(block_layout(3, 4), vec![3]);
}

#[test]
fn empty_range_has_no_blocks() {
    assert_eq!(block_layout(0, 4096), Vec::<u64>::new());
}

#[test]
fn blocks_cover_the_range_exactly() {
    let blocks = block_layout(1_048_577, 4096);
    let total: u64 = blocks.iter().sum();
    assert_eq!(total, 1_048_577);
    for (i, b) in blocks.iter().enumerate() {
        assert!(*b > 0 && *b <= 4096);
        if i + 1 < blocks.len() {
            assert_eq!(*b, 4096);
        }
    }
}
