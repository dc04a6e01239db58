use block_balance::{BalanceBlockError, Block, Blocks};

#[test]
fn empty_processor_is_valid() {
    let blocks = Blocks::new();
    assert!(blocks.is_valid());
    let out = blocks.consume().unwrap();
    assert_eq!(out.len(), 0);
}

#[test]
fn nested_pairs_close_in_stack_order() {
    // open(0), open(1), close(2), close(3): the first-added block closes last.
    let mut blocks = Blocks::new();
    blocks.add_left(0);
    blocks.add_left(1);
    blocks.add_right(2).unwrap();
    blocks.add_right(3).unwrap();
    assert!(blocks.is_valid());
    let out = blocks.consume().unwrap();
    assert_eq!(out.len(), 2);
    assert_eq!(out[0].opening(), 0);
    assert_eq!(out[0].closing(), 3);
    assert_eq!(out[1].opening(), 1);
    assert_eq!(out[1].closing(), 2);
}

#[test]
fn extra_right_on_empty_stack() {
    let mut blocks = Blocks::new();
    let r = blocks.add_right(1);
    assert!(matches!(r, Err(BalanceBlockError::ExtraRight)));
    // The failed call left the processor untouched: still empty and valid.
    assert!(blocks.is_valid());
    let out = blocks.consume().unwrap();
    assert_eq!(out.len(), 0);
}

#[test]
fn extra_right_after_everything_closed() {
    let mut blocks = Blocks::new();
    blocks.add_left(0);
    blocks.add_right(1).unwrap();
    let r = blocks.add_right(2);
    assert!(matches!(r, Err(BalanceBlockError::ExtraRight)));
    // Unchanged by the failure: the one matched block is still there.
    let out = blocks.consume().unwrap();
    assert_eq!(out.len(), 1);
    assert_eq!(out[0].opening(), 0);
    assert_eq!(out[0].closing(), 1);
}

#[test]
fn extra_left_when_opens_outnumber_closes() {
    let mut blocks = Blocks::new();
    blocks.add_left(0);
    blocks.add_left(1);
    blocks.add_right(2).unwrap();
    assert!(!blocks.is_valid());
    let r = blocks.consume();
    assert!(matches!(r, Err(BalanceBlockError::ExtraLeft)));
}

#[test]
fn single_unclosed_block_fails_consume() {
    let mut blocks = Blocks::new();
    blocks.add_left(7);
    assert!(!blocks.is_valid());
    assert!(matches!(blocks.consume(), Err(BalanceBlockError::ExtraLeft)));
}

#[test]
fn is_valid_is_idempotent() {
    let mut blocks = Blocks::new();
    assert!(blocks.is_valid());
    assert!(blocks.is_valid());
    blocks.add_left(0);
    assert!(!blocks.is_valid());
    assert!(!blocks.is_valid());
    assert!(!blocks.is_valid());
    blocks.add_right(1).unwrap();
    assert!(blocks.is_valid());
    assert!(blocks.is_valid());
}

#[test]
fn round_trip_open_then_close() {
    let mut blocks = Blocks::new();
    blocks.add_left(5);
    blocks.add_right(6).unwrap();
    let out = blocks.consume().unwrap();
    assert_eq!(out.len(), 1);
    assert_eq!(out[0].opening(), 5);
    assert_eq!(out[0].closing(), 6);
}

#[test]
fn interleaved_opens_renest_in_lifo_order() {
    // add_left(0); add_left(1); add_right(2); add_left(3); add_right(4);
    // add_right(5): pairs must be (0,5), (1,2), (3,4).
    let mut blocks = Blocks::new();
    blocks.add_left(0);
    blocks.add_left(1);
    blocks.add_right(2).unwrap();
    blocks.add_left(3);
    blocks.add_right(4).unwrap();
    blocks.add_right(5).unwrap();
    let out = blocks.consume().unwrap();
    assert_eq!(out.len(), 3);
    assert_eq!(out[0].opening(), 0);
    assert_eq!(out[0].closing(), 5);
    assert_eq!(out[1].opening(), 1);
    assert_eq!(out[1].closing(), 2);
    assert_eq!(out[2].opening(), 3);
    assert_eq!(out[2].closing(), 4);
}

#[test]
fn increasing_positions_give_opening_below_closing() {
    // Equal, correctly nestable opens and closes with positions assigned in
    // increasing stream order: one block per open, each opening < closing.
    let mut blocks = Blocks::new();
    blocks.add_left(0);
    blocks.add_right(1).unwrap();
    blocks.add_left(2);
    blocks.add_left(3);
    blocks.add_right(4).unwrap();
    blocks.add_right(5).unwrap();
    let out = blocks.consume().unwrap();
    assert_eq!(out.len(), 3);
    for b in &out {
        assert!(b.opening() < b.closing());
    }
}

#[test]
fn closing_position_zero_is_a_real_match() {
    // "Absent" and "position 0" stay distinguishable: a closing token at
    // position 0 is accepted and survives consumption.
    let mut blocks = Blocks::new();
    blocks.add_left(3);
    blocks.add_right(0).unwrap();
    assert!(blocks.is_valid());
    let out = blocks.consume().unwrap();
    assert_eq!(out.len(), 1);
    assert_eq!(out[0].opening(), 3);
    assert_eq!(out[0].closing(), 0);
}

#[test]
fn open_block_accessors() {
    let b = Block::open(4);
    assert_eq!(b.opening(), 4);
    assert_eq!(b.closing(), None);
}

#[test]
fn new_unchecked_builds_both_states() {
    let unbalanced = Block::new_unchecked(1, Some(2));
    assert_eq!(unbalanced.opening(), 1);
    assert_eq!(unbalanced.closing(), Some(2));
    let balanced = Block::new_unchecked(3, 4);
    assert_eq!(balanced.opening(), 3);
    assert_eq!(balanced.closing(), 4);
}

#[test]
fn error_values_are_distinct() {
    assert_ne!(BalanceBlockError::ExtraRight, BalanceBlockError::ExtraLeft);
    assert_eq!(BalanceBlockError::ExtraRight, BalanceBlockError::ExtraRight);
}
