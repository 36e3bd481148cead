use ssd_rs::block::{Block, BlockState, PAGES_PER_BLOCK};
use ssd_rs::page::PageState;

#[test]
fn new_block_is_free_and_blank() {
    let b = Block::new(7);
    assert_eq!(b.id, 7);
    assert_eq!(b.erase_count, 0);
    assert!(!b.is_bad);
    assert_eq!(b.state, BlockState::Free);
    assert_eq!(b.pages.len(), PAGES_PER_BLOCK);
    for p in &b.pages {
        assert_eq!(p.state, PageState::Free);
        assert_eq!(p.content, 0);
    }
}

#[test]
fn program_sets_valid_and_activates() {
    let mut b = Block::new(0);
    b.program(0, 0xDEAD);
    assert_eq!(b.state, BlockState::Active);
    let p = b.read(0);
    assert_eq!(p.state, PageState::Valid);
    assert_eq!(p.content, 0xDEAD);
    assert_eq!(b.read(1).state, PageState::Free);
}

#[test]
fn programming_last_page_fills_block() {
    let mut b = Block::new(0);
    for off in 0..PAGES_PER_BLOCK {
        assert_ne!(b.state, BlockState::Full);
        b.program(off, off as u32);
    }
    assert_eq!(b.state, BlockState::Full);
    assert_eq!(b.count_valid_pages(), PAGES_PER_BLOCK);
    assert!(b.first_free_offset().is_none());
}

#[test]
fn invalidate_keeps_content_and_state() {
    let mut b = Block::new(0);
    b.program(0, 11);
    b.program(1, 22);
    b.invalidate(0);
    assert_eq!(b.read(0).state, PageState::Invalid);
    assert_eq!(b.read(0).content, 11);
    assert_eq!(b.read(1).state, PageState::Valid);
    assert_eq!(b.state, BlockState::Active);
    assert_eq!(b.count_valid_pages(), 1);
}

#[test]
fn erase_resets_pages_and_counts_wear() {
    let mut b = Block::new(0);
    b.program(0, 1);
    b.program(1, 2);
    let erased = b.erase();
    assert!(erased);
    assert_eq!(b.erase_count, 1);
    assert_eq!(b.state, BlockState::Free);
    for p in &b.pages {
        assert_eq!(p.state, PageState::Free);
        assert_eq!(p.content, 0);
    }
}

#[test]
fn erase_of_free_block_is_idempotent() {
    let mut b = Block::new(0);
    // Erasing a block that was never programmed leaves the wear untouched.
    let erased = b.erase();
    assert!(erased);
    assert_eq!(b.erase_count, 0);
    assert_eq!(b.state, BlockState::Free);
    // One real erase, then a second on the already-Free block: still one.
    b.program(0, 9);
    b.erase();
    assert_eq!(b.erase_count, 1);
    b.erase();
    assert_eq!(b.erase_count, 1);
    assert_eq!(b.state, BlockState::Free);
}

#[test]
fn erase_of_bad_block_is_refused() {
    let mut b = Block::new(0);
    b.program(0, 5);
    b.is_bad = true;
    let erased = b.erase();
    assert!(!erased);
    assert_eq!(b.erase_count, 0);
    assert_eq!(b.read(0).state, PageState::Valid);
}

#[test]
fn first_free_offset_is_first_fit() {
    let mut b = Block::new(0);
    assert_eq!(b.first_free_offset(), Some(0));
    b.program(0, 1);
    b.program(1, 2);
    assert_eq!(b.first_free_offset(), Some(2));
    b.invalidate(0);
    // An Invalid page is not Free: only erase reclaims it.
    assert_eq!(b.first_free_offset(), Some(2));
}

#[test]
fn count_valid_pages_counts_only_valid() {
    let mut b = Block::new(0);
    assert_eq!(b.count_valid_pages(), 0);
    b.program(0, 1);
    b.program(1, 2);
    b.program(2, 3);
    b.invalidate(1);
    assert_eq!(b.count_valid_pages(), 2);
}
