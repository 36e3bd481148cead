use ssd_rs::block::{BlockState, PAGES_PER_BLOCK};
use ssd_rs::page::PageState;
use ssd_rs::ssd_basic::{SsdError, SSD};

#[test]
fn fresh_device_has_zero_counters() {
    let ssd = SSD::new(3, 100);
    assert_eq!(ssd.user_write_cnt, 0);
    assert_eq!(ssd.nand_write_cnt, 0);
    assert_eq!(ssd.blocks.len(), 3);
    assert_eq!(ssd.mapping_table.entries().len(), 100);
    for b in &ssd.blocks {
        assert_eq!(b.state, BlockState::Free);
        assert_eq!(b.erase_count, 0);
    }
    let w = ssd.compute_wear_metrics();
    assert_eq!(w.min, 0);
    assert_eq!(w.max, 0);
    assert_eq!(w.gap, 0);
    assert_eq!(w.erase_total, 0);
    assert_eq!(w.block_count, 3);
}

#[test]
fn round_trip_write_read_and_invalidate() {
    let mut ssd = SSD::new(3, 100);
    assert!(ssd.write(5, 0xAAAA).is_ok());
    let pba = ssd.mapping_table.get(5).expect("lba 5 must be mapped");
    let page = ssd.blocks[pba.block_id as usize].read(pba.page_offset);
    assert_eq!(page.state, PageState::Valid);
    assert_eq!(page.content, 0xAAAA);

    assert!(ssd.write(5, 0xBBBB).is_ok());
    // The superseded page is now stale.
    let old_page = ssd.blocks[pba.block_id as usize].read(pba.page_offset);
    assert_eq!(old_page.state, PageState::Invalid);
    let new_pba = ssd.mapping_table.get(5).expect("lba 5 must stay mapped");
    assert_ne!(new_pba, pba);
    let new_page = ssd.blocks[new_pba.block_id as usize].read(new_pba.page_offset);
    assert_eq!(new_page.state, PageState::Valid);
    assert_eq!(new_page.content, 0xBBBB);
}

#[test]
fn write_counts_user_and_nand() {
    let mut ssd = SSD::new(3, 100);
    for i in 0..10 {
        assert!(ssd.write(i, i as u32).is_ok());
    }
    assert_eq!(ssd.user_write_cnt, 10);
    assert_eq!(ssd.nand_write_cnt, 10);
}

#[test]
fn sequential_overwrites_survive_via_gc() {
    // 3 blocks x 64 pages, 100 LBAs: 100 overwrites of LBA 0 exceed one
    // block, so GC must reclaim the nearly-empty blocks along the way.
    let mut ssd = SSD::new(3, 100);
    for i in 0..100 {
        assert!(ssd.write(0, i).is_ok(), "write {} failed", i);
    }
    assert_eq!(ssd.user_write_cnt, 100);
    // GC ran at least once: some block has been erased.
    let w = ssd.compute_wear_metrics();
    assert!(w.erase_total >= 1);
    // Only one page is ever Valid for LBA 0.
    let mut valid = 0;
    for b in &ssd.blocks {
        valid += b.count_valid_pages();
    }
    assert_eq!(valid, 1);
}

#[test]
fn cycling_workload_never_fails_and_waf_is_at_least_one() {
    let mut ssd = SSD::new(5, 100);
    for i in 0..1000usize {
        let lba = i % 100;
        assert!(ssd.write(lba, i as u32).is_ok(), "write {} failed", i);
    }
    assert_eq!(ssd.user_write_cnt, 1000);
    assert!(ssd.nand_write_cnt >= ssd.user_write_cnt);
    let waf = ssd.nand_write_cnt as f64 / ssd.user_write_cnt as f64;
    assert!(waf >= 1.0);
}

#[test]
fn full_device_reports_device_full_instead_of_panicking() {
    // One block: once it is the active block it can never be a GC victim,
    // so after its pages are consumed the device is full.
    let mut ssd = SSD::new(1, 2);
    for i in 0..PAGES_PER_BLOCK {
        assert!(ssd.write(0, i as u32).is_ok(), "write {} failed", i);
    }
    assert_eq!(ssd.write(1, 0xFFFF), Err(SsdError::DeviceFull));
    // A rejected write is not a completed host write: the counters still
    // satisfy nand >= user, and the stored data survives the failure.
    assert_eq!(ssd.user_write_cnt, PAGES_PER_BLOCK as u64);
    assert!(ssd.nand_write_cnt >= ssd.user_write_cnt);
    let pba = ssd.mapping_table.get(0).expect("lba 0 must stay mapped");
    let page = ssd.blocks[pba.block_id as usize].read(pba.page_offset);
    assert_eq!(page.state, PageState::Valid);
    assert_eq!(page.content, (PAGES_PER_BLOCK - 1) as u32);
    assert!(ssd.mapping_table.get(1).is_none());
}

#[test]
fn gc_and_writes_preserve_other_lbas() {
    // Drive the device through many GC passes; data written once to a quiet
    // LBA must read back unchanged while a hot LBA churns.
    let mut ssd = SSD::new(3, 100);
    assert!(ssd.write(7, 0x7777).is_ok());
    for i in 0..300usize {
        assert!(ssd.write(0, i as u32).is_ok());
    }
    let pba = ssd.mapping_table.get(7).expect("lba 7 must stay mapped");
    let page = ssd.blocks[pba.block_id as usize].read(pba.page_offset);
    assert_eq!(page.state, PageState::Valid);
    assert_eq!(page.content, 0x7777);
}

#[test]
fn gc_reclaims_a_block_with_no_valid_pages() {
    // Fill block 0 with writes to one LBA, rotate off it, then invalidate
    // its last page too: an all-stale victim must be erased by gc.
    let mut ssd = SSD::new(3, 10);
    for i in 0..(PAGES_PER_BLOCK + 1) {
        assert!(ssd.write(0, i as u32).is_ok());
    }
    // Block 0 is now full of stale pages and no longer active.
    assert_eq!(ssd.blocks[0].count_valid_pages(), 0);
    let erases_before = ssd.compute_wear_metrics().erase_total;
    let free_before = ssd.blocks.iter().filter(|b| b.state == BlockState::Free).count();
    ssd.gc();
    let free_after = ssd.blocks.iter().filter(|b| b.state == BlockState::Free).count();
    assert_eq!(ssd.compute_wear_metrics().erase_total, erases_before + 1);
    assert_eq!(free_after, free_before + 1);
    assert_eq!(ssd.blocks[0].state, BlockState::Free);
}

#[test]
fn gc_never_touches_user_write_cnt() {
    let mut ssd = SSD::new(3, 100);
    for i in 0..80 {
        assert!(ssd.write(i % 10, i as u32).is_ok());
    }
    let users_before = ssd.user_write_cnt;
    let nand_before = ssd.nand_write_cnt;
    ssd.gc();
    ssd.gc();
    assert_eq!(ssd.user_write_cnt, users_before);
    assert!(ssd.nand_write_cnt >= nand_before);
}

#[test]
fn mapping_stays_unique_per_lba() {
    let mut ssd = SSD::new(3, 50);
    for i in 0..300usize {
        assert!(ssd.write(i % 50, i as u32).is_ok());
    }
    // Across all blocks, the number of Valid pages equals the number of
    // mapped LBAs: one current page per logical address.
    let mut valid = 0;
    for b in &ssd.blocks {
        valid += b.count_valid_pages();
    }
    let mapped = ssd.mapping_table.entries().iter().filter(|e| e.is_some()).count();
    assert_eq!(mapped, 50);
    assert_eq!(valid, mapped);
    // And no two LBAs share a physical page.
    let mut seen = Vec::new();
    for e in ssd.mapping_table.entries() {
        if let Some(pba) = e {
            assert!(!seen.contains(pba));
            seen.push(*pba);
        }
    }
}

#[test]
fn wear_metrics_report_extremes_and_gap() {
    let mut ssd = SSD::new(4, 60);
    for i in 0..600usize {
        assert!(ssd.write(i % 60, i as u32).is_ok());
    }
    let w = ssd.compute_wear_metrics();
    assert_eq!(w.block_count, 4);
    assert!(w.min <= w.max);
    assert_eq!(w.gap, w.max - w.min);
    let mut min = u32::MAX;
    let mut max = 0u32;
    let mut total = 0u64;
    for b in &ssd.blocks {
        min = min.min(b.erase_count);
        max = max.max(b.erase_count);
        total += b.erase_count as u64;
    }
    assert_eq!(w.min, min);
    assert_eq!(w.max, max);
    assert_eq!(w.erase_total, total);
}

fn lcg_next(state: &mut u64) -> u64 {
    *state = state
        .wrapping_mul(6364136223846793005)
        .wrapping_add(1442695040888963407);
    *state >> 33
}

#[test]
fn wear_leveling_narrows_the_erase_gap() {
    // Identical pseudo-random workloads on both policies: the wear-aware
    // variant must not end up with a wider erase-count gap.
    let mut base = SSD::new(5, 100);
    let mut wear = SSD::new_wear_leveling(5, 100);
    let mut seed: u64 = 0x5EED_CAFE;
    for i in 0..5000usize {
        let lba = (lcg_next(&mut seed) % 100) as usize;
        assert!(base.write(lba, i as u32).is_ok());
        assert!(wear.write(lba, i as u32).is_ok());
    }
    let gb = base.compute_wear_metrics();
    let gw = wear.compute_wear_metrics();
    assert!(gw.gap <= gb.gap, "wear-aware gap {} vs baseline {}", gw.gap, gb.gap);
}
