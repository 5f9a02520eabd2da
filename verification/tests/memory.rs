use dram_mapper::chase::{chase, lcg_next, link_chase, LCG_SEED};
use dram_mapper::config::{CACHE_LINE_SIZE, HUGE_PAGE_SIZE, LINE_WORDS};
use dram_mapper::pagemap::{pagemap_offset, translatable, virtual_to_physical};
use dram_mapper::passes::{
    read_passes, touch_pages, write_passes, TIMED_BYTE, TOUCH_BYTE, WARMUP_BYTE,
};
use dram_mapper::region::Region;

fn sum_of(mem: &mut [u8], passes: usize) -> u64 {
    read_passes(&mut Region::new(mem), passes)
}

fn fill(mem: &mut [u8], passes: usize, value: u8) {
    write_passes(&mut Region::new(mem), passes, value);
}

fn reached(words: &mut [u64], accesses: usize) -> u64 {
    chase(&mut Region::new(words), accesses)
}

fn next_lines(words: &[u64]) -> Vec<u64> {
    words.chunks_exact(LINE_WORDS).map(|line| line[0] / CACHE_LINE_SIZE as u64).collect()
}

#[test]
fn generator_draws_known_numbers() {
    let mut rng = LCG_SEED;
    assert_eq!(lcg_next(&mut rng), 3921327711659244647);
    assert_eq!(rng, 3921327711659244647);
    let mut zero = 0u64;
    assert_eq!(lcg_next(&mut zero), 1442695040888963407);
    let mut max = u64::MAX;
    assert_eq!(lcg_next(&mut max), 13525302890751722018);
}

#[test]
fn small_chases_have_known_links() {
    let mut one = vec![9u64; LINE_WORDS];
    link_chase(&mut one);
    assert_eq!(next_lines(&one), vec![0]);
    let mut two = vec![9u64; 2 * LINE_WORDS];
    link_chase(&mut two);
    assert_eq!(next_lines(&two), vec![1, 0]);
    let mut three = vec![9u64; 3 * LINE_WORDS];
    link_chase(&mut three);
    assert_eq!(next_lines(&three), vec![2, 0, 1]);
    let mut eight = vec![9u64; 8 * LINE_WORDS];
    link_chase(&mut eight);
    assert_eq!(next_lines(&eight), vec![1, 3, 6, 2, 7, 0, 4, 5]);
    assert_eq!(eight[LINE_WORDS], 3 * CACHE_LINE_SIZE as u64);
}

#[test]
fn linking_touches_first_words_only() {
    let mut words: Vec<u64> = (0..3 * LINE_WORDS as u64 + 5).map(|w| 1000 + w).collect();
    link_chase(&mut words);
    for (w, word) in words.iter().enumerate() {
        if w % LINE_WORDS != 0 || w >= 3 * LINE_WORDS {
            assert_eq!(*word, 1000 + w as u64);
        }
    }
    let mut short = vec![7u64; LINE_WORDS - 1];
    link_chase(&mut short);
    assert_eq!(short, vec![7u64; LINE_WORDS - 1]);
    let mut empty: Vec<u64> = Vec::new();
    link_chase(&mut empty);
    assert!(empty.is_empty());
}

#[test]
fn chase_through_a_region_is_a_single_cycle() {
    let lines = HUGE_PAGE_SIZE / CACHE_LINE_SIZE;
    let mut words = vec![0u64; HUGE_PAGE_SIZE / 8];
    link_chase(&mut words);
    let mut seen = vec![false; lines];
    let mut offset = 0u64;
    for _ in 0..lines {
        let line = offset as usize / CACHE_LINE_SIZE;
        assert!(!seen[line]);
        seen[line] = true;
        offset = words[offset as usize / 8];
    }
    assert_eq!(offset, 0);
    assert!(seen.iter().all(|s| *s));
    assert_eq!(reached(&mut words, lines), 0);
    assert_eq!(reached(&mut words, 0), 0);
    assert_ne!(reached(&mut words, lines - 1), 0);
    let there = reached(&mut words, 500);
    assert_eq!(reached(&mut words, lines + 500), there);
}

#[test]
fn chase_follows_the_links() {
    let mut words = vec![0u64; 8 * LINE_WORDS];
    link_chase(&mut words);
    let steps: Vec<u64> = (0..9).map(|k| reached(&mut words, k) / CACHE_LINE_SIZE as u64).collect();
    assert_eq!(steps, vec![0, 1, 3, 2, 6, 4, 7, 5, 0]);
}

#[test]
fn reads_sum_the_first_byte_of_every_line() {
    let mut mem = vec![3u8; 4 * CACHE_LINE_SIZE];
    mem[0] = 10;
    mem[64] = 20;
    mem[128] = 30;
    mem[192] = 40;
    assert_eq!(sum_of(&mut mem, 1), 100);
    assert_eq!(sum_of(&mut mem, 3), 300);
    assert_eq!(sum_of(&mut mem, 0), 0);
    mem.push(7);
    assert_eq!(sum_of(&mut mem, 2), 214);
    assert_eq!(sum_of(&mut [], 5), 0);
}

#[test]
fn writes_touch_the_first_byte_of_every_line() {
    let mut mem = vec![5u8; 2 * CACHE_LINE_SIZE + 1];
    fill(&mut mem, 0, WARMUP_BYTE);
    assert_eq!(mem, vec![5u8; 129]);
    fill(&mut mem, 1, WARMUP_BYTE);
    assert_eq!((mem[0], mem[64], mem[128]), (0xAA, 0xAA, 0xAA));
    fill(&mut mem, 4, TIMED_BYTE);
    for (i, byte) in mem.iter().enumerate() {
        assert_eq!(*byte, if i % 64 == 0 { 0xBB } else { 5 });
    }
    fill(&mut [], 3, TIMED_BYTE);
}

#[test]
fn reading_gives_back_what_was_written() {
    let mut mem = vec![1u8; 10 * CACHE_LINE_SIZE];
    fill(&mut mem, 2, TIMED_BYTE);
    assert_eq!(sum_of(&mut mem, 1), 10 * 0xBB);
}

#[test]
fn regions_read_and_write_single_cells() {
    let mut mem = vec![1u8, 2, 3];
    let mut region = Region::new(&mut mem);
    assert_eq!(region.len(), 3);
    region.write(1, 9);
    assert_eq!((region.read(0), region.read(1), region.read(2)), (1, 9, 3));
    assert_eq!(mem, vec![1, 9, 3]);
    let mut again = Region::new(&mut mem);
    again.write(2, 7);
    let back = again.into_mem();
    assert_eq!(back, [1, 9, 7]);
    back[0] = 4;
    assert_eq!(mem, vec![4, 9, 7]);
    let mut none: [u64; 0] = [];
    assert_eq!(Region::new(&mut none).len(), 0);
}

#[test]
fn passes_of_one_region_follow_one_another() {
    let mut mem = vec![2u8; 3 * CACHE_LINE_SIZE];
    let mut region = Region::new(&mut mem);
    assert_eq!(read_passes(&mut region, 2), 12);
    write_passes(&mut region, 1, WARMUP_BYTE);
    assert_eq!(read_passes(&mut region, 1), 3 * 0xAA);
    write_passes(&mut region, 3, TIMED_BYTE);
    assert_eq!(read_passes(&mut region, 2), 6 * 0xBB);
    assert_eq!(mem.iter().filter(|byte| **byte == 2).count(), 3 * 63);
}

#[test]
fn touching_writes_once_per_huge_page() {
    let mut mem = vec![0u8; 2 * HUGE_PAGE_SIZE + 10];
    touch_pages(&mut Region::new(&mut mem));
    let touched: Vec<usize> = (0..mem.len()).filter(|i| mem[*i] != 0).collect();
    assert_eq!(touched, vec![0, HUGE_PAGE_SIZE, 2 * HUGE_PAGE_SIZE]);
    assert_eq!(mem[0], TOUCH_BYTE);
}

#[test]
fn pagemap_offsets_are_eight_bytes_a_page() {
    assert_eq!(pagemap_offset(0), 0);
    assert_eq!(pagemap_offset(4095), 0);
    assert_eq!(pagemap_offset(4096), 8);
    assert_eq!(pagemap_offset(0x7f00_0020_0123), 0x7f00_0020_0 * 8);
}

#[test]
fn present_entries_translate() {
    let entry = (1u64 << 63) | (1 << 61) | 0x12345;
    assert!(translatable(&entry.to_le_bytes()));
    assert_eq!(virtual_to_physical(&entry.to_le_bytes(), 0x7000_0abc), Some(0x1234_5abc));
    let largest = (1u64 << 63) | ((1 << 52) - 1);
    assert!(translatable(&largest.to_le_bytes()));
    assert_eq!(virtual_to_physical(&largest.to_le_bytes(), 4095), Some(usize::MAX));
}

#[test]
fn absent_pages_have_no_address() {
    assert_eq!(virtual_to_physical(&[0; 8], 0x1000), None);
    let swapped = (1u64 << 62) | 0x12345;
    assert!(translatable(&swapped.to_le_bytes()));
    assert_eq!(virtual_to_physical(&swapped.to_le_bytes(), 0x1000), None);
}

#[test]
fn unrepresentable_frames_are_recognised() {
    let entry = (1u64 << 63) | (1 << 52);
    assert!(!translatable(&entry.to_le_bytes()));
    let absent = 1u64 << 52;
    assert!(translatable(&absent.to_le_bytes()));
}

#[test]
fn translation_keeps_the_page_offset() {
    for vaddr in [0usize, 1, 4095, 4096, 0xdead_beef] {
        let entry = (1u64 << 63) | 77;
        let paddr = virtual_to_physical(&entry.to_le_bytes(), vaddr).unwrap();
        assert_eq!(paddr % 4096, vaddr % 4096);
        assert_eq!(paddr / 4096, 77);
    }
}
