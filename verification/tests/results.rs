use std::cmp::Ordering;

use dram_mapper::blocks::find_contiguous_blocks;
use dram_mapper::config::{HUGE_PAGE_SIZE, MB};
use dram_mapper::layout::component_layout;
use dram_mapper::models::model_fits;
use dram_mapper::order::{
    best_bandwidth, best_latency, measured_regions, order_by_paddr, order_key, positive_finite,
    rank_by_score, score_percentiles, stable_order,
};
use dram_mapper::preference::{prefer_block, BlockMerit};
use dram_mapper::score::{scorable, settled_score};
use dram_mapper::report::{block_rows, hidden_rows, top_rows, useful_blocks, worst_rows};

const H: usize = HUGE_PAGE_SIZE;

fn bits(values: &[f64]) -> Vec<u64> {
    values.iter().map(|v| v.to_bits()).collect()
}

#[test]
fn no_regions_make_no_blocks() {
    assert!(find_contiguous_blocks(&[]).is_empty());
}

#[test]
fn adjacent_regions_join() {
    let blocks = find_contiguous_blocks(&[H, 2 * H, 3 * H, 5 * H, 7 * H, 8 * H]);
    let found: Vec<(usize, usize, usize, usize, usize)> = blocks
        .iter()
        .map(|b| (b.first, b.count, b.start_paddr, b.end_paddr, b.size_mb))
        .collect();
    assert_eq!(
        found,
        vec![(0, 3, H, 4 * H, 6), (3, 1, 5 * H, 6 * H, 2), (4, 2, 7 * H, 9 * H, 4)]
    );
    assert_eq!(blocks.iter().map(|b| b.size_mb).sum::<usize>(), 12);
    for block in &blocks {
        assert_eq!(block.end_paddr - block.start_paddr, block.size_mb * MB);
    }
    assert!(blocks[0].end_paddr < blocks[1].start_paddr);
}

#[test]
fn only_the_next_page_continues_a_run() {
    assert_eq!(find_contiguous_blocks(&[0]).len(), 1);
    assert_eq!(find_contiguous_blocks(&[H, H]).len(), 2);
    assert_eq!(find_contiguous_blocks(&[2 * H, H]).len(), 2);
    assert_eq!(find_contiguous_blocks(&[0, H + 4096]).len(), 2);
    assert_eq!(find_contiguous_blocks(&[0, H, 2 * H]).len(), 1);
}

#[test]
fn stable_order_keeps_equal_keys_in_place() {
    assert_eq!(stable_order(&[]), Vec::<usize>::new());
    assert_eq!(stable_order(&[4]), vec![0]);
    assert_eq!(stable_order(&[3, 1, 2, 1, 3, 0]), vec![5, 1, 3, 2, 0, 4]);
    let keys: Vec<u64> = (0..1000u64).map(|i| (i * 7919) % 101).collect();
    let mut expected: Vec<usize> = (0..1000).collect();
    expected.sort_by_key(|i| keys[*i]);
    assert_eq!(stable_order(&keys), expected);
}

#[test]
fn addresses_order_ascending() {
    let paddrs = [5 * H, H, 3 * H, 2 * H];
    let order = order_by_paddr(&paddrs);
    assert_eq!(order, vec![1, 3, 2, 0]);
    let sorted: Vec<usize> = order.iter().map(|p| paddrs[*p]).collect();
    assert_eq!(find_contiguous_blocks(&sorted).len(), 2);
}

#[test]
fn order_keys_agree_with_total_cmp() {
    let values = [
        f64::NEG_INFINITY, -1e300, -2.5, -1.0, -f64::MIN_POSITIVE, -0.0, 0.0, 5e-324, 1.0,
        1.0000000000000002, 99.5, 100.0, f64::MAX, f64::INFINITY, f64::NAN, -f64::NAN,
    ];
    for a in values {
        for b in values {
            assert_eq!(order_key(a.to_bits()).cmp(&order_key(b.to_bits())), a.total_cmp(&b));
        }
        assert_eq!(positive_finite(a.to_bits()), a.is_finite() && a > 0.0);
    }
    assert_eq!(order_key(0), 0x8000_0000_0000_0000);
    assert_eq!(order_key(u64::MAX), 0);
}

#[test]
fn ranking_is_by_descending_score() {
    let scores = [50.0, 99.0, 0.0, 99.0, 12.5];
    assert_eq!(rank_by_score(&bits(&scores)), vec![1, 3, 0, 4, 2]);
    assert!(rank_by_score(&[]).is_empty());
    let mut expected: Vec<usize> = (0..scores.len()).collect();
    expected.sort_by(|a, b| scores[*b].total_cmp(&scores[*a]));
    assert_eq!(rank_by_score(&bits(&scores)), expected);
}

#[test]
fn unmeasured_regions_are_left_out() {
    let scores = [1.0, 0.0, f64::NAN, 3.0, f64::INFINITY, -1.0, -0.0, 5e-324];
    assert_eq!(measured_regions(&bits(&scores)), vec![0, 3, 7]);
    assert!(measured_regions(&[]).is_empty());
}

#[test]
fn best_values_agree_with_folds() {
    for values in [
        vec![10.0, 30.0, 20.0],
        vec![f64::INFINITY, 5.0, f64::NAN],
        vec![0.0, 0.0],
        vec![],
    ] {
        let highest = values.iter().copied().filter(|v| v.is_finite()).fold(0.0_f64, f64::max);
        let lowest = values
            .iter()
            .copied()
            .filter(|v| v.is_finite() && *v > 0.0)
            .fold(f64::MAX, f64::min);
        assert_eq!(f64::from_bits(best_bandwidth(&bits(&values))), highest);
        assert_eq!(f64::from_bits(best_latency(&bits(&values))), lowest);
    }
}

#[test]
fn percentiles_are_picked_from_sorted_scores() {
    let scores: Vec<f64> = (0..20).map(|i| ((i * 7) % 20) as f64 + 1.0).collect();
    let found = score_percentiles(&bits(&scores));
    assert_eq!(f64::from_bits(found.p10), 3.0);
    assert_eq!(f64::from_bits(found.p50), 11.0);
    assert_eq!(f64::from_bits(found.p90), 19.0);
    let single = score_percentiles(&bits(&[42.0]));
    assert_eq!(f64::from_bits(single.p10), 42.0);
    assert_eq!(f64::from_bits(single.p90), 42.0);
    let two = score_percentiles(&bits(&[2.0, 1.0]));
    assert_eq!(
        (f64::from_bits(two.p10), f64::from_bits(two.p50), f64::from_bits(two.p90)),
        (1.0, 2.0, 2.0)
    );
}

#[test]
fn tables_show_the_top_unless_verbose() {
    let ranking: Vec<usize> = (100..130).collect();
    let rows = top_rows(&ranking, false);
    assert_eq!(rows.len(), 20);
    assert_eq!((rows[0].rank, rows[0].index, rows[0].starred), (1, 100, true));
    assert!(rows[9].starred && !rows[10].starred);
    assert_eq!(hidden_rows(30, false), 10);
    assert_eq!(top_rows(&ranking, true).len(), 30);
    assert_eq!(hidden_rows(30, true), 0);
    assert_eq!(top_rows(&vec![4, 5], false).len(), 2);
    assert_eq!(hidden_rows(20, false), 0);
    assert!(top_rows(&Vec::new(), false).is_empty());
}

#[test]
fn worst_rows_come_from_the_end() {
    let ranking: Vec<usize> = (100..107).collect();
    let rows: Vec<(usize, usize)> = worst_rows(&ranking).iter().map(|r| (r.rank, r.index)).collect();
    assert_eq!(rows, vec![(7, 106), (6, 105), (5, 104), (4, 103), (3, 102)]);
    let few: Vec<(usize, usize)> = worst_rows(&vec![8, 9]).iter().map(|r| (r.rank, r.index)).collect();
    assert_eq!(few, vec![(2, 9), (1, 8)]);
}

#[test]
fn useful_blocks_are_large_ones() {
    assert_eq!(useful_blocks(&[256, 254, 1000, 2, 258]), vec![0, 2, 4]);
    assert!(useful_blocks(&[2, 254]).is_empty());
    let rows = block_rows(&(0..12).collect());
    assert_eq!(rows.len(), 10);
    assert!(rows[0].starred && !rows[1].starred);
    assert_eq!((rows[9].rank, rows[9].index), (10, 9));
    assert!(block_rows(&Vec::new()).is_empty());
}

#[test]
fn blocks_are_preferred_by_size_within_noise() {
    let small = BlockMerit { size_mb: 300, avg_score: 90.0f64.to_bits() };
    let large = BlockMerit { size_mb: 900, avg_score: 89.0f64.to_bits() };
    assert_eq!(prefer_block(&small, &large, true), Ordering::Greater);
    assert_eq!(prefer_block(&large, &small, true), Ordering::Less);
    assert_eq!(prefer_block(&small, &large, false), Ordering::Less);
    assert_eq!(prefer_block(&large, &small, false), Ordering::Greater);
    assert_eq!(prefer_block(&small, &small, true), Ordering::Equal);
    assert_eq!(prefer_block(&small, &small, false), Ordering::Equal);
}

#[test]
fn models_fit_by_size() {
    let fits = model_fits(8000);
    let found: Vec<(&str, usize, &str, bool)> = fits
        .iter()
        .map(|f| (f.model.name, f.model.required_mb, f.model.size, f.fits))
        .collect();
    assert_eq!(
        found,
        vec![
            ("70B (Q4_K_M)", 40000, "~40 GB", false),
            ("34B (Q4_K_M)", 20000, "~20 GB", false),
            ("13B (Q4_K_M)", 8000, "~8 GB", true),
            ("7B  (Q4_K_M)", 4000, "~4 GB", true),
            ("3B  (Q4_K_M)", 2000, "~2 GB", true),
            ("1B  (Q4_K_M)", 800, "~0.8 GB", true),
        ]
    );
    assert!(model_fits(799).iter().all(|f| !f.fits));
    assert!(model_fits(40000).iter().all(|f| f.fits));
}

#[test]
fn parts_fill_the_block() {
    let mb = 1000;
    let kv_share = (mb as f64 * 0.15) as usize;
    let wt_share = (mb as f64 * 0.70) as usize;
    let layout = component_layout(0x1_0000_0000, mb, kv_share, wt_share);
    assert_eq!((layout.kv_mb, layout.wt_mb, layout.emb_mb), (150, 700, 150));
    assert_eq!(layout.kv_start, 0x1_0000_0000);
    assert_eq!(layout.wt_start, 0x1_0000_0000 + 150 * MB);
    assert_eq!(layout.emb_start, 0x1_0000_0000 + 850 * MB);
    assert_eq!((layout.wt_offset, layout.emb_offset), (150 * MB, 850 * MB));
    assert_eq!(layout.emb_start + layout.emb_mb * MB, 0x1_0000_0000 + mb * MB);
    assert_eq!(layout.wt_offset % HUGE_PAGE_SIZE, 0);
}

#[test]
fn shares_round_down_to_whole_pages() {
    let layout = component_layout(0, 360, 54, 251);
    assert_eq!((layout.kv_mb, layout.wt_mb, layout.emb_mb), (54, 250, 56));
    let full = component_layout(0, 10, 5, 7);
    assert_eq!((full.kv_mb, full.wt_mb, full.emb_mb), (4, 6, 0));
    let over = component_layout(0, 10, 8, 8);
    assert_eq!(over.emb_mb, 0);
}

#[test]
fn scores_need_divisors() {
    let one = 1.0f64.to_bits();
    assert!(scorable(one, one, one));
    for zero in [0.0f64.to_bits(), (-0.0f64).to_bits()] {
        assert!(!scorable(zero, one, one));
        assert!(!scorable(one, zero, one));
        assert!(!scorable(one, one, zero));
    }
    assert!(scorable(one, one, f64::NAN.to_bits()));
}

#[test]
fn recorded_scores_are_finite() {
    for value in [0.0, -0.0, 1.5, 100.0, -3.0, f64::MAX, f64::MIN] {
        assert_eq!(settled_score(value.to_bits()), value.to_bits());
    }
    for value in [f64::NAN, -f64::NAN, f64::INFINITY, f64::NEG_INFINITY] {
        assert_eq!(settled_score(value.to_bits()), 0.0f64.to_bits());
    }
}
