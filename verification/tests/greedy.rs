use worldbox::greedy::{greedy_quads, naive_quads, plane_mask, test_bit, Quad};

fn quad(x: u32, y: u32, w: u32, h: u32) -> Quad {
    Quad { x, y, w, h }
}

/// Paints the rectangles back into a mask. `None` where a rectangle leaves
/// the mask or two rectangles share a cell.
fn rasterize(quads: &[Quad]) -> Option<[u32; 32]> {
    let mut mask = [0u32; 32];
    for q in quads {
        if q.w == 0 || q.h == 0 || q.x + q.w > 32 || q.y + q.h > 32 {
            return None;
        }
        for y in q.y..q.y + q.h {
            for x in q.x..q.x + q.w {
                if mask[y as usize] >> x & 1 == 1 {
                    return None;
                }
                mask[y as usize] |= 1 << x;
            }
        }
    }
    Some(mask)
}

fn checkerboard() -> [u32; 32] {
    let mut mask = [0u32; 32];
    for y in 0..32 {
        mask[y] = if y % 2 == 0 { 0x5555_5555 } else { 0xAAAA_AAAA };
    }
    mask
}

fn scrambled(seed: u64) -> [u32; 32] {
    let mut state = seed;
    let mut mask = [0u32; 32];
    for y in 0..32 {
        state = state.wrapping_mul(6364136223846793005).wrapping_add(1442695040888963407);
        let a = (state >> 32) as u32;
        state = state.wrapping_mul(6364136223846793005).wrapping_add(1442695040888963407);
        let b = (state >> 32) as u32;
        mask[y] = a | b;
    }
    mask
}

#[test]
fn full_mask_gives_one_quad() {
    let quads = greedy_quads(&[u32::MAX; 32]);
    assert_eq!(quads, vec![quad(0, 0, 32, 32)]);
    assert_eq!(naive_quads(&[u32::MAX; 32]).len(), 1024);
}

#[test]
fn empty_mask_gives_nothing() {
    assert_eq!(greedy_quads(&[0; 32]), vec![]);
    assert_eq!(naive_quads(&[0; 32]), vec![]);
}

#[test]
fn single_cells_give_unit_quads() {
    let mut mask = [0u32; 32];
    mask[0] = 1;
    mask[31] = 1 << 31;
    mask[7] = 1 << 9;
    assert_eq!(greedy_quads(&mask), vec![quad(0, 0, 1, 1), quad(9, 7, 1, 1), quad(31, 31, 1, 1)]);
    assert_eq!(naive_quads(&mask), vec![quad(0, 0, 1, 1), quad(9, 7, 1, 1), quad(31, 31, 1, 1)]);
}

#[test]
fn a_run_extends_over_the_lines_that_hold_it() {
    let mut mask = [0u32; 32];
    mask[0] = 0b0110;
    mask[1] = 0b1111;
    assert_eq!(
        greedy_quads(&mask),
        vec![quad(1, 0, 2, 2), quad(0, 1, 1, 1), quad(3, 1, 1, 1)]
    );
}

#[test]
fn a_run_stops_at_the_line_that_breaks_it() {
    let mut mask = [0u32; 32];
    mask[2] = 0b11100;
    mask[3] = 0b11100;
    mask[4] = 0b10100;
    mask[5] = 0b11100;
    assert_eq!(
        greedy_quads(&mask),
        vec![
            quad(2, 2, 3, 2),
            quad(2, 4, 1, 2),
            quad(4, 4, 1, 2),
            quad(3, 5, 1, 1),
        ]
    );
}

#[test]
fn several_runs_in_one_line() {
    let mut mask = [0u32; 32];
    mask[10] = 0xF000_00FF | 0x0003_C000;
    assert_eq!(
        greedy_quads(&mask),
        vec![quad(0, 10, 8, 1), quad(14, 10, 4, 1), quad(28, 10, 4, 1)]
    );
}

#[test]
fn full_lines_join_into_slabs() {
    let mut mask = [0u32; 32];
    for y in 4..20 {
        mask[y] = u32::MAX;
    }
    assert_eq!(greedy_quads(&mask), vec![quad(0, 4, 32, 16)]);
}

#[test]
fn checkerboard_cannot_be_merged() {
    let mask = checkerboard();
    let greedy = greedy_quads(&mask);
    let naive = naive_quads(&mask);
    assert_eq!(greedy.len(), 512);
    assert_eq!(greedy, naive);
    assert_eq!(rasterize(&greedy), Some(mask));
    assert_eq!(rasterize(&naive), Some(mask));
}

#[test]
fn greedy_and_naive_cover_the_same_cells() {
    for seed in 0..40u64 {
        let mask = scrambled(seed);
        let greedy = greedy_quads(&mask);
        let naive = naive_quads(&mask);
        assert_eq!(rasterize(&greedy), Some(mask));
        assert_eq!(rasterize(&naive), Some(mask));
        assert!(greedy.len() <= naive.len());
        let cells: u32 = mask.iter().map(|w| w.count_ones()).sum();
        assert_eq!(naive.len(), cells as usize);
    }
}

#[test]
fn extraction_is_repeatable() {
    let mask = scrambled(7);
    assert_eq!(greedy_quads(&mask), greedy_quads(&mask));
}

#[test]
fn quads_come_in_scan_order() {
    let mask = scrambled(3);
    let quads = greedy_quads(&mask);
    for pair in quads.windows(2) {
        assert!((pair[0].y, pair[0].x) < (pair[1].y, pair[1].x));
    }
}

#[test]
fn test_bit_reads_one_cell() {
    assert!(test_bit(0b100, 2));
    assert!(!test_bit(0b100, 1));
    assert!(test_bit(u32::MAX, 31));
    assert!(!test_bit(0, 0));
}

#[test]
fn plane_mask_marks_the_cells_of_one_block() {
    let mut cells = vec![0u16; 1024];
    cells[0] = 2;
    cells[33] = 2;
    cells[34] = 3;
    cells[1023] = 2;
    let mask = plane_mask(&cells, 2);
    let mut expected = [0u32; 32];
    expected[0] = 1;
    expected[1] = 1 << 1;
    expected[31] = 1 << 31;
    assert_eq!(mask, expected);
    let other = plane_mask(&cells, 3);
    let mut expected = [0u32; 32];
    expected[1] = 1 << 2;
    assert_eq!(other, expected);
}
