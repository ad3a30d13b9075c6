use life::{
    cycle_next, get_key_clones, get_neighborhood_score, populate_pixmap, render_pixelmap,
    set_next_state, update_pixel, Pixel, PixelInfo, PixelMap,
};

fn seeded(xlen: i32, ylen: i32, seeds: &[(i32, i32)]) -> PixelMap {
    let mut pixmap = PixelMap::new();
    populate_pixmap(xlen, ylen, &mut pixmap);
    for &(x, y) in seeds {
        update_pixel(x, y, true, &mut pixmap);
    }
    pixmap
}

fn advance(pixmap: &mut PixelMap, keys: &Vec<Pixel>) {
    set_next_state(pixmap, keys);
    cycle_next(pixmap);
}

fn living_cells(pixmap: &PixelMap) -> Vec<(i32, i32)> {
    let mut out = Vec::new();
    for x in 0..=pixmap.xlen {
        for y in 0..=pixmap.ylen {
            if pixmap.get(Pixel { x, y }).living {
                out.push((x, y));
            }
        }
    }
    out
}

fn is_border(pixmap: &PixelMap, x: i32, y: i32) -> bool {
    x == 0 || y == 0 || x == pixmap.xlen || y == pixmap.ylen
}

#[test]
fn populate_marks_outer_ring_only() {
    let pixmap = seeded(4, 3, &[]);
    assert_eq!(pixmap.cells.len(), 20);
    for x in 0..=4 {
        for y in 0..=3 {
            let cell = pixmap.get(Pixel { x, y });
            assert_eq!(cell.boundry, x == 0 || x == 4 || y == 0 || y == 3);
            assert!(!cell.living);
            assert!(!cell.next_state);
        }
    }
}

#[test]
fn populate_replaces_previous_contents() {
    let mut pixmap = seeded(6, 6, &[(2, 2), (3, 3)]);
    populate_pixmap(2, 3, &mut pixmap);
    assert_eq!(pixmap.xlen, 2);
    assert_eq!(pixmap.ylen, 3);
    assert_eq!(pixmap.cells.len(), 12);
    assert!(living_cells(&pixmap).is_empty());
}

#[test]
fn update_pixel_sets_only_living_of_one_cell() {
    let mut pixmap = seeded(5, 5, &[]);
    update_pixel(2, 3, true, &mut pixmap);
    let cell = pixmap.get(Pixel { x: 2, y: 3 });
    assert_eq!(cell, PixelInfo { living: true, boundry: false, next_state: false });
    assert_eq!(living_cells(&pixmap), vec![(2, 3)]);
    update_pixel(2, 3, false, &mut pixmap);
    assert!(living_cells(&pixmap).is_empty());
    update_pixel(0, 1, true, &mut pixmap);
    assert_eq!(pixmap.get(Pixel { x: 0, y: 1 }), PixelInfo { living: true, boundry: true, next_state: false });
}

#[test]
fn report_living_ignores_border_cells() {
    assert!(PixelInfo { living: true, boundry: false, next_state: false }.report_living());
    assert!(!PixelInfo { living: true, boundry: true, next_state: false }.report_living());
    assert!(!PixelInfo { living: false, boundry: false, next_state: true }.report_living());
}

#[test]
fn key_clones_list_every_coordinate_once() {
    let pixmap = seeded(3, 2, &[]);
    let keys = get_key_clones(&pixmap);
    assert_eq!(keys.len(), 12);
    for x in 0..=3 {
        for y in 0..=2 {
            let pos = (x * 3 + y) as usize;
            assert_eq!(keys[pos], Pixel { x, y });
        }
    }
}

#[test]
fn neighborhood_score_counts_living_interior_neighbours() {
    let mut pixmap = seeded(6, 6, &[(1, 1), (2, 1), (3, 3), (2, 2), (5, 5)]);
    assert_eq!(get_neighborhood_score(2, 2, &pixmap), 3);
    assert_eq!(get_neighborhood_score(4, 4, &pixmap), 2);
    assert_eq!(get_neighborhood_score(1, 2, &pixmap), 3);
    // a living border cell does not count
    update_pixel(0, 1, true, &mut pixmap);
    assert_eq!(get_neighborhood_score(1, 2, &pixmap), 3);
}

#[test]
fn neighborhood_score_of_full_ring_is_eight() {
    let pixmap = seeded(4, 4, &[(1, 1), (1, 2), (1, 3), (2, 1), (2, 3), (3, 1), (3, 2), (3, 3)]);
    assert_eq!(get_neighborhood_score(2, 2, &pixmap), 8);
}

#[test]
fn transition_table_for_every_count() {
    let ring = [(1, 1), (1, 2), (1, 3), (2, 1), (2, 3), (3, 1), (3, 2), (3, 3)];
    for count in 0..=8usize {
        for &alive in &[false, true] {
            let mut seeds: Vec<(i32, i32)> = ring[..count].to_vec();
            if alive {
                seeds.push((2, 2));
            }
            let mut pixmap = seeded(4, 4, &seeds);
            let keys = get_key_clones(&pixmap);
            set_next_state(&mut pixmap, &keys);
            let expected = if alive { count == 2 || count == 3 } else { count == 3 };
            let cell = pixmap.get(Pixel { x: 2, y: 2 });
            assert_eq!(cell.next_state, expected, "count {} alive {}", count, alive);
            assert_eq!(cell.living, alive);
        }
    }
}

#[test]
fn staging_leaves_living_states_and_commit_clears_staging() {
    let mut pixmap = seeded(5, 5, &[(1, 2), (2, 2), (3, 2)]);
    let keys = get_key_clones(&pixmap);
    set_next_state(&mut pixmap, &keys);
    assert_eq!(living_cells(&pixmap), vec![(1, 2), (2, 2), (3, 2)]);
    assert!(pixmap.get(Pixel { x: 2, y: 1 }).next_state);
    assert!(pixmap.get(Pixel { x: 2, y: 2 }).next_state);
    assert!(!pixmap.get(Pixel { x: 1, y: 2 }).next_state);
    cycle_next(&mut pixmap);
    assert_eq!(living_cells(&pixmap), vec![(2, 1), (2, 2), (2, 3)]);
    for x in 0..=5 {
        for y in 0..=5 {
            assert!(!pixmap.get(Pixel { x, y }).next_state);
        }
    }
}

#[test]
fn staging_skips_unlisted_and_unknown_coordinates() {
    let mut pixmap = seeded(5, 5, &[(1, 2), (2, 2), (3, 2)]);
    let keys = vec![Pixel { x: -1, y: 2 }, Pixel { x: 2, y: 1 }, Pixel { x: 9, y: 9 }, Pixel { x: 2, y: 7 }];
    set_next_state(&mut pixmap, &keys);
    assert!(pixmap.get(Pixel { x: 2, y: 1 }).next_state);
    // (2, 2) would stay alive, but it is not listed
    assert!(!pixmap.get(Pixel { x: 2, y: 2 }).next_state);
}

#[test]
fn isolated_cell_dies() {
    let mut pixmap = seeded(6, 6, &[(3, 3)]);
    let keys = get_key_clones(&pixmap);
    advance(&mut pixmap, &keys);
    assert!(living_cells(&pixmap).is_empty());
}

#[test]
fn block_is_stable() {
    let block = vec![(2, 2), (2, 3), (3, 2), (3, 3)];
    let mut pixmap = seeded(6, 6, &block);
    let keys = get_key_clones(&pixmap);
    for _ in 0..10 {
        advance(&mut pixmap, &keys);
        assert_eq!(living_cells(&pixmap), block);
    }
}

#[test]
fn blinker_oscillates() {
    let horizontal = vec![(2, 3), (3, 3), (4, 3)];
    let vertical = vec![(3, 2), (3, 3), (3, 4)];
    let mut pixmap = seeded(6, 6, &horizontal);
    let keys = get_key_clones(&pixmap);
    advance(&mut pixmap, &keys);
    assert_eq!(living_cells(&pixmap), vertical);
    advance(&mut pixmap, &keys);
    assert_eq!(living_cells(&pixmap), horizontal);
    advance(&mut pixmap, &keys);
    assert_eq!(living_cells(&pixmap), vertical);
}

#[test]
fn border_stays_dead_across_generations() {
    // a glider heading for the lower right corner
    let mut pixmap = seeded(8, 8, &[(2, 1), (3, 2), (1, 3), (2, 3), (3, 3)]);
    let keys = get_key_clones(&pixmap);
    for _ in 0..40 {
        advance(&mut pixmap, &keys);
        for &(x, y) in &living_cells(&pixmap) {
            assert!(!is_border(&pixmap, x, y));
        }
    }
}

#[test]
fn generation_never_touches_border_living_state() {
    let mut pixmap = seeded(5, 5, &[(0, 2), (1, 1), (1, 2), (1, 3), (5, 5)]);
    let keys = get_key_clones(&pixmap);
    advance(&mut pixmap, &keys);
    assert!(pixmap.get(Pixel { x: 0, y: 2 }).living);
    assert!(pixmap.get(Pixel { x: 5, y: 5 }).living);
    assert!(!pixmap.get(Pixel { x: 0, y: 1 }).living);
}

#[test]
fn staging_order_does_not_matter() {
    let seeds = [(1, 1), (2, 2), (2, 3), (3, 2), (4, 4), (5, 1), (5, 2)];
    let mut forward = seeded(7, 6, &seeds);
    let mut backward = seeded(7, 6, &seeds);
    let mut interleaved = seeded(7, 6, &seeds);
    let keys = get_key_clones(&forward);
    let mut reversed = keys.clone();
    reversed.reverse();
    let mut odd_even: Vec<Pixel> = keys.iter().skip(1).step_by(2).copied().collect();
    odd_even.extend(keys.iter().step_by(2).copied());
    for _ in 0..5 {
        set_next_state(&mut forward, &keys);
        set_next_state(&mut backward, &reversed);
        set_next_state(&mut interleaved, &odd_even);
        assert_eq!(forward.cells, backward.cells);
        assert_eq!(forward.cells, interleaved.cells);
        cycle_next(&mut forward);
        cycle_next(&mut backward);
        cycle_next(&mut interleaved);
        assert_eq!(forward.cells, backward.cells);
        assert_eq!(forward.cells, interleaved.cells);
    }
}

#[test]
fn render_small_frame() {
    let pixmap = seeded(4, 3, &[(1, 1), (2, 1), (3, 2)]);
    assert_eq!(render_pixelmap(4, 3, &pixmap), "----\n-OO-\n---O\n");
    assert_eq!(render_pixelmap(0, 2, &pixmap), "\n\n");
    assert_eq!(render_pixelmap(3, 0, &pixmap), "");
    assert_eq!(render_pixelmap(5, 4, &pixmap), "-----\n-OO--\n---O-\n-----\n");
}

#[test]
fn render_does_not_change_grid() {
    let pixmap = seeded(4, 4, &[(2, 2)]);
    let before = pixmap.cells.clone();
    let _ = render_pixelmap(4, 4, &pixmap);
    assert_eq!(pixmap.cells, before);
}

#[test]
fn repeated_runs_render_identical_frames() {
    let run = || {
        let mut pixmap = seeded(20, 20, &[(4, 5), (4, 6), (5, 5), (3, 6), (3, 4)]);
        let keys = get_key_clones(&pixmap);
        let mut frames = Vec::new();
        for _ in 0..30 {
            frames.push(render_pixelmap(20, 20, &pixmap));
            advance(&mut pixmap, &keys);
        }
        frames
    };
    let first = run();
    let second = run();
    assert_eq!(first, second);
    assert_eq!(first[0].lines().count(), 20);
    assert!(first[0].lines().all(|l| l.len() == 20));
}
