use islands::engine::find_islands;
use islands::grid::{Cell, Island};

fn grid_from(rows: &[&str]) -> (Vec<bool>, i32, i32) {
    let h = rows.len();
    let w = if h == 0 { 0 } else { rows[0].len() };
    let mut g = Vec::new();
    for r in rows {
        assert_eq!(r.len(), w);
        for ch in r.chars() {
            g.push(ch == '#');
        }
    }
    (g, w as i32, h as i32)
}

fn isl(x0: i32, y0: i32, x1: i32, y1: i32) -> Island {
    Island(Cell(x0, y0), Cell(x1, y1))
}

#[test]
fn empty_grid_yields_no_islands() {
    let (g, w, h) = grid_from(&["....", "....", "...."]);
    assert!(find_islands(&g, w, h).is_empty());
}

#[test]
fn zero_area_grids_yield_no_islands() {
    assert!(find_islands(&[], 0, 0).is_empty());
    assert!(find_islands(&[], 0, 5).is_empty());
    assert!(find_islands(&[], 7, 0).is_empty());
}

#[test]
fn full_grid_is_one_island() {
    let (g, w, h) = grid_from(&["#####", "#####", "#####"]);
    assert_eq!(find_islands(&g, w, h), vec![isl(0, 0, 4, 2)]);
}

#[test]
fn one_by_one_grid() {
    assert_eq!(find_islands(&[true], 1, 1), vec![isl(0, 0, 0, 0)]);
    assert!(find_islands(&[false], 1, 1).is_empty());
}

#[test]
fn singleton_island() {
    let (g, w, h) = grid_from(&[".....", ".....", "...#.", "....."]);
    assert_eq!(find_islands(&g, w, h), vec![isl(3, 2, 3, 2)]);
}

#[test]
fn diagonal_cells_connect() {
    let (g, w, h) = grid_from(&["#..", ".#.", "..."]);
    assert_eq!(find_islands(&g, w, h), vec![isl(0, 0, 1, 1)]);
}

#[test]
fn anti_diagonal_cells_connect() {
    let (g, w, h) = grid_from(&["..#", ".#.", "#.."]);
    assert_eq!(find_islands(&g, w, h), vec![isl(0, 0, 2, 2)]);
}

#[test]
fn separated_cells_are_two_islands() {
    let (g, w, h) = grid_from(&["#.#", "...", "..."]);
    let r = find_islands(&g, w, h);
    assert_eq!(r, vec![isl(0, 0, 0, 0), isl(2, 0, 2, 0)]);
    assert_ne!(r[0], r[1]);
}

#[test]
fn islands_come_in_scan_order() {
    // The second island starts on a later row but reaches further left.
    let (g, w, h) = grid_from(&["...##", ".....", "#....", "###.."]);
    assert_eq!(find_islands(&g, w, h), vec![isl(3, 0, 4, 0), isl(0, 2, 2, 3)]);
}

#[test]
fn concave_island_box_covers_its_hole() {
    let (g, w, h) = grid_from(&["#...#", "#.#.#", "#####", "....."]);
    assert_eq!(find_islands(&g, w, h), vec![isl(0, 0, 4, 2)]);
}

#[test]
fn box_grows_left_and_up_from_seed() {
    // The seed is at (3, 0); the traversal then reaches (0, 3) through a diagonal.
    let (g, w, h) = grid_from(&["...#", "..#.", ".#..", "#..."]);
    assert_eq!(find_islands(&g, w, h), vec![isl(0, 0, 3, 3)]);
}

#[test]
fn several_islands_with_exact_boxes() {
    let (g, w, h) = grid_from(&[
        "##....#",
        "#.....#",
        ".....##",
        "..#....",
        ".###..#",
    ]);
    assert_eq!(
        find_islands(&g, w, h),
        vec![isl(0, 0, 1, 1), isl(5, 0, 6, 2), isl(1, 3, 3, 4), isl(6, 4, 6, 4)]
    );
}

#[test]
fn every_land_cell_lies_in_exactly_one_counted_island() {
    let (g, w, h) = grid_from(&["#.#.#", ".....", "#.#.#", ".....", "#.#.#"]);
    let r = find_islands(&g, w, h);
    let land = g.iter().filter(|b| **b).count();
    assert_eq!(land, 9);
    // Every island here is a single cell, so the boxes count the land cells.
    assert_eq!(r.len(), land);
    for y in 0..h {
        for x in 0..w {
            let inside = r
                .iter()
                .filter(|i| i.0 .0 <= x && x <= i.1 .0 && i.0 .1 <= y && y <= i.1 .1)
                .count();
            let expected = if g[(y * w + x) as usize] { 1 } else { 0 };
            assert_eq!(inside, expected);
        }
    }
}

#[test]
fn discovery_twice_gives_the_same_islands() {
    let (g, w, h) = grid_from(&["#..#.", ".#..#", "....#", "##...", "#..##"]);
    let a = find_islands(&g, w, h);
    let b = find_islands(&g, w, h);
    assert_eq!(a, b);
    assert_eq!(a, vec![isl(0, 0, 1, 1), isl(3, 0, 4, 2), isl(0, 3, 1, 4), isl(3, 4, 4, 4)]);
}

#[test]
fn long_serpentine_island_does_not_exhaust_the_stack() {
    let w: i32 = 301;
    let h: i32 = 301;
    let mut g = vec![false; (w * h) as usize];
    for y in 0..h {
        for x in 0..w {
            let land = if y % 2 == 0 {
                true
            } else if (y / 2) % 2 == 0 {
                x == w - 1
            } else {
                x == 0
            };
            g[(y * w + x) as usize] = land;
        }
    }
    assert_eq!(find_islands(&g, w, h), vec![isl(0, 0, w - 1, h - 1)]);
}

#[test]
fn cell_rel_and_val() {
    let c = Cell(2, 1);
    assert_eq!(c.rel(-1, 1), Cell(1, 2));
    assert_eq!(c.rel(0, -1), Cell(2, 0));
    let (g, w, h) = grid_from(&["...", "..#"]);
    assert!(c.val(&g, w, h));
    assert!(!Cell(1, 1).val(&g, w, h));
    assert_eq!(c.index(w, h, g.len()), 5);
}
