use bg_remover::remove_small_islands;

fn grid(rows: &[&str]) -> Vec<bool> {
    rows.iter()
        .flat_map(|r| r.chars().map(|c| c == '#'))
        .collect()
}

#[test]
fn small_foreground_speck_is_removed_and_large_island_kept() {
    let mut g = grid(&[
        "##...",
        "##...",
        "##..#",
        "....#",
        ".....",
    ]);
    remove_small_islands(&mut g, 5, 5, true, 3);
    assert_eq!(
        g,
        grid(&[
            "##...",
            "##...",
            "##...",
            ".....",
            ".....",
        ])
    );
}

#[test]
fn island_of_exactly_minimum_size_is_kept() {
    let mut g = grid(&["###..", ".....", "....#"]);
    remove_small_islands(&mut g, 5, 3, true, 3);
    assert_eq!(g, grid(&["###..", ".....", "....."]));
}

#[test]
fn small_background_hole_is_filled() {
    let mut g = grid(&[
        "#####",
        "#.###",
        "#####",
    ]);
    remove_small_islands(&mut g, 5, 3, false, 2);
    assert_eq!(g, vec![true; 15]);
}

#[test]
fn diagonal_cells_are_separate_islands() {
    let mut g = grid(&["#.", ".#"]);
    remove_small_islands(&mut g, 2, 2, true, 2);
    assert_eq!(g, vec![false; 4]);
}

#[test]
fn islands_do_not_wrap_across_rows() {
    // The last cell of row 0 and the first cell of row 1 are adjacent in
    // memory but not in the grid.
    let mut g = grid(&["..#", "#.."]);
    remove_small_islands(&mut g, 3, 2, true, 2);
    assert_eq!(g, vec![false; 6]);
}

#[test]
fn cells_past_the_grid_are_untouched() {
    let mut g = vec![true, false, false, false, true, true];
    remove_small_islands(&mut g, 2, 2, true, 2);
    assert_eq!(g, vec![false, false, false, false, true, true]);
}

#[test]
fn empty_grid_changes_nothing() {
    let mut g: Vec<bool> = vec![];
    remove_small_islands(&mut g, 0, 0, true, 24);
    assert!(g.is_empty());
    let mut h = vec![true, true];
    remove_small_islands(&mut h, 0, 7, true, 24);
    assert_eq!(h, vec![true, true]);
}

#[test]
fn minimum_of_zero_changes_nothing() {
    let original = grid(&["#.#", ".#.", "#.#"]);
    let mut g = original.clone();
    remove_small_islands(&mut g, 3, 3, true, 0);
    assert_eq!(g, original);
}

#[test]
fn cleaning_twice_changes_nothing_more() {
    let mut g = grid(&[
        "#..##.#",
        "#..##..",
        "..#....",
        "###..#.",
        ".....##",
    ]);
    remove_small_islands(&mut g, 7, 5, true, 3);
    let once = g.clone();
    remove_small_islands(&mut g, 7, 5, true, 3);
    assert_eq!(g, once);
    assert_eq!(
        once,
        grid(&[
            "...##..",
            "...##..",
            "..#....",
            "###..#.",
            ".....##",
        ])
    );
}

#[test]
fn surviving_foreground_islands_are_all_large_enough() {
    let mut g = grid(&[
        "#.#.#.#",
        "#.#.#..",
        "..#...#",
        "#.....#",
        "#######",
    ]);
    remove_small_islands(&mut g, 7, 5, true, 3);
    assert_eq!(
        g,
        grid(&[
            "..#....",
            "..#....",
            "..#...#",
            "#.....#",
            "#######",
        ])
    );
}

#[test]
fn both_passes_like_the_mask_refinement() {
    let mut g = grid(&[
        "......",
        ".####.",
        ".#.##.",
        ".####.",
        "....#.",
        "#.....",
    ]);
    remove_small_islands(&mut g, 6, 6, true, 2);
    remove_small_islands(&mut g, 6, 6, false, 2);
    assert_eq!(
        g,
        grid(&[
            "......",
            ".####.",
            ".####.",
            ".####.",
            "....#.",
            "......",
        ])
    );
}
