use doom_fire::grid::new_pixel_array;
use doom_fire::grid::pixels_are_below;
use doom_fire::grid::pixels_are_rectangular;
use doom_fire::grid::setup_pixel_array;
use doom_fire::grid::PixelArray;
use doom_fire::grid::FIRE_HEIGHT;
use doom_fire::grid::FIRE_WIDTH;
use doom_fire::grid::NUM_FIRE_COLORS;
use doom_fire::grid::NUM_FRAMES;

#[test]
fn constants_have_their_values() {
    assert_eq!(FIRE_WIDTH, 100);
    assert_eq!(FIRE_HEIGHT, 100);
    assert_eq!(NUM_FIRE_COLORS, 37);
    assert_eq!(NUM_FRAMES, 500);
}

#[test]
fn setup_sets_only_the_last_row() {
    let mut pixels: PixelArray = vec![vec![0, 1, 2], vec![3, 4, 5], vec![6, 7, 8]];
    setup_pixel_array(&mut pixels);
    assert_eq!(pixels, vec![vec![0, 1, 2], vec![3, 4, 5], vec![36, 36, 36]]);
}

#[test]
fn setup_of_a_single_row_sets_it() {
    let mut pixels: PixelArray = vec![vec![0, 0]];
    setup_pixel_array(&mut pixels);
    assert_eq!(pixels, vec![vec![36, 36]]);
}

#[test]
fn setup_of_an_empty_grid_keeps_it_empty() {
    let mut pixels: PixelArray = Vec::new();
    setup_pixel_array(&mut pixels);
    assert!(pixels.is_empty());
}

#[test]
fn setup_follows_the_length_of_the_last_row() {
    let mut pixels: PixelArray = vec![vec![1], vec![0, 0, 0, 0]];
    setup_pixel_array(&mut pixels);
    assert_eq!(pixels, vec![vec![1], vec![36, 36, 36, 36]]);
}

#[test]
fn new_grid_is_cold_above_a_burning_row() {
    let pixels = new_pixel_array(4, 3);
    assert_eq!(pixels, vec![vec![0, 0, 0, 0], vec![0, 0, 0, 0], vec![36, 36, 36, 36]]);
}

#[test]
fn new_grid_of_full_size() {
    let pixels = new_pixel_array(FIRE_WIDTH, FIRE_HEIGHT);
    assert_eq!(pixels.len(), 100);
    for (row, cells) in pixels.iter().enumerate() {
        assert_eq!(cells.len(), 100);
        for cell in cells {
            assert_eq!(*cell, if row == 99 { 36 } else { 0 });
        }
    }
}

#[test]
fn new_grid_without_rows_or_columns() {
    assert!(new_pixel_array(5, 0).is_empty());
    assert_eq!(new_pixel_array(0, 2), vec![Vec::<usize>::new(), Vec::<usize>::new()]);
}

#[test]
fn rectangular_grids_are_told_from_ragged_ones() {
    assert!(pixels_are_rectangular(&Vec::new()));
    assert!(pixels_are_rectangular(&vec![vec![1, 2, 3]]));
    assert!(pixels_are_rectangular(&vec![vec![1, 2], vec![3, 4], vec![5, 6]]));
    assert!(pixels_are_rectangular(&vec![Vec::new(), Vec::new()]));
    assert!(!pixels_are_rectangular(&vec![vec![1, 2], vec![3]]));
    assert!(!pixels_are_rectangular(&vec![vec![1, 2], vec![3, 4], vec![5, 6, 7]]));
    assert!(!pixels_are_rectangular(&vec![Vec::new(), vec![1]]));
}

#[test]
fn heat_bound_is_checked_on_every_cell() {
    let pixels: PixelArray = vec![vec![0, 36], vec![12, 3]];
    assert!(pixels_are_below(&pixels, 37));
    assert!(!pixels_are_below(&pixels, 36));
    assert!(!pixels_are_below(&pixels, 0));
    assert!(pixels_are_below(&Vec::new(), 0));
    assert!(!pixels_are_below(&vec![vec![0, 0], vec![0, 37]], 37));
    assert!(!pixels_are_below(&vec![vec![40], vec![0, 1]], 37));
}
