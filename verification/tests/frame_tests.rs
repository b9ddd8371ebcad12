use doom_fire::frame::fire_frame;
use doom_fire::frame::fire_frame_with;
use doom_fire::frame::steps_are_fit;
use doom_fire::grid::new_pixel_array;
use doom_fire::grid::pixels_are_below;
use doom_fire::grid::pixels_are_rectangular;
use doom_fire::grid::PixelArray;
use doom_fire::spread::AnimationType;

fn four_by_four() -> PixelArray {
    vec![vec![0; 4], vec![0; 4], vec![0; 4], vec![3; 4]]
}

#[test]
fn uniform_fire_climbs_one_row_a_frame() {
    let mut pixels = four_by_four();
    fire_frame(&mut pixels, AnimationType::Uniform);
    assert_eq!(pixels, vec![vec![0; 4], vec![0; 4], vec![2; 4], vec![3; 4]]);
    fire_frame(&mut pixels, AnimationType::Uniform);
    assert_eq!(pixels, vec![vec![0; 4], vec![1; 4], vec![2; 4], vec![3; 4]]);
    fire_frame(&mut pixels, AnimationType::Uniform);
    assert_eq!(pixels, vec![vec![0; 4], vec![1; 4], vec![2; 4], vec![3; 4]]);
}

#[test]
fn uniform_fire_of_full_heat_reaches_the_top_in_time() {
    let mut pixels = new_pixel_array(3, 5);
    for _ in 0..4 {
        fire_frame(&mut pixels, AnimationType::Uniform);
    }
    assert_eq!(pixels, vec![vec![32; 3], vec![33; 3], vec![34; 3], vec![35; 3], vec![36; 3]]);
}

#[test]
fn uniform_constant_row_cools_into_the_row_above() {
    let mut pixels: PixelArray = vec![vec![4, 0, 9], vec![1, 2, 3], vec![7, 7, 7], vec![0, 5, 0]];
    fire_frame(&mut pixels, AnimationType::Uniform);
    assert_eq!(pixels[1], vec![6, 6, 6]);
    assert_eq!(pixels, vec![vec![0, 1, 2], vec![6, 6, 6], vec![7, 4, 7], vec![0, 5, 0]]);
}

#[test]
fn uniform_runs_twice_alike() {
    let start: PixelArray = vec![vec![3, 0, 8, 1], vec![0, 36, 2, 2], vec![9, 9, 0, 4], vec![36; 4]];
    let mut first = start.clone();
    let mut second = start.clone();
    for _ in 0..7 {
        fire_frame(&mut first, AnimationType::Uniform);
    }
    for _ in 0..7 {
        fire_frame(&mut second, AnimationType::Uniform);
    }
    assert_eq!(first, second);
    assert_eq!(first, vec![vec![33; 4], vec![34; 4], vec![35; 4], vec![36; 4]]);
}

#[test]
fn uniform_with_steps_is_uniform_without() {
    let start: PixelArray = vec![vec![3, 0, 8], vec![0, 36, 2], vec![9, 9, 0]];
    let mut plain = start.clone();
    let mut given = start.clone();
    fire_frame(&mut plain, AnimationType::Uniform);
    fire_frame_with(&mut given, AnimationType::Uniform, &vec![vec![2; 3]; 3]);
    assert_eq!(plain, given);
    let mut unfit = start.clone();
    fire_frame_with(&mut unfit, AnimationType::Uniform, &Vec::new());
    assert_eq!(plain, unfit);
    assert_eq!(plain, vec![vec![3, 35, 1], vec![8, 8, 2], vec![9, 9, 0]]);
}

#[test]
fn frame_of_a_grid_without_rows_or_with_one_row_changes_nothing() {
    let mut empty: PixelArray = Vec::new();
    fire_frame(&mut empty, AnimationType::TwoAxesRand);
    assert!(empty.is_empty());
    let mut single: PixelArray = vec![vec![5, 6, 7]];
    fire_frame(&mut single, AnimationType::TwoAxesRand);
    assert_eq!(single, vec![vec![5, 6, 7]]);
    fire_frame(&mut single, AnimationType::Uniform);
    assert_eq!(single, vec![vec![5, 6, 7]]);
    fire_frame_with(&mut single, AnimationType::VerticalRand, &vec![vec![1, 2, 3]]);
    assert_eq!(single, vec![vec![5, 6, 7]]);
}

#[test]
fn frame_of_rows_without_columns_changes_nothing() {
    let mut pixels: PixelArray = vec![Vec::new(), Vec::new(), Vec::new()];
    fire_frame(&mut pixels, AnimationType::TwoAxesRand);
    assert_eq!(pixels, vec![Vec::<usize>::new(), Vec::new(), Vec::new()]);
}

#[test]
fn vertical_frame_with_given_steps() {
    let mut pixels: PixelArray = vec![vec![9, 9, 9], vec![0, 7, 4], vec![5, 5, 5]];
    let steps = vec![vec![1, 1, 1], vec![1, 2, 3], vec![2, 1, 2]];
    fire_frame_with(&mut pixels, AnimationType::VerticalRand, &steps);
    assert_eq!(pixels, vec![vec![9, 7, 3], vec![5, 4, 5], vec![5, 5, 5]]);
}

#[test]
fn two_axes_frame_with_given_steps() {
    let mut pixels: PixelArray = vec![vec![0; 6], vec![0; 6], vec![5; 6]];
    let steps = vec![vec![1; 6], vec![3; 6], vec![1, 2, 3, 1, 2, 3]];
    fire_frame_with(&mut pixels, AnimationType::TwoAxesRand, &steps);
    assert_eq!(pixels, vec![vec![0; 6], vec![4, 5, 4, 4, 0, 0], vec![5; 6]]);
    fire_frame_with(&mut pixels, AnimationType::TwoAxesRand, &steps);
    assert_eq!(pixels, vec![vec![3, 4, 3, 3, 0, 0], vec![4, 5, 4, 4, 0, 0], vec![5; 6]]);
}

#[test]
fn two_axes_frame_last_arrival_stays() {
    let mut pixels: PixelArray = vec![vec![1; 7], vec![10, 11, 12, 13, 14, 15, 16]];
    let steps = vec![vec![1; 7], vec![1, 1, 1, 1, 3, 2, 1]];
    fire_frame_with(&mut pixels, AnimationType::TwoAxesRand, &steps);
    assert_eq!(pixels, vec![vec![9, 10, 13, 12, 15, 1, 15], vec![10, 11, 12, 13, 14, 15, 16]]);
}

#[test]
fn two_axes_frame_keeps_what_no_heat_reaches() {
    let mut pixels: PixelArray = vec![vec![8, 8, 8, 8, 8], vec![0, 0, 0, 0, 6]];
    let steps = vec![vec![1; 5], vec![2, 2, 2, 2, 3]];
    fire_frame_with(&mut pixels, AnimationType::TwoAxesRand, &steps);
    assert_eq!(pixels, vec![vec![8, 8, 5, 8, 8], vec![0, 0, 0, 0, 6]]);
}

#[test]
fn random_frames_keep_source_row_shape_and_bound() {
    for animation in [AnimationType::VerticalRand, AnimationType::TwoAxesRand] {
        let mut pixels = new_pixel_array(12, 9);
        for _ in 0..60 {
            fire_frame(&mut pixels, animation);
            assert_eq!(pixels.len(), 9);
            assert!(pixels_are_rectangular(&pixels));
            assert_eq!(pixels[0].len(), 12);
            assert_eq!(pixels[8], vec![36; 12]);
            assert!(pixels_are_below(&pixels, 37));
        }
        assert!(pixels[7].iter().all(|heat| *heat == 35 || *heat == 36));
    }
}

#[test]
fn random_frame_is_one_of_the_frames_with_given_steps() {
    let start: PixelArray = vec![vec![0, 0], vec![4, 4]];
    for _ in 0..100 {
        let mut pixels = start.clone();
        fire_frame(&mut pixels, AnimationType::VerticalRand);
        assert_eq!(pixels[1], vec![4, 4]);
        assert!(pixels[0][0] == 3 || pixels[0][0] == 4);
        assert!(pixels[0][1] == 3 || pixels[0][1] == 4);
    }
}

#[test]
fn steps_fit_a_grid_of_their_shape() {
    let pixels: PixelArray = vec![vec![0; 3], vec![0; 3]];
    assert!(steps_are_fit(&vec![vec![1, 2, 3], vec![3, 2, 1]], &pixels));
    assert!(!steps_are_fit(&vec![vec![1, 2, 3]], &pixels));
    assert!(!steps_are_fit(&vec![vec![1, 2, 3], vec![3, 2]], &pixels));
    assert!(!steps_are_fit(&vec![vec![1, 2, 3], vec![3, 2, 0]], &pixels));
    assert!(!steps_are_fit(&vec![vec![1, 4, 3], vec![3, 2, 1]], &pixels));
    assert!(steps_are_fit(&Vec::new(), &Vec::new()));
}
