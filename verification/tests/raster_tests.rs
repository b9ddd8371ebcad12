use doom_fire::grid::new_pixel_array;
use doom_fire::grid::PixelArray;
use doom_fire::palette::setup_fire_array;
use doom_fire::raster::colors_to_bytes;

#[test]
fn picture_follows_the_grid_row_by_row() {
    let pixels: PixelArray = vec![vec![0, 36], vec![1, 2]];
    let colors = setup_fire_array();
    let mut bytes = [0u8; 12];
    colors_to_bytes(&pixels, &colors, &mut bytes);
    assert_eq!(bytes, [0x07, 0x07, 0x07, 0xFF, 0xFF, 0xFF, 0x1F, 0x07, 0x07, 0x2F, 0x0F, 0x07]);
}

#[test]
fn picture_of_one_heat_repeats_its_colour() {
    let colors = setup_fire_array();
    for heat in [0usize, 5, 17, 36] {
        let pixels: PixelArray = vec![vec![heat; 7]; 4];
        let mut bytes = vec![0xAAu8; 7 * 4 * 3];
        colors_to_bytes(&pixels, &colors, &mut bytes);
        let color = colors[heat];
        assert_eq!(bytes.len(), 84);
        for triple in bytes.chunks(3) {
            assert_eq!(triple, &[color.r, color.g, color.b]);
        }
    }
}

#[test]
fn picture_of_the_initial_grid() {
    let pixels = new_pixel_array(3, 2);
    let colors = setup_fire_array();
    let mut bytes = [1u8; 18];
    colors_to_bytes(&pixels, &colors, &mut bytes);
    assert_eq!(bytes, [7, 7, 7, 7, 7, 7, 7, 7, 7, 255, 255, 255, 255, 255, 255, 255, 255, 255]);
}

#[test]
fn picture_stops_where_the_buffer_ends() {
    let pixels: PixelArray = vec![vec![0, 36], vec![1, 2]];
    let colors = setup_fire_array();
    let mut bytes = [0x55u8; 7];
    colors_to_bytes(&pixels, &colors, &mut bytes);
    assert_eq!(bytes, [0x07, 0x07, 0x07, 0xFF, 0xFF, 0xFF, 0x55]);
    let mut short = [0x55u8; 2];
    colors_to_bytes(&pixels, &colors, &mut short);
    assert_eq!(short, [0x55, 0x55]);
    let mut none: [u8; 0] = [];
    colors_to_bytes(&pixels, &colors, &mut none);
    assert_eq!(none.len(), 0);
}

#[test]
fn picture_leaves_the_rest_of_a_long_buffer() {
    let pixels: PixelArray = vec![vec![36], vec![0]];
    let colors = setup_fire_array();
    let mut bytes = [0x55u8; 10];
    colors_to_bytes(&pixels, &colors, &mut bytes);
    assert_eq!(bytes, [0xFF, 0xFF, 0xFF, 0x07, 0x07, 0x07, 0x55, 0x55, 0x55, 0x55]);
}

#[test]
fn picture_of_a_grid_without_cells_writes_nothing() {
    let colors = setup_fire_array();
    let mut bytes = [9u8; 6];
    colors_to_bytes(&Vec::new(), &colors, &mut bytes);
    assert_eq!(bytes, [9; 6]);
    colors_to_bytes(&vec![Vec::new(), Vec::new()], &colors, &mut bytes);
    assert_eq!(bytes, [9; 6]);
}

#[test]
fn picture_of_a_ragged_grid_runs_through_its_rows() {
    let pixels: PixelArray = vec![vec![36], Vec::new(), vec![0, 1]];
    let colors = setup_fire_array();
    let mut bytes = [0u8; 9];
    colors_to_bytes(&pixels, &colors, &mut bytes);
    assert_eq!(bytes, [0xFF, 0xFF, 0xFF, 0x07, 0x07, 0x07, 0x1F, 0x07, 0x07]);
}
