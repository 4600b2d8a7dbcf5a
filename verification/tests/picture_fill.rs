use image::GrayImage;
use mandelbrot::raster::{render, PixelGrid};

#[test]
fn picture_holds_the_grid_row_after_row() {
    let grid = PixelGrid::from_rows(vec![vec![1, 2, 3], vec![4, 5, 6], vec![7, 8, 9]]).unwrap();
    assert_eq!(grid.to_image().into_raw(), vec![1, 2, 3, 4, 5, 6, 7, 8, 9]);
}

#[test]
fn picture_has_the_grid_byte_at_each_pixel() {
    let grid = render(6, &|x: u32, y: u32| (16 * y + x) as u8);
    let raw = grid.to_image().into_raw();
    let image = GrayImage::from_raw(6, 6, raw).unwrap();
    assert_eq!(image.dimensions(), (6, 6));
    for y in 0..6 {
        for x in 0..6 {
            assert_eq!(image.get_pixel(x, y).0, [grid.get(x, y)]);
        }
    }
    assert_eq!(image.get_pixel(5, 0).0, [5]);
    assert_eq!(image.get_pixel(0, 5).0, [80]);
}

#[test]
fn picture_of_a_black_grid_is_black() {
    let grid = render(4, &|_: u32, _: u32| 0u8);
    assert_eq!(grid.to_image().into_raw(), vec![0u8; 16]);
}

#[test]
fn picture_of_the_empty_grid_is_empty() {
    let grid = PixelGrid::from_rows(Vec::new()).unwrap();
    assert_eq!(grid.to_image().into_raw(), Vec::<u8>::new());
}

#[test]
fn picture_of_one_pixel() {
    let grid = PixelGrid::from_rows(vec![vec![200]]).unwrap();
    assert_eq!(grid.to_image().into_raw(), vec![200]);
}
