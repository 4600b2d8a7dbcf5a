use mandelbrot::raster::{render, render_row, PixelGrid};

fn pattern(x: u32, y: u32) -> u8 {
    (10 * y + x) as u8
}

#[test]
fn render_row_holds_the_pixels_of_its_row_in_order() {
    assert_eq!(render_row(4, 2, &pattern), vec![20, 21, 22, 23]);
    assert_eq!(render_row(1, 0, &pattern), vec![0]);
}

#[test]
fn render_row_of_an_empty_raster_is_empty() {
    assert_eq!(render_row(0, 0, &pattern), Vec::<u8>::new());
}

#[test]
fn render_puts_each_pixel_at_its_place() {
    let grid = render(3, &pattern);
    assert_eq!(grid.side(), 3);
    for y in 0..3 {
        for x in 0..3 {
            assert_eq!(grid.get(x, y), pattern(x, y));
        }
    }
    assert_eq!(grid.get(2, 0), 2);
    assert_eq!(grid.get(0, 2), 20);
}

#[test]
fn render_gives_rows_top_first() {
    let grid = render(3, &pattern);
    assert_eq!(grid.into_rows(), vec![vec![0, 1, 2], vec![10, 11, 12], vec![20, 21, 22]]);
}

#[test]
fn row_rendered_apart_is_the_row_of_the_grid() {
    let grid = render(5, &pattern);
    for y in 0..5 {
        assert_eq!(&render_row(5, y, &pattern), grid.row(y));
    }
}

#[test]
fn rows_rendered_apart_make_the_same_grid() {
    let rows: Vec<Vec<u8>> = (0..5).rev().map(|y| (y, render_row(5, y, &pattern))).fold(
        vec![Vec::new(); 5],
        |mut rows, (y, row)| {
            rows[y as usize] = row;
            rows
        },
    );
    assert_eq!(PixelGrid::from_rows(rows), Some(render(5, &pattern)));
}

#[test]
fn from_rows_keeps_each_row_in_its_place() {
    let grid = PixelGrid::from_rows(vec![vec![1, 2], vec![3, 4]]).unwrap();
    assert_eq!(grid.side(), 2);
    assert_eq!(grid.get(0, 0), 1);
    assert_eq!(grid.get(1, 0), 2);
    assert_eq!(grid.get(0, 1), 3);
    assert_eq!(grid.get(1, 1), 4);
    assert_eq!(grid.row(1), &vec![3, 4]);
}

#[test]
fn from_rows_refuses_what_is_not_square() {
    assert_eq!(PixelGrid::from_rows(vec![vec![1, 2, 3], vec![4, 5, 6]]), None);
    assert_eq!(PixelGrid::from_rows(vec![vec![1, 2], vec![3]]), None);
    assert_eq!(PixelGrid::from_rows(vec![vec![1], vec![2]]), None);
    assert_eq!(PixelGrid::from_rows(vec![vec![]]), None);
}

#[test]
fn from_rows_takes_the_empty_grid() {
    let grid = PixelGrid::from_rows(Vec::new()).unwrap();
    assert_eq!(grid.side(), 0);
    assert_eq!(grid.into_rows(), Vec::<Vec<u8>>::new());
}

#[test]
fn into_rows_gives_back_what_from_rows_took() {
    let rows = vec![vec![9, 8, 7], vec![6, 5, 4], vec![3, 2, 1]];
    assert_eq!(PixelGrid::from_rows(rows.clone()).unwrap().into_rows(), rows);
}
