use mandelbrot::intensity::colourize;

#[test]
fn colourize_keeps_both_terms_of_the_fraction() {
    let shade = colourize(50, 10);
    assert_eq!(shade.count(), 10);
    assert_eq!(shade.limit(), 50);
}

#[test]
fn byte_is_the_floor_of_the_scaled_fraction() {
    assert_eq!(colourize(50, 10).to_byte(), 51);
    assert_eq!(colourize(3, 1).to_byte(), 85);
    assert_eq!(colourize(3, 2).to_byte(), 170);
    assert_eq!(colourize(7, 3).to_byte(), 109);
    assert_eq!(colourize(50, 3).to_byte(), 15);
    assert_eq!(colourize(50, 13).to_byte(), 66);
    assert_eq!(colourize(10_000, 9_999).to_byte(), 254);
}

#[test]
fn byte_is_cut_off_and_never_rounded_up() {
    // 255 * 199 / 200 = 253.725
    assert_eq!(colourize(200, 199).to_byte(), 253);
    // 255 * 1 / 256 = 0.996...
    assert_eq!(colourize(256, 1).to_byte(), 0);
}

#[test]
fn zero_iterations_are_black_and_the_full_cap_is_white() {
    for limit in [1u32, 2, 50, 255, 256, 10_000, u32::MAX] {
        assert_eq!(colourize(limit, 0).to_byte(), 0);
        assert_eq!(colourize(limit, limit).to_byte(), 255);
    }
}

#[test]
fn count_above_the_cap_stays_at_255() {
    assert_eq!(colourize(10, 11).to_byte(), 255);
    assert_eq!(colourize(1, u32::MAX).to_byte(), 255);
}

#[test]
fn byte_never_falls_as_the_count_rises() {
    for limit in [1u32, 7, 50, 255, 256, 1000] {
        let mut last: u8 = 0;
        for count in 0..=limit {
            let byte = colourize(limit, count).to_byte();
            assert!(byte >= last);
            last = byte;
        }
    }
}

#[test]
fn byte_agrees_with_the_floating_point_formula() {
    for limit in 1u32..=400 {
        for count in 0..=limit {
            let fraction = count as f64 / limit as f64;
            assert!((0.0..=1.0).contains(&fraction));
            assert_eq!(colourize(limit, count).to_byte(), (fraction * 255.0) as u8);
        }
    }
    for limit in [10_000u32, 65_535, 1 << 24, u32::MAX - 1, u32::MAX] {
        for count in [0, 1, 2, limit / 255, limit / 3, limit / 2, limit - 1, limit] {
            let fraction = count as f64 / limit as f64;
            assert_eq!(colourize(limit, count).to_byte(), (fraction * 255.0) as u8);
        }
    }
}
