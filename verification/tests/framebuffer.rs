use sdfart::framebuffer::{downsample_halve, render, render_shp, upsample_render, FB};

fn numbered(w: usize, h: usize) -> FB<u64> {
    let mut fb = FB::new(w, h, 0u64);
    render(&mut fb, |x, y| (y * w + x) as u64);
    fb
}

#[test]
fn new_fills_every_pixel() {
    let fb = FB::new(3, 2, 7u8);
    assert_eq!(fb.w, 3);
    assert_eq!(fb.h, 2);
    for y in 0..2 {
        for x in 0..3 {
            assert_eq!(fb.get(x, y), 7);
        }
    }
}

#[test]
fn new_empty_image() {
    let fb = FB::new(0, 5, 1u8);
    assert_eq!(fb.w, 0);
    assert_eq!(fb.h, 5);
    assert_eq!(fb.image_data(|p| (p, p, p, p)), Vec::<u8>::new());
}

#[test]
fn set_then_get_changes_only_that_pixel() {
    let mut fb = FB::new(4, 3, 0u32);
    fb.set(1, 2, &9);
    for y in 0..3 {
        for x in 0..4 {
            let expected = if x == 1 && y == 2 { 9 } else { 0 };
            assert_eq!(fb.get(x, y), expected);
        }
    }
    fb.set(1, 2, &5);
    assert_eq!(fb.get(1, 2), 5);
}

#[test]
fn get_reads_by_row_major_offset() {
    let fb = numbered(3, 2);
    assert_eq!(fb.get(0, 0), 0);
    assert_eq!(fb.get(2, 0), 2);
    assert_eq!(fb.get(0, 1), 3);
    assert_eq!(fb.get(2, 1), 5);
    // a column past the right edge continues on the next row
    assert_eq!(fb.get(3, 0), fb.get(0, 1));
}

#[test]
fn blend_into_passes_new_pixel_then_old() {
    let mut fb = numbered(2, 2);
    fb.blend_into(1, 1, &7, |new, old| new * 100 + old);
    assert_eq!(fb.get(1, 1), 703);
    assert_eq!(fb.get(0, 0), 0);
    assert_eq!(fb.get(1, 0), 1);
    assert_eq!(fb.get(0, 1), 2);
}

#[test]
fn render_paints_each_pixel_from_its_position() {
    let mut fb = FB::new(3, 4, (0usize, 0usize));
    render(&mut fb, |x, y| (x, y));
    for y in 0..4 {
        for x in 0..3 {
            assert_eq!(fb.get(x, y), (x, y));
        }
    }
}

#[test]
fn render_shp_paints_each_pixel_from_its_position() {
    let mut fb = FB::new(3, 4, (0usize, 0usize));
    render_shp(&mut fb, |x, y| (x, y));
    for y in 0..4 {
        for x in 0..3 {
            assert_eq!(fb.get(x, y), (x, y));
        }
    }
}

#[test]
fn render_and_render_shp_agree() {
    let colorer = |x: usize, y: usize| (x * 31 + y * 17) % 11;
    let mut a = FB::new(5, 6, 0usize);
    let mut b = FB::new(5, 6, 99usize);
    render(&mut a, colorer);
    render_shp(&mut b, colorer);
    assert_eq!(a.image_data(|p| (p as u8, 0, 0, 0)), b.image_data(|p| (p as u8, 0, 0, 0)));
}

#[test]
fn render_shp_visits_rows_bottom_up() {
    let order = std::cell::RefCell::new(Vec::new());
    let mut fb = FB::new(2, 3, 0u8);
    render_shp(&mut fb, |x, y| {
        order.borrow_mut().push((x, y));
        0u8
    });
    assert_eq!(order.into_inner(), vec![(0, 2), (0, 1), (0, 0), (1, 2), (1, 1), (1, 0)]);
}

#[test]
fn render_visits_columns_top_down() {
    let order = std::cell::RefCell::new(Vec::new());
    let mut fb = FB::new(2, 2, 0u8);
    render(&mut fb, |x, y| {
        order.borrow_mut().push((x, y));
        0u8
    });
    assert_eq!(order.into_inner(), vec![(0, 0), (0, 1), (1, 0), (1, 1)]);
}

#[test]
fn downsample_halve_mixes_each_block() {
    // pixel (x, y) of the source holds y * 4 + x
    let src = numbered(4, 4);
    let mut dst = FB::new(2, 2, 0u64);
    downsample_halve(&src, &mut dst, |a, b| a * 100 + b);
    // top pair mixed, bottom pair mixed, then the two results mixed
    assert_eq!(dst.get(0, 0), (0 * 100 + 1) * 100 + (4 * 100 + 5));
    assert_eq!(dst.get(1, 0), (2 * 100 + 3) * 100 + (6 * 100 + 7));
    assert_eq!(dst.get(0, 1), (8 * 100 + 9) * 100 + (12 * 100 + 13));
    assert_eq!(dst.get(1, 1), (10 * 100 + 11) * 100 + (14 * 100 + 15));
}

#[test]
fn downsample_halve_averages() {
    let mut src = FB::new(2, 2, 0u32);
    src.set(0, 0, &10);
    src.set(1, 0, &20);
    src.set(0, 1, &30);
    src.set(1, 1, &40);
    let mut dst = FB::new(1, 1, 0u32);
    downsample_halve(&src, &mut dst, |a, b| (a + b) / 2);
    assert_eq!(dst.get(0, 0), 25);
}

#[test]
fn downsample_halve_reads_past_a_row_end() {
    // a 3 by 3 source is wide enough, row by row, for a 2 by 1 result:
    // column 3 of a row is column 0 of the next
    let src = numbered(3, 3);
    let mut dst = FB::new(2, 1, 0u64);
    downsample_halve(&src, &mut dst, |a, b| a * 100 + b);
    assert_eq!(dst.get(0, 0), (0 * 100 + 1) * 100 + (3 * 100 + 4));
    assert_eq!(dst.get(1, 0), (2 * 100 + 3) * 100 + (5 * 100 + 6));
}

#[test]
fn downsample_halve_into_empty_image() {
    let src = numbered(1, 1);
    let mut dst = FB::new(0, 3, 5u64);
    downsample_halve(&src, &mut dst, |a, b| a + b);
    assert_eq!(dst.w, 0);
    assert_eq!(dst.h, 3);
}

#[test]
fn image_data_is_four_channels_per_pixel_in_storage_order() {
    let fb = numbered(2, 2);
    let data = fb.image_data(|p| (p as u8, p as u8 + 10, p as u8 + 20, 255));
    assert_eq!(
        data,
        vec![0, 10, 20, 255, 1, 11, 21, 255, 2, 12, 22, 255, 3, 13, 23, 255]
    );
}

#[test]
fn upsample_render_mixes_four_samples_per_pixel() {
    let mut fb = FB::new(1, 1, 0u64);
    upsample_render(&mut fb, 0u64, |x, y| (x * 10 + y + 1) as u64, |a, b| a * 1000 + b);
    // samples (0,0)=1, (1,0)=11, (0,1)=2, (1,1)=12
    assert_eq!(fb.get(0, 0), (1 * 1000 + 11) * 1000 + (2 * 1000 + 12));
}

#[test]
fn upsample_render_keeps_size() {
    let mut fb = FB::new(3, 2, 0u32);
    upsample_render(&mut fb, 0u32, |x, y| (x + y) as u32, |a, b| a + b);
    assert_eq!(fb.w, 3);
    assert_eq!(fb.h, 2);
    for y in 0..2 {
        for x in 0..3 {
            // four samples summed: (2x+2y) + (2x+1+2y) + (2x+2y+1) + (2x+2y+2)
            assert_eq!(fb.get(x, y), (8 * x + 8 * y + 4) as u32);
        }
    }
}

#[test]
fn fits_halving_bounds_the_farthest_read() {
    let src = FB::new(4, 4, 0u8);
    assert!(src.fits_halving(2, 2));
    assert!(!src.fits_halving(3, 2));
    assert!(!src.fits_halving(2, 3));
    assert!(src.fits_halving(0, 100));
    assert!(src.fits_halving(100, 0));
    let odd = FB::new(3, 3, 0u8);
    assert!(odd.fits_halving(2, 1));
    assert!(!odd.fits_halving(2, 2));
    let empty = FB::new(0, 0, 0u8);
    assert!(!empty.fits_halving(1, 1));
    assert!(!src.fits_halving(usize::MAX, 1));
}
