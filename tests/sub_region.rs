use colorbuf::bitmap::{to_bitmap, BitDepth, BitmapColorBuf, ColorFormat};
use colorbuf::ops::SubRegionColorBuf;
use colorbuf::{Color, ColorBuf, ColorBufError};

fn four_by_four() -> BitmapColorBuf {
    let data: Vec<u8> = (0..64u8).collect();
    BitmapColorBuf::new(ColorFormat::RGBA, BitDepth::Eight, 4, 4, 16, data.into_boxed_slice())
}

#[test]
fn view_reports_its_own_size_and_writes_through() {
    let mut backing = four_by_four();
    let before: Vec<Result<Color, ColorBufError>> =
        (0..16).map(|i| backing.get_pixel(i % 4, i / 4)).collect();
    let red = Color { r: 255, g: 0, b: 0, a: 255 };
    {
        let mut view = SubRegionColorBuf::new(&mut backing, 1, 1, 2, 2).unwrap();
        assert_eq!(view.get_width(), 2);
        assert_eq!(view.get_height(), 2);
        assert_eq!(view.set_pixel(0, 0, &red), Ok(()));
        assert_eq!(view.get_pixel(0, 0), Ok(red));
    }
    for i in 0..16u64 {
        let (x, y) = (i % 4, i / 4);
        if (x, y) == (1, 1) {
            assert_eq!(backing.get_pixel(x, y), Ok(red));
        } else {
            assert_eq!(backing.get_pixel(x, y), before[i as usize]);
        }
    }
}

#[test]
fn view_translates_reads() {
    let mut backing = four_by_four();
    let view = SubRegionColorBuf::new(&mut backing, 1, 2, 2, 2).unwrap();
    // Backing pixel (2, 3) starts at byte 3 * 16 + 2 * 4 = 56.
    assert_eq!(view.get_pixel(1, 1), Ok(Color { r: 56, g: 57, b: 58, a: 59 }));
}

#[test]
fn view_bounds_are_its_own() {
    let mut backing = four_by_four();
    let mut view = SubRegionColorBuf::new(&mut backing, 1, 1, 2, 2).unwrap();
    let c = Color { r: 1, g: 1, b: 1, a: 1 };
    assert_eq!(view.get_pixel(2, 0), Err(ColorBufError::InvalidCoordinate));
    assert_eq!(view.get_pixel(0, 2), Err(ColorBufError::InvalidCoordinate));
    assert_eq!(view.set_pixel(2, 1, &c), Err(ColorBufError::InvalidCoordinate));
    assert_eq!(view.set_pixel(1, 2, &c), Err(ColorBufError::InvalidCoordinate));
}

#[test]
fn view_may_touch_the_far_edge() {
    let mut backing = four_by_four();
    let view = SubRegionColorBuf::new(&mut backing, 2, 2, 2, 2).unwrap();
    assert_eq!(view.get_pixel(1, 1), Ok(Color { r: 60, g: 61, b: 62, a: 63 }));
}

#[test]
fn view_past_the_edge_is_refused() {
    let mut backing = four_by_four();
    assert!(matches!(
        SubRegionColorBuf::new(&mut backing, 2, 2, 3, 2),
        Err(ColorBufError::InvalidDimensions)
    ));
    assert!(matches!(
        SubRegionColorBuf::new(&mut backing, 0, 3, 1, 2),
        Err(ColorBufError::InvalidDimensions)
    ));
    assert!(matches!(
        SubRegionColorBuf::new(&mut backing, u64::MAX, 0, 2, 1),
        Err(ColorBufError::InvalidDimensions)
    ));
}

#[test]
fn nested_views_compose() {
    let mut backing = four_by_four();
    let green = Color { r: 0, g: 255, b: 0, a: 255 };
    {
        let mut outer = SubRegionColorBuf::new(&mut backing, 1, 1, 3, 3).unwrap();
        let mut inner = SubRegionColorBuf::new(&mut outer, 1, 1, 2, 2).unwrap();
        assert_eq!(inner.set_pixel(1, 1, &green), Ok(()));
    }
    assert_eq!(backing.get_pixel(3, 3), Ok(green));
}

#[test]
fn view_encodes_its_rectangle() {
    let mut backing = four_by_four();
    let view = SubRegionColorBuf::new(&mut backing, 1, 0, 1, 2).unwrap();
    let mut out = [0u8; 8];
    let mut stride = 0;
    to_bitmap(view, ColorFormat::RGBA, BitDepth::Eight, &mut stride, &mut out).unwrap();
    assert_eq!(stride, 4);
    assert_eq!(out, [4, 5, 6, 7, 20, 21, 22, 23]);
}

#[test]
fn refused_view_write_leaves_backing() {
    let mut backing = four_by_four();
    let before: Vec<Result<Color, ColorBufError>> =
        (0..16).map(|i| backing.get_pixel(i % 4, i / 4)).collect();
    {
        let mut view = SubRegionColorBuf::new(&mut backing, 0, 0, 3, 3).unwrap();
        let c = Color { r: 9, g: 9, b: 9, a: 9 };
        assert_eq!(view.set_pixel(3, 0, &c), Err(ColorBufError::InvalidCoordinate));
        assert_eq!(view.set_pixel(0, 3, &c), Err(ColorBufError::InvalidCoordinate));
    }
    let after: Vec<Result<Color, ColorBufError>> =
        (0..16).map(|i| backing.get_pixel(i % 4, i / 4)).collect();
    assert_eq!(before, after);
    assert_eq!(backing.get_width(), 4);
    assert_eq!(backing.get_height(), 4);
}
