use annotator::raster::Raster;

#[test]
fn new_raster_is_black() {
    let img = Raster::new(3, 2).expect("a small raster can be stored");
    assert_eq!(img.width(), 3);
    assert_eq!(img.height(), 2);
    for y in 0..2 {
        for x in 0..3 {
            assert_eq!(img.get(x, y), Some((0, 0, 0)));
        }
    }
}

#[test]
fn raster_without_pixels() {
    let img = Raster::new(0, 7).expect("an empty raster can be stored");
    assert_eq!(img.width(), 0);
    assert_eq!(img.height(), 7);
    assert_eq!(img.get(0, 0), None);
}

#[test]
fn raster_too_large_to_store() {
    assert!(Raster::new(u32::MAX, u32::MAX).is_none());
}

#[test]
fn put_then_get() {
    let mut img = Raster::new(4, 4).expect("a small raster can be stored");
    assert!(img.put(1, 2, (10, 20, 30)));
    assert_eq!(img.get(1, 2), Some((10, 20, 30)));
    assert_eq!(img.get(2, 1), Some((0, 0, 0)));
    assert!(img.put(1, 2, (7, 8, 9)));
    assert_eq!(img.get(1, 2), Some((7, 8, 9)));
    assert_eq!(img.width(), 4);
    assert_eq!(img.height(), 4);
}

#[test]
fn outside_the_raster() {
    let mut img = Raster::new(4, 3).expect("a small raster can be stored");
    assert_eq!(img.get(4, 0), None);
    assert_eq!(img.get(0, 3), None);
    assert_eq!(img.get(u32::MAX, u32::MAX), None);
    assert!(!img.put(4, 0, (1, 1, 1)));
    assert!(!img.put(0, 3, (1, 1, 1)));
    for y in 0..3 {
        for x in 0..4 {
            assert_eq!(img.get(x, y), Some((0, 0, 0)));
        }
    }
}

#[test]
fn columns_and_rows_are_not_swapped() {
    let mut img = Raster::new(5, 2).expect("a small raster can be stored");
    assert!(img.put(4, 1, (1, 2, 3)));
    assert!(!img.put(1, 4, (9, 9, 9)));
    assert_eq!(img.get(4, 1), Some((1, 2, 3)));
    assert_eq!(img.get(4, 0), Some((0, 0, 0)));
}
