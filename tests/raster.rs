use pbr::raster::{pack_rgb, pixel_count, pixel_of_index};

#[test]
fn index_maps_to_column_and_row() {
    assert_eq!(pixel_of_index(0, 4), (0, 0));
    assert_eq!(pixel_of_index(3, 4), (3, 0));
    assert_eq!(pixel_of_index(4, 4), (0, 1));
    assert_eq!(pixel_of_index(11, 4), (3, 2));
    assert_eq!(pixel_of_index(u32::MAX, 1), (0, u32::MAX));
}

#[test]
fn pixel_count_detects_overflow() {
    assert_eq!(pixel_count(600, 400), Some(240_000));
    assert_eq!(pixel_count(0, 400), Some(0));
    assert_eq!(pixel_count(65_536, 65_536), None);
    assert_eq!(pixel_count(65_535, 65_537), Some(u32::MAX));
}

#[test]
fn pixels_pack_three_bytes_each_in_order() {
    assert_eq!(pack_rgb(&vec![]), Vec::<u8>::new());
    assert_eq!(pack_rgb(&vec![[1, 2, 3], [4, 5, 6]]), vec![1, 2, 3, 4, 5, 6]);
}
