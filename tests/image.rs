use bilge::board::defs::{BLUE_PENTAGON, CRAB, NULL, PUFFERFISH, WAVY_SQUARE};
use bilge::board::helpers::{x_pos_fast, y_pos_fast};
use bilge::image::{find_needle, get_piece_from_pixel, gray_of};

#[test]
fn grey_level_is_a_third_of_each_channel() {
    assert_eq!(gray_of(255, 255, 255), 255);
    assert_eq!(gray_of(10, 20, 30), 3 + 6 + 10);
}

#[test]
fn pixel_colours() {
    assert_eq!(get_piece_from_pixel(&vec![87, 189, 245, 255]), WAVY_SQUARE);
    assert_eq!(get_piece_from_pixel(&vec![35, 121, 195, 255, 0]), WAVY_SQUARE);
    assert_eq!(get_piece_from_pixel(&vec![3, 94, 191, 255]), BLUE_PENTAGON);
    assert_eq!(get_piece_from_pixel(&vec![100, 142, 124, 255]), PUFFERFISH);
    assert_eq!(get_piece_from_pixel(&vec![26, 71, 123, 255]), CRAB);
    assert_eq!(get_piece_from_pixel(&vec![26, 71, 123, 0]), NULL);
}

#[test]
fn finds_the_first_place_a_needle_fits() {
    let haystack: Vec<Vec<u8>> = vec![
        vec![0, 0, 0, 0],
        vec![0, 1, 2, 0],
        vec![0, 3, 4, 1],
        vec![0, 0, 3, 4],
    ];
    let needle = vec![vec![1, 2], vec![3, 4]];
    let found = find_needle(&haystack, 4, 4, &needle, 2, 2);
    assert!(found.found);
    assert_eq!((found.x, found.y), (1, 1));
    let needle = vec![vec![4, 1], vec![3, 4]];
    let found = find_needle(&haystack, 4, 4, &needle, 2, 2);
    assert!(found.found);
    assert_eq!((found.x, found.y), (2, 2));
    let needle = vec![vec![9]];
    assert!(!find_needle(&haystack, 4, 4, &needle, 1, 1).found);
    // A needle cut off by the edge does not count.
    let needle = vec![vec![1, 7]];
    assert!(!find_needle(&haystack, 4, 4, &needle, 2, 1).found);
}

#[test]
fn coordinates_of_a_cell() {
    assert_eq!((x_pos_fast(0), y_pos_fast(0)), (0, 0));
    assert_eq!((x_pos_fast(71), y_pos_fast(71)), (5, 11));
    assert_eq!((x_pos_fast(40), y_pos_fast(40)), (4, 6));
}
