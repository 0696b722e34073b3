use wfc::extract::{build_tiles, extract_patterns, extract_window};
use wfc::numeric::{integer_square_root, log2_floor_exec};
use wfc::padded_block_pixel;
use wfc::patterns::Pattern;

#[test]
fn window_wraps_toroidally() {
    // 2x2 exemplar, 2x2 window anchored at (1, 1): every access wraps.
    let exemplar: Vec<u32> = vec![
        1, 2,
        3, 4
    ];
    let window = extract_window(&exemplar, 2, 2, 2, 1, 1);
    // window entry i*n+j holds the sample at column 1+i, row 1+j, wrapped
    assert_eq!(&vec![4, 2, 3, 1], window.data());
}

#[test]
fn extraction_counts_all_windows() {
    let exemplar: Vec<u32> = vec![1, 1, 1, 1];
    let patterns = extract_patterns(&exemplar, 2, 2, 1);
    assert_eq!(32, patterns.len());
    for p in patterns.iter() {
        assert_eq!(&vec![1], p.data());
    }

    let tiles = build_tiles(&patterns);
    assert_eq!(1, tiles.len());
    assert_eq!(32, tiles[0].weight());
    assert_eq!(0, tiles[0].id().0);
}

#[test]
fn build_tiles_separates_distinct_patterns() {
    let exemplar: Vec<u32> = vec![1, 2];
    let patterns = extract_patterns(&exemplar, 2, 1, 1);
    assert_eq!(16, patterns.len());

    let tiles = build_tiles(&patterns);
    assert_eq!(2, tiles.len());
    assert_eq!(&vec![1], tiles[0].data());
    assert_eq!(&vec![2], tiles[1].data());
    assert_eq!(8, tiles[0].weight());
    assert_eq!(8, tiles[1].weight());
    assert_eq!(0, tiles[0].id().0);
    assert_eq!(1, tiles[1].id().0);
}

#[test]
fn build_tiles_counts_occurrences() {
    let patterns = vec![
        Pattern::new(vec![1, 2, 3, 4]),
        Pattern::new(vec![5, 6, 7, 8]),
        Pattern::new(vec![1, 2, 3, 4]),
        Pattern::new(vec![1, 2, 3, 4]),
    ];
    let tiles = build_tiles(&patterns);
    assert_eq!(2, tiles.len());
    assert_eq!(3, tiles[0].weight());
    assert_eq!(1, tiles[1].weight());
    assert_eq!(&vec![1, 2, 3, 4], tiles[0].data());
    assert_eq!(&vec![5, 6, 7, 8], tiles[1].data());
}

#[test]
fn block_pixels_are_laid_out_with_padding() {
    // Blocks of side 3, padded by one pixel on each border, 5 per row.
    assert_eq!((1, 1), padded_block_pixel(0, 0, 5, 4, 3));
    assert_eq!((6, 1), padded_block_pixel(1, 0, 5, 4, 3));
    assert_eq!((13, 7), padded_block_pixel(7, 5, 5, 4, 3));
    // The last pixel of the last block stays inside the sheet.
    let (x, y) = padded_block_pixel(19, 8, 5, 4, 3);
    assert!(x < 5 * 5 && y < 4 * 5);
    assert_eq!((23, 18), (x, y));
}

#[test]
fn numeric_helpers() {
    assert_eq!(0, integer_square_root(0));
    assert_eq!(1, integer_square_root(1));
    assert_eq!(3, integer_square_root(10));
    assert_eq!(4, integer_square_root(16));

    assert_eq!(0, log2_floor_exec(0));
    assert_eq!(0, log2_floor_exec(1));
    assert_eq!(1, log2_floor_exec(2));
    assert_eq!(7, log2_floor_exec(255));
    assert_eq!(8, log2_floor_exec(256));
}
