use wfc_tiled::{
    grid_from_csv_bytes, grid_rgba_bytes, grid_to_csv_bytes, grid_to_image, tiled_layer_bytes,
    u32conv, TileGrid, TilePattern, TileSet, WfcError,
};

use image::GenericImageView;
use wfc::orientation::Orientation;

#[test]
fn tabular_round_trip_preserves_the_grid() {
    // Round trip: writing a grid to tabular bytes and reading them back
    // yields an identical grid.
    let g = TileGrid::from_vec(vec![0, 10, 4294967295, 7, 8, 9], 3, 2);
    let bytes = grid_to_csv_bytes(&g);
    assert_eq!(bytes, b"0,10,4294967295\n7,8,9\n".to_vec());
    let back = grid_from_csv_bytes(&bytes).expect("rendered bytes must parse");
    assert!(back == g);
}

#[test]
fn tabular_accepts_a_missing_final_newline() {
    let bytes = b"1,2\n3,4".to_vec();
    let g = grid_from_csv_bytes(&bytes).expect("must parse");
    assert_eq!(g.width(), 2);
    assert_eq!(g.height(), 2);
    assert_eq!(g.get(0, 1), 3);
    assert_eq!(g.get(1, 1), 4);
}

#[test]
fn tabular_rejects_empty_input() {
    assert_eq!(grid_from_csv_bytes(&Vec::new()), Err(WfcError::MalformedInput));
}

#[test]
fn tabular_rejects_ragged_rows() {
    assert_eq!(grid_from_csv_bytes(&b"1,2\n3\n".to_vec()), Err(WfcError::MalformedInput));
}

#[test]
fn tabular_rejects_empty_fields_and_stray_bytes() {
    assert_eq!(grid_from_csv_bytes(&b",1\n".to_vec()), Err(WfcError::MalformedInput));
    assert_eq!(grid_from_csv_bytes(&b"1,a\n".to_vec()), Err(WfcError::MalformedInput));
    assert_eq!(grid_from_csv_bytes(&b"1 2\n".to_vec()), Err(WfcError::MalformedInput));
}

#[test]
fn tabular_rejects_values_beyond_the_tile_range() {
    assert_eq!(grid_from_csv_bytes(&b"4294967296\n".to_vec()), Err(WfcError::MalformedInput));
    // The largest tile value still parses.
    let g = grid_from_csv_bytes(&b"4294967295\n".to_vec()).expect("must parse");
    assert_eq!(g.get(0, 0), 4294967295);
}

#[test]
fn catalog_from_tabular_bytes_reads_the_sample() {
    let pattern = TilePattern::from_csv_bytes(
        &b"1,2,3\n4,5,6\n7,8,9\n".to_vec(),
        2,
        &vec![Orientation::Original],
    )
    .expect("must parse");
    assert_eq!(pattern.grid.width(), 3);
    assert_eq!(pattern.grid.height(), 3);
    assert_eq!(pattern.grid.get(1, 2), 8);
}

#[test]
fn pixel_channels_spread_the_tile_value() {
    assert_eq!(u32conv(22), [22, 0, 0, 255]);
    assert_eq!(u32conv(0x00030201), [1, 2, 3, 255]);
    assert_eq!(u32conv(0xffffffff), [255, 255, 255, 255]);
}

#[test]
fn raster_bytes_hold_one_pixel_per_cell() {
    let g = TileGrid::from_vec(vec![22, 0x00010203], 2, 1);
    let bytes = grid_rgba_bytes(&g);
    assert_eq!(bytes, vec![22, 0, 0, 255, 3, 2, 1, 255]);
}

#[test]
fn raster_image_has_the_grid_dimensions() {
    let g = TileGrid::from_vec(vec![1, 2, 3, 4, 5, 6], 3, 2);
    let img = grid_to_image(&g);
    assert_eq!(img.dimensions(), (3, 2));
}

#[test]
fn layer_data_increments_and_trims() {
    // Map-editor layer data: every value one above the tile value, rows
    // separated by newlines, no trailing separator after the last value.
    let g = TileGrid::from_vec(vec![1, 2, 3, 4], 2, 2);
    let bytes = tiled_layer_bytes(&g);
    assert_eq!(bytes, b"2,3,\n4,5".to_vec());
}

#[test]
fn tileset_carries_its_description() {
    let tset = TileSet {
        image_path: String::from("tiles.png"),
        image_width: 256,
        image_height: 1450,
        columns: 8,
        tile_width: 32,
        tile_height: 32,
        tile_count: 360,
    };
    assert_eq!(tset.columns, 8);
    assert_eq!(tset.image_path, "tiles.png");
}
