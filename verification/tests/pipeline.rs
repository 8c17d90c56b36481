use dem_shade::colormap::{colormap, grayscale_to_colormap};
use dem_shade::error::GridError;
use dem_shade::grid::{elevation_range, normalize_to_gray, Grid};
use dem_shade::parse::parse_grid;
use dem_shade::raster::{GrayImg, Rgb, RgbImg};
use dem_shade::shade::{blend_colormap_with_hillshade, hillshade_sums, shade_image};

fn text(s: &str) -> Vec<u8> {
    s.as_bytes().to_vec()
}

const THREE_BY_THREE: &str = "ncols 3\nnrows 3\nxllcorner 0\nyllcorner 0\ncellsize 30\nNODATA_value -9999\n1 2 3\n4 5 6\n7 8 9\n";

#[test]
fn grid_scenario_three_by_three() {
    let g = parse_grid(&text(THREE_BY_THREE)).unwrap();
    assert_eq!(g.rows, 3);
    assert_eq!(g.cols, 3);
    assert_eq!(g.cellsize, 30_000_000);
    assert_eq!(g.nodata, Some(-9_999_000_000));
    assert_eq!(
        g.data,
        vec![
            1_000_000, 2_000_000, 3_000_000, 4_000_000, 5_000_000, 6_000_000, 7_000_000,
            8_000_000, 9_000_000
        ]
    );
    let (mn, mx) = elevation_range(&g);
    assert_eq!(mn, Some(1_000_000));
    assert_eq!(mx, Some(9_000_000));
    let gray = normalize_to_gray(&g);
    assert_eq!(gray.width, 3);
    assert_eq!(gray.height, 3);
    // Center cell (value 5) is halfway: 127.5 rounds down to 127, and it
    // sits at flipped row 1, column 1.
    assert_eq!(gray.get(1, 1), 127);
    // Full flipped raster: matrix row 2 is image row 0.
    assert_eq!(gray.data, vec![191, 223, 255, 96, 127, 159, 0, 32, 64]);
}

#[test]
fn all_equal_grid_renders_zero() {
    let t = "ncols 2\nnrows 2\nxllcorner 0\nyllcorner 0\ncellsize 30\n5 5\n5 5\n";
    let g = parse_grid(&text(t)).unwrap();
    let gray = normalize_to_gray(&g);
    assert_eq!(gray.data, vec![0, 0, 0, 0]);
}

#[test]
fn nodata_cell_does_not_affect_range() {
    let t = "ncols 3\nnrows 3\nxllcorner 0\nyllcorner 0\ncellsize 30\nnodata_value -9999\n1 2 3\n4 -9999 6\n7 8 9\n";
    let g = parse_grid(&text(t)).unwrap();
    let (mn, mx) = elevation_range(&g);
    assert_eq!(mn, Some(1_000_000));
    assert_eq!(mx, Some(9_000_000));
    let gray = normalize_to_gray(&g);
    // The no-data cell renders as 0 wherever it sits; the others keep the
    // intensities of the full grid.
    assert_eq!(gray.data, vec![191, 223, 255, 96, 0, 159, 0, 32, 64]);
}

#[test]
fn parse_rejects_missing_header() {
    assert_eq!(
        parse_grid(&text("ncols 3\nnrows 3\n")).err(),
        Some(GridError::MalformedHeader)
    );
    let wrong_kw = "ncols 3\nnrows 3\nfoo 0\nyllcorner 0\ncellsize 30\n1 2 3 4 5 6 7 8 9\n";
    assert_eq!(parse_grid(&text(wrong_kw)).err(), Some(GridError::MalformedHeader));
    let bad_count = "ncols x\nnrows 3\nxllcorner 0\nyllcorner 0\ncellsize 30\n1 2 3\n";
    assert_eq!(parse_grid(&text(bad_count)).err(), Some(GridError::MalformedHeader));
}

#[test]
fn parse_rejects_bad_value() {
    let t = "ncols 2\nnrows 1\nxllcorner 0\nyllcorner 0\ncellsize 1\n1 abc\n";
    assert_eq!(parse_grid(&text(t)).err(), Some(GridError::MalformedValue));
}

#[test]
fn parse_row_count_mismatch() {
    let t = "ncols 3\nnrows 3\nxllcorner 0\nyllcorner 0\ncellsize 30\n1 2 3\n4 5 6\n";
    assert_eq!(parse_grid(&text(t)).err(), Some(GridError::RowCountMismatch));
}

#[test]
fn parse_column_count_mismatch() {
    let t = "ncols 3\nnrows 2\nxllcorner 0\nyllcorner 0\ncellsize 30\n1 2 3\n4 5 6 7\n";
    assert_eq!(parse_grid(&text(t)).err(), Some(GridError::ColumnCountMismatch));
}

#[test]
fn parse_accepts_center_keywords_and_case() {
    let t = "NCOLS 2\nNROWS 2\nXLLCENTER 0.5\nYLLCENTER -0.5\nCELLSIZE 2.5\n5 5\n5 5\n";
    let g = parse_grid(&text(t)).unwrap();
    assert_eq!(g.cellsize, 2_500_000);
    assert_eq!(g.nodata, None);
    assert_eq!(g.data, vec![5_000_000; 4]);
}

#[test]
fn parse_decimal_values() {
    let t = "ncols 2\nnrows 1\nxllcorner 0\nyllcorner 0\ncellsize 1\n1.5 -2.25\n";
    let g = parse_grid(&text(t)).unwrap();
    assert_eq!(g.data, vec![1_500_000, -2_250_000]);
}

#[test]
fn grid_new_dimension_mismatch() {
    let r = Grid::new(2, 2, 1_000_000, None, vec![0, 1, 2]);
    assert_eq!(r.err(), Some(GridError::DimensionMismatch));
    let g = Grid::new(2, 2, 1_000_000, None, vec![0, 1, 2, 3]).unwrap();
    assert_eq!(g.rows, 2);
    assert_eq!(g.cols, 2);
}

#[test]
fn colormap_known_values() {
    assert_eq!(colormap(0), Rgb { r: 0, g: 127, b: 128 });
    assert_eq!(colormap(127), Rgb { r: 127, g: 254, b: 64 });
    assert_eq!(colormap(128), Rgb { r: 128, g: 254, b: 63 });
    assert_eq!(colormap(255), Rgb { r: 255, g: 127, b: 0 });
}

#[test]
fn colormap_matches_float_ramp() {
    // The integer ramp must agree with the real-valued formulas, truncated.
    for i in 0..=255u32 {
        let v = i as f32 / 255.0;
        let r = (v * 255.0) as u8;
        let g = ((1.0 - (v - 0.5).abs()) * 255.0) as u8;
        let b = ((1.0 - v) * 128.0) as u8;
        let c = colormap(i as u8);
        assert_eq!((c.r, c.g, c.b), (r, g, b), "intensity {}", i);
    }
}

#[test]
fn colormap_image_maps_every_pixel() {
    let gray = GrayImg { width: 2, height: 2, data: vec![0, 127, 128, 255] };
    let img = grayscale_to_colormap(&gray);
    assert_eq!(img.width, 2);
    assert_eq!(img.height, 2);
    assert_eq!(img.data[0], Rgb { r: 0, g: 127, b: 128 });
    assert_eq!(img.data[3], Rgb { r: 255, g: 127, b: 0 });
}

#[test]
fn blend_known_values() {
    let color = RgbImg { width: 1, height: 1, data: vec![Rgb { r: 255, g: 127, b: 64 }] };
    let shade = RgbImg { width: 1, height: 1, data: vec![Rgb { r: 128, g: 128, b: 128 }] };
    let out = blend_colormap_with_hillshade(&color, &shade).unwrap();
    assert_eq!(out.data[0], Rgb { r: 128, g: 63, b: 32 });
    // Full shade keeps the color; zero shade blacks it out.
    let full = RgbImg { width: 1, height: 1, data: vec![Rgb { r: 255, g: 255, b: 255 }] };
    let out2 = blend_colormap_with_hillshade(&color, &full).unwrap();
    assert_eq!(out2.data[0], Rgb { r: 255, g: 127, b: 64 });
    let dark = RgbImg { width: 1, height: 1, data: vec![Rgb { r: 0, g: 0, b: 0 }] };
    let out3 = blend_colormap_with_hillshade(&color, &dark).unwrap();
    assert_eq!(out3.data[0], Rgb { r: 0, g: 0, b: 0 });
}

#[test]
fn blend_dimension_mismatch() {
    let color = RgbImg { width: 1, height: 1, data: vec![Rgb { r: 1, g: 1, b: 1 }] };
    let shade = RgbImg { width: 2, height: 1, data: vec![Rgb { r: 1, g: 1, b: 1 }; 2] };
    assert_eq!(
        blend_colormap_with_hillshade(&color, &shade).err(),
        Some(GridError::DimensionMismatch)
    );
}

#[test]
fn shade_image_dimension_mismatch() {
    assert_eq!(
        shade_image(&vec![0u8; 3], 2, 2).err(),
        Some(GridError::DimensionMismatch)
    );
    let img = shade_image(&vec![7u8; 4], 2, 2).unwrap();
    assert_eq!(img.data[3], Rgb { r: 7, g: 7, b: 7 });
}

#[test]
fn flat_grid_kernel_sums_zero() {
    let gray = GrayImg { width: 3, height: 3, data: vec![42; 9] };
    let sums = hillshade_sums(&gray);
    assert_eq!(sums.len(), 9);
    for s in sums {
        assert_eq!(s, (0, 0));
    }
}

#[test]
fn kernel_sums_known_values() {
    let gray = GrayImg { width: 3, height: 3, data: vec![0, 1, 2, 3, 4, 5, 6, 7, 8] };
    let sums = hillshade_sums(&gray);
    // Top-left corner, with clamped sampling.
    assert_eq!(sums[0], (4, 12));
    // Center pixel reads the full 3x3 neighborhood.
    assert_eq!(sums[4], (8, 24));
}

#[test]
fn derived_images_share_dimensions() {
    let g = parse_grid(&text(THREE_BY_THREE)).unwrap();
    let gray = normalize_to_gray(&g);
    assert_eq!((gray.width, gray.height), (3, 3));
    let color = grayscale_to_colormap(&gray);
    assert_eq!((color.width, color.height), (3, 3));
    let sums = hillshade_sums(&gray);
    assert_eq!(sums.len(), 9);
    let shade = shade_image(&vec![200u8; 9], gray.width, gray.height).unwrap();
    assert_eq!((shade.width, shade.height), (3, 3));
    let blended = blend_colormap_with_hillshade(&color, &shade).unwrap();
    assert_eq!((blended.width, blended.height), (3, 3));
}

#[test]
fn vertical_flip_rows() {
    let t = "ncols 1\nnrows 2\nxllcorner 0\nyllcorner 0\ncellsize 30\n10\n20\n";
    let g = parse_grid(&text(t)).unwrap();
    let gray = normalize_to_gray(&g);
    // Matrix row 0 (value 10, the minimum) is the last image row.
    assert_eq!(gray.data, vec![255, 0]);
}
