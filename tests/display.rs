use spectral_landmarks::display::DisplayConfig;

fn config() -> DisplayConfig {
    DisplayConfig { canvas_name: "display".to_string(), display_size: 600, display_height: 400 }
}

#[test]
fn image_holds_four_bytes_per_pixel() {
    assert_eq!(config().image_len(), 4 * 600 * 400);
}

#[test]
fn visible_window_scrolls_after_the_canvas_fills() {
    let c = config();
    assert_eq!(c.visible_since(10), 0);
    assert_eq!(c.visible_since(600), 0);
    assert_eq!(c.visible_since(650), 50);
}

#[test]
fn columns_fill_then_scroll() {
    let c = config();
    assert_eq!(c.column_of(10, 3), Some(3));
    assert_eq!(c.column_of(10, 11), None);
    assert_eq!(c.column_of(650, 649), Some(599));
    assert_eq!(c.column_of(650, 50), Some(0));
    assert_eq!(c.column_of(650, 49), None);
    assert_eq!(c.column_of(650, 650), None);
}

#[test]
fn rows_and_bins_scale_evenly() {
    let c = config();
    assert_eq!(c.row_of_bin(0, 512), 0);
    assert_eq!(c.row_of_bin(256, 512), 200);
    assert_eq!(c.row_of_bin(511, 512), 399);
    assert_eq!(c.bin_of_row(0, 1024), 0);
    assert_eq!(c.bin_of_row(3, 1024), 6);
    assert_eq!(c.bin_of_row(399, 200), 0);
}

#[test]
fn pixel_offsets_run_row_by_row() {
    let c = config();
    assert_eq!(c.pixel_offset(0, 0), 0);
    assert_eq!(c.pixel_offset(1, 0), 4);
    assert_eq!(c.pixel_offset(0, 1), 2400);
    assert_eq!(c.pixel_offset(599, 399), 4 * 600 * 400 - 4);
}
