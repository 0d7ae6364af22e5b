use kindle_rust::pacing::{frame_pacing, FramePacing};
use kindle_rust::packed::{
    blit_packed_frame, packed_frame_fits_in, FRAME_BYTES, FRAME_HEIGHT, FRAME_ROW_BYTES, FRAME_WIDTH,
};
use kindle_rust::raster::{
    draw_black_square, draw_gray, gray_fits, screen_size, square_fits, GrayImage, SQUARE_SIDE,
};
use kindle_rust::update::{UpdateData, UpdateRect, PLAYER_WAVEFORM_MODE, TEMP_USE_AMBIENT, UPDATE_MARKER};

#[test]
fn frame_geometry() {
    assert_eq!(FRAME_ROW_BYTES * 8, FRAME_WIDTH);
    assert_eq!(FRAME_ROW_BYTES * FRAME_HEIGHT, FRAME_BYTES);
}

#[test]
fn packed_byte_expands_lsb_first() {
    let mut fb = vec![7u8; 10];
    blit_packed_frame(&mut fb, &[0b1000_0101], 1, 8);
    assert_eq!(fb, vec![255, 0, 255, 0, 0, 0, 0, 255, 7, 7]);
}

#[test]
fn packed_rows_follow_stride() {
    // two rows of two bytes, lines of 20 bytes
    let frame = [0xffu8, 0x00, 0x01, 0x80];
    let mut fb = vec![9u8; 40];
    blit_packed_frame(&mut fb, &frame, 2, 20);
    assert_eq!(&fb[0..8], &[255; 8]);
    assert_eq!(&fb[8..16], &[0; 8]);
    assert_eq!(&fb[16..20], &[9; 4]);
    assert_eq!(&fb[20..28], &[255, 0, 0, 0, 0, 0, 0, 0]);
    assert_eq!(&fb[28..36], &[0, 0, 0, 0, 0, 0, 0, 255]);
    assert_eq!(&fb[36..40], &[9; 4]);
}

#[test]
fn packed_short_last_row_and_overlap() {
    // rows of 2 bytes but lines of only 8 bytes: the second row overwrites
    let frame = [0xffu8, 0xff, 0x00];
    let mut fb = vec![1u8; 16];
    blit_packed_frame(&mut fb, &frame, 2, 8);
    assert_eq!(&fb[0..8], &[255; 8]);
    assert_eq!(&fb[8..16], &[0; 8]);
}

#[test]
fn packed_fit_checks() {
    assert!(packed_frame_fits_in(40, 4, 2, 20));
    assert!(!packed_frame_fits_in(35, 4, 2, 20));
    assert!(packed_frame_fits_in(16, 3, 2, 8));
    assert!(packed_frame_fits_in(0, 0, 2, 8));
    assert!(!packed_frame_fits_in(usize::MAX, 4, 2, usize::MAX));
    assert!(packed_frame_fits_in(600 * 800, FRAME_BYTES, FRAME_ROW_BYTES, 600));
    assert!(!packed_frame_fits_in(600 * 800 - 1, FRAME_BYTES, FRAME_ROW_BYTES, 600));
}

#[test]
fn full_frame_lands_row_by_row() {
    let mut frame = vec![0u8; FRAME_BYTES];
    frame[FRAME_ROW_BYTES * 3 + 2] = 0b0000_0010; // row 3, pixel 17
    let stride = 608;
    let mut fb = vec![0u8; stride * FRAME_HEIGHT];
    assert!(packed_frame_fits_in(fb.len(), FRAME_BYTES, FRAME_ROW_BYTES, stride));
    blit_packed_frame(&mut fb, &frame, FRAME_ROW_BYTES, stride);
    let lit: Vec<usize> = (0..fb.len()).filter(|&i| fb[i] == 255).collect();
    assert_eq!(lit, vec![3 * stride + 17]);
}

#[test]
fn gray_image_from_raw() {
    assert!(GrayImage::from_raw(2, 2, vec![1, 2, 3]).is_none());
    let img = GrayImage::from_raw(2, 2, vec![1, 2, 3, 4, 5]).unwrap();
    assert_eq!((img.width(), img.height()), (2, 2));
    assert_eq!(img.get_pixel(1, 1), 4);
    assert_eq!(img.get_pixel(0, 1), 3);
    assert!(GrayImage::from_raw(0, 9, Vec::new()).is_some());
}

#[test]
fn draw_gray_clips_to_screen() {
    let img = GrayImage::from_raw(3, 2, vec![10, 11, 12, 20, 21, 22]).unwrap();
    // screen of 2x3 pixels with lines of 2 bytes
    let mut fb = vec![0u8; 6];
    assert!(gray_fits(&img, 2, 3, fb.len()));
    draw_gray(&mut fb, &img, 2, 3);
    assert_eq!(fb, vec![10, 11, 20, 21, 0, 0]);
    // wider screen than the image
    let mut fb = vec![5u8; 8];
    draw_gray(&mut fb, &img, 4, 2);
    assert_eq!(fb, vec![10, 11, 12, 5, 20, 21, 22, 5]);
}

#[test]
fn gray_fit_checks() {
    let img = GrayImage::from_raw(3, 2, vec![0; 6]).unwrap();
    assert!(gray_fits(&img, 4, 2, 7));
    assert!(!gray_fits(&img, 4, 2, 6));
    assert!(gray_fits(&img, 0, 2, 0));
}

#[test]
fn black_square_covers_exactly() {
    let width = 130u32;
    let len = (width * 110) as usize;
    let mut fb = vec![200u8; len];
    assert!(square_fits(len, width, 20, 5));
    draw_black_square(&mut fb, width, 20, 5);
    for p in 0..len {
        let (x, y) = (p as u32 % width, p as u32 / width);
        let inside = (20..20 + SQUARE_SIDE).contains(&x) && (5..5 + SQUARE_SIDE).contains(&y);
        assert_eq!(fb[p], if inside { 0 } else { 200 }, "pixel {}", p);
    }
}

#[test]
fn square_fit_checks() {
    assert!(!square_fits(100, 130, 20, 5));
    assert!(!square_fits(usize::MAX, 10, 0, u32::MAX));
    assert!(square_fits(99 * 100 + 100, 100, 0, 0));
    assert!(!square_fits(99 * 100 + 99, 100, 0, 0));
}

#[test]
fn screen_size_is_product() {
    assert_eq!(screen_size(800, 608), 486400);
    assert_eq!(screen_size(0, 608), 0);
}

#[test]
fn full_screen_update_request() {
    let u = UpdateData::full_screen(PLAYER_WAVEFORM_MODE, 600, 800);
    assert_eq!(u.update_region, UpdateRect { top: 0, left: 0, width: 600, height: 800 });
    assert_eq!(u.waveform_mode, 1);
    assert_eq!(u.update_mode, 0);
    assert_eq!(u.update_marker, UPDATE_MARKER);
    assert_eq!(u.temp, TEMP_USE_AMBIENT);
    assert_eq!(u.temp, 0x1001);
    assert_eq!(u.flags, 0);
    assert_eq!(u.alt_buffer_data.alt_update_region.width, 0);
}

#[test]
fn pacing_fills_the_budget() {
    assert_eq!(frame_pacing(0), FramePacing::Sleep(50));
    assert_eq!(frame_pacing(12), FramePacing::Sleep(38));
    assert_eq!(frame_pacing(50), FramePacing::Sleep(0));
    assert_eq!(frame_pacing(51), FramePacing::OverBudget);
    assert_eq!(frame_pacing(u128::MAX), FramePacing::OverBudget);
}
