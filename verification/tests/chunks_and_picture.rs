use std::collections::VecDeque;
use std::io::Cursor;

use image::{ImageBuffer, ImageFormat, Luma};
use kindle_rust::chunks::IterChunks;
use kindle_rust::picture::{decode_picture, PictureError};

#[test]
fn chunks_in_order_with_short_tail() {
    let mut it = IterChunks::new((1..=7).collect::<VecDeque<u32>>(), 3);
    assert_eq!(it.next(), Some(vec![1, 2, 3]));
    assert_eq!(it.next(), Some(vec![4, 5, 6]));
    assert_eq!(it.next(), Some(vec![7]));
    assert_eq!(it.next(), None);
    assert_eq!(it.next(), None);
}

#[test]
fn chunks_of_zero_size_yield_nothing() {
    let mut it = IterChunks::new(VecDeque::from(vec![1u8, 2]), 0);
    assert_eq!(it.next(), None);
}

#[test]
fn chunks_count_rounds_up() {
    for (len, size, count) in [(0usize, 3usize, 0usize), (1, 3, 1), (3, 3, 1), (4, 3, 2), (9, 3, 3)] {
        let mut it = IterChunks::new((0..len).collect::<VecDeque<usize>>(), size);
        let mut n = 0;
        while it.next().is_some() {
            n += 1;
        }
        assert_eq!(n, count, "len {} size {}", len, size);
    }
}

#[test]
fn chunks_rebuild_input() {
    let items: Vec<u16> = (0..100).collect();
    let mut it = IterChunks::new(items.iter().copied().collect::<VecDeque<u16>>(), 8);
    let mut all = Vec::new();
    let mut sizes = Vec::new();
    while let Some(c) = it.next() {
        sizes.push(c.len());
        all.extend(c);
    }
    assert_eq!(all, items);
    assert_eq!(sizes.len(), 13);
    assert!(sizes[..12].iter().all(|&s| s == 8));
    assert_eq!(sizes[12], 4);
}

fn png_of(width: u32, height: u32, pixels: Vec<u8>) -> Vec<u8> {
    let img: ImageBuffer<Luma<u8>, Vec<u8>> = ImageBuffer::from_raw(width, height, pixels).unwrap();
    let mut out = Cursor::new(Vec::new());
    img.write_to(&mut out, ImageFormat::Png).unwrap();
    out.into_inner()
}

#[test]
fn decode_picture_reads_gray_png() {
    let png = png_of(3, 2, vec![0, 50, 100, 150, 200, 250]);
    let img = decode_picture(&png).unwrap();
    assert_eq!((img.width(), img.height()), (3, 2));
    assert_eq!(img.get_pixel(0, 0), 0);
    assert_eq!(img.get_pixel(2, 0), 100);
    assert_eq!(img.get_pixel(1, 1), 200);
}

#[test]
fn decode_picture_reads_rgb_png_as_gray() {
    let img: ImageBuffer<image::Rgb<u8>, Vec<u8>> =
        ImageBuffer::from_raw(2, 1, vec![0, 0, 0, 255, 255, 255]).unwrap();
    let mut out = Cursor::new(Vec::new());
    img.write_to(&mut out, ImageFormat::Png).unwrap();
    let gray = decode_picture(&out.into_inner()).unwrap();
    assert_eq!((gray.width(), gray.height()), (2, 1));
    assert_eq!(gray.get_pixel(0, 0), 0);
    assert_eq!(gray.get_pixel(1, 0), 255);
}

#[test]
fn decode_picture_rejects_garbage() {
    let garbage: &[u8] = b"definitely not an image";
    match decode_picture(garbage) {
        Err(PictureError::Undecodable(msg)) => {
            assert_eq!(msg, image::load_from_memory(garbage).unwrap_err().to_string())
        }
        Ok(_) => panic!("garbage decoded"),
    }
}

#[test]
fn decode_picture_reads_other_formats() {
    for format in [ImageFormat::Bmp, ImageFormat::Tiff, ImageFormat::Pnm] {
        let img: ImageBuffer<Luma<u8>, Vec<u8>> =
            ImageBuffer::from_raw(2, 2, vec![0, 255, 255, 0]).unwrap();
        let mut out = Cursor::new(Vec::new());
        img.write_to(&mut out, format).unwrap();
        let gray = decode_picture(&out.into_inner()).unwrap();
        assert_eq!((gray.width(), gray.height()), (2, 2), "{:?}", format);
        assert_eq!(gray.get_pixel(1, 0), 255, "{:?}", format);
        assert_eq!(gray.get_pixel(1, 1), 0, "{:?}", format);
    }
}
