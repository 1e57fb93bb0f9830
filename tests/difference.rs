use kompari::difference::{compare_rasters, compute_distance, compute_pair_diff, FileContents};
use kompari::raster::{decode_png, RgbRaster};
use kompari::{Difference, ImageInfoResult};
use std::io::Cursor;

fn raster(width: u32, height: u32, data: Vec<u8>) -> RgbRaster {
    RgbRaster::from_raw(width, height, data).unwrap()
}

fn filled(width: u32, height: u32, pixel: [u8; 3]) -> Vec<u8> {
    let mut data = Vec::new();
    for _ in 0..(width * height) {
        data.extend_from_slice(&pixel);
    }
    data
}

fn png(width: u32, height: u32, data: Vec<u8>) -> Vec<u8> {
    let image = image::RgbImage::from_raw(width, height, data).unwrap();
    let mut out = Vec::new();
    image
        .write_to(&mut Cursor::new(&mut out), image::ImageFormat::Png)
        .unwrap();
    out
}

#[test]
fn distance_picks_largest_channel() {
    assert_eq!(compute_distance([10, 20, 30], [10, 20, 90]), (60, 60));
    assert_eq!(compute_distance([100, 20, 30], [80, 20, 30]), (20, -20));
    assert_eq!(compute_distance([5, 5, 5], [5, 5, 5]), (0, 0));
}

#[test]
fn distance_tie_keeps_first_channel() {
    assert_eq!(compute_distance([10, 20, 30], [20, 10, 30]), (10, 10));
    assert_eq!(compute_distance([20, 10, 30], [10, 20, 30]), (10, -10));
}

#[test]
fn identical_images_match() {
    let data = vec![1, 2, 3, 4, 5, 6, 7, 8, 9, 10, 11, 12];
    let left = raster(2, 2, data.clone());
    let right = raster(2, 2, data);
    assert!(matches!(compare_rasters(&left, &right), Difference::Identical));
}

#[test]
fn single_channel_drop_is_red() {
    let mut left_data = filled(3, 2, [50, 100, 200]);
    left_data[3 * 4 + 1] = 100;
    let mut right_data = left_data.clone();
    right_data[3 * 4 + 1] = 80;
    let left = raster(3, 2, left_data);
    let right = raster(3, 2, right_data);
    match compare_rasters(&left, &right) {
        Difference::Content { n_different_pixels, distance_sum, diff_image } => {
            assert_eq!(n_different_pixels, 1);
            assert_eq!(distance_sum, 20);
            assert_eq!(diff_image.width(), 3);
            assert_eq!(diff_image.height(), 2);
            let raw = diff_image.as_raw();
            assert_eq!(&raw[12..15], &[20, 0, 0]);
            for p in 0..6 {
                if p != 4 {
                    assert_eq!(&raw[3 * p..3 * p + 3], &[0, 0, 0]);
                }
            }
        }
        other => panic!("unexpected {:?}", other),
    }
}

#[test]
fn green_shift_is_uniform_green() {
    let left = raster(4, 3, filled(4, 3, [7, 100, 9]));
    let right = raster(4, 3, filled(4, 3, [7, 110, 9]));
    match compare_rasters(&left, &right) {
        Difference::Content { n_different_pixels, distance_sum, diff_image } => {
            assert_eq!(n_different_pixels, 12);
            assert_eq!(distance_sum, 10 * 12);
            assert_eq!(diff_image.as_raw(), &filled(4, 3, [0, 10, 0]));
        }
        other => panic!("unexpected {:?}", other),
    }
}

#[test]
fn different_sizes_mismatch() {
    let left = FileContents::Bytes(png(10, 10, filled(10, 10, [1, 2, 3])));
    let right = FileContents::Bytes(png(20, 10, filled(20, 10, [1, 2, 3])));
    let (difference, left_info, right_info) = compute_pair_diff(Some(&left), Some(&right));
    assert!(matches!(difference, Difference::SizeMismatch));
    let l = left_info.info().unwrap();
    let r = right_info.info().unwrap();
    assert_eq!((l.size.width, l.size.height), (10, 10));
    assert_eq!((r.size.width, r.size.height), (20, 10));
}

#[test]
fn png_bytes_decode_to_raster() {
    let data = vec![255, 0, 0, 0, 255, 0, 0, 0, 255, 9, 8, 7];
    let bytes = png(2, 2, data.clone());
    let image = decode_png(&bytes).unwrap();
    assert_eq!(image.width(), 2);
    assert_eq!(image.height(), 2);
    assert_eq!(image.as_raw(), &data);
}

#[test]
fn garbage_does_not_decode() {
    assert!(decode_png(&[1, 2, 3, 4]).is_none());
}

#[test]
fn raster_from_raw_checks_length() {
    assert!(RgbRaster::from_raw(2, 2, vec![0; 11]).is_none());
    let cut = RgbRaster::from_raw(1, 1, vec![1, 2, 3, 4, 5]).unwrap();
    assert_eq!(cut.as_raw(), &vec![1, 2, 3]);
}

#[test]
fn same_png_files_match() {
    let bytes = png(3, 3, filled(3, 3, [4, 5, 6]));
    let left = FileContents::Bytes(bytes.clone());
    let right = FileContents::Bytes(bytes);
    let (difference, _, _) = compute_pair_diff(Some(&left), Some(&right));
    assert!(matches!(difference, Difference::Identical));
}

#[test]
fn missing_right_is_missing_file() {
    let left = FileContents::Bytes(png(1, 1, vec![1, 2, 3]));
    let (difference, left_info, right_info) = compute_pair_diff(Some(&left), None);
    assert!(matches!(difference, Difference::MissingFile));
    assert!(matches!(left_info, ImageInfoResult::Loaded(_)));
    assert!(matches!(right_info, ImageInfoResult::Missing));
}

#[test]
fn load_error_wins_over_missing() {
    let left = FileContents::Unreadable;
    let (difference, left_info, right_info) = compute_pair_diff(Some(&left), None);
    assert!(matches!(difference, Difference::LoadError));
    match left_info {
        ImageInfoResult::Error(msg) => assert_eq!(msg, "IO error"),
        other => panic!("unexpected {:?}", other),
    }
    assert!(matches!(right_info, ImageInfoResult::Missing));
}

#[test]
fn undecodable_file_is_image_error() {
    let left = FileContents::Bytes(png(1, 1, vec![1, 2, 3]));
    let right = FileContents::Bytes(vec![0, 1, 2]);
    let (difference, _, right_info) = compute_pair_diff(Some(&left), Some(&right));
    assert!(matches!(difference, Difference::LoadError));
    match right_info {
        ImageInfoResult::Error(msg) => assert_eq!(msg, "Image error"),
        other => panic!("unexpected {:?}", other),
    }
}

#[test]
fn encoded_png_decodes_back() {
    let data = vec![10, 20, 30, 40, 50, 60];
    let image = raster(2, 1, data.clone());
    let bytes = image.encode_png().unwrap();
    assert_eq!(&bytes[1..4], b"PNG");
    let back = decode_png(&bytes).unwrap();
    assert_eq!((back.width(), back.height()), (2, 1));
    assert_eq!(back.as_raw(), &data);
}

#[test]
fn short_raster_fails_to_encode() {
    let image = RgbRaster { width: 2, height: 2, data: vec![0, 0, 0] };
    assert!(matches!(image.encode_png(), Err(kompari::Error::ImageError)));
}
