use dupfinder::histogram::{Histogram, RgbHistogram};
use dupfinder::image::{thumbnail_size, ImageInfo, Thumbnail};

fn histograms(bins: &[(usize, usize, u32)]) -> RgbHistogram {
    let mut channels = vec![Histogram([0u32; 256]); 3];
    for &(c, v, n) in bins {
        channels[c].0[v] = n;
    }
    RgbHistogram(channels)
}

fn gradient_pixels(width: u32, height: u32) -> Vec<u8> {
    let mut pixels = Vec::new();
    for y in 0..height {
        for x in 0..width {
            pixels.push((x % 256) as u8);
            pixels.push((y % 256) as u8);
            pixels.push(((x + y) % 256) as u8);
        }
    }
    pixels
}

#[test]
fn distance_to_self_is_zero() {
    let h = histograms(&[(0, 3, 10), (1, 200, 7), (2, 255, 1)]);
    assert_eq!(h.diff(&h), 0);
    let empty = RgbHistogram(vec![]);
    assert_eq!(empty.diff(&empty), 0);
}

#[test]
fn distance_is_symmetric() {
    let a = histograms(&[(0, 0, 5), (1, 10, 3), (2, 20, 9)]);
    let b = histograms(&[(0, 0, 2), (1, 11, 4), (2, 20, 1)]);
    assert_eq!(a.diff(&b), b.diff(&a));
    assert_eq!(a.diff(&b), 3 + 3 + 4 + 8);
}

#[test]
fn bin_difference_does_not_wrap() {
    let a = histograms(&[(1, 17, 0)]);
    let b = histograms(&[(1, 17, 255)]);
    assert_eq!(a.diff(&b), 255);
    assert_eq!(b.diff(&a), 255);
}

#[test]
fn largest_counts_stay_exact() {
    let a = histograms(&[(0, 0, u32::MAX)]);
    let b = histograms(&[(0, 1, u32::MAX)]);
    assert_eq!(a.diff(&b), 2 * u32::MAX as u64);
}

#[test]
fn channel_count_mismatch_is_maximal() {
    let a = histograms(&[]);
    let b = RgbHistogram(vec![Histogram([0u32; 256]); 2]);
    assert_eq!(a.diff(&b), u64::MAX);
}

#[test]
fn histogram_counts_each_channel() {
    // Three pixels: (1, 2, 3), (1, 5, 3), (9, 2, 3).
    let pixels = vec![1u8, 2, 3, 1, 5, 3, 9, 2, 3];
    let h = RgbHistogram::from_pixels(&pixels);
    assert_eq!(h.len(), 3);
    assert_eq!(h.0[0].0[1], 2);
    assert_eq!(h.0[0].0[9], 1);
    assert_eq!(h.0[1].0[2], 2);
    assert_eq!(h.0[1].0[5], 1);
    assert_eq!(h.0[2].0[3], 3);
    for c in 0..3 {
        let sum: u32 = h.0[c].0.iter().sum();
        assert_eq!(sum, 3);
    }
}

#[test]
fn empty_image_has_empty_histograms() {
    let h = RgbHistogram::from_pixels(&vec![]);
    assert_eq!(h.len(), 3);
    assert!(h.0.iter().all(|c| c.0.iter().all(|&n| n == 0)));
}

#[test]
fn thumbnail_keeps_aspect_ratio() {
    assert_eq!(thumbnail_size(200, 100), (100, 50));
    assert_eq!(thumbnail_size(100, 400), (25, 100));
    assert_eq!(thumbnail_size(50, 40), (50, 40));
    assert_eq!(thumbnail_size(100, 100), (100, 100));
    assert_eq!(thumbnail_size(1000, 1), (100, 1));
    assert_eq!(thumbnail_size(3, 999), (1, 100));
    assert_eq!(thumbnail_size(301, 200), (100, 66));
}

#[test]
fn thumbnail_is_resampled() {
    let pixels = gradient_pixels(200, 100);
    let t = Thumbnail::of_pixels(200, 100, &pixels).unwrap();
    assert_eq!((t.width, t.height), (100, 50));
    assert_eq!(t.pixels.len(), 3 * 100 * 50);
    assert_ne!(t.pixels, pixels);
}

#[test]
fn oversized_images_get_no_thumbnail() {
    let wide = vec![7u8; 3 * 3_000_000];
    assert!(Thumbnail::of_pixels(3_000_000, 1, &wide).is_none());
    let r = ImageInfo::from_pixels("wide.png".to_string(), 3_000_000, 1, &wide);
    assert!(r.is_decoded());
    assert!(r.thumbnail.is_none());
    assert_eq!(r.histogram.as_ref().unwrap().0[0].0[7], 3_000_000);
    let long = vec![1u8; 3 * 1_000_000];
    let t = Thumbnail::of_pixels(1_000_000, 1, &long).unwrap();
    assert_eq!((t.width, t.height), (100, 1));
    assert!(Thumbnail::of_pixels(0, 0, &vec![]).is_none());
}

#[test]
fn decode_results_become_records() {
    let failed = ImageInfo::from_decoded("x.png".to_string(), Err("Unsupported".to_string()));
    assert_eq!(failed.error.as_deref(), Some("Unsupported"));
    assert!(!failed.is_decoded());
    let too_many = ImageInfo::from_decoded("big.png".to_string(), Ok((70_000, 70_000, vec![])));
    assert!(too_many.error.is_some() && !too_many.is_decoded());
    let short = ImageInfo::from_decoded("short.png".to_string(), Ok((2, 2, vec![0u8; 11])));
    assert!(short.error.is_some() && !short.is_decoded());
    let ok = ImageInfo::from_decoded("ok.png".to_string(), Ok((2, 1, vec![1, 2, 3, 1, 5, 6])));
    assert!(ok.error.is_none());
    assert_eq!(ok.histogram.as_ref().unwrap().0[0].0[1], 2);
    assert_eq!(ok.thumbnail.as_ref().unwrap().width, 2);
}

#[test]
fn record_from_pixels_has_histograms() {
    let pixels = gradient_pixels(4, 2);
    let r = ImageInfo::from_pixels("a.png".to_string(), 4, 2, &pixels);
    assert!(r.is_decoded());
    assert!(r.error.is_none());
    let h = r.histogram.as_ref().unwrap();
    assert_eq!(h.0[0].0[0], 2);
    assert_eq!(h.0[1].0[1], 4);
    let t = r.thumbnail.as_ref().unwrap();
    assert_eq!((t.width, t.height), (4, 2));
    assert_eq!(t.pixels.len(), 24);
}

#[test]
fn record_distance_needs_two_histograms() {
    let pixels = gradient_pixels(2, 2);
    let a = ImageInfo::from_pixels("a.png".to_string(), 2, 2, &pixels);
    let b = ImageInfo::from_error("b.png".to_string(), "unreadable".to_string());
    assert_eq!(a.diff(&a), 0);
    assert_eq!(a.diff(&b), u64::MAX);
    assert_eq!(b.diff(&a), u64::MAX);
}

#[test]
fn records_are_equal_by_path() {
    let pixels = gradient_pixels(2, 2);
    let a = ImageInfo::from_pixels("same.png".to_string(), 2, 2, &pixels);
    let b = ImageInfo::from_error("same.png".to_string(), "gone".to_string());
    let c = ImageInfo::from_error("other.png".to_string(), "gone".to_string());
    assert!(a == b);
    assert!(a != c);
    let d = ImageInfo::default();
    assert_eq!(d.path, "");
    assert!(!d.is_decoded());
}
