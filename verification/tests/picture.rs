use wayfrost::ocr::pipeline::preprocess_for_ocr;
use wayfrost::ocr::preparation::{brighten, find_dark, find_enlarged_size, find_table_scale, find_table_size, invert, is_preparable, prepare_for_table};
use wayfrost::ocr::tesseract::table_request;
use wayfrost::png::{is_decodable, is_png};
use wayfrost::picture::{bgrx_samples, is_scalable, load_picture, Picture, PictureError, PixelFormat};

fn picture(format: PixelFormat, width: u32, height: u32, samples: Vec<u8>) -> Picture {
    Picture { format, width, height, samples }
}

fn ramp(format: PixelFormat, channels: u32, width: u32, height: u32) -> Picture {
    let n = width * height * channels;
    picture(format, width, height, (0..n).map(|i| (i * 37 % 251) as u8).collect())
}

#[test]
fn weighs_colours_into_luminance() {
    let p = picture(PixelFormat::Rgb8, 4, 1, vec![255, 0, 0, 0, 255, 0, 0, 0, 255, 255, 255, 255]);
    assert_eq!(p.to_luma8(), vec![54, 182, 18, 255]);
    let p = picture(PixelFormat::Rgba8, 1, 1, vec![10, 20, 30, 99]);
    assert_eq!(p.to_luma8(), vec![18]);
    let p = picture(PixelFormat::LumaA8, 2, 1, vec![7, 1, 9, 2]);
    assert_eq!(p.to_luma8(), vec![7, 9]);
    let p = picture(PixelFormat::Luma8, 2, 1, vec![7, 9]);
    assert_eq!(p.to_luma8(), vec![7, 9]);
}

#[test]
fn spreads_gray_and_fills_opacity() {
    let p = picture(PixelFormat::Luma8, 2, 1, vec![7, 9]);
    assert_eq!(p.to_rgba8().samples, vec![7, 7, 7, 255, 9, 9, 9, 255]);
    assert_eq!(p.to_rgb8().samples, vec![7, 7, 7, 9, 9, 9]);
    let p = picture(PixelFormat::LumaA8, 1, 1, vec![7, 3]);
    assert_eq!(p.to_rgba8().samples, vec![7, 7, 7, 3]);
    assert_eq!(p.to_rgb8().samples, vec![7, 7, 7]);
    let p = picture(PixelFormat::Rgb8, 1, 1, vec![1, 2, 3]);
    assert_eq!(p.to_rgba8().samples, vec![1, 2, 3, 255]);
    let p = picture(PixelFormat::Rgba8, 1, 1, vec![1, 2, 3, 4]);
    assert_eq!(p.to_rgb8().samples, vec![1, 2, 3]);
    assert_eq!(bgrx_samples(&p), vec![3, 2, 1, 255]);
}

#[test]
fn crops_what_lies_in_the_picture() {
    let p = picture(PixelFormat::Luma8, 3, 2, vec![1, 2, 3, 4, 5, 6]);
    let c = p.crop(1, 0, 2, 2);
    assert_eq!((c.width, c.height), (2, 2));
    assert_eq!(c.samples, vec![2, 2, 2, 255, 3, 3, 3, 255, 5, 5, 5, 255, 6, 6, 6, 255]);
    let c = p.crop(2, 1, 9, 9);
    assert_eq!((c.width, c.height, c.samples), (1, 1, vec![6, 6, 6, 255]));
    let c = p.crop(7, 0, 1, 1);
    assert_eq!((c.width, c.height, c.samples.len()), (0, 1, 0));
}

#[test]
fn scales_pictures() {
    let p = picture(PixelFormat::Rgb8, 2, 1, vec![0, 0, 0, 200, 100, 50]);
    let q = p.resize_exact(4, 2);
    assert_eq!((q.width, q.height, q.samples.len()), (4, 2, 24));
    assert_eq!(&q.samples[0..3], &[0, 0, 0]);
    assert_eq!(&q.samples[9..12], &[200, 100, 50]);
    assert!(q.samples[3] > 0 && q.samples[3] < 200);
    // A picture that has the size already is copied; one without pixels gives zeros.
    let r = ramp(PixelFormat::LumaA8, 2, 5, 3);
    assert_eq!(r.resize_exact(5, 3).samples, r.samples);
    assert_eq!(picture(PixelFormat::Rgb8, 0, 4, Vec::new()).resize_exact(2, 1).samples, vec![0; 6]);
    // A flat picture stays flat.
    let flat = picture(PixelFormat::Luma8, 3, 3, vec![77; 9]);
    assert_eq!(flat.resize_exact(7, 2).samples, vec![77; 14]);
}

#[test]
fn knows_which_sizes_can_be_scaled() {
    assert!(is_scalable(1920, 1080, 960, 512));
    assert!(is_scalable(0, 7, 4294967295, 0));
    assert!(!is_scalable(2_000_000, 10, 100, 10));
    assert!(is_scalable(10_000, 1, 1_100_000, 110));
    assert!(is_scalable(40_000, 4, 1_100_000, 110));
    assert!(!is_scalable(0, 0, 4294967295, 4294967295));
}

#[test]
fn writes_png_files_that_are_read_back() {
    for (format, channels) in [
        (PixelFormat::Luma8, 1),
        (PixelFormat::LumaA8, 2),
        (PixelFormat::Rgb8, 3),
        (PixelFormat::Rgba8, 4),
        (PixelFormat::Luma16, 2),
        (PixelFormat::LumaA16, 4),
        (PixelFormat::Rgb16, 6),
        (PixelFormat::Rgba16, 8),
    ] {
        let p = ramp(format, channels, 5, 4);
        let bytes = p.to_png().unwrap();
        assert_eq!(&bytes[1..4], b"PNG");
        let q = load_picture(&bytes).unwrap();
        assert_eq!((q.format, q.width, q.height), (format, 5, 4));
        assert_eq!(q.samples, p.samples);
    }
}

#[test]
fn cannot_write_pictures_without_pixels() {
    assert!(picture(PixelFormat::Rgb8, 0, 0, Vec::new()).to_png().is_none());
    assert!(picture(PixelFormat::Rgb8, 4, 0, Vec::new()).to_png().is_none());
}

#[test]
fn refuses_bytes_that_hold_no_picture() {
    assert_eq!(load_picture(b"not a picture").err(), Some(PictureError::Unreadable));
    assert_eq!(load_picture(&[]).err(), Some(PictureError::Unreadable));
    assert_eq!(load_picture(&[137, 80, 78, 71, 13, 10, 26, 10]).err(), Some(PictureError::Unreadable));
}

#[test]
fn tells_dark_pictures() {
    assert!(find_dark(&picture(PixelFormat::Luma8, 2, 1, vec![127, 128])));
    assert!(!find_dark(&picture(PixelFormat::Luma8, 2, 1, vec![128, 128])));
    assert!(find_dark(&picture(PixelFormat::Luma8, 0, 0, Vec::new())));
}

#[test]
fn inverting_twice_gives_the_samples_back() {
    let mut s: Vec<u8> = (0..=255).collect();
    let start = s.clone();
    invert(&mut s);
    assert_eq!(&s[0..8], &[255, 254, 253, 3, 251, 250, 249, 7]);
    invert(&mut s);
    assert_eq!(s, start);
}

#[test]
fn enlarges_low_pictures() {
    // 110 / 20 is 5.5; 110 / 79 is less than two.
    assert_eq!(find_enlarged_size(100, 20), (550, 110));
    assert_eq!(find_enlarged_size(100, 79), (200, 158));
    assert_eq!(find_enlarged_size(0, 0), (0, 0));
    assert_eq!(find_enlarged_size(5, 0), (u32::MAX, 0));
    assert_eq!(find_table_size(100, 20), (550, 110));
    assert_eq!(f64::from_bits(find_table_scale(20).bits), 5.5);
    assert_eq!(f64::from_bits(find_table_scale(79).bits), 2.0);
    assert_eq!(f64::from_bits(find_table_scale(80).bits), 1.0);
    assert_eq!(f64::from_bits(find_table_scale(0).bits), 1.0);
    for h in 1..80u32 {
        let scale = (110.0 / h as f32).max(2.0);
        let size = ((333f32 * scale).round() as u32, (h as f32 * scale).round() as u32);
        assert_eq!(find_enlarged_size(333, h), size);
        let scale = (110.0 / h as f64).max(2.0);
        assert_eq!(find_table_scale(h).bits, scale.to_bits());
        let size = ((333f64 * scale).round() as u32, (h as f64 * scale).round() as u32);
        assert_eq!(find_table_size(333, h), size);
    }
}

#[test]
fn prepares_pictures_for_reading() {
    // Dark and low: inverted and enlarged.
    let p = picture(PixelFormat::Luma8, 4, 10, vec![0; 40]);
    let q = preprocess_for_ocr(&p);
    assert_eq!((q.format, q.width, q.height), (PixelFormat::Rgba8, 44, 110));
    assert!(q.samples.iter().all(|&s| s == 255));
    // Light and high: as it is.
    let p = picture(PixelFormat::Luma8, 2, 80, vec![200; 160]);
    let q = preprocess_for_ocr(&p);
    assert_eq!((q.format, q.width, q.height), (PixelFormat::Luma8, 2, 80));
    assert_eq!(q.samples, p.samples);
    assert_eq!(prepare_for_table(&p).samples, p.samples);
}

#[test]
fn makes_requests_for_tables() {
    let p = picture(PixelFormat::Luma8, 4, 10, vec![0; 40]);
    let r = table_request(&p).unwrap();
    assert_eq!(f64::from_bits(r.scale.bits), 11.0);
    let q = load_picture(&r.png).unwrap();
    assert_eq!((q.width, q.height), (44, 110));
    assert!(table_request(&picture(PixelFormat::Rgb8, 3, 0, Vec::new())).is_none());
}

#[test]
fn tells_pictures_that_can_be_worked_on() {
    assert!(ramp(PixelFormat::LumaA8, 2, 5, 4).is_handy());
    assert!(picture(PixelFormat::Rgb8, 0, 7, Vec::new()).is_handy());
    assert!(!picture(PixelFormat::Rgb8, 2, 2, vec![0; 11]).is_handy());
    assert!(!picture(PixelFormat::Luma8, u32::MAX, 2, vec![0; 4]).is_handy());
}

#[test]
fn cropping_to_everything_keeps_the_pixels() {
    for (format, channels) in [
        (PixelFormat::Luma8, 1),
        (PixelFormat::LumaA8, 2),
        (PixelFormat::Rgb8, 3),
        (PixelFormat::Rgba8, 4),
        (PixelFormat::LumaA16, 4),
        (PixelFormat::Rgb16, 6),
    ] {
        let p = ramp(format, channels, 7, 5);
        let c = p.crop(0, 0, 7, 5);
        assert_eq!((c.width, c.height), (7, 5));
        assert_eq!(c.samples, p.to_rgba8().samples);
    }
}

#[test]
fn brightened_pictures_are_light() {
    for seed in 0..20u32 {
        let p = picture(
            PixelFormat::Rgb8,
            6,
            3,
            (0..54u32).map(|i| ((i * i * 13 + seed * 29) % 256) as u8).collect(),
        );
        let luma = brighten(&p).to_luma8();
        let sum: u32 = luma.iter().map(|v| *v as u32).sum();
        assert!(sum / 18 >= 126);
    }
    let dark = picture(PixelFormat::Luma8, 2, 1, vec![10, 30]);
    assert_eq!(brighten(&dark).samples, vec![245, 245, 245, 255, 225, 225, 225, 255]);
    let light = picture(PixelFormat::Luma8, 2, 1, vec![200, 230]);
    assert_eq!(brighten(&light).samples, vec![200, 230]);
}

/// The bytes of samples, the higher first.
fn deep(words: &[u16]) -> Vec<u8> {
    words.iter().flat_map(|v| v.to_be_bytes()).collect()
}

#[test]
fn brings_deep_samples_to_one_byte() {
    let p = picture(PixelFormat::Luma16, 4, 1, deep(&[0, 128, 129, 65535]));
    assert_eq!(p.to_luma8(), vec![0, 0, 1, 255]);
    assert_eq!(p.crop(2, 0, 9, 9).samples, vec![1, 1, 1, 255, 255, 255, 255, 255]);
    let p = picture(PixelFormat::LumaA16, 1, 1, deep(&[514, 771]));
    assert_eq!(p.to_luma8(), vec![2]);
    assert_eq!(p.to_rgba8().samples, vec![2, 2, 2, 3]);
    let p = picture(PixelFormat::Rgb16, 1, 1, deep(&[65535, 0, 257]));
    assert_eq!(p.to_luma8(), vec![54]);
    assert_eq!(p.to_rgb8().samples, vec![255, 0, 1]);
    let p = picture(PixelFormat::Rgba16, 1, 1, deep(&[65535, 0, 257, 1285]));
    assert_eq!(p.to_rgba8().samples, vec![255, 0, 1, 5]);
    assert!(p.is_handy());
}

#[test]
fn keeps_deep_samples_when_scaling() {
    let p = picture(PixelFormat::Luma16, 2, 1, deep(&[1000, 60001]));
    let q = p.resize_exact(4, 1);
    assert_eq!((q.format, q.width, q.height), (PixelFormat::Luma16, 4, 1));
    assert_eq!(&q.samples[0..2], &deep(&[1000])[..]);
    assert_eq!(&q.samples[6..8], &deep(&[60001])[..]);
    assert_eq!(p.resize_exact(2, 1).samples, p.samples);
    let flat = picture(PixelFormat::Rgb16, 1, 2, deep(&[300, 40000, 7, 300, 40000, 7]));
    assert_eq!(flat.resize_exact(2, 1).samples, deep(&[300, 40000, 7, 300, 40000, 7]));
    let none = picture(PixelFormat::Rgba16, 0, 3, Vec::new());
    assert_eq!(none.resize_exact(1, 1).samples, vec![0; 8]);
}

#[test]
fn prepares_deep_pictures() {
    let light = picture(PixelFormat::Luma16, 2, 90, deep(&[60000; 180]));
    assert_eq!(preprocess_for_ocr(&light).samples, light.samples);
    let dark = picture(PixelFormat::Luma16, 2, 90, deep(&[257; 180]));
    let q = preprocess_for_ocr(&dark);
    assert_eq!((q.format, &q.samples[0..4]), (PixelFormat::Rgba8, &[254, 254, 254, 255][..]));
}

#[test]
fn tells_pictures_that_can_be_prepared() {
    assert!(is_preparable(&ramp(PixelFormat::Luma8, 1, 10_000, 1)));
    assert!(is_preparable(&ramp(PixelFormat::Luma8, 1, 5, 90)));
    assert!(!is_preparable(&picture(PixelFormat::Luma8, 2, 2, vec![0])));
}

#[test]
fn low_pictures_become_readable() {
    for h in 1..80 {
        for w in [1, 3, 77, 1920, 65_535, 1_048_576] {
            let size = find_enlarged_size(w, h);
            assert_eq!(size.1, std::cmp::max(110, 2 * h));
            assert!(size.0 >= 2 * w);
        }
    }
}

fn checksum(bytes: &[u8]) -> u32 {
    let mut c: u32 = !0;
    for &b in bytes {
        c ^= b as u32;
        for _ in 0..8 {
            c = if c & 1 == 1 { c >> 1 ^ 0xedb8_8320 } else { c >> 1 };
        }
    }
    !c
}

fn chunk(kind: &[u8; 4], data: &[u8]) -> Vec<u8> {
    let mut body = kind.to_vec();
    body.extend_from_slice(data);
    let mut all = (data.len() as u32).to_be_bytes().to_vec();
    all.extend_from_slice(&body);
    all.extend_from_slice(&checksum(&body).to_be_bytes());
    all
}

/// A file of two pixels, the second and the first colour of a palette.
fn file_with_palette(colours: u8, palette: &[u8]) -> Vec<u8> {
    let mut file = vec![137, 80, 78, 71, 13, 10, 26, 10];
    file.extend(chunk(b"IHDR", &[0, 0, 0, 2, 0, 0, 0, 1, 8, colours, 0, 0, 0]));
    file.extend(chunk(b"PLTE", palette));
    file.extend(chunk(b"IDAT", &[0x78, 1, 1, 3, 0, 0xfc, 0xff, 0, 1, 0, 0, 5, 0, 2]));
    file.extend(chunk(b"IEND", &[]));
    file
}

#[test]
fn reads_colours_from_palettes() {
    let p = load_picture(&file_with_palette(3, &[1, 2, 3, 4, 5, 6])).unwrap();
    assert_eq!((p.format, p.width, p.height), (PixelFormat::Rgb8, 2, 1));
    assert_eq!(p.samples, vec![4, 5, 6, 1, 2, 3]);
    assert!(load_picture(&file_with_palette(3, &[9; 768])).is_ok());
}

#[test]
fn refuses_palettes_that_hold_no_whole_colours() {
    for n in [1, 4, 5, 770, 771, 1000] {
        let file = file_with_palette(3, &vec![9; n]);
        assert_eq!(load_picture(&file).err(), Some(PictureError::Unreadable));
        assert!(!is_decodable(&file));
    }
    let gray = load_picture(&file_with_palette(0, &[9; 4])).unwrap();
    assert_eq!((gray.format, gray.samples), (PixelFormat::Luma8, vec![1, 0]));
}

#[test]
fn tells_files_that_can_be_decoded() {
    let file = file_with_palette(3, &[1, 2, 3]);
    assert!(is_png(&file) && is_decodable(&file));
    for n in 0..file.len() {
        assert_eq!(is_png(&file[..n]), n >= 8);
        assert!(is_decodable(&file[..n]));
    }
    let bad = file_with_palette(3, &[1, 2]);
    for n in 0..bad.len() {
        assert_eq!(is_decodable(&bad[..n]), n < 41);
        assert!(load_picture(&bad[..n]).is_err());
    }
}
