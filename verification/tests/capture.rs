use wayfrost::capture::{answered_picture, capture_screen, file_picture, portal_uri, temporary_file, Backend, CaptureError, GNOME_SCREENSHOT_FILE, IMAGEMAGICK_FILE};
use wayfrost::picture::{Picture, PixelFormat};

#[test]
fn tries_the_backends_in_order() {
    let mut tried = Vec::new();
    while let Some(b) = capture_screen(tried.len()) {
        tried.push(b);
    }
    assert_eq!(
        tried,
        vec![
            Backend::Grim,
            Backend::Portal,
            Backend::Extension,
            Backend::GnomeScreenshot,
            Backend::ImageMagick,
        ]
    );
    assert_eq!(capture_screen(1000), None);
}

#[test]
fn takes_pictures_from_answers() {
    let p = Picture { format: PixelFormat::Rgb8, width: 2, height: 1, samples: vec![1, 2, 3, 4, 5, 6] };
    let bytes = p.to_png().unwrap();
    let q = answered_picture(true, &bytes).unwrap();
    assert_eq!((q.width, q.height, q.samples), (2, 1, vec![1, 2, 3, 4, 5, 6]));
    assert_eq!(answered_picture(false, &bytes).err(), Some(CaptureError::Failed));
    assert_eq!(answered_picture(true, &[]).err(), Some(CaptureError::Empty));
    assert_eq!(answered_picture(true, b"junk").err(), Some(CaptureError::Unreadable));
}

#[test]
fn takes_the_place_of_the_picture_from_the_portal() {
    assert_eq!(portal_uri(None), Err(CaptureError::NoResponse));
    assert_eq!(portal_uri(Some((2, "file:///a".to_string()))), Err(CaptureError::Denied(2)));
    assert_eq!(portal_uri(Some((0, String::new()))), Err(CaptureError::Empty));
    assert_eq!(portal_uri(Some((0, "file:///a".to_string()))), Ok("file:///a".to_string()));
}

#[test]
fn names_temporary_files_by_process() {
    assert_eq!(temporary_file(GNOME_SCREENSHOT_FILE, 4711), "/tmp/wayfrost_gs_4711.png");
    assert_eq!(temporary_file(IMAGEMAGICK_FILE, 0), "/tmp/wayfrost_im_0.png");
}

#[test]
fn takes_pictures_from_files_by_their_names() {
    let p = Picture { format: PixelFormat::Luma8, width: 1, height: 2, samples: vec![7, 9] };
    let bytes = p.to_png().unwrap();
    for name in ["/tmp/a.png", "a.PNG", "/x.d/b.c.aPng", "a..png"] {
        let q = file_picture(&name.as_bytes().to_vec(), &bytes).unwrap();
        assert_eq!((q.width, q.height, q.samples), (1, 2, vec![7, 9]));
    }
    for name in ["/tmp/a.jpg", "/tmp/.png", "png", "", "/tmp/a.png/b", "/tmp/a.pn", "/tmp/a.xpng"] {
        assert_eq!(file_picture(&name.as_bytes().to_vec(), &bytes).err(), Some(CaptureError::Unreadable));
    }
    assert_eq!(file_picture(&b"a.png".to_vec(), b"GIF89a").err(), Some(CaptureError::Unreadable));
    assert_eq!(file_picture(&b"a.png".to_vec(), &[]).err(), Some(CaptureError::Unreadable));
}

#[test]
fn reads_no_pictures_but_png_files() {
    let others: [&[u8]; 6] = [
        &[0xff, 0xd8, 0xff, 0xe0, 0, 16],
        b"GIF89a\x01\0\x01\0\x80\0\0",
        b"#?RADIANCE\nFORMAT=32-bit_rle_rgbe\n\n-Y 1 +X 1\n\x01\x01\x01\xff\x01\x01\x01\xff",
        b"BM\x1e\0\0\0",
        b"P5 1 1 255\n\x07",
        b"farbfeld\0\0\0\x01\0\0\0\x01\0\0\0\0\0\0\xff\xff",
    ];
    for bytes in others {
        assert_eq!(answered_picture(true, bytes).err(), Some(CaptureError::Unreadable));
    }
}
