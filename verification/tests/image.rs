use how2cli::image::{base64_fits, clipboard_mime, data_url, detect_mime, image_data_url, mime_for_extension};

#[test]
fn mime_from_path() {
    assert_eq!(detect_mime("/tmp/a.png"), "image/png");
    assert_eq!(detect_mime("photo.JPG"), "image/png");
    assert_eq!(detect_mime("photo.jpg"), "image/jpeg");
    assert_eq!(detect_mime("x/y.jpeg"), "image/jpeg");
    assert_eq!(detect_mime("anim.gif"), "image/gif");
    assert_eq!(detect_mime("a.webp"), "image/webp");
    assert_eq!(detect_mime("a.bmp"), "image/bmp");
    assert_eq!(detect_mime(".gif"), "image/png");
    assert_eq!(detect_mime("noext"), "image/png");
    assert_eq!(detect_mime("archive.tar.gif"), "image/gif");
    assert_eq!(mime_for_extension(None), "image/png");
}

#[test]
fn data_urls() {
    assert_eq!(data_url("image/gif", "AAA="), "data:image/gif;base64,AAA=");
    assert_eq!(image_data_url("image/png", b"hello"), "data:image/png;base64,aGVsbG8=");
    assert_eq!(image_data_url("image/png", b""), "data:image/png;base64,");
}

#[test]
fn clipboard_types() {
    assert_eq!(clipboard_mime("text/plain\n image/jpeg\nimage/png\n"), Some("image/png"));
    assert_eq!(clipboard_mime("image/jpeg\r\n"), Some("image/jpeg"));
    assert_eq!(clipboard_mime("text/plain"), None);
    assert_eq!(clipboard_mime(""), None);
}

#[test]
fn base64_length_limits() {
    assert!(base64_fits(0));
    assert!(base64_fits(1 << 20));
    assert!(!base64_fits(usize::MAX));
    assert!(base64_fits(usize::MAX / 4 * 3 - 3));
}
