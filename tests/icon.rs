use app_launcher::icon::IconCache;

fn png_2x1() -> Vec<u8> {
    let mut img = image::RgbaImage::new(2, 1);
    img.put_pixel(0, 0, image::Rgba([255, 0, 0, 255]));
    img.put_pixel(1, 0, image::Rgba([0, 0, 255, 128]));
    let mut out = std::io::Cursor::new(Vec::new());
    img.write_to(&mut out, image::ImageFormat::Png).unwrap();
    out.into_inner()
}

#[test]
fn decodes_and_caches() {
    let mut cache = IconCache::new();
    assert!(cache.cached("firefox").is_none());
    assert!(cache.resolve("firefox", &png_2x1()));
    let b = cache.cached("firefox").unwrap();
    assert_eq!(b.width, 2);
    assert_eq!(b.height, 1);
    assert_eq!(b.rgba, vec![255, 0, 0, 255, 0, 0, 255, 128]);
}

#[test]
fn second_request_does_not_decode() {
    let mut cache = IconCache::new();
    assert!(cache.resolve("firefox", &png_2x1()));
    assert_eq!(cache.decode_count(), 1);
    assert!(cache.resolve("firefox", &png_2x1()));
    assert_eq!(cache.decode_count(), 1);
    assert!(cache.resolve("other", &png_2x1()));
    assert_eq!(cache.decode_count(), 2);
}

#[test]
fn failed_decode_is_not_cached() {
    let mut cache = IconCache::new();
    assert!(!cache.resolve("broken", &[1, 2, 3, 4]));
    assert!(cache.cached("broken").is_none());
    assert!(!cache.resolve("broken", &[1, 2, 3, 4]));
    assert_eq!(cache.decode_count(), 2);
}
