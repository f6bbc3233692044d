use windowflow::thumbnail::{
    bgra_to_rgba, cache_file_name, cleanup_plan, encode_data_url, is_fresh, CacheEntry, MAX_ENTRIES,
};

#[test]
fn test_cache_path_format() {
    let name = cache_file_name(12345, 160, 90);
    assert_eq!(name, "12345_160x90.png");
}

#[test]
fn test_encode_data_url() {
    let url = encode_data_url(&[1, 2, 3]);
    assert!(url.starts_with("data:image/png;base64,"));
}

#[test]
fn thumbnail_data_url_holds_base64() {
    assert_eq!(encode_data_url(&[1, 2, 3]), "data:image/png;base64,AQID");
    assert_eq!(encode_data_url(&[]), "data:image/png;base64,");
    assert_eq!(encode_data_url(b"hi"), "data:image/png;base64,aGk=");
}

#[test]
fn thumbnail_cache_name_of_negative_handle() {
    assert_eq!(cache_file_name(-5, 1, 2), "-5_1x2.png");
    assert_eq!(cache_file_name(i64::MIN, 0, u32::MAX), "-9223372036854775808_0x4294967295.png");
}

#[test]
fn thumbnail_freshness() {
    assert!(is_fresh(14_999));
    assert!(!is_fresh(15_000));
}

#[test]
fn thumbnail_cleanup_removes_expired_and_surplus() {
    let now = 1_000_000;
    let mut entries = vec![
        CacheEntry { is_png: true, modified_ms: Some(now - 20_000) },
        CacheEntry { is_png: false, modified_ms: Some(now - 20_000) },
        CacheEntry { is_png: true, modified_ms: None },
        CacheEntry { is_png: true, modified_ms: Some(now + 5) },
        CacheEntry { is_png: true, modified_ms: Some(now - 15_000) },
    ];
    assert_eq!(cleanup_plan(now, &entries), vec![0, 3]);
    entries.clear();
    for i in 0..(MAX_ENTRIES + 2) {
        entries.push(CacheEntry { is_png: true, modified_ms: Some(now - 1_000 + i as i64) });
    }
    // the two oldest go
    assert_eq!(cleanup_plan(now, &entries), vec![1, 0]);
}

#[test]
fn thumbnail_bgra_to_rgba_swaps_whole_pixels() {
    let mut px = vec![1, 2, 3, 4, 5, 6, 7, 8, 9];
    bgra_to_rgba(&mut px);
    assert_eq!(px, vec![3, 2, 1, 4, 7, 6, 5, 8, 9]);
    bgra_to_rgba(&mut px);
    assert_eq!(px, vec![1, 2, 3, 4, 5, 6, 7, 8, 9]);
}

#[test]
fn thumbnails_become_png_files() {
    let png = windowflow::thumbnail::thumbnail_png(1, 1, vec![1, 2, 3, 255]).unwrap();
    assert_eq!(&png[..8], &[0x89, b'P', b'N', b'G', 0x0d, 0x0a, 0x1a, 0x0a]);
    let url = windowflow::thumbnail::thumbnail_data_url(1, 1, vec![1, 2, 3, 255]).unwrap();
    assert!(url.starts_with("data:image/png;base64,iVBORw0KGgo"));
    match windowflow::thumbnail::thumbnail_png(2, 2, vec![0; 15]) {
        Err(windowflow::errors::PlatformError::ApiError(m)) => assert_eq!(m, "Failed to capture thumbnail"),
        _ => panic!("a short bitmap gives no PNG"),
    }
    assert!(windowflow::thumbnail::thumbnail_data_url(2, 2, vec![0; 15]).is_err());
}
