use base64::Engine;
use shop_tracker::image::{ImageCache, ResolveAction};
use shop_tracker::rails::{get_rails_blob_id, BlobIdError};

fn rails_path(json: &str) -> String {
    let encoded = base64::engine::general_purpose::STANDARD.encode(json);
    format!("/rails/active_storage/representations/redirect/{encoded}--abc123/variant--def/photo.png")
}

#[test]
fn resolving_twice_uploads_once() {
    let mut cache = ImageCache::new();
    let first = match cache.resolve_step(42) {
        ResolveAction::Cached(_) => panic!("empty cache served a URL"),
        ResolveAction::Upload => cache.record(42, "https://cdn.example/a.png".to_string()),
    };
    assert_eq!(first, "https://cdn.example/a.png");
    match cache.resolve_step(42) {
        ResolveAction::Cached(u) => assert_eq!(u, first),
        ResolveAction::Upload => panic!("second resolve asked for an upload"),
    }
    let again = cache.record(42, "https://cdn.example/b.png".to_string());
    assert_eq!(again, "https://cdn.example/a.png");
    assert_eq!(cache.entries.len(), 1);
}

#[test]
fn cache_keeps_other_ids_apart() {
    let mut cache = ImageCache::new();
    cache.record(1, "u1".to_string());
    cache.record(2, "u2".to_string());
    assert_eq!(cache.lookup(1), Some("u1".to_string()));
    assert_eq!(cache.lookup(2), Some("u2".to_string()));
    assert_eq!(cache.lookup(3), None);
}

#[test]
fn blob_id_is_read_from_the_signed_segment() {
    let path = rails_path(r#"{"_rails":{"data":123456,"pur":"blob_id"}}"#);
    assert_eq!(get_rails_blob_id(&path), Ok(123456));
}

#[test]
fn blob_id_needs_three_segments() {
    assert_eq!(get_rails_blob_id("/photo.png"), Err(BlobIdError::MissingSegment));
    assert_eq!(get_rails_blob_id(""), Err(BlobIdError::MissingSegment));
}

#[test]
fn blob_id_rejects_bad_base64() {
    assert_eq!(get_rails_blob_id("/x/!!!--sig/v/p.png"), Err(BlobIdError::BadBase64));
}

#[test]
fn blob_id_rejects_json_without_id() {
    let path = rails_path(r#"{"_rails":{"other":1}}"#);
    assert_eq!(get_rails_blob_id(&path), Err(BlobIdError::BadJson));
    let not_json = rails_path("hello");
    assert_eq!(get_rails_blob_id(&not_json), Err(BlobIdError::BadJson));
}

#[test]
fn blob_id_does_not_depend_on_the_rotating_parts() {
    let encoded = base64::engine::general_purpose::STANDARD.encode(r#"{"_rails":{"data":12345,"pur":"blob_id"}}"#);
    let a = format!("/rails/active_storage/representations/redirect/{encoded}--abc123/v1--def/img.png");
    let b = format!("/other/prefix/{encoded}--zzz999/v2--xyz/renamed.jpg");
    assert_eq!(get_rails_blob_id(&a), Ok(12345));
    assert_eq!(get_rails_blob_id(&b), Ok(12345));
}
