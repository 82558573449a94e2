use download_manga::cache::{extract_chapter_title, storage_path_for, CacheManager, CachedChapter};
use download_manga::digest::{checksum_of_bytes, compute_hash};
use download_manga::error::DownloadError;

const NOW: u64 = 1_700_000_000;
const DAY: u64 = 86400;

fn manager() -> CacheManager {
    CacheManager::new("/tmp/manga_downloader_test_cache".to_string(), DAY)
}

fn relpath(chapter_url: &str, image_url: &str) -> String {
    storage_path_for(chapter_url, image_url)
}

#[test]
fn test_create_cache_entry() {
    let mut cache = manager();
    let chapter_url = "https://example.com/manga/test-chapter";
    let image_url = "https://example.com/image.jpg";
    let test_data = b"test image data".to_vec();
    let result = cache.cache_image(chapter_url, image_url, &test_data, NOW);
    assert!(result.ends_with(".jpg"));
    let present = vec![relpath(chapter_url, image_url)];
    assert!(cache.is_chapter_cached(chapter_url, NOW, &present));
}

#[test]
fn test_retrieve_cached_data() {
    let mut cache = manager();
    let chapter_url = "https://example.com/manga/test-chapter";
    let image_url = "https://example.com/image.jpg";
    let test_data = b"test image data".to_vec();
    cache.cache_image(chapter_url, image_url, &test_data, NOW);
    let present = vec![relpath(chapter_url, image_url)];
    let cached_paths = cache.get_cached_image_paths(chapter_url, &present);
    assert!(cached_paths.is_some());
    assert_eq!(cached_paths.unwrap().len(), 1);
}

#[test]
fn test_is_chapter_cached() {
    let mut cache = manager();
    let chapter_url = "https://example.com/manga/test-chapter";
    let image_url = "https://example.com/image.jpg";
    let test_data = b"test image data".to_vec();
    cache.cache_image(chapter_url, image_url, &test_data, NOW);
    let present = vec![relpath(chapter_url, image_url)];
    assert!(cache.is_chapter_cached(chapter_url, NOW, &present));
    assert!(!cache.is_chapter_cached("https://example.com/manga/nonexistent", NOW, &present));
}

#[test]
fn digest_of_abc_is_the_sha256_test_vector() {
    assert_eq!(
        compute_hash("abc"),
        "ba7816bf8f01cfea414140de5dae2223b00361a396177a9cb410ff61f20015ad"
    );
    assert_eq!(checksum_of_bytes(b"abc"), compute_hash("abc"));
    assert_eq!(
        checksum_of_bytes(b""),
        "e3b0c44298fc1c149afbf4c8996fb92427ae41e4649b934ca495991b7852b855"
    );
}

#[test]
fn storage_path_is_sharded_by_chapter_digest() {
    let rel = storage_path_for("c1", "u1");
    let chapter_hash = compute_hash("c1");
    let image_hash = compute_hash("u1");
    assert_eq!(rel, format!("{}/{}.jpg", &chapter_hash[..2], image_hash));
    let cache = manager();
    assert_eq!(
        cache.image_cache_path("c1", "u1"),
        format!("/tmp/manga_downloader_test_cache/{}", rel)
    );
}

#[test]
fn stored_image_records_checksum_and_size() {
    let mut cache = manager();
    cache.cache_image("c1", "u1", b"hello", NOW);
    let entries = cache.index_entries();
    assert_eq!(entries.len(), 1);
    let image = &entries[0].images[0];
    assert_eq!(image.url, "u1");
    assert_eq!(image.path, relpath("c1", "u1"));
    assert_eq!(image.checksum, checksum_of_bytes(b"hello"));
    assert_eq!(image.size, 5);
    assert_eq!(entries[0].timestamp, NOW);
    assert_eq!(entries[0].checksum, "");
}

#[test]
fn storing_an_image_again_replaces_its_record() {
    let mut cache = manager();
    cache.cache_image("c1", "u1", b"first", NOW);
    cache.cache_image("c1", "u2", b"second", NOW + 1);
    cache.cache_image("c1", "u1", b"third", NOW + 2);
    let entries = cache.index_entries();
    assert_eq!(entries.len(), 1);
    let urls: Vec<&str> = entries[0].images.iter().map(|i| i.url.as_str()).collect();
    assert_eq!(urls, vec!["u2", "u1"]);
    assert_eq!(entries[0].images[1].checksum, checksum_of_bytes(b"third"));
    assert_eq!(entries[0].timestamp, NOW + 2);
}

#[test]
fn chapter_title_comes_from_the_url() {
    assert_eq!(
        extract_chapter_title("https://www.mangaread.org/manga/name/chapter-1/"),
        "Chapter 1"
    );
    assert_eq!(
        extract_chapter_title("https://example.com/manga/x/chapter-12-5"),
        "Chapter 12-5"
    );
    assert_eq!(
        extract_chapter_title("https://example.com/manga/test-chapter"),
        "Unknown Chapter"
    );
    assert_eq!(extract_chapter_title(""), "Unknown Chapter");
    let mut cache = manager();
    cache.cache_image("https://example.com/m/chapter-7/", "u", b"x", NOW);
    assert_eq!(cache.index_entries()[0].title, "Chapter 7");
}

#[test]
fn metadata_sets_title_and_fingerprint() {
    let mut cache = manager();
    let urls = vec!["u1".to_string(), "u2".to_string()];
    cache.cache_chapter("c1", "Title", &urls, NOW);
    let entries = cache.index_entries();
    assert_eq!(entries.len(), 1);
    assert_eq!(entries[0].title, "Title");
    assert_eq!(entries[0].url, "c1");
    assert_eq!(entries[0].checksum, compute_hash(&format!("{:?}", urls)));
    assert_eq!(entries[0].checksum, compute_hash("[\"u1\", \"u2\"]"));
    assert!(entries[0].images.is_empty());
    assert_eq!(entries[0].image_urls, urls);
    let other = vec!["u2".to_string(), "u1".to_string()];
    cache.cache_chapter("c1", "Renamed", &other, NOW + 5);
    let entries = cache.index_entries();
    assert_eq!(entries.len(), 1);
    assert_eq!(entries[0].title, "Renamed");
    assert_ne!(entries[0].checksum, compute_hash(&format!("{:?}", urls)));
    assert_eq!(entries[0].timestamp, NOW + 5);
}

#[test]
fn validation_counts_matching_and_mismatching_files() {
    let mut cache = manager();
    cache.cache_image("c1", "u1", b"one", NOW);
    cache.cache_image("c1", "u2", b"two", NOW);
    cache.cache_image("c2", "u3", b"three", NOW);
    let paths = cache.stored_image_paths();
    assert_eq!(paths.len(), 3);
    assert_eq!(paths[2], cache.image_cache_path("c2", "u3"));
    let digests = vec![
        Some(checksum_of_bytes(b"one")),
        Some(checksum_of_bytes(b"changed")),
        None,
    ];
    assert_eq!(cache.validate_cache(&digests), (1, 2));
    assert_eq!(cache.validate_cache(&Vec::new()), (0, 3));
}

// For any item stored, validation right afterwards reports it valid.
#[test]
fn stored_item_validates_right_after() {
    let mut cache = manager();
    let contents = b"test image data".to_vec();
    cache.cache_image("c1", "u1", &contents, NOW);
    let digests: Vec<Option<String>> = cache
        .stored_image_paths()
        .iter()
        .map(|_| Some(checksum_of_bytes(&contents)))
        .collect();
    assert_eq!(cache.validate_cache(&digests), (1, 0));
}

// A cleared cache holds nothing fresh; store + metadata makes a chapter fresh.
#[test]
fn freshness_after_clear_and_after_store() {
    let mut cache = manager();
    cache.cache_image("c1", "u1", b"data", NOW);
    let present = vec![relpath("c1", "u1")];
    cache.clear_cache();
    assert!(!cache.is_chapter_cached("c1", NOW, &present));
    assert!(cache.index_entries().is_empty());
    cache.cache_image("c1", "u1", b"data", NOW);
    cache.cache_chapter("c1", "T", &vec!["u1".to_string()], NOW + 10);
    assert!(cache.is_chapter_cached("c1", NOW + 10, &present));
    assert!(cache.is_chapter_cached("c1", NOW + 10 + DAY, &present));
    assert!(!cache.is_chapter_cached("c1", NOW + 11 + DAY, &present));
    assert!(!cache.is_chapter_cached("c1", NOW + 10, &Vec::new()));
}

// With a maximum age of zero, a later sweep removes the entry and its files.
#[test]
fn sweep_with_zero_age_removes_stored_entry() {
    let mut cache = CacheManager::new("/cache".to_string(), 0);
    cache.cache_image("c1", "u1", b"data", NOW);
    let present = vec![relpath("c1", "u1")];
    let kept = cache.clean_expired(NOW);
    assert!(kept.is_empty());
    assert!(cache.get_cached_image_paths("c1", &present).is_some());
    let removed = cache.clean_expired(NOW + 1);
    assert_eq!(removed, vec![format!("/cache/{}", relpath("c1", "u1"))]);
    assert!(cache.get_cached_image_paths("c1", &present).is_none());
    assert!(cache.index_entries().is_empty());
}

#[test]
fn sweep_keeps_fresh_entries_in_order() {
    let mut cache = CacheManager::new("/cache/".to_string(), 100);
    cache.cache_image("old", "a", b"a", NOW);
    cache.cache_image("new", "b", b"b", NOW + 50);
    cache.cache_image("older", "c", b"c", NOW - 10);
    let removed = cache.clean_expired(NOW + 120);
    assert_eq!(
        removed,
        vec![
            format!("/cache/{}", relpath("old", "a")),
            format!("/cache/{}", relpath("older", "c")),
        ]
    );
    let urls: Vec<&str> = cache.index_entries().iter().map(|c| c.url.as_str()).collect();
    assert_eq!(urls, vec!["new"]);
}

// One missing backing file hides the whole chapter.
#[test]
fn missing_file_means_no_cached_paths() {
    let mut cache = manager();
    cache.cache_image("c1", "u1", b"one", NOW);
    cache.cache_image("c1", "u2", b"two", NOW);
    let only_first = vec![relpath("c1", "u1")];
    assert!(cache.get_cached_image_paths("c1", &only_first).is_none());
    assert!(!cache.is_chapter_cached("c1", NOW, &only_first));
    let both = vec![relpath("c1", "u2"), relpath("c1", "u1")];
    let paths = cache.get_cached_image_paths("c1", &both).unwrap();
    assert_eq!(
        paths,
        vec![
            cache.image_cache_path("c1", "u1"),
            cache.image_cache_path("c1", "u2"),
        ]
    );
    assert!(cache.get_cached_image_paths("c2", &both).is_none());
}

// Scenario: empty root, metadata for two images, then the images one by one.
#[test]
fn scenario_metadata_then_images() {
    let mut cache = CacheManager::new("/root/cache".to_string(), 86400);
    assert!(cache.index_entries().is_empty());
    let urls = vec!["u1".to_string(), "u2".to_string()];
    cache.cache_chapter("c1", "Title", &urls, NOW);
    cache.cache_image("c1", "u1", b"first", NOW + 1);
    let mut present = vec![relpath("c1", "u1")];
    assert!(!cache.is_chapter_cached("c1", NOW + 1, &present));
    assert!(cache.get_cached_image_paths("c1", &present).is_none());
    cache.cache_image("c1", "u2", b"second", NOW + 2);
    assert!(cache.get_cached_image_paths("c1", &present).is_none());
    assert!(!cache.is_chapter_cached("c1", NOW + 2, &present));
    present.push(relpath("c1", "u2"));
    assert!(cache.is_chapter_cached("c1", NOW + 2, &present));
    assert_eq!(cache.get_cached_image_paths("c1", &present).unwrap().len(), 2);
}

// The image list recorded later also governs freshness.
#[test]
fn listing_recorded_after_images_governs_freshness() {
    let mut cache = manager();
    cache.cache_image("c1", "u1", b"first", NOW);
    let present = vec![relpath("c1", "u1")];
    assert!(cache.is_chapter_cached("c1", NOW, &present));
    cache.cache_chapter("c1", "T", &vec!["u1".to_string(), "u3".to_string()], NOW);
    assert!(!cache.is_chapter_cached("c1", NOW, &present));
    assert!(cache.get_cached_image_paths("c1", &present).is_none());
    cache.cache_chapter("c1", "T", &vec!["u1".to_string()], NOW);
    assert!(cache.is_chapter_cached("c1", NOW, &present));
}

#[test]
fn loaded_index_must_be_well_formed() {
    let chapter = |url: &str| CachedChapter {
        title: "T".to_string(),
        url: url.to_string(),
        timestamp: NOW,
        checksum: String::new(),
        image_urls: Vec::new(),
        images: Vec::new(),
    };
    let ok = CacheManager::with_index(
        "/c".to_string(),
        DAY,
        vec![("a".to_string(), chapter("a")), ("b".to_string(), chapter("b"))],
    );
    assert_eq!(ok.unwrap().index_entries().len(), 2);
    let twice = CacheManager::with_index(
        "/c".to_string(),
        DAY,
        vec![("a".to_string(), chapter("a")), ("a".to_string(), chapter("a"))],
    );
    assert!(matches!(twice, Err(DownloadError::ParsingError(_))));
    let misfiled = CacheManager::with_index(
        "/c".to_string(),
        DAY,
        vec![("a".to_string(), chapter("b"))],
    );
    assert!(matches!(misfiled, Err(DownloadError::ParsingError(_))));
}

#[test]
fn accessors_report_configuration() {
    let cache = CacheManager::new("/x".to_string(), 42);
    assert_eq!(cache.cache_dir(), "/x");
    assert_eq!(cache.max_age(), 42);
    let bare = CacheManager::new(String::new(), 1);
    assert_eq!(bare.image_cache_path("c", "u"), relpath("c", "u"));
}
