use clipvault::digest::{hash_bytes, hash_text};
use clipvault::model::StoreError;
use clipvault::store::{rank_matches, ClipboardEntry, Store};

/// A clock in nanoseconds that ticks once per call.
struct Clock(i64);

impl Clock {
    fn new() -> Clock {
        Clock(1_700_000_000_000_000_000)
    }

    fn tick(&mut self) -> i64 {
        self.0 += 1_000_000;
        self.0
    }
}

fn images_dir() -> String {
    "/tmp/clipvault_test_image/images".to_string()
}

#[test]
fn should_insert_and_retrieve_entry() {
    let mut clock = Clock::new();
    let mut store = Store::open(100, 50, None);
    let entry = store.insert("hello world", "text", Some("test"), clock.tick()).unwrap();
    assert_eq!(entry.content, "hello world");
    let list = store.list(10, 0);
    assert_eq!(list.len(), 1);
    assert_eq!(list[0].content, "hello world");
}

#[test]
fn should_deduplicate_same_content() {
    let mut clock = Clock::new();
    let mut store = Store::open(100, 50, None);
    store.insert("dup content", "text", None, clock.tick()).unwrap();
    store.insert("dup content", "text", None, clock.tick()).unwrap();
    assert_eq!(store.count(), 1);
}

#[test]
fn should_evict_old_entries() {
    let mut clock = Clock::new();
    let mut store = Store::open(3, 50, None);
    for i in 0..5 {
        store.insert(&format!("entry {}", i), "text", None, clock.tick()).unwrap();
    }
    assert_eq!(store.count(), 3);
}

#[test]
fn should_search_entries() {
    let mut clock = Clock::new();
    let mut store = Store::open(100, 50, None);
    store.insert("https://example.com", "text", None, clock.tick()).unwrap();
    store.insert("cargo build --release", "text", None, clock.tick()).unwrap();
    store.insert("git commit -m 'fix'", "text", None, clock.tick()).unwrap();
    let results = store.search("cargo", 10);
    assert_eq!(results.len(), 1);
    assert_eq!(results[0].content, "cargo build --release");
}

#[test]
fn should_insert_and_retrieve_image() {
    let mut clock = Clock::new();
    let dir = images_dir();
    let mut store = Store::open(100, 50, Some(dir.clone()));
    let img_data = b"fake-png-bytes";
    let entry = store
        .insert_image(img_data, "image/png", Some("test"), clock.tick())
        .unwrap();
    assert_eq!(entry.content_type, "image");
    assert_eq!(entry.mime_type.as_deref(), Some("image/png"));
    assert!(entry.content_path.is_some());
    // The bytes belong at the entry's path: `<sha256>.png` in the images
    // directory, where the caller writes them.
    let expected = std::path::Path::new(&dir)
        .join(format!("{}.png", hash_bytes(img_data)))
        .to_string_lossy()
        .to_string();
    assert_eq!(entry.content_path.clone().unwrap(), expected);
    assert_eq!(store.image_path_for(img_data, "image/png"), expected);
    assert_eq!(store.image_file(entry.id), Some(expected));
}

#[test]
fn should_not_evict_favorites() {
    let mut clock = Clock::new();
    let mut store = Store::open(3, 50, None);
    for i in 0..3 {
        store.insert(&format!("entry {}", i), "text", None, clock.tick()).unwrap();
    }
    let list = store.list(10, 0);
    assert!(store.toggle_favorite(list[0].id));
    for i in 3..6 {
        store.insert(&format!("entry {}", i), "text", None, clock.tick()).unwrap();
    }
    let remaining = store.list(10, 0);
    let fav_still_there = remaining.iter().any(|e| e.favorite);
    assert!(fav_still_there, "favorite entry should survive eviction");
}

#[test]
fn should_list_by_type() {
    let mut clock = Clock::new();
    let mut store = Store::open(100, 50, None);
    store.insert("text entry", "text", None, clock.tick()).unwrap();
    let texts = store.list_by_type("text", 10, 0);
    assert_eq!(texts.len(), 1);
    let images = store.list_by_type("image", 10, 0);
    assert_eq!(images.len(), 0);
}

#[test]
fn should_list_by_source() {
    let mut clock = Clock::new();
    let mut store = Store::open(100, 50, None);
    store.insert("from firefox", "text", Some("firefox"), clock.tick()).unwrap();
    store.insert("from alacritty", "text", Some("alacritty"), clock.tick()).unwrap();
    let results = store.list_by_source("firefox", 10, 0);
    assert_eq!(results.len(), 1);
    assert_eq!(results[0].content, "from firefox");
}

#[test]
fn should_manage_categories() {
    let mut store = Store::open(100, 50, None);
    let cat_id = store.create_category("Test", Some("#ff0000")).unwrap();
    assert!(cat_id > 0);
    let cats = store.list_categories();
    assert!(cats.iter().any(|(_, n, _)| n == "Test"));
    store.delete_category("Test");
    let cats = store.list_categories();
    assert!(!cats.iter().any(|(_, n, _)| n == "Test"));
}

#[test]
fn open_seeds_the_predefined_categories_by_name() {
    let store = Store::open(10, 10, None);
    let names: Vec<String> = store.list_categories().into_iter().map(|c| c.1).collect();
    assert_eq!(names, vec!["Code", "Design", "Links", "Notes", "Sensitive"]);
    let colors: Vec<Option<String>> = store.list_categories().into_iter().map(|c| c.2).collect();
    assert_eq!(colors[0].as_deref(), Some("#7aa2f7"));
}

#[test]
fn duplicate_category_is_refused() {
    let mut store = Store::open(10, 10, None);
    assert_eq!(store.create_category("Code", None), Err(StoreError::DuplicateCategory));
}

#[test]
fn reinserting_moves_entry_to_front_and_keeps_id() {
    let mut clock = Clock::new();
    let mut store = Store::open(10, 10, None);
    let a = store.insert("a", "text", None, clock.tick()).unwrap();
    store.insert("b", "text", None, clock.tick()).unwrap();
    let t = clock.tick();
    let again = store.insert("a", "text", None, t).unwrap();
    assert_eq!(again.id, a.id);
    assert_eq!(again.timestamp, t);
    let list = store.list(10, 0);
    assert_eq!(list[0].content, "a");
    assert_eq!(list[1].content, "b");
    assert_eq!(list[0].hash, hash_text("a"));
}

#[test]
fn listing_pages_newest_first() {
    let mut clock = Clock::new();
    let mut store = Store::open(10, 10, None);
    for i in 0..5 {
        store.insert(&format!("e{}", i), "text", None, clock.tick()).unwrap();
    }
    let page: Vec<String> = store.list(2, 1).into_iter().map(|e| e.content).collect();
    assert_eq!(page, vec!["e3", "e2"]);
    assert!(store.list(10, 5).is_empty());
}

#[test]
fn toggling_favorite_twice_restores_it() {
    let mut clock = Clock::new();
    let mut store = Store::open(10, 10, None);
    let e = store.insert("x", "text", None, clock.tick()).unwrap();
    assert!(store.toggle_favorite(e.id));
    assert!(!store.toggle_favorite(e.id));
    assert!(!store.get_by_id(e.id).unwrap().favorite);
    assert!(!store.toggle_favorite(e.id + 100));
}

#[test]
fn deleting_removes_entry_and_reports_missing_ones() {
    let mut clock = Clock::new();
    let mut store = Store::open(10, 10, None);
    let e = store.insert("gone", "text", None, clock.tick()).unwrap();
    assert_eq!(store.delete(e.id), Ok(()));
    assert!(store.get_by_id(e.id).is_none());
    assert_eq!(store.delete(e.id), Err(StoreError::NotFound));
}

#[test]
fn deleting_an_image_discards_its_file() {
    let mut clock = Clock::new();
    let dir = images_dir();
    let mut store = Store::open(10, 10, Some(dir));
    let e = store.insert_image(b"pixels", "image/jpeg", None, clock.tick()).unwrap();
    let path = e.content_path.clone().unwrap();
    assert!(path.ends_with(".jpeg"));
    let p = std::path::Path::new(&path);
    let thumb = p
        .parent()
        .unwrap()
        .join(format!("thumb_{}", p.file_name().unwrap().to_string_lossy()))
        .to_string_lossy()
        .to_string();
    assert_eq!(e.thumb_path, Some(thumb.clone()));
    assert_eq!(store.thumbnail_file(e.id), Some(thumb));
    store.delete(e.id).unwrap();
    assert_eq!(store.take_discarded(), vec![path]);
    assert!(store.take_discarded().is_empty());
}

#[test]
fn image_cap_evicts_oldest_images_only() {
    let mut clock = Clock::new();
    let mut store = Store::open(10, 2, Some(images_dir()));
    store.insert("keep me", "text", None, clock.tick()).unwrap();
    let first = store.insert_image(b"one", "image/png", None, clock.tick()).unwrap();
    store.insert_image(b"two", "image/png", None, clock.tick()).unwrap();
    store.insert_image(b"three", "image/png", None, clock.tick()).unwrap();
    assert_eq!(store.count_by_type("image"), 2);
    assert_eq!(store.count_by_type("text"), 1);
    assert!(store.get_by_id(first.id).is_none());
    assert_eq!(store.take_discarded(), vec![first.content_path.unwrap()]);
}

#[test]
fn counts_by_type_and_favorites() {
    let mut clock = Clock::new();
    let mut store = Store::open(10, 10, Some(images_dir()));
    let t = store.insert("t", "text", None, clock.tick()).unwrap();
    store.insert_image(b"img", "image/png", None, clock.tick()).unwrap();
    store.toggle_favorite(t.id);
    assert_eq!(store.type_counts(), (2, 1, 1, 1));
    assert_eq!(store.list_favorites(10, 0).len(), 1);
}

#[test]
fn categories_filter_and_count() {
    let mut clock = Clock::new();
    let mut store = Store::open(10, 10, None);
    let a = store.insert("a", "text", None, clock.tick()).unwrap();
    let b = store.insert("b", "text", None, clock.tick()).unwrap();
    store.insert("c", "text", None, clock.tick()).unwrap();
    store.set_category(a.id, Some("Notes"));
    store.set_category(b.id, Some("Code"));
    assert_eq!(store.list_by_category("Notes", 10, 0)[0].id, a.id);
    assert_eq!(store.list_by_type_and_category("text", "Code", 10, 0)[0].id, b.id);
    assert_eq!(
        store.count_by_category(),
        vec![("Code".to_string(), 1), ("Notes".to_string(), 1)]
    );
    store.delete_category("Notes");
    assert!(store.get_by_id(a.id).unwrap().category.is_none());
}

#[test]
fn sources_are_listed_once_in_order() {
    let mut clock = Clock::new();
    let mut store = Store::open(10, 10, None);
    store.insert("1", "text", Some("zed"), clock.tick()).unwrap();
    store.insert("2", "text", Some("alacritty"), clock.tick()).unwrap();
    store.insert("3", "text", Some("zed"), clock.tick()).unwrap();
    store.insert("4", "text", None, clock.tick()).unwrap();
    assert_eq!(store.list_sources(), vec!["alacritty", "zed"]);
}

#[test]
fn clear_empties_and_discards_files() {
    let mut clock = Clock::new();
    let mut store = Store::open(10, 10, Some(images_dir()));
    store.insert("x", "text", None, clock.tick()).unwrap();
    let img = store.insert_image(b"y", "image/png", None, clock.tick()).unwrap();
    store.clear();
    assert_eq!(store.count(), 0);
    assert_eq!(store.take_discarded(), vec![img.content_path.unwrap()]);
}

#[test]
fn restored_entries_keep_their_ids_and_order() {
    let mut store = Store::open(10, 10, None);
    let e = |id: i64, ts: i64, content: &str| ClipboardEntry {
        id,
        content: content.to_string(),
        content_type: "text".to_string(),
        source: None,
        hash: hash_text(content),
        timestamp: ts,
        favorite: false,
        content_path: None,
        mime_type: None,
        category: None,
        thumb_path: None,
    };
    assert!(store.restore_entry(e(7, 100, "older")));
    assert!(store.restore_entry(e(9, 200, "newer")));
    assert!(!store.restore_entry(e(7, 300, "same id")));
    store.raise_last_ids(9, 0);
    let list = store.list(10, 0);
    assert_eq!(list[0].id, 9);
    assert_eq!(list[1].id, 7);
    let next = store.insert("fresh", "text", None, 300).unwrap();
    assert_eq!(next.id, 10);
}

#[test]
fn ranking_puts_best_scores_first_and_drops_misses() {
    let mut clock = Clock::new();
    let mut store = Store::open(10, 10, None);
    store.insert("a", "text", None, clock.tick()).unwrap();
    store.insert("b", "text", None, clock.tick()).unwrap();
    store.insert("c", "text", None, clock.tick()).unwrap();
    let all = store.list(10, 0);
    let ranked = rank_matches(&all, &vec![Some(1), None, Some(5)], 10);
    let order: Vec<String> = ranked.into_iter().map(|e| e.content).collect();
    assert_eq!(order, vec!["a", "c"]);
}

#[test]
fn empty_search_lists_newest_first() {
    let mut clock = Clock::new();
    let mut store = Store::open(10, 10, None);
    for t in ["one", "two", "three"] {
        store.insert(t, "text", None, clock.tick()).unwrap();
    }
    let found: Vec<String> = store.search("", 2).into_iter().map(|e| e.content).collect();
    assert_eq!(found, vec!["three", "two"]);
}
