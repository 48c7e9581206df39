use clipvault::shelf::{
    card_swatch, click_target, day_groups, fetch_entries, paste_mime, swatch_label, CardAction,
    CardHit, ClipboardApp, DeleteChoice, MenuAction, ShelfKey,
};
use clipvault::store::Store;

fn store_with(texts: &[&str]) -> Store {
    let mut store = Store::open(100, 50, Some("/tmp/clipvault-shelf".to_string()));
    for (i, t) in texts.iter().enumerate() {
        store.insert(t, "text", None, (i as i64 + 1) * 1000).unwrap();
    }
    store
}

#[test]
fn new_shelf_lists_newest_and_selects_first() {
    let store = store_with(&["a", "b", "c"]);
    let app = ClipboardApp::new(&store, 2, true);
    assert_eq!(app.page_size, 2);
    let shown: Vec<&str> = app.entries.iter().map(|e| e.content.as_str()).collect();
    assert_eq!(shown, vec!["c", "b"]);
    assert_eq!(app.selected_index, Some(0));
    assert_eq!(app.counts, (3, 3, 0, 0));
    assert_eq!(app.categories.len(), 5);
    assert!(!app.modal_open());
    let empty = ClipboardApp::new(&Store::open(10, 10, None), 0, false);
    assert_eq!(empty.page_size, 1);
    assert_eq!(empty.selected_index, None);
    assert_eq!(empty.empty_message(), "Clipboard history is empty");
}

#[test]
fn arrow_keys_move_within_cards_and_enter_pastes() {
    let store = store_with(&["a", "b", "c"]);
    let mut app = ClipboardApp::new(&store, 10, true);
    assert_eq!(app.handle_key(ShelfKey::Right, false, false), (false, None));
    assert_eq!(app.handle_key(ShelfKey::Right, true, true), (false, None));
    assert_eq!(app.handle_key(ShelfKey::Left, true, false), (true, None));
    assert_eq!(app.selected_index, Some(0));
    app.handle_key(ShelfKey::Right, true, false);
    app.handle_key(ShelfKey::Right, true, false);
    app.handle_key(ShelfKey::Right, true, false);
    assert_eq!(app.selected_index, Some(2));
    assert!(app.scroll_to_selected);
    assert_eq!(app.handle_key(ShelfKey::Enter, true, false), (true, Some(2)));
    assert!(app.should_hide);
}

#[test]
fn card_clicks_route_to_buttons_before_paste() {
    assert_eq!(click_target(false, true, false, false), CardHit::Body);
    assert_eq!(click_target(true, true, true, false), CardHit::Open);
    assert_eq!(click_target(true, false, true, true), CardHit::Favorite);
    assert_eq!(click_target(false, false, false, true), CardHit::Delete);

    let mut store = store_with(&["a", "b"]);
    let mut app = ClipboardApp::new(&store, 10, true);
    let id = app.entries[1].id;
    assert_eq!(app.card_clicked(&mut store, 1, false, true, false, 10), CardAction::Nothing);
    assert!(store.get_by_id(id).unwrap().favorite);
    assert_eq!(app.counts.3, 1);
    assert_eq!(app.card_clicked(&mut store, 0, false, false, true, 20), CardAction::Nothing);
    assert!(app.delete_confirm_visible);
    assert!(app.modal_open());
    app.delete_dialog_step(&mut store, Some(DeleteChoice::Cancel));
    assert!(!app.delete_confirm_visible);
    assert_eq!(app.card_clicked(&mut store, 1, false, false, false, 30), CardAction::Paste(1));
    assert_eq!(app.selected_index, Some(1));
    assert_eq!(app.copied, Some((app.entries[1].id, 30)));
}

#[test]
fn paste_hides_after_badge_time() {
    let mut store = store_with(&["a"]);
    let mut app = ClipboardApp::new(&store, 10, true);
    app.card_clicked(&mut store, 0, false, false, false, 1000);
    assert_eq!(app.end_frame(false, 1500), 60);
    assert!(!app.should_hide);
    assert_eq!(app.end_frame(false, 2201), 500);
    assert!(app.should_hide);
    assert_eq!(app.copied, None);
    assert_eq!(app.pending_hide, None);
    app.begin_frame();
    assert!(!app.should_hide);
}

#[test]
fn context_menu_actions_apply_and_close() {
    let mut store = store_with(&["a", "b"]);
    let mut app = ClipboardApp::new(&store, 10, true);
    let id = app.entries[0].id;
    app.card_secondary_clicked(0);
    assert_eq!(app.context_menu_entry_id, Some(id));
    assert_eq!(app.menu_marks(id), (false, None));
    app.context_menu_step(&mut store, false, true, Some(MenuAction::SetCategory("Code".to_string())));
    assert!(!app.context_menu_visible);
    assert_eq!(store.get_by_id(id).unwrap().category.as_deref(), Some("Code"));
    assert_eq!(app.menu_marks(id), (false, Some("Code".to_string())));

    app.card_secondary_clicked(0);
    app.context_menu_step(&mut store, false, true, Some(MenuAction::ClearCategory));
    assert_eq!(store.get_by_id(id).unwrap().category, None);

    app.card_secondary_clicked(0);
    app.context_menu_step(&mut store, false, false, Some(MenuAction::ToggleFavorite));
    assert!(app.context_menu_visible, "no anchor: nothing applied");
    app.context_menu_step(&mut store, true, true, Some(MenuAction::ToggleFavorite));
    assert!(!app.context_menu_visible);
    assert!(!store.get_by_id(id).unwrap().favorite);

    app.card_secondary_clicked(0);
    app.context_menu_step(&mut store, false, true, Some(MenuAction::Delete));
    assert!(app.delete_confirm_visible);
    assert_eq!(app.delete_confirm_entry_id, Some(id));
    app.delete_dialog_step(&mut store, Some(DeleteChoice::Confirm));
    assert!(store.get_by_id(id).is_none());
    assert_eq!(app.entries.len(), 1);
    assert!(!app.modal_open());
}

#[test]
fn escape_closes_modals_at_frame_end() {
    let store = store_with(&["a"]);
    let mut app = ClipboardApp::new(&store, 10, true);
    app.card_secondary_clicked(0);
    app.delete_confirm_visible = true;
    app.end_frame(true, 0);
    assert!(!app.modal_open());
}

#[test]
fn tabs_favorites_and_search_choose_the_listing() {
    let mut store = store_with(&["cargo build", "git push"]);
    store.insert_image(b"png", "image/png", None, 5000).unwrap();
    let mut app = ClipboardApp::new(&store, 10, true);
    assert!(app.tab_active(None));
    app.select_tab(&store, Some("image"));
    assert!(app.tab_active(Some("image")));
    assert_eq!(app.entries.len(), 1);
    let fav = app.entries[0].id;
    store.toggle_favorite(fav);
    app.select_tab(&store, Some("text"));
    assert_eq!(app.entries.len(), 2);
    app.toggle_favorites(&store);
    assert!(app.favorites_active());
    assert!(!app.tab_active(Some("text")));
    assert_eq!(app.entries.len(), 1);
    app.toggle_favorites(&store);
    assert_eq!(app.active_filter, None);
    app.set_search(&store, "cargo".to_string());
    assert_eq!(app.entries.len(), 1);
    assert_eq!(app.entries[0].content, "cargo build");
    app.set_search(&store, "zzzz".to_string());
    assert_eq!(app.selected_index, None);
    assert_eq!(app.empty_message(), "No matches");
    let mut app2 = ClipboardApp::new(&store, 10, true);
    assert!(app2.load_once(&store));
    assert!(!app2.load_once(&store));
}

#[test]
fn fetch_entries_by_filter_and_category() {
    let mut store = store_with(&["a", "b"]);
    let b = store.list(1, 0)[0].id;
    store.set_category(b, Some("Links"));
    assert_eq!(fetch_entries(&store, None, None, 10, 0).len(), 2);
    assert_eq!(fetch_entries(&store, None, Some("Links"), 10, 0)[0].id, b);
    assert_eq!(fetch_entries(&store, Some("text"), Some("Links"), 10, 0).len(), 1);
    assert_eq!(fetch_entries(&store, Some("image"), None, 10, 0).len(), 0);
}

#[test]
fn ocr_picks_hovered_image_or_explains() {
    let mut store = store_with(&["text"]);
    store.insert_image(b"png", "image/png", None, 5000).unwrap();
    let mut app = ClipboardApp::new(&store, 10, false);
    assert_eq!(app.ocr_target(7), None);
    assert_eq!(app.ocr_status.clone().unwrap().0, "tesseract not installed");

    let mut app = ClipboardApp::new(&store, 10, true);
    // The first card (newest) is the image, selected by default.
    let img = app.entries[0].id;
    assert_eq!(app.ocr_target(7), Some(img));
    app.card_hovered(1, true);
    assert_eq!(app.hovered_entry_id, Some(app.entries[1].id));
    assert_eq!(app.last_image_hovered, None);
    app.card_hovered(0, true);
    assert_eq!(app.last_image_hovered, Some(img));
    app.card_hovered(0, false);
    assert_eq!(app.hovered_entry_id, None);
    app.selected_index = Some(1);
    app.last_image_hovered = None;
    assert_eq!(app.ocr_target(8), None);
    assert_eq!(app.ocr_status.clone().unwrap(), ("Hover an image to scan".to_string(), 8));

    app.ocr_started(9);
    assert!(app.ocr_pending);
    assert_eq!(app.ocr_target(10), None);
    assert!(!app.ocr_finished("", 11));
    assert_eq!(app.ocr_status.clone().unwrap().0, "No text found");
    app.ocr_started(12);
    assert!(app.ocr_finished("scanned words", 13));
    app.ocr_recorded(&mut store, "scanned words", 9000, 14);
    assert_eq!(app.ocr_status.clone().unwrap().0, "Text copied");
    assert_eq!(app.entries[0].content, "scanned words");
    assert_eq!(app.entries[0].source.as_deref(), Some("ocr"));
    assert_eq!(app.end_frame(false, 14 + 2601), 500);
    assert_eq!(app.ocr_status, None);
}

#[test]
fn day_groups_split_runs_of_equal_labels() {
    let labels: Vec<String> = ["Today", "Today", "Yesterday", "Nov 3", "Nov 3", "Nov 3"]
        .iter()
        .map(|s| s.to_string())
        .collect();
    assert_eq!(day_groups(&labels), vec![(0, 2), (2, 3), (3, 6)]);
    assert!(day_groups(&Vec::new()).is_empty());
}

#[test]
fn paste_types_and_swatches() {
    assert_eq!(paste_mime("image/jpeg"), "image/jpeg");
    assert_eq!(paste_mime(""), "image/png");
    assert_eq!(paste_mime("png"), "image/png");
    assert_eq!(swatch_label((255, 143, 74)), "#FF8F4A");
    assert_eq!(swatch_label((0, 10, 255)), "#000AFF");
    let mut store = store_with(&["#2110A1", "plain"]);
    store.insert_image(b"#fff", "image/png", None, 9000).unwrap();
    let all = store.list(10, 0);
    assert_eq!(card_swatch(&all[0]), None);
    assert_eq!(card_swatch(&all[1]), None);
    assert_eq!(card_swatch(&all[2]), Some((33, 16, 161)));
}
