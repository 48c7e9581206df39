use clipvault::ipc::{
    broadcast, event_line, handle_command, is_blank, legacy_answer, legacy_command,
    retain_delivered, take_line, write_line, Args, Event, Legacy, PastePlan, Reply, Subscribers, CHANGED_EVENT,
    CONFIG_EVENT, TOGGLE_EVENT,
};
use clipvault::store::Store;
use std::sync::{Arc, Mutex};

fn no_args() -> Args {
    Args { limit: None, offset: None, filter: None, category: None, query: None, id: None }
}

fn with_id(id: i64) -> Args {
    Args { id: Some(id), ..no_args() }
}

fn entries(r: Reply) -> Vec<clipvault::store::ClipboardEntry> {
    match r {
        Reply::Entries(v) => v,
        other => panic!("expected entries, got {:?}", other),
    }
}

#[test]
fn lists_and_searches_entries() {
    let mut store = Store::open(100, 50, None);
    store.insert("cargo build --release", "text", None, 1_000).unwrap();
    store.insert("https://example.com", "text", None, 2_000).unwrap();

    let (listed, _) = handle_command("list", &no_args(), &mut store);
    assert!(!matches!(listed, Reply::Failed(_)));
    assert_eq!(entries(listed).len(), 2);

    let q = Args { query: Some("cargo".to_string()), ..no_args() };
    let found = entries(handle_command("search", &q, &mut store).0);
    assert_eq!(found.len(), 1);
    assert_eq!(found[0].content, "cargo build --release");
}

#[test]
fn toggles_favorite_and_counts() {
    let mut store = Store::open(100, 50, None);
    let id = store.insert("note", "text", None, 1_000).unwrap().id;

    let (fav, fx) = handle_command("favorite", &with_id(id), &mut store);
    assert!(matches!(fav, Reply::Favorite(true)));
    assert_eq!(fx.event, Some(Event::Changed));

    match handle_command("counts", &no_args(), &mut store).0 {
        Reply::Counts { total, favorites, .. } => {
            assert_eq!(favorites, 1);
            assert_eq!(total, 1);
        },
        other => panic!("expected counts, got {:?}", other),
    }
}

#[test]
fn rejects_unknown_and_missing_args() {
    let mut store = Store::open(100, 50, None);
    assert!(matches!(handle_command("bogus", &no_args(), &mut store).0, Reply::Failed(_)));
    assert!(matches!(handle_command("favorite", &no_args(), &mut store).0, Reply::Failed(_)));
}

#[test]
fn broadcast_prunes_dead_subscribers() {
    let subs: Subscribers = Arc::new(Mutex::new(Vec::new()));
    let (tx, rx) = std::sync::mpsc::channel::<String>();
    subs.lock().unwrap().push(tx);
    broadcast(&subs, CHANGED_EVENT);
    assert_eq!(rx.recv().unwrap(), CHANGED_EVENT);
    assert_eq!(subs.lock().unwrap().len(), 1);

    drop(rx);
    broadcast(&subs, CHANGED_EVENT);
    assert_eq!(subs.lock().unwrap().len(), 0);
}

#[test]
fn unknown_command_names_itself() {
    let mut store = Store::open(10, 10, None);
    match handle_command("bogus", &no_args(), &mut store) {
        (Reply::Failed(msg), fx) => {
            assert_eq!(msg, "unknown command: bogus");
            assert_eq!(fx.event, None);
            assert!(!fx.quit);
        },
        other => panic!("unexpected {:?}", other.0),
    }
    match handle_command("entry", &no_args(), &mut store).0 {
        Reply::Failed(msg) => assert_eq!(msg, "missing id"),
        other => panic!("unexpected {:?}", other),
    }
}

#[test]
fn list_filters_by_kind_favorites_and_category() {
    let mut store = Store::open(10, 10, None);
    let a = store.insert("a", "text", None, 1).unwrap();
    store.insert("b", "text", None, 2).unwrap();
    store.set_category(a.id, Some("Notes"));
    store.toggle_favorite(a.id);
    let fav = Args { filter: Some("favorites".to_string()), ..no_args() };
    assert_eq!(entries(handle_command("list", &fav, &mut store).0).len(), 1);
    let cat = Args { category: Some("Notes".to_string()), ..no_args() };
    assert_eq!(entries(handle_command("list", &cat, &mut store).0)[0].id, a.id);
    let img = Args { filter: Some("image".to_string()), ..no_args() };
    assert!(entries(handle_command("list", &img, &mut store).0).is_empty());
    let paged = Args { limit: Some(1), offset: Some(1), ..no_args() };
    assert_eq!(entries(handle_command("list", &paged, &mut store).0)[0].content, "a");
}

#[test]
fn delete_clear_and_status() {
    let mut store = Store::open(10, 10, None);
    let a = store.insert("a", "text", None, 1).unwrap();
    store.insert("b", "text", None, 2).unwrap();
    let (r, fx) = handle_command("delete", &with_id(a.id), &mut store);
    assert!(matches!(r, Reply::Done));
    assert_eq!(fx.event, Some(Event::Changed));
    match handle_command("delete", &with_id(a.id), &mut store).0 {
        Reply::Failed(msg) => assert_eq!(msg, "entry not found for deletion"),
        other => panic!("unexpected {:?}", other),
    }
    assert!(matches!(handle_command("status", &no_args(), &mut store).0, Reply::Status(1)));
    handle_command("clear", &no_args(), &mut store);
    assert_eq!(store.count(), 0);
}

#[test]
fn paste_answers_text_or_image_file() {
    let mut store = Store::open(10, 10, Some("/tmp/clipvault-images".to_string()));
    let t = store.insert("hello", "text", None, 1).unwrap();
    let i = store.insert_image(b"img", "image/webp", None, 2).unwrap();
    match handle_command("paste", &with_id(t.id), &mut store).0 {
        Reply::Paste(PastePlan::Text(s)) => assert_eq!(s, "hello"),
        other => panic!("unexpected {:?}", other),
    }
    match handle_command("paste", &with_id(i.id), &mut store).0 {
        Reply::Paste(PastePlan::Image { path, mime }) => {
            assert_eq!(Some(path), i.content_path);
            assert_eq!(mime, "image/webp");
        },
        other => panic!("unexpected {:?}", other),
    }
    match handle_command("paste", &with_id(999), &mut store).0 {
        Reply::Failed(msg) => assert_eq!(msg, "entry not found"),
        other => panic!("unexpected {:?}", other),
    }
    match handle_command("ocr", &with_id(t.id), &mut store).0 {
        Reply::Failed(msg) => assert_eq!(msg, "no image data for entry"),
        other => panic!("unexpected {:?}", other),
    }
}

#[test]
fn toggle_and_quit_effects() {
    let mut store = Store::open(10, 10, None);
    assert_eq!(handle_command("toggle", &no_args(), &mut store).1.event, Some(Event::Toggle));
    assert!(handle_command("quit", &no_args(), &mut store).1.quit);
    assert!(matches!(handle_command("config", &no_args(), &mut store).0, Reply::ShowConfig));
    assert_eq!(event_line(Event::Changed), CHANGED_EVENT);
    assert_eq!(event_line(Event::Toggle), TOGGLE_EVENT);
    assert_eq!(event_line(Event::Config), CONFIG_EVENT);
    assert_eq!(CHANGED_EVENT, "{\"event\":\"changed\"}");
}

#[test]
fn legacy_commands_and_answers() {
    assert_eq!(legacy_command(b"  toggle\n"), Legacy::Toggle);
    assert_eq!(legacy_command(b"quit"), Legacy::Quit);
    assert_eq!(legacy_command(b"status\r\n"), Legacy::Status);
    assert_eq!(legacy_command(b"{\"cmd\":\"list\"}"), Legacy::NotLegacy);
    assert_eq!(legacy_answer(Legacy::Toggle, 0), "ok");
    assert_eq!(legacy_answer(Legacy::Quit, 0), "bye");
    assert_eq!(legacy_answer(Legacy::Status, 42), "42\n");
}

#[test]
fn lines_are_split_and_framed() {
    let mut acc = b"{\"cmd\":\"list\"}\n{\"cmd\"".to_vec();
    assert_eq!(take_line(&mut acc), Some(b"{\"cmd\":\"list\"}".to_vec()));
    assert_eq!(acc, b"{\"cmd\"".to_vec());
    assert_eq!(take_line(&mut acc), None);
    assert!(is_blank(b" \t\r"));
    assert!(!is_blank(b" x "));
    let mut out = b"{}\n".to_vec();
    write_line(&mut out, "ok");
    assert_eq!(out, b"{}\nok\n".to_vec());
}

#[test]
fn retain_delivered_reports_each_sender() {
    let (tx1, rx1) = std::sync::mpsc::channel::<String>();
    let (tx2, rx2) = std::sync::mpsc::channel::<String>();
    drop(rx2);
    let mut subs = vec![tx1, tx2];
    assert_eq!(retain_delivered(&mut subs, "x"), vec![true, false]);
    assert_eq!(subs.len(), 1);
    assert_eq!(rx1.recv().unwrap(), "x");
}
