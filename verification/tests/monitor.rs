use clipvault::digest::{hash_bytes, hash_text};
use clipvault::icons::{icon_candidates, short_name};
use clipvault::monitor::{
    capture_plan, is_new_content, is_sensitive, note_capture, parse_type_list, poll_interval, record_capture,
    ClipboardContent,
};
use sha2::{Digest, Sha256};

fn types(v: &[&str]) -> Vec<String> {
    v.iter().map(|s| s.to_string()).collect()
}

#[test]
fn hashes_are_sha256_hex() {
    let expected = hex::encode(Sha256::digest(b"hello"));
    assert_eq!(hash_text("hello"), expected);
    assert_eq!(ClipboardContent::Text("hello".to_string()).hash(), expected);
    let img = ClipboardContent::Image { data: b"hello".to_vec(), mime_type: "image/png".to_string() };
    assert_eq!(img.hash(), hash_bytes(b"hello"));
    assert_eq!(
        hash_text(""),
        "e3b0c44298fc1c149afbf4c8996fb92427ae41e4649b934ca495991b7852b855"
    );
}

#[test]
fn sizes_count_bytes() {
    assert_eq!(ClipboardContent::Text("héllo".to_string()).size(), 6);
    let img = ClipboardContent::Image { data: vec![0; 10], mime_type: "image/png".to_string() };
    assert_eq!(img.size(), 10);
}

#[test]
fn sensitive_offers_are_recognised() {
    assert!(is_sensitive(&types(&["text/plain", "x-kde-passwordManagerHint"])));
    assert!(is_sensitive(&types(&["application/x-Concealed"])));
    assert!(!is_sensitive(&types(&["text/plain", "image/png"])));
}

#[test]
fn capture_plans() {
    let p = capture_plan(&types(&["text/html", "image/png", "image/jpeg"]), true);
    assert!(!p.skip);
    assert_eq!(p.image_mime.as_deref(), Some("image/png"));
    assert!(!p.text);
    let p = capture_plan(&types(&["text/plain;charset=utf-8"]), true);
    assert_eq!(p.image_mime, None);
    assert!(p.text);
    assert!(capture_plan(&types(&[]), true).text);
    assert!(capture_plan(&types(&["text/plain", "sensitive"]), true).skip);
    assert!(!capture_plan(&types(&["text/plain", "sensitive"]), false).skip);
}

#[test]
fn new_content_and_poll_interval() {
    assert!(is_new_content(&None, "abc"));
    assert!(!is_new_content(&Some("abc".to_string()), "abc"));
    assert!(is_new_content(&Some("abd".to_string()), "abc"));
    assert_eq!(poll_interval(10), 50);
    assert_eq!(poll_interval(500), 500);
}

#[test]
fn short_names_of_window_classes() {
    assert_eq!(short_name("dev.warp.Warp"), "Warp");
    assert_eq!(short_name("org/gnome/Nautilus"), "Nautilus");
    assert_eq!(short_name("firefox"), "firefox");
    assert_eq!(short_name("trailing."), "");
}

#[test]
fn icon_candidates_in_lookup_order() {
    let c = icon_candidates("dev.warp.Warp", Some("/home/u"));
    // Names: class, lower-cased class, last component, lower-cased last.
    // Each name: 3 roots x 7 sizes, then the pixmap.
    assert_eq!(c.len(), 4 * (3 * 7 + 1));
    assert_eq!(c[0], "/home/u/.local/share/icons/hicolor/48x48/apps/dev.warp.Warp.png");
    assert_eq!(c[7], "/home/u/.icons/hicolor/48x48/apps/dev.warp.Warp.png");
    assert_eq!(c[14], "/usr/share/icons/hicolor/48x48/apps/dev.warp.Warp.png");
    assert_eq!(c[21], "/usr/share/pixmaps/dev.warp.Warp.png");
    assert_eq!(c[22], "/home/u/.local/share/icons/hicolor/48x48/apps/dev.warp.warp.png");
    assert_eq!(c[44 + 6], "/home/u/.local/share/icons/hicolor/24x24/apps/Warp.png");
    assert_eq!(c[87], "/usr/share/pixmaps/warp.png");

    // `firefox`: every name is the same, so one name remains.
    let f = icon_candidates("firefox", None);
    assert_eq!(f.len(), 7 + 1);
    assert_eq!(f[1], "/usr/share/icons/hicolor/64x64/apps/firefox.png");
    assert_eq!(f[7], "/usr/share/pixmaps/firefox.png");
}

#[test]
fn captures_are_recorded_by_kind() {
    let mut store = clipvault::store::Store::open(10, 10, Some("/tmp/clipvault-capture".to_string()));
    let t = record_capture(&mut store, &ClipboardContent::Text("copied".to_string()), Some("kitty"), 5)
        .unwrap();
    assert_eq!(t.content_type, "text");
    assert_eq!(t.source.as_deref(), Some("kitty"));
    let img = ClipboardContent::Image { data: b"png".to_vec(), mime_type: "image/png".to_string() };
    let i = record_capture(&mut store, &img, None, 6).unwrap();
    assert_eq!(i.content_type, "image");
    assert_eq!(i.hash, img.hash());
    assert_eq!(i.content_path, Some(store.image_path_for(b"png", "image/png")));
    assert_eq!(store.count(), 2);
}

#[test]
fn type_lists_are_split_trimmed_and_cleaned() {
    assert_eq!(
        parse_type_list("text/plain;charset=utf-8\r\n  image/png \n\n\tTEXT\n"),
        vec!["text/plain;charset=utf-8", "image/png", "TEXT"]
    );
    assert!(parse_type_list("").is_empty());
    assert!(parse_type_list(" \n \n").is_empty());
    assert_eq!(parse_type_list("a"), vec!["a"]);
}

#[test]
fn socket_path_per_user() {
    assert_eq!(clipvault::paths::socket_path_for(1000), "/run/user/1000/clipvault.sock");
    assert_eq!(clipvault::paths::socket_path_for(0), "/run/user/0/clipvault.sock");
}

#[test]
fn captures_are_reported_once_per_change() {
    let mut last: Option<String> = Some("a".to_string());
    let mut reported = Vec::new();
    for h in ["a", "b", "b", "c", "b", "b"] {
        if note_capture(&mut last, h) {
            reported.push(h);
        }
        assert_eq!(last.as_deref(), Some(h));
    }
    assert_eq!(reported, vec!["b", "c", "b"]);
}
