//! Clipboard capture: what a captured item is, when a clipboard offer is
//! recorded, and which reads a poll performs.

use vstd::prelude::*;
use vstd::string::StrSliceExecFns;

use crate::digest::{digest_hex, hash_bytes, hash_text, text_digest};
use crate::gui::{trim_of, trim_range};
use crate::model::{StoreError, StoreView};
use crate::store::{result_view, ClipboardEntry, Store};
use crate::text::{text_eq, utf8};

verus! {

broadcast use vstd::string::group_string_axioms;

/// One captured clipboard item.
#[derive(Debug, Clone)]
pub enum ClipboardContent {
    Text(String),
    Image { data: Vec<u8>, mime_type: String },
}

impl ClipboardContent {
    /// The identifying hash: of the UTF-8 bytes of a text, of the bytes of an
    /// image.
    pub fn hash(&self) -> (r: String)
        ensures
            r@ == match self {
                ClipboardContent::Text(s) => text_digest(s@),
                ClipboardContent::Image { data, .. } => digest_hex(data@),
            },
    {
        match self {
            ClipboardContent::Text(s) => hash_text(s.as_str()),
            ClipboardContent::Image { data, .. } => hash_bytes(data.as_slice()),
        }
    }

    /// Size in bytes.
    pub fn size(&self) -> (r: usize)
        ensures
            r == match self {
                ClipboardContent::Text(s) => utf8(s@).len() as usize,
                ClipboardContent::Image { data, .. } => data@.len() as usize,
            },
    {
        match self {
            ClipboardContent::Text(s) => s.as_str().len(),
            ClipboardContent::Image { data, .. } => data.len(),
        }
    }
}

/// `c` with ASCII upper-case letters turned lower-case.
pub open spec fn ascii_lower(c: char) -> char {
    if 'A' <= c && c <= 'Z' {
        ((c as u32) + 32) as char
    } else {
        c
    }
}

/// Whether `p` occurs in `t` once `t` is ASCII-lower-cased.
pub open spec fn contains_lower(t: Seq<char>, p: Seq<char>) -> bool {
    exists|i: int| 0 <= i && #[trigger] matches_at(t, p, i)
}

/// Whether `p` occurs at position `i` of the lower-cased `t`.
pub open spec fn matches_at(t: Seq<char>, p: Seq<char>, i: int) -> bool {
    i + p.len() <= t.len() && forall|k: int| 0 <= k < p.len() ==> #[trigger] ascii_lower(t[i + k]) == p[k]
}

fn lower_is(c: char, d: char) -> (r: bool)
    ensures
        r == (ascii_lower(c) == d),
{
    if 'A' <= c && c <= 'Z' {
        let u = (c as u32) + 32;
        assert(u == ((c as u32) + 32));
        u == (d as u32)
    } else {
        c == d
    }
}

/// Whether `pat` occurs in `t` once `t` is ASCII-lower-cased.
fn find_lower(t: &str, pat: &str) -> (r: bool)
    ensures
        r == contains_lower(t@, pat@),
{
    let n = t.unicode_len();
    let m = pat.unicode_len();
    if m > n {
        return false;
    }
    let mut i: usize = 0;
    while i <= n - m
        invariant
            n == t@.len(),
            m == pat@.len(),
            m <= n,
            i <= n - m + 1,
            forall|j: int| 0 <= j < i ==> !#[trigger] matches_at(t@, pat@, j),
        decreases n + 1 - i,
    {
        let mut k: usize = 0;
        let mut ok = true;
        while k < m
            invariant
                n == t@.len(),
                m == pat@.len(),
                i + m <= n,
                k <= m,
                ok == forall|q: int| 0 <= q < k ==> #[trigger] ascii_lower(t@[i + q]) == pat@[q],
            decreases m - k,
        {
            let same = lower_is(t.get_char(i + k), pat.get_char(k));
            ok = ok && same;
            k = k + 1;
        }
        if ok {
            assert(matches_at(t@, pat@, i as int));
            return true;
        }
        i = i + 1;
    }
    assert forall|j: int| 0 <= j implies !#[trigger] matches_at(t@, pat@, j) by {
        if j < i {
        }
    }
    false
}

/// Whether a MIME type marks the offer as sensitive (password managers set
/// such hints).
pub open spec fn sensitive_type(t: Seq<char>) -> bool {
    contains_lower(t, "x-kde-passwordmanagerhint"@) || contains_lower(t, "sensitive"@)
        || contains_lower(t, "concealed"@)
}

/// Whether the current clipboard offer is marked sensitive, so that it is
/// not to be recorded.
pub fn is_sensitive(mime_types: &Vec<String>) -> (r: bool)
    ensures
        r == exists|j: int| 0 <= j < mime_types@.len() && sensitive_type(#[trigger] mime_types@[j]@),
{
    let mut i: usize = 0;
    while i < mime_types.len()
        invariant
            i <= mime_types@.len(),
            forall|j: int| 0 <= j < i ==> !sensitive_type(#[trigger] mime_types@[j]@),
        decreases mime_types@.len() - i,
    {
        let t = mime_types[i].as_str();
        if find_lower(t, "x-kde-passwordmanagerhint") || find_lower(t, "sensitive") || find_lower(
            t,
            "concealed",
        ) {
            assert(sensitive_type(mime_types@[i as int]@));
            return true;
        }
        i = i + 1;
    }
    false
}

/// What one poll of the clipboard reads.
pub struct CapturePlan {
    /// The offer is sensitive and to be skipped.
    pub skip: bool,
    /// Image type to read first, if the offer has one.
    pub image_mime: Option<String>,
    /// Whether to read text (the regular clipboard, then the primary
    /// selection) when no image was read.
    pub text: bool,
}

pub open spec fn image_prefix() -> Seq<char> {
    seq!['i', 'm', 'a', 'g', 'e', '/']
}

pub open spec fn is_image_type(t: Seq<char>) -> bool {
    t.len() >= 6 && t.subrange(0, 6) == image_prefix()
}

/// Position of the first image type.
pub open spec fn first_image(ts: Seq<Seq<char>>) -> Option<nat>
    decreases ts.len(),
{
    if ts.len() == 0 {
        None
    } else if is_image_type(ts[0]) {
        Some(0)
    } else {
        match first_image(ts.drop_first()) {
            Some(i) => Some(i + 1),
            None => None,
        }
    }
}

proof fn lemma_first_image(ts: Seq<Seq<char>>, i: int)
    requires
        0 <= i <= ts.len(),
        forall|k: int| 0 <= k < i ==> !is_image_type(ts[k]),
    ensures
        i < ts.len() && is_image_type(ts[i]) ==> first_image(ts) == Some(i as nat),
        i == ts.len() ==> first_image(ts) is None,
    decreases ts.len(),
{
    if ts.len() > 0 && i > 0 {
        assert forall|k: int| 0 <= k < i - 1 implies !is_image_type(ts.drop_first()[k]) by {
            assert(ts.drop_first()[k] == ts[k + 1]);
        }
        lemma_first_image(ts.drop_first(), i - 1);
    }
}

pub open spec fn plain_text_type(t: Seq<char>) -> bool {
    t == "text/plain"@ || t == "text/plain;charset=utf-8"@
}

pub open spec fn type_views(v: Seq<String>) -> Seq<Seq<char>> {
    v.map_values(|s: String| s@)
}

fn starts_with_image(t: &str) -> (r: bool)
    ensures
        r == is_image_type(t@),
{
    let n = t.unicode_len();
    if n < 6 {
        return false;
    }
    let head = t.substring_char(0, 6);
    proof {
        reveal_strlit("image/");
    }
    assert("image/"@ =~= image_prefix());
    text_eq(head, "image/")
}

/// What to read for an offer of `mime_types`: nothing when it is sensitive
/// and such offers are hidden; else the first image type, and text when the
/// offer has plain text or lists no types at all.
pub fn capture_plan(mime_types: &Vec<String>, hide_sensitive: bool) -> (r: CapturePlan)
    ensures
        r.skip == (hide_sensitive && exists|j: int|
            0 <= j < mime_types@.len() && sensitive_type(#[trigger] mime_types@[j]@)),
        !r.skip ==> r.image_mime.deep_view() == match first_image(type_views(mime_types@)) {
            Some(i) => Some(mime_types@[i as int]@),
            None => None,
        },
        !r.skip ==> r.text == (mime_types@.len() == 0 || exists|j: int|
            0 <= j < mime_types@.len() && plain_text_type(#[trigger] mime_types@[j]@)),
{
    if hide_sensitive && is_sensitive(mime_types) {
        return CapturePlan { skip: true, image_mime: None, text: false };
    }
    let ghost ts = type_views(mime_types@);
    let mut i: usize = 0;
    while i < mime_types.len() && !starts_with_image(mime_types[i].as_str())
        invariant
            i <= mime_types@.len(),
            ts == type_views(mime_types@),
            forall|k: int| 0 <= k < i ==> !is_image_type(ts[k]),
        decreases mime_types@.len() - i,
    {
        assert(ts[i as int] == mime_types@[i as int]@);
        i = i + 1;
    }
    proof {
        if i < mime_types@.len() {
            assert(ts[i as int] == mime_types@[i as int]@);
        }
        lemma_first_image(ts, i as int);
    }
    let image_mime = if i < mime_types.len() {
        Some(mime_types[i].clone())
    } else {
        None
    };
    let mut text = mime_types.len() == 0;
    let mut j: usize = 0;
    while j < mime_types.len()
        invariant
            j <= mime_types@.len(),
            text == (mime_types@.len() == 0 || exists|k: int|
                0 <= k < j && plain_text_type(#[trigger] mime_types@[k]@)),
        decreases mime_types@.len() - j,
    {
        let t = mime_types[j].as_str();
        if text_eq(t, "text/plain") || text_eq(t, "text/plain;charset=utf-8") {
            text = true;
        }
        j = j + 1;
    }
    CapturePlan { skip: false, image_mime, text }
}

/// Whether content with hash `hash` differs from the last one recorded.
pub fn is_new_content(last: &Option<String>, hash: &str) -> (r: bool)
    ensures
        r == (last.deep_view() != Some(hash@)),
{
    match last {
        Some(h) => !text_eq(h.as_str(), hash),
        None => true,
    }
}

/// The poll interval: the configured one, but at least 50 ms.
pub fn poll_interval(ms: u64) -> (r: u64)
    ensures
        r == if ms < 50 { 50 } else { ms },
{
    if ms < 50 {
        50
    } else {
        ms
    }
}

/// The store after recording capture `c` from `source` at `now`, and what
/// the recording answers: a text is recorded as a `text` entry, an image
/// with its bytes and type.
pub open spec fn capture_recorded(
    m: StoreView,
    c: ClipboardContent,
    source: Option<Seq<char>>,
    now: int,
) -> (StoreView, Result<crate::model::EntryView, StoreError>) {
    match c {
        ClipboardContent::Text(t) => m.insert_text(t@, "text"@, source, now),
        ClipboardContent::Image { data, mime_type } => m.insert_image(data@, mime_type@, source, now),
    }
}

/// Records a capture in the history at `now` (nanoseconds since the epoch).
/// The caller keeps an image's bytes at `Store::image_path_for` first.
pub fn record_capture(store: &mut Store, c: &ClipboardContent, source: Option<&str>, now: i64) -> (r:
    Result<ClipboardEntry, StoreError>)
    requires
        old(store).wf(),
    ensures
        final(store).wf(),
        (final(store)@, result_view(r)) == capture_recorded(
            old(store)@,
            *c,
            source.deep_view(),
            now as int,
        ),
{
    match c {
        ClipboardContent::Text(t) => store.insert(t.as_str(), "text", source, now),
        ClipboardContent::Image { data, mime_type } => store.insert_image(
            data.as_slice(),
            mime_type.as_str(),
            source,
            now,
        ),
    }
}

/// Position of the first line break in `s`.
pub open spec fn newline_pos(s: Seq<char>) -> Option<nat>
    decreases s.len(),
{
    if s.len() == 0 {
        None
    } else if s[0] == '\n' {
        Some(0)
    } else {
        match newline_pos(s.drop_first()) {
            Some(i) => Some(i + 1),
            None => None,
        }
    }
}

pub proof fn lemma_newline_pos_in(s: Seq<char>)
    ensures
        newline_pos(s) matches Some(p) ==> p < s.len(),
    decreases s.len(),
{
    if s.len() > 0 {
        lemma_newline_pos_in(s.drop_first());
    }
}

proof fn lemma_newline_pos(s: Seq<char>, i: int)
    requires
        0 <= i <= s.len(),
        forall|k: int| 0 <= k < i ==> s[k] != '\n',
    ensures
        i < s.len() && s[i] == '\n' ==> newline_pos(s) == Some(i as nat),
        i == s.len() ==> newline_pos(s) is None,
    decreases i,
{
    if i > 0 {
        assert forall|k: int| 0 <= k < i - 1 implies s.drop_first()[k] != '\n' by {
            assert(s.drop_first()[k] == s[k + 1]);
        }
        lemma_newline_pos(s.drop_first(), i - 1);
    }
}

/// `t` as a one-item list, or nothing when it is empty.
pub open spec fn unless_empty(t: Seq<char>) -> Seq<Seq<char>> {
    if t.len() == 0 {
        Seq::empty()
    } else {
        seq![t]
    }
}

/// The lines of `s`, each without surrounding white space, empty ones
/// dropped: the types `wl-paste --list-types` prints.
pub open spec fn type_list_of(s: Seq<char>) -> Seq<Seq<char>>
    decreases s.len(),
{
    match newline_pos(s) {
        Some(p) => {
            proof {
                lemma_newline_pos_in(s);
            }
            unless_empty(trim_of(s.take(p as int))) + type_list_of(s.skip(p as int + 1))
        },
        None => unless_empty(trim_of(s)),
    }
}

/// Reads the type list that `wl-paste --list-types` printed.
pub fn parse_type_list(out: &str) -> (r: Vec<String>)
    ensures
        type_views(r@) == type_list_of(out@),
{
    let n = out.unicode_len();
    let ghost s = out@;
    let mut v: Vec<String> = Vec::new();
    let mut start: usize = 0;
    let mut i: usize = 0;
    assert(s.skip(0) =~= s);
    assert(type_views(v@) =~= Seq::<Seq<char>>::empty());
    while i < n
        invariant
            n == s.len(),
            s == out@,
            start <= i <= n,
            forall|k: int| start <= k < i ==> s[k] != '\n',
            type_list_of(s) == type_views(v@) + type_list_of(s.skip(start as int)),
        decreases n - i,
    {
        if out.get_char(i) == '\n' {
            let ghost rest = s.skip(start as int);
            proof {
                assert forall|k: int| 0 <= k < i - start implies rest[k] != '\n' by {
                    assert(rest[k] == s[start + k]);
                }
                assert(rest[i - start] == s[i as int]);
                lemma_newline_pos(rest, i - start);
                assert(rest.take(i - start) =~= s.subrange(start as int, i as int));
                assert(rest.skip(i - start + 1) =~= s.skip(i + 1));
            }
            let (a, b) = trim_range(out, start, i);
            let ghost before = v@;
            if a < b {
                v.push(out.substring_char(a, b).to_owned());
                assert(type_views(v@) =~= type_views(before) + unless_empty(
                    trim_of(s.subrange(start as int, i as int)),
                ));
            } else {
                assert(type_views(v@) =~= type_views(before) + unless_empty(
                    trim_of(s.subrange(start as int, i as int)),
                ));
            }
            start = i + 1;
        }
        i = i + 1;
    }
    let ghost rest = s.skip(start as int);
    proof {
        assert forall|k: int| 0 <= k < rest.len() implies rest[k] != '\n' by {
            assert(rest[k] == s[start + k]);
        }
        lemma_newline_pos(rest, rest.len() as int);
        assert(rest =~= s.subrange(start as int, n as int));
    }
    let (a, b) = trim_range(out, start, n);
    let ghost before = v@;
    if a < b {
        v.push(out.substring_char(a, b).to_owned());
    }
    assert(type_views(v@) =~= type_views(before) + unless_empty(trim_of(rest)));
    assert(type_views(v@) =~= type_list_of(s));
    v
}

/// Notes capture hash `hash` after `last`: answers whether it is new, and
/// `last` becomes `hash` either way. One step of `reported_hashes`.
pub fn note_capture(last: &mut Option<String>, hash: &str) -> (r: bool)
    ensures
        r == (old(last).deep_view() != Some(hash@)),
        final(last).deep_view() == Some(hash@),
{
    let fresh = is_new_content(last, hash);
    if fresh {
        *last = Some(hash.to_owned());
    }
    fresh
}

/// The hashes a run of polls reports, starting after `last`, when the polls
/// capture `hs` in turn: each capture whose hash differs from the one before
/// it.
pub open spec fn reported_hashes(last: Option<Seq<char>>, hs: Seq<Seq<char>>) -> Seq<Seq<char>>
    decreases hs.len(),
{
    if hs.len() == 0 {
        Seq::empty()
    } else if last != Some(hs[0]) {
        seq![hs[0]] + reported_hashes(Some(hs[0]), hs.drop_first())
    } else {
        reported_hashes(last, hs.drop_first())
    }
}

} // verus!
