//! The clipboard history store: every operation of the history, on plain
//! values held in memory. Persisting it is left to the caller.

use fuzzy_matcher::FuzzyMatcher;
use vstd::prelude::*;

use crate::digest::{hash_bytes, hash_text};
use crate::model::{
    count_evictable, evictable, evicted_files, find_hash, find_id, image_kind, kept,
    lemma_find_hash, lemma_find_id, lemma_kept_valid, lemma_place_distinct, lemma_remove_valid,
    lemma_slot_unique, lemma_update_valid, page, place, select, slot_for, stored_files, text_kind,
    admits, count_where, i64_max, firsts, fuzzy_score_of, lemma_score_slot_unique, ranked,
    score_slot, scored, top, cat_slot, category_counts_of, categories_ok, find_category,
    has_category, has_source, lemma_cat_slot_unique, lemma_find_category, lemma_insert_category,
    lemma_remove_category, lemma_same_keys, lemma_slot_decides, sources_of, strictly_ordered,
    uncategorized, lemma_slot_for, CategoryView, EntryView, Select, StoreError,
    StoreView,
};
use crate::paths::{derive_thumb_path, image_path, thumbnail_lookup, thumbnail_lookup_of};
use crate::text::{lemma_text_order, text_eq, text_less, text_lt};

verus! {

broadcast use vstd::string::group_string_axioms;

/// One recorded clipboard item. `timestamp` counts nanoseconds since the
/// Unix epoch.
#[derive(Debug)]
pub struct ClipboardEntry {
    pub id: i64,
    pub content: String,
    pub content_type: String,
    pub source: Option<String>,
    pub hash: String,
    pub timestamp: i64,
    pub favorite: bool,
    pub content_path: Option<String>,
    pub mime_type: Option<String>,
    pub category: Option<String>,
    /// Thumbnail path derived from `content_path` for image entries.
    pub thumb_path: Option<String>,
}

impl View for ClipboardEntry {
    type V = EntryView;

    open spec fn view(&self) -> EntryView {
        EntryView {
            id: self.id as int,
            content: self.content@,
            content_type: self.content_type@,
            source: self.source.deep_view(),
            hash: self.hash@,
            timestamp: self.timestamp as int,
            favorite: self.favorite,
            content_path: self.content_path.deep_view(),
            mime_type: self.mime_type.deep_view(),
            category: self.category.deep_view(),
            thumb_path: self.thumb_path.deep_view(),
        }
    }
}

/// A user-visible category.
#[derive(Debug)]
pub struct Category {
    pub id: i64,
    pub name: String,
    pub color: Option<String>,
}

impl View for Category {
    type V = CategoryView;

    open spec fn view(&self) -> CategoryView {
        CategoryView { id: self.id as int, name: self.name@, color: self.color.deep_view() }
    }
}

pub fn copy_opt(o: &Option<String>) -> (r: Option<String>)
    ensures
        r.deep_view() == o.deep_view(),
{
    match o {
        Some(s) => Some(s.clone()),
        None => None,
    }
}

pub fn own_opt(o: Option<&str>) -> (r: Option<String>)
    ensures
        r.deep_view() == o.deep_view(),
{
    match o {
        Some(s) => Some(s.to_owned()),
        None => None,
    }
}

impl ClipboardEntry {
    /// A copy of this entry.
    pub fn duplicate(&self) -> (r: ClipboardEntry)
        ensures
            r@ == self@,
    {
        ClipboardEntry {
            id: self.id,
            content: self.content.clone(),
            content_type: self.content_type.clone(),
            source: copy_opt(&self.source),
            hash: self.hash.clone(),
            timestamp: self.timestamp,
            favorite: self.favorite,
            content_path: copy_opt(&self.content_path),
            mime_type: copy_opt(&self.mime_type),
            category: copy_opt(&self.category),
            thumb_path: copy_opt(&self.thumb_path),
        }
    }
}

impl Category {
    pub fn duplicate(&self) -> (r: Category)
        ensures
            r@ == self@,
    {
        Category { id: self.id, name: self.name.clone(), color: copy_opt(&self.color) }
    }
}

pub open spec fn entry_views(v: Seq<ClipboardEntry>) -> Seq<EntryView> {
    v.map_values(|e: ClipboardEntry| e@)
}

pub open spec fn category_views(v: Seq<Category>) -> Seq<CategoryView> {
    v.map_values(|c: Category| c@)
}

pub open spec fn string_views(v: Seq<String>) -> Seq<Seq<char>> {
    v.map_values(|s: String| s@)
}

pub trait EntryOptionView {
    spec fn deep_view_entry(&self) -> Option<EntryView>;
}

impl EntryOptionView for Option<ClipboardEntry> {
    open spec fn deep_view_entry(&self) -> Option<EntryView> {
        match self {
            Some(e) => Some(e@),
            None => None,
        }
    }
}

pub open spec fn result_view(r: Result<ClipboardEntry, StoreError>) -> Result<EntryView, StoreError> {
    match r {
        Ok(e) => Ok(e@),
        Err(x) => Err(x),
    }
}

proof fn lemma_views_insert(v: Seq<ClipboardEntry>, k: int, e: ClipboardEntry)
    requires
        0 <= k <= v.len(),
    ensures
        entry_views(v.insert(k, e)) == entry_views(v).insert(k, e@),
{
    v.insert_ensures(k, e);
    entry_views(v).insert_ensures(k, e@);
    assert(entry_views(v.insert(k, e)) =~= entry_views(v).insert(k, e@));
}

proof fn lemma_views_remove(v: Seq<ClipboardEntry>, k: int)
    requires
        0 <= k < v.len(),
    ensures
        entry_views(v.remove(k)) == entry_views(v).remove(k),
{
    v.remove_ensures(k);
    entry_views(v).remove_ensures(k);
    assert(entry_views(v.remove(k)) =~= entry_views(v).remove(k));
}

/// Whether `s` names the image content type.
pub fn is_image_kind(s: &str) -> (r: bool)
    ensures
        r == (s@ == image_kind()),
{
    proof {
        reveal_strlit("image");
    }
    assert("image"@ =~= image_kind());
    text_eq(s, "image")
}

/// Whether `s` names the text content type.
pub fn is_text_kind(s: &str) -> (r: bool)
    ensures
        r == (s@ == text_kind()),
{
    proof {
        reveal_strlit("text");
    }
    assert("text"@ =~= text_kind());
    text_eq(s, "text")
}

fn is_evictable(e: &ClipboardEntry, images: bool) -> (r: bool)
    ensures
        r == evictable(e@, images),
{
    let img = is_image_kind(e.content_type.as_str());
    img == images && !e.favorite
}

/// Where an entry stamped `ts` goes among `v`.
fn slot_in(v: &Vec<ClipboardEntry>, ts: i64) -> (r: usize)
    ensures
        r == slot_for(entry_views(v@), ts as int),
        r <= v@.len(),
{
    let mut i: usize = 0;
    while i < v.len() && v[i].timestamp > ts
        invariant
            i <= v@.len(),
            forall|k: int| 0 <= k < i ==> v@[k].timestamp > ts,
        decreases v@.len() - i,
    {
        i = i + 1;
    }
    proof {
        lemma_slot_unique(entry_views(v@), ts as int, i as int);
    }
    i
}

/// Position of the entry with hash `h`.
fn index_of_hash(v: &Vec<ClipboardEntry>, h: &str) -> (r: Option<usize>)
    ensures
        match r {
            Some(i) => find_hash(entry_views(v@), h@) == Some(i as nat),
            None => find_hash(entry_views(v@), h@) is None,
        },
{
    let ghost s = entry_views(v@);
    proof {
        lemma_find_hash(s, h@);
    }
    let mut i: usize = 0;
    while i < v.len()
        invariant
            i <= v@.len(),
            s == entry_views(v@),
            forall|k: int| 0 <= k < i ==> s[k].hash != h@,
        decreases v@.len() - i,
    {
        assert(s[i as int] == v@[i as int]@);
        if text_eq(v[i].hash.as_str(), h) {
            proof {
                lemma_find_hash(s, h@);
            }
            return Some(i);
        }
        i = i + 1;
    }
    None
}

/// Position of the entry with id `id`.
fn index_of_id(v: &Vec<ClipboardEntry>, id: i64) -> (r: Option<usize>)
    ensures
        match r {
            Some(i) => find_id(entry_views(v@), id as int) == Some(i as nat),
            None => find_id(entry_views(v@), id as int) is None,
        },
{
    let ghost s = entry_views(v@);
    proof {
        lemma_find_id(s, id as int);
    }
    let mut i: usize = 0;
    while i < v.len()
        invariant
            i <= v@.len(),
            s == entry_views(v@),
            forall|k: int| 0 <= k < i ==> s[k].id != id,
        decreases v@.len() - i,
    {
        assert(s[i as int] == v@[i as int]@);
        if v[i].id == id {
            proof {
                lemma_find_id(s, id as int);
            }
            return Some(i);
        }
        i = i + 1;
    }
    None
}

/// The entries of `v` that survive the cap, and the stored files of those
/// that do not.
fn evict(v: &Vec<ClipboardEntry>, images: bool, cap: usize) -> (r: (Vec<ClipboardEntry>, Vec<String>))
    ensures
        entry_views(r.0@) == kept(entry_views(v@), images, cap as nat),
        string_views(r.1@) == evicted_files(entry_views(v@), images, cap as nat),
{
    let ghost s = entry_views(v@);
    let mut out: Vec<ClipboardEntry> = Vec::new();
    let mut files: Vec<String> = Vec::new();
    let mut n: usize = 0;
    let mut i: usize = 0;
    assert(s.take(0) =~= Seq::<EntryView>::empty());
    assert(entry_views(out@) =~= Seq::<EntryView>::empty());
    assert(string_views(files@) =~= Seq::<Seq<char>>::empty());
    while i < v.len()
        invariant
            i <= v@.len(),
            s == entry_views(v@),
            n <= i,
            n == count_evictable(s.take(i as int), images),
            entry_views(out@) == kept(s.take(i as int), images, cap as nat),
            string_views(files@) == evicted_files(s.take(i as int), images, cap as nat),
        decreases v@.len() - i,
    {
        let ghost t = s.take(i + 1);
        assert(t.drop_last() =~= s.take(i as int));
        assert(t.last() == v@[i as int]@);
        let ev = is_evictable(&v[i], images);
        if ev && n >= cap {
            match &v[i].content_path {
                Some(p) => {
                    let ghost before = files@;
                    files.push(p.clone());
                    assert(string_views(files@) =~= string_views(before).push(p@));
                },
                None => {},
            }
        } else {
            let ghost before = out@;
            out.push(v[i].duplicate());
            assert(entry_views(out@) =~= entry_views(before).push(v@[i as int]@));
        }
        if ev {
            n = n + 1;
        }
        i = i + 1;
    }
    assert(s.take(v@.len() as int) =~= s);
    (out, files)
}

/// Which entries a listing shows.
pub enum Filter {
    All,
    Favorites,
    Kind(String),
    Source(String),
    Category(String),
    KindAndCategory(String, String),
}

impl View for Filter {
    type V = Select;

    open spec fn view(&self) -> Select {
        match self {
            Filter::All => Select::All,
            Filter::Favorites => Select::Favorites,
            Filter::Kind(t) => Select::Kind(t@),
            Filter::Source(s) => Select::Source(s@),
            Filter::Category(c) => Select::Category(c@),
            Filter::KindAndCategory(t, c) => Select::KindAndCategory(t@, c@),
        }
    }
}

fn opt_text_is(o: &Option<String>, t: &String) -> (r: bool)
    ensures
        r == (o.deep_view() == Some(t@)),
{
    match o {
        Some(x) => text_eq(x.as_str(), t.as_str()),
        None => false,
    }
}

fn admits_entry(q: &Filter, e: &ClipboardEntry) -> (r: bool)
    ensures
        r == admits(q@, e@),
{
    match q {
        Filter::All => true,
        Filter::Favorites => e.favorite,
        Filter::Kind(t) => text_eq(e.content_type.as_str(), t.as_str()),
        Filter::Source(src) => opt_text_is(&e.source, src),
        Filter::Category(c) => opt_text_is(&e.category, c),
        Filter::KindAndCategory(t, c) => text_eq(e.content_type.as_str(), t.as_str())
            && opt_text_is(&e.category, c),
    }
}

/// The entries of `v` that `q` admits.
fn select_entries(v: &Vec<ClipboardEntry>, q: &Filter) -> (r: Vec<ClipboardEntry>)
    ensures
        entry_views(r@) == select(entry_views(v@), q@),
{
    let ghost s = entry_views(v@);
    let mut out: Vec<ClipboardEntry> = Vec::new();
    let mut i: usize = 0;
    assert(s.take(0) =~= Seq::<EntryView>::empty());
    assert(entry_views(out@) =~= Seq::<EntryView>::empty());
    while i < v.len()
        invariant
            i <= v@.len(),
            s == entry_views(v@),
            entry_views(out@) == select(s.take(i as int), q@),
        decreases v@.len() - i,
    {
        let ghost t = s.take(i + 1);
        assert(t.drop_last() =~= s.take(i as int));
        assert(t.last() == v@[i as int]@);
        if admits_entry(q, &v[i]) {
            let ghost before = out@;
            out.push(v[i].duplicate());
            assert(entry_views(out@) =~= entry_views(before).push(v@[i as int]@));
        }
        i = i + 1;
    }
    assert(s.take(v@.len() as int) =~= s);
    out
}

/// At most `limit` entries of `v` after the first `offset`.
fn page_of(v: &Vec<ClipboardEntry>, limit: usize, offset: usize) -> (r: Vec<ClipboardEntry>)
    ensures
        entry_views(r@) == page(entry_views(v@), limit as nat, offset as nat),
{
    let ghost s = entry_views(v@);
    let off: usize = if (offset as u64) > (i64::MAX as u64) {
        0
    } else {
        offset
    };
    let mut out: Vec<ClipboardEntry> = Vec::new();
    if off >= v.len() {
        assert(entry_views(out@) =~= page(s, limit as nat, offset as nat));
        return out;
    }
    let mut j: usize = off;
    assert(entry_views(out@) =~= s.subrange(off as int, off as int));
    while j < v.len() && out.len() < limit
        invariant
            off <= j <= v@.len(),
            s == entry_views(v@),
            out@.len() == j - off,
            out@.len() <= limit,
            entry_views(out@) == s.subrange(off as int, j as int),
        decreases v@.len() - j,
    {
        let ghost before = out@;
        out.push(v[j].duplicate());
        assert(entry_views(out@) =~= s.subrange(off as int, j + 1));
        j = j + 1;
    }
    assert(entry_views(out@) =~= page(s, limit as nat, offset as nat));
    out
}

/// Stored files of all entries of `v`, in order.
fn stored_files_of(v: &Vec<ClipboardEntry>) -> (r: Vec<String>)
    ensures
        string_views(r@) == stored_files(entry_views(v@)),
{
    let ghost s = entry_views(v@);
    let mut out: Vec<String> = Vec::new();
    let mut i: usize = 0;
    assert(s.take(0) =~= Seq::<EntryView>::empty());
    assert(string_views(out@) =~= Seq::<Seq<char>>::empty());
    while i < v.len()
        invariant
            i <= v@.len(),
            s == entry_views(v@),
            string_views(out@) == stored_files(s.take(i as int)),
        decreases v@.len() - i,
    {
        let ghost t = s.take(i + 1);
        assert(t.drop_last() =~= s.take(i as int));
        assert(t.last() == v@[i as int]@);
        match &v[i].content_path {
            Some(p) => {
                let ghost before = out@;
                out.push(p.clone());
                assert(string_views(out@) =~= string_views(before).push(p@));
            },
            None => {},
        }
        i = i + 1;
    }
    assert(s.take(v@.len() as int) =~= s);
    out
}

/// `fuzzy_match` of the `fuzzy-matcher` crate's default `SkimMatcherV2`.
/// Trusted to return the skim score of `pattern` against `choice`, a value
/// that depends on the two strings alone (the matcher's caches are scratch
/// space), and `Some(0)` for an empty pattern, as its source does first.
#[verifier::external_body]
fn fuzzy_score(choice: &str, pattern: &str) -> (r: Option<i64>)
    ensures
        r == fuzzy_score_of(choice@, pattern@),
        pattern@.len() == 0 ==> r == Some(0i64),
{
    fuzzy_matcher::skim::SkimMatcherV2::default().fuzzy_match(choice, pattern)
}

pub open spec fn pair_views(v: Seq<(ClipboardEntry, i64)>) -> Seq<(EntryView, i64)> {
    v.map_values(|p: (ClipboardEntry, i64)| (p.0@, p.1))
}

fn score_slot_in(v: &Vec<(ClipboardEntry, i64)>, sc: i64) -> (r: usize)
    ensures
        r == score_slot(pair_views(v@), sc),
        r <= v@.len(),
{
    let mut i: usize = 0;
    while i < v.len() && v[i].1 >= sc
        invariant
            i <= v@.len(),
            forall|k: int| 0 <= k < i ==> v@[k].1 >= sc,
        decreases v@.len() - i,
    {
        i = i + 1;
    }
    proof {
        lemma_score_slot_unique(pair_views(v@), sc, i as int);
    }
    i
}

/// The `limit` best-scoring entries of `entries`, best first, entries of
/// equal score in their listed order; `scores[i]` is the score of
/// `entries[i]`, `None` leaving it out.
pub fn rank_matches(entries: &Vec<ClipboardEntry>, scores: &Vec<Option<i64>>, limit: usize) -> (r: Vec<
    ClipboardEntry,
>)
    requires
        entries@.len() == scores@.len(),
    ensures
        entry_views(r@) == top(entry_views(entries@), scores@, limit as nat),
{
    let ghost s = entry_views(entries@);
    let mut order: Vec<(ClipboardEntry, i64)> = Vec::new();
    let mut i: usize = 0;
    assert(s.take(0) =~= Seq::<EntryView>::empty());
    assert(pair_views(order@) =~= Seq::<(EntryView, i64)>::empty());
    while i < entries.len()
        invariant
            i <= entries@.len(),
            entries@.len() == scores@.len(),
            s == entry_views(entries@),
            pair_views(order@) == ranked(scored(s.take(i as int), scores@.take(i as int))),
        decreases entries@.len() - i,
    {
        let ghost t = s.take(i + 1);
        let ghost u = scores@.take(i + 1);
        assert(t.drop_last() =~= s.take(i as int));
        assert(u.drop_last() =~= scores@.take(i as int));
        assert(t.last() == entries@[i as int]@);
        match scores[i] {
            Some(k) => {
                let pos = score_slot_in(&order, k);
                let ghost before = order@;
                let item = (entries[i].duplicate(), k);
                order.insert(pos, item);
                proof {
                    let pv = pair_views(before);
                    pv.insert_ensures(pos as int, (item.0@, k));
                    assert(pair_views(order@) =~= pv.insert(pos as int, (item.0@, k)));
                    assert(scored(t, u) == scored(s.take(i as int), scores@.take(i as int)).push(
                        (t.last(), k),
                    ));
                    assert(scored(t, u).drop_last() =~= scored(s.take(i as int), scores@.take(i as int)));
                }
            },
            None => {},
        }
        i = i + 1;
    }
    assert(s.take(entries@.len() as int) =~= s);
    assert(scores@.take(entries@.len() as int) =~= scores@);
    let ghost ranking = ranked(scored(s, scores@));
    let mut out: Vec<ClipboardEntry> = Vec::new();
    let mut j: usize = 0;
    assert(entry_views(out@) =~= firsts(ranking).take(0));
    while j < order.len() && j < limit
        invariant
            j <= order@.len(),
            j <= limit,
            pair_views(order@) == ranking,
            entry_views(out@) == firsts(ranking).take(j as int),
        decreases order@.len() - j,
    {
        let ghost before = out@;
        out.push(order[j].0.duplicate());
        assert(pair_views(order@)[j as int] == (order@[j as int].0@, order@[j as int].1));
        assert(firsts(ranking)[j as int] == ranking[j as int].0);
        assert(firsts(ranking).len() == ranking.len());
        assert(entry_views(out@) =~= entry_views(before).push(order@[j as int].0@));
        assert(entry_views(out@) =~= firsts(ranking).take(j + 1));
        j = j + 1;
    }
    assert(entry_views(out@) =~= top(s, scores@, limit as nat));
    out
}

fn cat_slot_in(c: &Vec<Category>, name: &str) -> (r: usize)
    ensures
        r == cat_slot(category_views(c@), name@),
        r <= c@.len(),
{
    let ghost cv = category_views(c@);
    let mut i: usize = 0;
    while i < c.len() && text_less(c[i].name.as_str(), name)
        invariant
            i <= c@.len(),
            cv == category_views(c@),
            forall|k: int| 0 <= k < i ==> text_lt(cv[k].name, name@),
        decreases c@.len() - i,
    {
        assert(cv[i as int] == c@[i as int]@);
        i = i + 1;
    }
    proof {
        if i < c@.len() {
            assert(cv[i as int] == c@[i as int]@);
        }
        lemma_cat_slot_unique(cv, name@, i as int);
    }
    i
}

pub open spec fn result_id(r: Result<i64, StoreError>) -> Result<int, StoreError> {
    match r {
        Ok(i) => Ok(i as int),
        Err(e) => Err(e),
    }
}

pub open spec fn category_tuples(v: Seq<(i64, String, Option<String>)>) -> Seq<CategoryView> {
    v.map_values(
        |t: (i64, String, Option<String>)|
            CategoryView { id: t.0 as int, name: t.1@, color: t.2.deep_view() },
    )
}

pub open spec fn count_pairs(v: Seq<(String, usize)>) -> Seq<(Seq<char>, nat)> {
    v.map_values(|p: (String, usize)| (p.0@, p.1 as nat))
}

/// Inserts `x` into the strictly ordered `v` unless it is there already.
fn add_distinct(v: &mut Vec<String>, x: &String)
    requires
        strictly_ordered(string_views(old(v)@)),
    ensures
        strictly_ordered(string_views(final(v)@)),
        forall|y: Seq<char>| string_views(final(v)@).contains(y) <==> (string_views(old(v)@).contains(y)
            || y == x@),
{
    let ghost w = string_views(v@);
    let mut i: usize = 0;
    while i < v.len() && text_less(v[i].as_str(), x.as_str())
        invariant
            i <= v@.len(),
            w == string_views(v@),
            forall|k: int| 0 <= k < i ==> text_lt(w[k], x@),
        decreases v@.len() - i,
    {
        i = i + 1;
    }
    if i < v.len() && text_eq(v[i].as_str(), x.as_str()) {
        assert(w[i as int] == v@[i as int]@);
        assert(w[i as int] == x@);
        return;
    }
    proof {
        if i < w.len() {
            lemma_text_order(w[i as int], x@, x@);
        }
    }
    v.insert(i, x.clone());
    proof {
        assert(string_views(v@) =~= w.insert(i as int, x@));
        crate::model::lemma_insert_ordered(w, i as int, x@);
        assert forall|y: Seq<char>| #[trigger] string_views(v@).contains(y) <==> (w.contains(y) || y
            == x@) by {
            assert(w.insert(i as int, x@).contains(y) <==> (w.contains(y) || y == x@));
        }
    }
}

/// The clipboard history.
pub struct Store {
    entries: Vec<ClipboardEntry>,
    categories: Vec<Category>,
    last_entry_id: i64,
    last_category_id: i64,
    max_entries: usize,
    max_image_entries: usize,
    images_dir: Option<String>,
    discarded: Vec<String>,
}

impl View for Store {
    type V = StoreView;

    closed spec fn view(&self) -> StoreView {
        StoreView {
            entries: entry_views(self.entries@),
            categories: category_views(self.categories@),
            last_entry_id: self.last_entry_id as int,
            last_category_id: self.last_category_id as int,
            max_entries: self.max_entries as nat,
            max_image_entries: self.max_image_entries as nat,
            images_dir: self.images_dir.deep_view(),
            discarded: string_views(self.discarded@),
        }
    }
}

impl Store {
    /// The store's invariant.
    pub open spec fn wf(&self) -> bool {
        self@.valid()
    }

    /// An existing entry moves to time `now`.
    fn refresh_at(&mut self, i: usize, now: i64) -> (r: Result<ClipboardEntry, StoreError>)
        requires
            old(self).wf(),
            i < old(self)@.entries.len(),
        ensures
            final(self).wf(),
            (final(self)@, result_view(r)) == old(self)@.refresh(i as int, now as int),
    {
        let ghost s0 = self@.entries;
        let ghost old_vec = self.entries@;
        proof {
            lemma_views_remove(self.entries@, i as int);
        }
        let mut e = self.entries.remove(i);
        assert(s0[i as int] == old_vec[i as int]@);
        assert(e@ == s0[i as int]);
        e.timestamp = now;
        let out = e.duplicate();
        let k = slot_in(&self.entries, now);
        let ghost ev = e@;
        proof {
            lemma_views_insert(self.entries@, k as int, e);
        }
        self.entries.insert(k, e);
        proof {
            lemma_remove_valid(s0, i as int, self.last_entry_id as int);
            let r = s0.remove(i as int);
            assert forall|k2: int| 0 <= k2 < r.len() implies r[k2].hash != ev.hash && r[k2].id
                != ev.id by {
                let j = if k2 < i { k2 } else { k2 + 1 };
                assert(r[k2] == s0[j]);
            }
            lemma_place_distinct(r, ev, self.last_entry_id as int);
        }
        Ok(out)
    }

    /// Records a text entry at time `now` (nanoseconds since the epoch).
    /// An entry with the same content is moved to `now` instead; a new
    /// entry evicts the oldest non-favorite non-image entries past
    /// `max_entries`.
    pub fn insert(&mut self, content: &str, content_type: &str, source: Option<&str>, now: i64) -> (r:
        Result<ClipboardEntry, StoreError>)
        requires
            old(self).wf(),
        ensures
            final(self).wf(),
            (final(self)@, result_view(r)) == old(self)@.insert_text(
                content@,
                content_type@,
                source.deep_view(),
                now as int,
            ),
    {
        let h = hash_text(content);
        match index_of_hash(&self.entries, h.as_str()) {
            Some(i) => {
                proof {
                    lemma_find_hash(self@.entries, h@);
                }
                self.refresh_at(i, now)
            },
            None => {
                if self.last_entry_id == i64::MAX {
                    return Err(StoreError::IdsExhausted);
                }
                let ghost old_view = self@;
                let e = ClipboardEntry {
                    id: self.last_entry_id + 1,
                    content: content.to_owned(),
                    content_type: content_type.to_owned(),
                    source: own_opt(source),
                    hash: h.clone(),
                    timestamp: now,
                    favorite: false,
                    content_path: None,
                    mime_type: None,
                    category: None,
                    thumb_path: None,
                };
                let ghost ev = e@;
                let k = slot_in(&self.entries, now);
                proof {
                    lemma_views_insert(self.entries@, k as int, e);
                }
                self.entries.insert(k, e);
                proof {
                    let s0 = old_view.entries;
                    lemma_find_hash(s0, ev.hash);
                    lemma_place_distinct(s0, ev, self.last_entry_id + 1);
                }
                let ghost placed = entry_views(self.entries@);
                let (kept_v, _files) = evict(&self.entries, false, self.max_entries);
                proof {
                    lemma_kept_valid(
                        placed,
                        false,
                        self.max_entries as nat,
                        self.last_entry_id + 1,
                    );
                }
                self.entries = kept_v;
                self.last_entry_id = self.last_entry_id + 1;
                let found = index_of_hash(&self.entries, h.as_str());
                proof {
                    lemma_find_hash(self@.entries, ev.hash);
                }
                match found {
                    Some(j) => Ok(self.entries[j].duplicate()),
                    None => Err(StoreError::MissingAfterInsert),
                }
            },
        }
    }

    /// Records an image entry at time `now`. Its bytes are expected at
    /// [`Store::image_path_for`]; an entry with the same bytes is moved to
    /// `now` instead; a new entry evicts the oldest non-favorite images past
    /// `max_image_entries`, whose files are discarded.
    pub fn insert_image(&mut self, data: &[u8], mime_type: &str, source: Option<&str>, now: i64) -> (r:
        Result<ClipboardEntry, StoreError>)
        requires
            old(self).wf(),
        ensures
            final(self).wf(),
            (final(self)@, result_view(r)) == old(self)@.insert_image(
                data@,
                mime_type@,
                source.deep_view(),
                now as int,
            ),
    {
        let h = hash_bytes(data);
        match index_of_hash(&self.entries, h.as_str()) {
            Some(i) => {
                proof {
                    lemma_find_hash(self@.entries, h@);
                }
                self.refresh_at(i, now)
            },
            None => {
                if self.last_entry_id == i64::MAX {
                    return Err(StoreError::IdsExhausted);
                }
                let ghost old_view = self@;
                let dir = match &self.images_dir {
                    Some(d) => Some(d.as_str()),
                    None => None,
                };
                let path = image_path(dir, h.as_str(), mime_type);
                let thumb = derive_thumb_path(path.as_str());
                let e = ClipboardEntry {
                    id: self.last_entry_id + 1,
                    content: String::new(),
                    content_type: "image".to_owned(),
                    source: own_opt(source),
                    hash: h.clone(),
                    timestamp: now,
                    favorite: false,
                    content_path: Some(path),
                    mime_type: Some(mime_type.to_owned()),
                    category: None,
                    thumb_path: thumb,
                };
                proof {
                    reveal_strlit("image");
                    assert(e@.content_type =~= image_kind());
                    assert(e@.content =~= Seq::<char>::empty());
                }
                let ghost ev = e@;
                let k = slot_in(&self.entries, now);
                proof {
                    lemma_views_insert(self.entries@, k as int, e);
                }
                self.entries.insert(k, e);
                proof {
                    let s0 = old_view.entries;
                    lemma_find_hash(s0, ev.hash);
                    lemma_place_distinct(s0, ev, self.last_entry_id + 1);
                }
                let ghost placed = entry_views(self.entries@);
                let (kept_v, mut files) = evict(&self.entries, true, self.max_image_entries);
                proof {
                    lemma_kept_valid(placed, true, self.max_image_entries as nat, self.last_entry_id + 1);
                }
                self.entries = kept_v;
                self.last_entry_id = self.last_entry_id + 1;
                let ghost d0 = self.discarded@;
                let ghost f0 = files@;
                self.discarded.append(&mut files);
                assert(string_views(self.discarded@) =~= string_views(d0) + string_views(f0));
                let found = index_of_hash(&self.entries, h.as_str());
                proof {
                    lemma_find_hash(self@.entries, ev.hash);
                }
                match found {
                    Some(j) => Ok(self.entries[j].duplicate()),
                    None => Err(StoreError::MissingAfterInsert),
                }
            },
        }
    }

    /// Where the bytes of an image with `data` and `mime_type` are kept.
    pub fn image_path_for(&self, data: &[u8], mime_type: &str) -> (r: String)
        ensures
            r@ == crate::paths::image_path_of(
                self@.images_dir,
                crate::digest::digest_hex(data@),
                mime_type@,
            ),
    {
        let h = hash_bytes(data);
        let dir = match &self.images_dir {
            Some(d) => Some(d.as_str()),
            None => None,
        };
        image_path(dir, h.as_str(), mime_type)
    }

    /// The entry with hash `hash`.
    pub fn get_by_hash(&self, hash: &str) -> (r: Option<ClipboardEntry>)
        ensures
            r.deep_view_entry() == self@.get_by_hash(hash@),
    {
        let found = index_of_hash(&self.entries, hash);
        proof {
            lemma_find_hash(self@.entries, hash@);
        }
        match found {
            Some(i) => Some(self.entries[i].duplicate()),
            None => None,
        }
    }

    /// The entry with id `id`.
    pub fn get_by_id(&self, id: i64) -> (r: Option<ClipboardEntry>)
        ensures
            r.deep_view_entry() == self@.get_by_id(id as int),
    {
        let found = index_of_id(&self.entries, id);
        proof {
            lemma_find_id(self@.entries, id as int);
        }
        match found {
            Some(i) => Some(self.entries[i].duplicate()),
            None => None,
        }
    }

    /// Entries that `q` admits, newest first: at most `limit`, after
    /// skipping `offset`.
    pub fn list_selected(&self, q: &Filter, limit: usize, offset: usize) -> (r: Vec<ClipboardEntry>)
        ensures
            entry_views(r@) == self@.list(q@, limit as nat, offset as nat),
    {
        let all = select_entries(&self.entries, q);
        page_of(&all, limit, offset)
    }

    /// Newest entries first: at most `limit`, after skipping `offset`.
    pub fn list(&self, limit: usize, offset: usize) -> (r: Vec<ClipboardEntry>)
        ensures
            entry_views(r@) == self@.list(Select::All, limit as nat, offset as nat),
    {
        self.list_selected(&Filter::All, limit, offset)
    }

    /// Entries of content type `content_type`, newest first.
    pub fn list_by_type(&self, content_type: &str, limit: usize, offset: usize) -> (r: Vec<
        ClipboardEntry,
    >)
        ensures
            entry_views(r@) == self@.list(Select::Kind(content_type@), limit as nat, offset as nat),
    {
        self.list_selected(&Filter::Kind(content_type.to_owned()), limit, offset)
    }

    /// Entries copied from `source`, newest first.
    pub fn list_by_source(&self, source: &str, limit: usize, offset: usize) -> (r: Vec<ClipboardEntry>)
        ensures
            entry_views(r@) == self@.list(Select::Source(source@), limit as nat, offset as nat),
    {
        self.list_selected(&Filter::Source(source.to_owned()), limit, offset)
    }

    /// Entries in category `category`, newest first.
    pub fn list_by_category(&self, category: &str, limit: usize, offset: usize) -> (r: Vec<
        ClipboardEntry,
    >)
        ensures
            entry_views(r@) == self@.list(Select::Category(category@), limit as nat, offset as nat),
    {
        self.list_selected(&Filter::Category(category.to_owned()), limit, offset)
    }

    /// Favorite entries, newest first.
    pub fn list_favorites(&self, limit: usize, offset: usize) -> (r: Vec<ClipboardEntry>)
        ensures
            entry_views(r@) == self@.list(Select::Favorites, limit as nat, offset as nat),
    {
        self.list_selected(&Filter::Favorites, limit, offset)
    }

    /// Entries of content type `content_type` in category `category`.
    pub fn list_by_type_and_category(
        &self,
        content_type: &str,
        category: &str,
        limit: usize,
        offset: usize,
    ) -> (r: Vec<ClipboardEntry>)
        ensures
            entry_views(r@) == self@.list(
                Select::KindAndCategory(content_type@, category@),
                limit as nat,
                offset as nat,
            ),
    {
        self.list_selected(
            &Filter::KindAndCategory(content_type.to_owned(), category.to_owned()),
            limit,
            offset,
        )
    }

    /// Number of entries of content type `content_type`.
    pub fn count_by_type(&self, content_type: &str) -> (r: usize)
        ensures
            r == count_where(self@.entries, Select::Kind(content_type@)),
    {
        select_entries(&self.entries, &Filter::Kind(content_type.to_owned())).len()
    }

    /// Number of entries.
    pub fn count(&self) -> (r: usize)
        ensures
            r == self@.entries.len(),
    {
        self.entries.len()
    }

    /// Entry counts as `(total, text, image, favorites)`.
    pub fn type_counts(&self) -> (r: (usize, usize, usize, usize))
        ensures
            (r.0 as nat, r.1 as nat, r.2 as nat, r.3 as nat) == self@.type_counts(),
    {
        let total = self.entries.len();
        let text = self.count_by_type("text");
        let image = self.count_by_type("image");
        let fav = select_entries(&self.entries, &Filter::Favorites).len();
        proof {
            reveal_strlit("text");
            reveal_strlit("image");
            assert("text"@ =~= text_kind());
            assert("image"@ =~= image_kind());
        }
        (total, text, image, fav)
    }

    /// Flips the favorite flag of entry `id` and answers the new flag;
    /// false when there is no such entry.
    pub fn toggle_favorite(&mut self, id: i64) -> (r: bool)
        requires
            old(self).wf(),
        ensures
            final(self).wf(),
            (final(self)@, r) == old(self)@.toggle_favorite(id as int),
    {
        let found = index_of_id(&self.entries, id);
        proof {
            lemma_find_id(self@.entries, id as int);
        }
        match found {
            Some(i) => {
                let ghost s0 = self@.entries;
                let mut e = self.entries[i].duplicate();
                e.favorite = !e.favorite;
                let f = e.favorite;
                let ghost ev = e@;
                self.entries.set(i, e);
                proof {
                    assert(entry_views(self.entries@) =~= s0.update(i as int, ev));
                    lemma_update_valid(s0, i as int, ev, self.last_entry_id as int);
                }
                f
            },
            None => false,
        }
    }

    /// Puts entry `id` in `category` (or in none).
    pub fn set_category(&mut self, id: i64, category: Option<&str>)
        requires
            old(self).wf(),
        ensures
            final(self).wf(),
            final(self)@ == old(self)@.set_category(id as int, category.deep_view()),
    {
        let found = index_of_id(&self.entries, id);
        proof {
            lemma_find_id(self@.entries, id as int);
        }
        match found {
            Some(i) => {
                let ghost s0 = self@.entries;
                let mut e = self.entries[i].duplicate();
                e.category = own_opt(category);
                let ghost ev = e@;
                self.entries.set(i, e);
                proof {
                    assert(entry_views(self.entries@) =~= s0.update(i as int, ev));
                    lemma_update_valid(s0, i as int, ev, self.last_entry_id as int);
                }
            },
            None => {},
        }
    }

    /// Removes entry `id`; its stored file is discarded.
    pub fn delete(&mut self, id: i64) -> (r: Result<(), StoreError>)
        requires
            old(self).wf(),
        ensures
            final(self).wf(),
            (final(self)@, r) == old(self)@.delete(id as int),
    {
        let found = index_of_id(&self.entries, id);
        proof {
            lemma_find_id(self@.entries, id as int);
        }
        match found {
            Some(i) => {
                let ghost s0 = self@.entries;
                let ghost d0 = self@.discarded;
                proof {
                    lemma_views_remove(self.entries@, i as int);
                    lemma_remove_valid(s0, i as int, self.last_entry_id as int);
                }
                let e = self.entries.remove(i);
                assert(e@ == s0[i as int]);
                match e.content_path {
                    Some(p) => {
                        let ghost pv = p@;
                        self.discarded.push(p);
                        assert(string_views(self.discarded@) =~= d0 + seq![pv]);
                    },
                    None => {
                        assert(string_views(self.discarded@) =~= d0 + Seq::<Seq<char>>::empty());
                    },
                }
                Ok(())
            },
            None => Err(StoreError::NotFound),
        }
    }

    /// Removes every entry; their stored files are discarded.
    pub fn clear(&mut self)
        requires
            old(self).wf(),
        ensures
            final(self).wf(),
            final(self)@ == old(self)@.clear(),
    {
        let mut files = stored_files_of(&self.entries);
        let ghost d0 = self@.discarded;
        let ghost f0 = files@;
        self.discarded.append(&mut files);
        assert(string_views(self.discarded@) =~= d0 + string_views(f0));
        self.entries = Vec::new();
        assert(entry_views(self.entries@) =~= Seq::<EntryView>::empty());
    }

    /// Updates the caps; they take effect on the next insert.
    pub fn set_limits(&mut self, max_entries: usize, max_image_entries: usize)
        requires
            old(self).wf(),
        ensures
            final(self).wf(),
            final(self)@ == (StoreView {
                max_entries: max_entries as nat,
                max_image_entries: max_image_entries as nat,
                ..old(self)@
            }),
    {
        self.max_entries = max_entries;
        self.max_image_entries = max_image_entries;
    }

    /// The image file of entry `id`, when it is an image with one.
    pub fn image_file(&self, id: i64) -> (r: Option<String>)
        ensures
            r.deep_view() == self@.image_file(id as int),
    {
        match self.get_by_id(id) {
            Some(e) => {
                if is_image_kind(e.content_type.as_str()) {
                    e.content_path
                } else {
                    None
                }
            },
            None => None,
        }
    }

    /// The thumbnail file to look for beside the image of entry `id`.
    pub fn thumbnail_file(&self, id: i64) -> (r: Option<String>)
        ensures
            r.deep_view() == match self@.image_file(id as int) {
                Some(p) => thumbnail_lookup_of(p),
                None => None,
            },
    {
        match self.image_file(id) {
            Some(p) => thumbnail_lookup(p.as_str()),
            None => None,
        }
    }

    /// Hands over the files that belong to no entry any more, for removal.
    pub fn take_discarded(&mut self) -> (r: Vec<String>)
        requires
            old(self).wf(),
        ensures
            final(self).wf(),
            string_views(r@) == old(self)@.discarded,
            final(self)@ == (StoreView { discarded: Seq::empty(), ..old(self)@ }),
    {
        let mut out: Vec<String> = Vec::new();
        std::mem::swap(&mut out, &mut self.discarded);
        assert(string_views(self.discarded@) =~= Seq::<Seq<char>>::empty());
        out
    }

    /// Entries whose content fuzzily matches `query`, best match first,
    /// equally good matches newest first, at most `limit`.
    pub fn search(&self, query: &str, limit: usize) -> (r: Vec<ClipboardEntry>)
        ensures
            entry_views(r@) == self@.search(query@, limit as nat),
            query@.len() == 0 ==> entry_views(r@) == self@.list(Select::All, limit as nat, 0),
    {
        let mut scores: Vec<Option<i64>> = Vec::new();
        let mut i: usize = 0;
        while i < self.entries.len()
            invariant
                i <= self.entries@.len(),
                scores@.len() == i,
                forall|k: int| 0 <= k < i ==> scores@[k] == fuzzy_score_of(self@.entries[k].content, query@),
                query@.len() == 0 ==> forall|k: int| 0 <= k < i ==> scores@[k] == Some(0i64),
            decreases self.entries@.len() - i,
        {
            let sc = fuzzy_score(self.entries[i].content.as_str(), query);
            assert(self@.entries[i as int] == self.entries@[i as int]@);
            scores.push(sc);
            i = i + 1;
        }
        assert(scores@ =~= self@.scores(query@));
        proof {
            if query@.len() == 0 {
                crate::model::lemma_top_all_zero(self@.entries, scores@, limit as nat);
                crate::model::lemma_select_all(self@.entries);
            }
        }
        rank_matches(&self.entries, &scores, limit)
    }

    /// Adds category `name` with `color`; answers its id.
    pub fn create_category(&mut self, name: &str, color: Option<&str>) -> (r: Result<i64, StoreError>)
        requires
            old(self).wf(),
        ensures
            final(self).wf(),
            (final(self)@, result_id(r)) == old(self)@.create_category(name@, color.deep_view()),
    {
        let ghost c0 = self@.categories;
        let i = cat_slot_in(&self.categories, name);
        proof {
            lemma_slot_decides(c0, name@, self.last_category_id as int);
        }
        if i < self.categories.len() && text_eq(self.categories[i].name.as_str(), name) {
            assert(c0[i as int] == self.categories@[i as int]@);
            return Err(StoreError::DuplicateCategory);
        }
        if i < self.categories.len() {
            assert(c0[i as int] == self.categories@[i as int]@);
        }
        if self.last_category_id == i64::MAX {
            return Err(StoreError::IdsExhausted);
        }
        let id = self.last_category_id + 1;
        let c = Category { id, name: name.to_owned(), color: own_opt(color) };
        let ghost cv = c@;
        proof {
            lemma_insert_category(c0, cv, self.last_category_id as int, id as int);
        }
        self.categories.insert(i, c);
        assert(category_views(self.categories@) =~= c0.insert(i as int, cv));
        self.last_category_id = id;
        Ok(id)
    }

    /// Removes category `name` and takes it off every entry.
    pub fn delete_category(&mut self, name: &str)
        requires
            old(self).wf(),
        ensures
            final(self).wf(),
            final(self)@ == old(self)@.delete_category(name@),
    {
        let ghost s0 = self@.entries;
        let mut out: Vec<ClipboardEntry> = Vec::new();
        let mut i: usize = 0;
        while i < self.entries.len()
            invariant
                i <= self.entries@.len(),
                s0 == entry_views(self.entries@),
                entry_views(out@) == uncategorized(s0, name@).take(i as int),
            decreases self.entries@.len() - i,
        {
            let mut e = self.entries[i].duplicate();
            assert(e@ == s0[i as int]);
            let hit = match &e.category {
                Some(c) => text_eq(c.as_str(), name),
                None => false,
            };
            if hit {
                e.category = None;
            }
            let ghost before = out@;
            let ghost ev = e@;
            out.push(e);
            assert(entry_views(out@) =~= entry_views(before).push(ev));
            assert(entry_views(out@) =~= uncategorized(s0, name@).take(i + 1));
            i = i + 1;
        }
        assert(uncategorized(s0, name@).take(s0.len() as int) =~= uncategorized(s0, name@));
        proof {
            lemma_same_keys(s0, uncategorized(s0, name@), self.last_entry_id as int);
        }
        self.entries = out;
        let ghost c0 = self@.categories;
        proof {
            lemma_slot_decides(c0, name@, self.last_category_id as int);
        }
        let k = cat_slot_in(&self.categories, name);
        if k < self.categories.len() && text_eq(self.categories[k].name.as_str(), name) {
            assert(c0[k as int] == self.categories@[k as int]@);
            proof {
                lemma_remove_category(c0, k as int, self.last_category_id as int);
            }
            self.categories.remove(k);
            assert(category_views(self.categories@) =~= c0.remove(k as int));
        } else {
            if k < self.categories.len() {
                assert(c0[k as int] == self.categories@[k as int]@);
            }
        }
    }

    /// Categories as `(id, name, color)`, ordered by name.
    pub fn list_categories(&self) -> (r: Vec<(i64, String, Option<String>)>)
        ensures
            category_tuples(r@) == self@.categories,
    {
        let mut out: Vec<(i64, String, Option<String>)> = Vec::new();
        let mut i: usize = 0;
        while i < self.categories.len()
            invariant
                i <= self.categories@.len(),
                category_tuples(out@) == self@.categories.take(i as int),
            decreases self.categories@.len() - i,
        {
            let c = &self.categories[i];
            let ghost before = out@;
            out.push((c.id, c.name.clone(), copy_opt(&c.color)));
            assert(self@.categories[i as int] == self.categories@[i as int]@);
            assert(category_tuples(out@) =~= category_tuples(before).push(self@.categories[i as int]));
            assert(category_tuples(out@) =~= self@.categories.take(i + 1));
            i = i + 1;
        }
        assert(self@.categories.take(self@.categories.len() as int) =~= self@.categories);
        out
    }

    /// Every source that entries were copied from, once each, in byte order.
    pub fn list_sources(&self) -> (r: Vec<String>)
        ensures
            sources_of(self@.entries, string_views(r@)),
    {
        let ghost s = self@.entries;
        let mut out: Vec<String> = Vec::new();
        let mut i: usize = 0;
        assert(string_views(out@) =~= Seq::<Seq<char>>::empty());
        while i < self.entries.len()
            invariant
                i <= self.entries@.len(),
                s == entry_views(self.entries@),
                sources_of(s.take(i as int), string_views(out@)),
            decreases self.entries@.len() - i,
        {
            assert(s[i as int] == self.entries@[i as int]@);
            let ghost before = string_views(out@);
            match &self.entries[i].source {
                Some(src) => add_distinct(&mut out, src),
                None => {},
            }
            proof {
                let t = s.take(i + 1);
                assert forall|x: Seq<char>| string_views(out@).contains(x) <==> has_source(t, x) by {
                    if has_source(t, x) {
                        let j = choose|j: int| 0 <= j < t.len() && t[j].source == Some(x);
                        if j < i {
                            assert(s.take(i as int)[j] == t[j]);
                            assert(has_source(s.take(i as int), x));
                        }
                    }
                    if has_source(s.take(i as int), x) {
                        let j = choose|j: int| 0 <= j < i && s.take(i as int)[j].source == Some(x);
                        assert(t[j] == s.take(i as int)[j]);
                    }
                    if string_views(out@).contains(x) && !before.contains(x) {
                        assert(t[i as int] == s[i as int]);
                    }
                }
            }
            i = i + 1;
        }
        assert(s.take(s.len() as int) =~= s);
        out
    }

    /// Every category in use, once each in byte order, with its entry count.
    pub fn count_by_category(&self) -> (r: Vec<(String, usize)>)
        ensures
            category_counts_of(self@.entries, count_pairs(r@)),
    {
        let ghost s = self@.entries;
        let mut out: Vec<(String, usize)> = Vec::new();
        let mut i: usize = 0;
        assert(count_pairs(out@) =~= Seq::<(Seq<char>, nat)>::empty());
        while i < self.entries.len()
            invariant
                i <= self.entries@.len(),
                s == entry_views(self.entries@),
                category_counts_of(s.take(i as int), count_pairs(out@)),
                forall|k: int| 0 <= k < out@.len() ==> out@[k].1 <= i,
            decreases self.entries@.len() - i,
        {
            assert(s[i as int] == self.entries@[i as int]@);
            match &self.entries[i].category {
                Some(cat) => self.tally(&mut out, cat, i),
                None => {
                    proof {
                        crate::model::lemma_count_step_none(s, i as int, count_pairs(out@));
                    }
                },
            }
            i = i + 1;
        }
        assert(s.take(s.len() as int) =~= s);
        out
    }

    fn tally(&self, out: &mut Vec<(String, usize)>, cat: &String, i: usize)
        requires
            i < self.entries@.len(),
            i < usize::MAX,
            self@.entries[i as int].category == Some(cat@),
            category_counts_of(self@.entries.take(i as int), count_pairs(old(out)@)),
            forall|k: int| 0 <= k < old(out)@.len() ==> old(out)@[k].1 <= i,
        ensures
            category_counts_of(self@.entries.take(i + 1), count_pairs(final(out)@)),
            forall|k: int| 0 <= k < final(out)@.len() ==> final(out)@[k].1 <= i + 1,
    {
        let ghost s = self@.entries;
        let ghost w = count_pairs(out@);
        let mut j: usize = 0;
        while j < out.len() && text_less(out[j].0.as_str(), cat.as_str())
            invariant
                j <= out@.len(),
                w == count_pairs(out@),
                forall|k: int| 0 <= k < j ==> text_lt(w[k].0, cat@),
            decreases out@.len() - j,
        {
            j = j + 1;
        }
        if j < out.len() && text_eq(out[j].0.as_str(), cat.as_str()) {
            let n = out[j].1;
            assert(n <= i);
            let name = out[j].0.clone();
            out.set(j, (name, n + 1));
            proof {
                crate::model::lemma_count_step_hit(s, i as int, w, j as int);
                assert(count_pairs(out@) =~= w.update(j as int, (w[j as int].0, w[j as int].1 + 1)));
            }
        } else {
            proof {
                if j < w.len() {
                    lemma_text_order(w[j as int].0, cat@, cat@);
                }
                crate::model::lemma_count_step_new(s, i as int, w, j as int);
            }
            out.insert(j, (cat.clone(), 1));
            proof {
                w.insert_ensures(j as int, (cat@, 1nat));
                assert(count_pairs(out@) =~= w.insert(j as int, (cat@, 1nat)));
            }
        }
    }

    /// A store with no entries, the predefined categories, the given caps and
    /// images directory.
    pub fn open(max_entries: usize, max_image_entries: usize, images_dir: Option<String>) -> (r: Store)
        ensures
            r.wf(),
            r@ == StoreView::fresh(max_entries as nat, max_image_entries as nat, images_dir.deep_view())
                .ensure_category("Code"@, Some("#7aa2f7"@))
                .ensure_category("Design"@, Some("#bb9af7"@))
                .ensure_category("Links"@, Some("#73daca"@))
                .ensure_category("Notes"@, Some("#e0af68"@))
                .ensure_category("Sensitive"@, Some("#f7768e"@)),
    {
        let mut store = Store {
            entries: Vec::new(),
            categories: Vec::new(),
            last_entry_id: 0,
            last_category_id: 0,
            max_entries,
            max_image_entries,
            images_dir,
            discarded: Vec::new(),
        };
        assert(store@.entries =~= Seq::<EntryView>::empty());
        assert(store@.categories =~= Seq::<CategoryView>::empty());
        assert(store@.discarded =~= Seq::<Seq<char>>::empty());
        let _ = store.create_category("Code", Some("#7aa2f7"));
        let _ = store.create_category("Design", Some("#bb9af7"));
        let _ = store.create_category("Links", Some("#73daca"));
        let _ = store.create_category("Notes", Some("#e0af68"));
        let _ = store.create_category("Sensitive", Some("#f7768e"));
        store
    }

    /// Adds back an entry read from storage; ignored (false) when its hash
    /// or id is already present.
    pub fn restore_entry(&mut self, e: ClipboardEntry) -> (r: bool)
        requires
            old(self).wf(),
        ensures
            final(self).wf(),
            (final(self)@, r) == old(self)@.restore_entry(e@),
    {
        let ghost s0 = self@.entries;
        proof {
            lemma_find_hash(s0, e@.hash);
            lemma_find_id(s0, e@.id);
        }
        if index_of_hash(&self.entries, e.hash.as_str()).is_some() {
            return false;
        }
        if index_of_id(&self.entries, e.id).is_some() {
            return false;
        }
        let new_last = if e.id > self.last_entry_id {
            e.id
        } else {
            self.last_entry_id
        };
        let ghost ev = e@;
        let k = slot_in(&self.entries, e.timestamp);
        proof {
            lemma_views_insert(self.entries@, k as int, e);
            assert forall|j: int| 0 <= j < s0.len() implies s0[j].id <= new_last by {}
            lemma_place_distinct(s0, ev, new_last as int);
        }
        self.entries.insert(k, e);
        self.last_entry_id = new_last;
        true
    }

    /// Adds back a category read from storage; ignored (false) when its
    /// name or id is already present.
    pub fn restore_category(&mut self, c: Category) -> (r: bool)
        requires
            old(self).wf(),
        ensures
            final(self).wf(),
            (final(self)@, r) == old(self)@.restore_category(c@),
    {
        let ghost c0 = self@.categories;
        let i = cat_slot_in(&self.categories, c.name.as_str());
        proof {
            lemma_slot_decides(c0, c@.name, self.last_category_id as int);
        }
        if i < self.categories.len() && text_eq(self.categories[i].name.as_str(), c.name.as_str()) {
            assert(c0[i as int] == self.categories@[i as int]@);
            return false;
        }
        if i < self.categories.len() {
            assert(c0[i as int] == self.categories@[i as int]@);
        }
        let mut k: usize = 0;
        while k < self.categories.len()
            invariant
                k <= self.categories@.len(),
                self.wf(),
                self@ == old(self)@,
                c0 == category_views(self.categories@),
                forall|j: int| 0 <= j < k ==> c0[j].id != c.id,
            decreases self.categories@.len() - k,
        {
            assert(c0[k as int] == self.categories@[k as int]@);
            if self.categories[k].id == c.id {
                return false;
            }
            k = k + 1;
        }
        let new_last = if c.id > self.last_category_id {
            c.id
        } else {
            self.last_category_id
        };
        let ghost cv = c@;
        proof {
            lemma_insert_category(c0, cv, self.last_category_id as int, new_last as int);
        }
        self.categories.insert(i, c);
        assert(category_views(self.categories@) =~= c0.insert(i as int, cv));
        self.last_category_id = new_last;
        true
    }

    /// Raises the largest ids handed out so far, as read from storage.
    pub fn raise_last_ids(&mut self, entry_id: i64, category_id: i64)
        requires
            old(self).wf(),
        ensures
            final(self).wf(),
            final(self)@ == (StoreView {
                last_entry_id: if entry_id > old(self)@.last_entry_id {
                    entry_id as int
                } else {
                    old(self)@.last_entry_id
                },
                last_category_id: if category_id > old(self)@.last_category_id {
                    category_id as int
                } else {
                    old(self)@.last_category_id
                },
                ..old(self)@
            }),
    {
        if entry_id > self.last_entry_id {
            self.last_entry_id = entry_id;
        }
        if category_id > self.last_category_id {
            self.last_category_id = category_id;
        }
    }

    /// The largest ids handed out so far, `(entries, categories)`, for storage.
    pub fn last_ids(&self) -> (r: (i64, i64))
        ensures
            r.0 as int == self@.last_entry_id,
            r.1 as int == self@.last_category_id,
    {
        (self.last_entry_id, self.last_category_id)
    }
}

} // verus!
