//! The mathematical model of the clipboard history: entries newest first,
//! deduplicated by hash, with separate caps on ordinary and image entries
//! that never touch favorites.

use vstd::prelude::*;

use crate::digest::{digest_hex, text_digest};
use crate::paths::{image_path_of, thumb_path_of};
use crate::text::{bytes_lt, lemma_text_order, text_lt, utf8};

verus! {

/// One history entry, as plain mathematical values.
pub struct EntryView {
    pub id: int,
    pub content: Seq<char>,
    pub content_type: Seq<char>,
    pub source: Option<Seq<char>>,
    pub hash: Seq<char>,
    pub timestamp: int,
    pub favorite: bool,
    pub content_path: Option<Seq<char>>,
    pub mime_type: Option<Seq<char>>,
    pub category: Option<Seq<char>>,
    pub thumb_path: Option<Seq<char>>,
}

/// One category, as plain mathematical values.
pub struct CategoryView {
    pub id: int,
    pub name: Seq<char>,
    pub color: Option<Seq<char>>,
}

/// Why a store operation did not complete.
#[derive(Debug, Clone, Copy, PartialEq, Eq, Structural)]
pub enum StoreError {
    /// Every row id up to `i64::MAX` has been handed out.
    IdsExhausted,
    /// The entry was evicted again by the insert that created it.
    MissingAfterInsert,
    /// No entry has the requested id.
    NotFound,
    /// A category with that name already exists.
    DuplicateCategory,
}

/// The whole store.
pub struct StoreView {
    /// Entries, newest first.
    pub entries: Seq<EntryView>,
    /// Categories, ordered by name.
    pub categories: Seq<CategoryView>,
    /// Largest entry id ever handed out.
    pub last_entry_id: int,
    /// Largest category id ever handed out.
    pub last_category_id: int,
    pub max_entries: nat,
    pub max_image_entries: nat,
    pub images_dir: Option<Seq<char>>,
    /// Image files that belong to no entry any more and are to be removed.
    pub discarded: Seq<Seq<char>>,
}

pub open spec fn image_kind() -> Seq<char> {
    seq!['i', 'm', 'a', 'g', 'e']
}

pub open spec fn text_kind() -> Seq<char> {
    seq!['t', 'e', 'x', 't']
}

pub open spec fn i64_max() -> int {
    0x7fff_ffff_ffff_ffff
}

// ---------------------------------------------------------------------------
// Order and identity of entries
// ---------------------------------------------------------------------------

/// Newest first: timestamps never increase along the sequence.
pub open spec fn newest_first(s: Seq<EntryView>) -> bool {
    forall|i: int, j: int| 0 <= i < j < s.len() ==> s[i].timestamp >= s[j].timestamp
}

/// No two entries share a hash or an id, and no id exceeds `last_id`.
pub open spec fn distinct_entries(s: Seq<EntryView>, last_id: int) -> bool {
    &&& forall|i: int, j: int| 0 <= i < j < s.len() ==> s[i].hash != s[j].hash
    &&& forall|i: int, j: int| 0 <= i < j < s.len() ==> s[i].id != s[j].id
    &&& forall|i: int| 0 <= i < s.len() ==> s[i].id <= last_id
}

/// Categories ordered strictly by the bytes of their names (so names are
/// distinct), ids distinct and never above `last_id`.
pub open spec fn categories_ok(c: Seq<CategoryView>, last_id: int) -> bool {
    &&& forall|i: int, j: int| 0 <= i < j < c.len() ==> text_lt(c[i].name, c[j].name)
    &&& forall|i: int, j: int| 0 <= i < j < c.len() ==> c[i].id != c[j].id
    &&& forall|i: int| 0 <= i < c.len() ==> c[i].id <= last_id
}

impl StoreView {
    /// The store's invariant.
    pub open spec fn valid(self) -> bool {
        &&& newest_first(self.entries)
        &&& distinct_entries(self.entries, self.last_entry_id)
        &&& categories_ok(self.categories, self.last_category_id)
        &&& 0 <= self.last_entry_id <= i64_max()
        &&& 0 <= self.last_category_id <= i64_max()
    }
}

/// Number of leading entries strictly newer than `ts`: where an entry
/// stamped `ts` goes.
pub open spec fn slot_for(s: Seq<EntryView>, ts: int) -> nat
    decreases s.len(),
{
    if s.len() == 0 {
        0
    } else if s[0].timestamp > ts {
        1 + slot_for(s.drop_first(), ts)
    } else {
        0
    }
}

/// `e` placed among `s` by its timestamp, ahead of entries of equal age.
pub open spec fn place(s: Seq<EntryView>, e: EntryView) -> Seq<EntryView> {
    s.insert(slot_for(s, e.timestamp) as int, e)
}

/// Position of the first entry with hash `h`.
pub open spec fn find_hash(s: Seq<EntryView>, h: Seq<char>) -> Option<nat>
    decreases s.len(),
{
    if s.len() == 0 {
        None
    } else if s[0].hash == h {
        Some(0)
    } else {
        match find_hash(s.drop_first(), h) {
            Some(i) => Some(i + 1),
            None => None,
        }
    }
}

/// Position of the first entry with id `id`.
pub open spec fn find_id(s: Seq<EntryView>, id: int) -> Option<nat>
    decreases s.len(),
{
    if s.len() == 0 {
        None
    } else if s[0].id == id {
        Some(0)
    } else {
        match find_id(s.drop_first(), id) {
            Some(i) => Some(i + 1),
            None => None,
        }
    }
}

// ---------------------------------------------------------------------------
// Eviction
// ---------------------------------------------------------------------------

/// Entries that count against a cap: non-favorite images for the image cap,
/// non-favorite non-images for the other.
pub open spec fn evictable(e: EntryView, images: bool) -> bool {
    (e.content_type == image_kind()) == images && !e.favorite
}

pub open spec fn count_evictable(s: Seq<EntryView>, images: bool) -> nat
    decreases s.len(),
{
    if s.len() == 0 {
        0
    } else {
        count_evictable(s.drop_last(), images) + if evictable(s.last(), images) {
            1nat
        } else {
            0nat
        }
    }
}

/// `s` with every evictable entry past the first `cap` evictable ones
/// removed.
pub open spec fn kept(s: Seq<EntryView>, images: bool, cap: nat) -> Seq<EntryView>
    decreases s.len(),
{
    if s.len() == 0 {
        Seq::empty()
    } else if evictable(s.last(), images) && count_evictable(s.drop_last(), images) >= cap {
        kept(s.drop_last(), images, cap)
    } else {
        kept(s.drop_last(), images, cap).push(s.last())
    }
}

/// Stored files of the entries that `kept` removes, in order.
pub open spec fn evicted_files(s: Seq<EntryView>, images: bool, cap: nat) -> Seq<Seq<char>>
    decreases s.len(),
{
    if s.len() == 0 {
        Seq::empty()
    } else if evictable(s.last(), images) && count_evictable(s.drop_last(), images) >= cap {
        match s.last().content_path {
            Some(p) => evicted_files(s.drop_last(), images, cap).push(p),
            None => evicted_files(s.drop_last(), images, cap),
        }
    } else {
        evicted_files(s.drop_last(), images, cap)
    }
}

/// Stored files of all entries of `s`, in order.
pub open spec fn stored_files(s: Seq<EntryView>) -> Seq<Seq<char>>
    decreases s.len(),
{
    if s.len() == 0 {
        Seq::empty()
    } else {
        match s.last().content_path {
            Some(p) => stored_files(s.drop_last()).push(p),
            None => stored_files(s.drop_last()),
        }
    }
}

// ---------------------------------------------------------------------------
// Operations
// ---------------------------------------------------------------------------

impl StoreView {
    pub open spec fn with_entries(self, s: Seq<EntryView>) -> StoreView {
        StoreView { entries: s, ..self }
    }

    /// An existing entry with hash `h` is moved to time `now`.
    pub open spec fn refresh(self, i: int, now: int) -> (StoreView, Result<EntryView, StoreError>) {
        let e = EntryView { timestamp: now, ..self.entries[i] };
        (self.with_entries(place(self.entries.remove(i), e)), Ok(e))
    }

    /// The entry with hash `h` after an insert, if it is still there.
    pub open spec fn lookup_after_insert(self, h: Seq<char>) -> Result<EntryView, StoreError> {
        match find_hash(self.entries, h) {
            Some(j) => Ok(self.entries[j as int]),
            None => Err(StoreError::MissingAfterInsert),
        }
    }

    /// Recording a text.
    pub open spec fn insert_text(
        self,
        content: Seq<char>,
        content_type: Seq<char>,
        source: Option<Seq<char>>,
        now: int,
    ) -> (StoreView, Result<EntryView, StoreError>) {
        let h = text_digest(content);
        match find_hash(self.entries, h) {
            Some(i) => self.refresh(i as int, now),
            None => if self.last_entry_id >= i64_max() {
                (self, Err(StoreError::IdsExhausted))
            } else {
                let e = EntryView {
                    id: self.last_entry_id + 1,
                    content,
                    content_type,
                    source,
                    hash: h,
                    timestamp: now,
                    favorite: false,
                    content_path: None,
                    mime_type: None,
                    category: None,
                    thumb_path: None,
                };
                let placed = place(self.entries, e);
                let after = StoreView {
                    entries: kept(placed, false, self.max_entries),
                    last_entry_id: self.last_entry_id + 1,
                    ..self
                };
                (after, after.lookup_after_insert(h))
            },
        }
    }

    /// Recording an image.
    pub open spec fn insert_image(
        self,
        data: Seq<u8>,
        mime_type: Seq<char>,
        source: Option<Seq<char>>,
        now: int,
    ) -> (StoreView, Result<EntryView, StoreError>) {
        let h = digest_hex(data);
        match find_hash(self.entries, h) {
            Some(i) => self.refresh(i as int, now),
            None => if self.last_entry_id >= i64_max() {
                (self, Err(StoreError::IdsExhausted))
            } else {
                let path = image_path_of(self.images_dir, h, mime_type);
                let e = EntryView {
                    id: self.last_entry_id + 1,
                    content: Seq::empty(),
                    content_type: image_kind(),
                    source,
                    hash: h,
                    timestamp: now,
                    favorite: false,
                    content_path: Some(path),
                    mime_type: Some(mime_type),
                    category: None,
                    thumb_path: thumb_path_of(path),
                };
                let placed = place(self.entries, e);
                let after = StoreView {
                    entries: kept(placed, true, self.max_image_entries),
                    last_entry_id: self.last_entry_id + 1,
                    discarded: self.discarded + evicted_files(placed, true, self.max_image_entries),
                    ..self
                };
                (after, after.lookup_after_insert(h))
            },
        }
    }
}

// ---------------------------------------------------------------------------
// Reading, changing and removing entries
// ---------------------------------------------------------------------------

/// Which entries a listing shows.
pub enum Select {
    All,
    Favorites,
    Kind(Seq<char>),
    Source(Seq<char>),
    Category(Seq<char>),
    KindAndCategory(Seq<char>, Seq<char>),
}

pub open spec fn admits(q: Select, e: EntryView) -> bool {
    match q {
        Select::All => true,
        Select::Favorites => e.favorite,
        Select::Kind(t) => e.content_type == t,
        Select::Source(src) => e.source == Some(src),
        Select::Category(c) => e.category == Some(c),
        Select::KindAndCategory(t, c) => e.content_type == t && e.category == Some(c),
    }
}

/// The entries of `s` that `q` admits, in order.
pub open spec fn select(s: Seq<EntryView>, q: Select) -> Seq<EntryView>
    decreases s.len(),
{
    if s.len() == 0 {
        Seq::empty()
    } else if admits(q, s.last()) {
        select(s.drop_last(), q).push(s.last())
    } else {
        select(s.drop_last(), q)
    }
}

/// A page of `s`: at most `limit` items after the first `offset`. An offset
/// above `i64::MAX` counts as none, as the database took it.
pub open spec fn page<T>(s: Seq<T>, limit: nat, offset: nat) -> Seq<T> {
    let off: int = if offset > i64_max() { 0 } else { offset as int };
    if off >= s.len() {
        Seq::empty()
    } else if limit < s.len() - off {
        s.subrange(off, off + limit)
    } else {
        s.subrange(off, s.len() as int)
    }
}

/// Number of entries of `s` that `q` admits.
pub open spec fn count_where(s: Seq<EntryView>, q: Select) -> nat {
    select(s, q).len()
}

impl StoreView {
    pub open spec fn get_by_id(self, id: int) -> Option<EntryView> {
        match find_id(self.entries, id) {
            Some(i) => Some(self.entries[i as int]),
            None => None,
        }
    }

    pub open spec fn get_by_hash(self, h: Seq<char>) -> Option<EntryView> {
        match find_hash(self.entries, h) {
            Some(i) => Some(self.entries[i as int]),
            None => None,
        }
    }

    pub open spec fn list(self, q: Select, limit: nat, offset: nat) -> Seq<EntryView> {
        page(select(self.entries, q), limit, offset)
    }

    /// Flips the favorite flag of entry `id`; answers the flag afterwards
    /// (false when there is no such entry).
    pub open spec fn toggle_favorite(self, id: int) -> (StoreView, bool) {
        match find_id(self.entries, id) {
            Some(i) => {
                let e = EntryView { favorite: !self.entries[i as int].favorite, ..self.entries[i as int] };
                (self.with_entries(self.entries.update(i as int, e)), e.favorite)
            },
            None => (self, false),
        }
    }

    pub open spec fn set_category(self, id: int, category: Option<Seq<char>>) -> StoreView {
        match find_id(self.entries, id) {
            Some(i) => {
                let e = EntryView { category, ..self.entries[i as int] };
                self.with_entries(self.entries.update(i as int, e))
            },
            None => self,
        }
    }

    /// Removes entry `id`; its stored file, if any, is discarded.
    pub open spec fn delete(self, id: int) -> (StoreView, Result<(), StoreError>) {
        match find_id(self.entries, id) {
            Some(i) => {
                let e = self.entries[i as int];
                let files = match e.content_path {
                    Some(p) => seq![p],
                    None => Seq::empty(),
                };
                (
                    StoreView {
                        entries: self.entries.remove(i as int),
                        discarded: self.discarded + files,
                        ..self
                    },
                    Ok(()),
                )
            },
            None => (self, Err(StoreError::NotFound)),
        }
    }

    /// Removes every entry; all stored files are discarded.
    pub open spec fn clear(self) -> StoreView {
        StoreView {
            entries: Seq::empty(),
            discarded: self.discarded + stored_files(self.entries),
            ..self
        }
    }

    /// The stored image file of entry `id`, when it is an image that has one.
    pub open spec fn image_file(self, id: int) -> Option<Seq<char>> {
        match self.get_by_id(id) {
            Some(e) => if e.content_type == image_kind() {
                e.content_path
            } else {
                None
            },
            None => None,
        }
    }

    /// `(total, text, image, favorites)` entry counts.
    pub open spec fn type_counts(self) -> (nat, nat, nat, nat) {
        (
            self.entries.len(),
            count_where(self.entries, Select::Kind(text_kind())),
            count_where(self.entries, Select::Kind(image_kind())),
            count_where(self.entries, Select::Favorites),
        )
    }
}

// ---------------------------------------------------------------------------
// Search
// ---------------------------------------------------------------------------

/// How well `pattern` fuzzily matches `choice` by the skim algorithm of the
/// `fuzzy-matcher` crate; `None` when it does not match at all.
pub uninterp spec fn fuzzy_score_of(choice: Seq<char>, pattern: Seq<char>) -> Option<i64>;

/// Number of leading items scoring at least `sc`.
pub open spec fn score_slot(r: Seq<(EntryView, i64)>, sc: i64) -> nat
    decreases r.len(),
{
    if r.len() == 0 {
        0
    } else if r[0].1 >= sc {
        1 + score_slot(r.drop_first(), sc)
    } else {
        0
    }
}

/// Stable sort by descending score: each item goes after every earlier item
/// that scores at least as high.
pub open spec fn ranked(s: Seq<(EntryView, i64)>) -> Seq<(EntryView, i64)>
    decreases s.len(),
{
    if s.len() == 0 {
        Seq::empty()
    } else {
        let r = ranked(s.drop_last());
        r.insert(score_slot(r, s.last().1) as int, s.last())
    }
}

/// The entries that have a score, paired with it.
pub open spec fn scored(s: Seq<EntryView>, scores: Seq<Option<i64>>) -> Seq<(EntryView, i64)>
    decreases s.len(),
{
    if s.len() == 0 || scores.len() == 0 {
        Seq::empty()
    } else {
        let rest = scored(s.drop_last(), scores.drop_last());
        match scores.last() {
            Some(k) => rest.push((s.last(), k)),
            None => rest,
        }
    }
}

pub open spec fn firsts(s: Seq<(EntryView, i64)>) -> Seq<EntryView> {
    s.map_values(|p: (EntryView, i64)| p.0)
}

/// The `limit` best-scoring entries, best first, ties in their listing
/// order.
pub open spec fn top(s: Seq<EntryView>, scores: Seq<Option<i64>>, limit: nat) -> Seq<EntryView> {
    let r = firsts(ranked(scored(s, scores)));
    if limit < r.len() {
        r.take(limit as int)
    } else {
        r
    }
}

impl StoreView {
    /// Score of every entry against `query`.
    pub open spec fn scores(self, query: Seq<char>) -> Seq<Option<i64>> {
        Seq::new(self.entries.len(), |i: int| fuzzy_score_of(self.entries[i].content, query))
    }

    pub open spec fn search(self, query: Seq<char>, limit: nat) -> Seq<EntryView> {
        top(self.entries, self.scores(query), limit)
    }
}

pub proof fn lemma_score_slot(r: Seq<(EntryView, i64)>, sc: i64)
    ensures
        score_slot(r, sc) <= r.len(),
        forall|k: int| 0 <= k < score_slot(r, sc) ==> r[k].1 >= sc,
        score_slot(r, sc) < r.len() ==> r[score_slot(r, sc) as int].1 < sc,
    decreases r.len(),
{
    if r.len() > 0 {
        lemma_score_slot(r.drop_first(), sc);
        assert forall|k: int| 1 <= k < r.len() implies r[k] == r.drop_first()[k - 1] by {}
    }
}

pub proof fn lemma_score_slot_unique(r: Seq<(EntryView, i64)>, sc: i64, i: int)
    requires
        0 <= i <= r.len(),
        forall|k: int| 0 <= k < i ==> r[k].1 >= sc,
        i < r.len() ==> r[i].1 < sc,
    ensures
        score_slot(r, sc) == i,
    decreases r.len(),
{
    if r.len() > 0 && i > 0 {
        assert forall|k: int| 0 <= k < i - 1 implies r.drop_first()[k].1 >= sc by {
            assert(r.drop_first()[k] == r[k + 1]);
        }
        lemma_score_slot_unique(r.drop_first(), sc, i - 1);
    }
}

/// Search results come best first: scores never increase along the ranking.
pub proof fn lemma_ranked_sorted(s: Seq<(EntryView, i64)>)
    ensures
        ranked(s).len() == s.len(),
        forall|i: int, j: int| 0 <= i < j < ranked(s).len() ==> ranked(s)[i].1 >= ranked(s)[j].1,
    decreases s.len(),
{
    if s.len() > 0 {
        let r = ranked(s.drop_last());
        lemma_ranked_sorted(s.drop_last());
        let x = s.last();
        let k = score_slot(r, x.1) as int;
        lemma_score_slot(r, x.1);
        r.insert_ensures(k, x);
        let q = r.insert(k, x);
        assert forall|i: int, j: int| 0 <= i < j < q.len() implies q[i].1 >= q[j].1 by {
            if j < k {
            } else if j == k {
            } else if i < k {
                assert(q[j] == r[j - 1]);
                if j - 1 >= k {
                    assert(r[k].1 < x.1);
                }
            } else if i == k {
                assert(q[j] == r[j - 1]);
                assert(r[k].1 < x.1);
                assert(r[k].1 >= r[j - 1].1);
            } else {
                assert(q[i] == r[i - 1]);
                assert(q[j] == r[j - 1]);
            }
        }
    }
}

/// `s` with every entry scored zero.
pub open spec fn zero_scored(s: Seq<EntryView>) -> Seq<(EntryView, i64)> {
    s.map_values(|e: EntryView| (e, 0i64))
}

proof fn lemma_scored_zero(s: Seq<EntryView>, scores: Seq<Option<i64>>)
    requires
        scores.len() == s.len(),
        forall|k: int| 0 <= k < scores.len() ==> scores[k] == Some(0i64),
    ensures
        scored(s, scores) == zero_scored(s),
    decreases s.len(),
{
    if s.len() > 0 {
        lemma_scored_zero(s.drop_last(), scores.drop_last());
        assert(zero_scored(s.drop_last()).push((s.last(), 0i64)) =~= zero_scored(s));
    } else {
        assert(zero_scored(s) =~= Seq::<(EntryView, i64)>::empty());
    }
}

proof fn lemma_ranked_flat(r: Seq<(EntryView, i64)>)
    requires
        forall|k: int| 0 <= k < r.len() ==> r[k].1 == 0,
    ensures
        ranked(r) == r,
    decreases r.len(),
{
    if r.len() > 0 {
        let q = r.drop_last();
        lemma_ranked_flat(q);
        lemma_score_slot_unique(q, r.last().1, q.len() as int);
        assert(q.insert(q.len() as int, r.last()) =~= r);
    }
}

/// When every entry scores zero, the best `limit` are the first `limit`, in
/// listing order.
pub proof fn lemma_top_all_zero(s: Seq<EntryView>, scores: Seq<Option<i64>>, limit: nat)
    requires
        scores.len() == s.len(),
        forall|k: int| 0 <= k < scores.len() ==> scores[k] == Some(0i64),
    ensures
        top(s, scores, limit) == page(s, limit, 0),
{
    lemma_scored_zero(s, scores);
    lemma_ranked_flat(zero_scored(s));
    assert(firsts(zero_scored(s)) =~= s);
    if limit < s.len() {
        assert(s.take(limit as int) =~= s.subrange(0, limit as int));
    } else {
        assert(s.subrange(0, s.len() as int) =~= s);
    }
}

/// Every entry is admitted to the unfiltered listing.
pub proof fn lemma_select_all(s: Seq<EntryView>)
    ensures
        select(s, Select::All) == s,
    decreases s.len(),
{
    if s.len() > 0 {
        lemma_select_all(s.drop_last());
        assert(s.drop_last().push(s.last()) =~= s);
    } else {
        assert(s =~= Seq::<EntryView>::empty());
    }
}

// ---------------------------------------------------------------------------
// Categories
// ---------------------------------------------------------------------------

/// Number of leading categories whose names come before `name`.
pub open spec fn cat_slot(c: Seq<CategoryView>, name: Seq<char>) -> nat
    decreases c.len(),
{
    if c.len() == 0 {
        0
    } else if text_lt(c[0].name, name) {
        1 + cat_slot(c.drop_first(), name)
    } else {
        0
    }
}

/// Position of the category named `name`.
pub open spec fn find_category(c: Seq<CategoryView>, name: Seq<char>) -> Option<nat>
    decreases c.len(),
{
    if c.len() == 0 {
        None
    } else if c[0].name == name {
        Some(0)
    } else {
        match find_category(c.drop_first(), name) {
            Some(i) => Some(i + 1),
            None => None,
        }
    }
}

/// `s` with category `name` taken off every entry that has it.
pub open spec fn uncategorized(s: Seq<EntryView>, name: Seq<char>) -> Seq<EntryView> {
    Seq::new(
        s.len(),
        |i: int|
            if s[i].category == Some(name) {
                EntryView { category: None, ..s[i] }
            } else {
                s[i]
            },
    )
}

impl StoreView {
    /// Adds category `name`; names are unique.
    pub open spec fn create_category(self, name: Seq<char>, color: Option<Seq<char>>) -> (
        StoreView,
        Result<int, StoreError>,
    ) {
        if find_category(self.categories, name) is Some {
            (self, Err(StoreError::DuplicateCategory))
        } else if self.last_category_id >= i64_max() {
            (self, Err(StoreError::IdsExhausted))
        } else {
            let c = CategoryView { id: self.last_category_id + 1, name, color };
            (
                StoreView {
                    categories: self.categories.insert(cat_slot(self.categories, name) as int, c),
                    last_category_id: self.last_category_id + 1,
                    ..self
                },
                Ok(self.last_category_id + 1),
            )
        }
    }

    /// Removes category `name` and takes it off every entry.
    pub open spec fn delete_category(self, name: Seq<char>) -> StoreView {
        StoreView {
            entries: uncategorized(self.entries, name),
            categories: match find_category(self.categories, name) {
                Some(i) => self.categories.remove(i as int),
                None => self.categories,
            },
            ..self
        }
    }

    /// A fresh store: no entries, the predefined categories, the given caps.
    pub open spec fn fresh(max_entries: nat, max_image_entries: nat, images_dir: Option<Seq<char>>) -> StoreView {
        StoreView {
            entries: Seq::empty(),
            categories: Seq::empty(),
            last_entry_id: 0,
            last_category_id: 0,
            max_entries,
            max_image_entries,
            images_dir,
            discarded: Seq::empty(),
        }
    }

    /// Adds the category unless its name is taken.
    pub open spec fn ensure_category(self, name: Seq<char>, color: Option<Seq<char>>) -> StoreView {
        self.create_category(name, color).0
    }

    /// Adds a stored entry back, unless its hash or id is taken.
    pub open spec fn restore_entry(self, e: EntryView) -> (StoreView, bool) {
        if find_hash(self.entries, e.hash) is Some || find_id(self.entries, e.id) is Some {
            (self, false)
        } else {
            (
                StoreView {
                    entries: place(self.entries, e),
                    last_entry_id: if e.id > self.last_entry_id {
                        e.id
                    } else {
                        self.last_entry_id
                    },
                    ..self
                },
                true,
            )
        }
    }

    /// Adds a stored category back, unless its name or id is taken.
    pub open spec fn restore_category(self, c: CategoryView) -> (StoreView, bool) {
        if find_category(self.categories, c.name) is Some || (exists|k: int|
            0 <= k < self.categories.len() && self.categories[k].id == c.id) {
            (self, false)
        } else {
            (
                StoreView {
                    categories: self.categories.insert(cat_slot(self.categories, c.name) as int, c),
                    last_category_id: if c.id > self.last_category_id {
                        c.id
                    } else {
                        self.last_category_id
                    },
                    ..self
                },
                true,
            )
        }
    }
}

/// Text sequences in strictly increasing byte order (hence distinct).
pub open spec fn strictly_ordered(r: Seq<Seq<char>>) -> bool {
    forall|i: int, j: int| 0 <= i < j < r.len() ==> text_lt(r[i], r[j])
}

pub open spec fn has_source(s: Seq<EntryView>, x: Seq<char>) -> bool {
    exists|i: int| 0 <= i < s.len() && s[i].source == Some(x)
}

pub open spec fn has_category(s: Seq<EntryView>, x: Seq<char>) -> bool {
    exists|i: int| 0 <= i < s.len() && s[i].category == Some(x)
}

/// `r` lists every source of `s` once, in byte order.
pub open spec fn sources_of(s: Seq<EntryView>, r: Seq<Seq<char>>) -> bool {
    &&& strictly_ordered(r)
    &&& forall|x: Seq<char>| r.contains(x) <==> has_source(s, x)
}

/// `r` lists every category used by `s` once, in byte order, with the number
/// of entries in it.
pub open spec fn category_counts_of(s: Seq<EntryView>, r: Seq<(Seq<char>, nat)>) -> bool {
    &&& strictly_ordered(pair_names(r))
    &&& forall|k: int|
        0 <= k < r.len() ==> r[k].1 == count_where(s, Select::Category(r[k].0)) && r[k].1 > 0
    &&& forall|x: Seq<char>|
        has_category(s, x) ==> exists|k: int| 0 <= k < r.len() && #[trigger] r[k].0 == x
}

pub proof fn lemma_cat_slot(c: Seq<CategoryView>, name: Seq<char>)
    ensures
        cat_slot(c, name) <= c.len(),
        forall|k: int| 0 <= k < cat_slot(c, name) ==> text_lt(c[k].name, name),
        cat_slot(c, name) < c.len() ==> !text_lt(c[cat_slot(c, name) as int].name, name),
    decreases c.len(),
{
    if c.len() > 0 {
        lemma_cat_slot(c.drop_first(), name);
        assert forall|k: int| 1 <= k < c.len() implies c[k] == c.drop_first()[k - 1] by {}
    }
}

pub proof fn lemma_cat_slot_unique(c: Seq<CategoryView>, name: Seq<char>, i: int)
    requires
        0 <= i <= c.len(),
        forall|k: int| 0 <= k < i ==> text_lt(c[k].name, name),
        i < c.len() ==> !text_lt(c[i].name, name),
    ensures
        cat_slot(c, name) == i,
    decreases c.len(),
{
    if c.len() > 0 && i > 0 {
        assert forall|k: int| 0 <= k < i - 1 implies text_lt(c.drop_first()[k].name, name) by {
            assert(c.drop_first()[k] == c[k + 1]);
        }
        lemma_cat_slot_unique(c.drop_first(), name, i - 1);
    }
}

pub proof fn lemma_find_category(c: Seq<CategoryView>, name: Seq<char>)
    ensures
        match find_category(c, name) {
            Some(i) => i < c.len() && c[i as int].name == name && forall|k: int|
                0 <= k < i ==> c[k].name != name,
            None => forall|k: int| 0 <= k < c.len() ==> c[k].name != name,
        },
    decreases c.len(),
{
    if c.len() > 0 {
        lemma_find_category(c.drop_first(), name);
        assert forall|k: int| 1 <= k < c.len() implies c[k] == c.drop_first()[k - 1] by {}
    }
}

/// In an ordered category list, `name` is present exactly when it sits at
/// its slot.
pub proof fn lemma_slot_decides(c: Seq<CategoryView>, name: Seq<char>, last_id: int)
    requires
        categories_ok(c, last_id),
    ensures
        (find_category(c, name) is Some) <==> (cat_slot(c, name) < c.len() && c[cat_slot(
            c,
            name,
        ) as int].name == name),
        find_category(c, name) is Some ==> find_category(c, name) == Some(cat_slot(c, name)),
{
    lemma_cat_slot(c, name);
    lemma_find_category(c, name);
    let i = cat_slot(c, name) as int;
    assert forall|k: int| 0 <= k < c.len() && k != i implies c[k].name != name by {
        lemma_text_order(c[k].name, name, name);
        if k > i {
            lemma_text_order(c[i].name, c[k].name, name);
            lemma_text_order(name, c[i].name, c[k].name);
            lemma_text_order(c[i].name, name, c[k].name);
        }
    }
}

/// Inserting a new name at its slot keeps the categories ordered.
pub proof fn lemma_insert_category(c: Seq<CategoryView>, x: CategoryView, last_id: int, new_last: int)
    requires
        categories_ok(c, last_id),
        find_category(c, x.name) is None,
        forall|k: int| 0 <= k < c.len() ==> c[k].id != x.id,
        x.id <= new_last,
        last_id <= new_last,
    ensures
        categories_ok(c.insert(cat_slot(c, x.name) as int, x), new_last),
{
    lemma_cat_slot(c, x.name);
    lemma_find_category(c, x.name);
    let i = cat_slot(c, x.name) as int;
    c.insert_ensures(i, x);
    let q = c.insert(i, x);
    if i < c.len() {
        lemma_text_order(c[i].name, x.name, x.name);
    }
    assert forall|a: int, b: int| 0 <= a < b < q.len() implies text_lt(q[a].name, q[b].name) by {
        if b < i {
        } else if b == i {
        } else if a < i {
            assert(q[b] == c[b - 1]);
            if b - 1 > i {
                lemma_text_order(x.name, c[i].name, c[b - 1].name);
            }
            lemma_text_order(c[a].name, x.name, c[b - 1].name);
        } else if a == i {
            assert(q[b] == c[b - 1]);
            if b - 1 > i {
                lemma_text_order(x.name, c[i].name, c[b - 1].name);
            }
        } else {
            assert(q[a] == c[a - 1]);
            assert(q[b] == c[b - 1]);
        }
    }
    assert forall|a: int, b: int| 0 <= a < b < q.len() implies q[a].id != q[b].id by {
        if a < i {
            assert(q[a] == c[a]);
        } else if a > i {
            assert(q[a] == c[a - 1]);
        }
        if b < i {
            assert(q[b] == c[b]);
        } else if b > i {
            assert(q[b] == c[b - 1]);
        }
    }
    assert forall|a: int| 0 <= a < q.len() implies q[a].id <= new_last by {
        if a < i {
            assert(q[a] == c[a]);
        } else if a > i {
            assert(q[a] == c[a - 1]);
        }
    }
}

/// Removing a category keeps the list ordered.
pub proof fn lemma_remove_category(c: Seq<CategoryView>, i: int, last_id: int)
    requires
        categories_ok(c, last_id),
        0 <= i < c.len(),
    ensures
        categories_ok(c.remove(i), last_id),
{
    c.remove_ensures(i);
    let q = c.remove(i);
    assert forall|a: int| 0 <= a < q.len() implies q[a] == c[if a < i { a } else { a + 1 }] by {}
}

/// Two entry sequences that agree on every time, hash and id are equally
/// valid.
pub proof fn lemma_same_keys(s: Seq<EntryView>, t: Seq<EntryView>, last_id: int)
    requires
        s.len() == t.len(),
        forall|i: int|
            0 <= i < s.len() ==> t[i].timestamp == s[i].timestamp && t[i].hash == s[i].hash
                && t[i].id == s[i].id,
        newest_first(s),
        distinct_entries(s, last_id),
    ensures
        newest_first(t),
        distinct_entries(t, last_id),
{
}

// ---------------------------------------------------------------------------
// Lemmas
// ---------------------------------------------------------------------------

pub proof fn lemma_find_hash(s: Seq<EntryView>, h: Seq<char>)
    ensures
        match find_hash(s, h) {
            Some(i) => i < s.len() && s[i as int].hash == h && forall|k: int|
                0 <= k < i ==> s[k].hash != h,
            None => forall|k: int| 0 <= k < s.len() ==> s[k].hash != h,
        },
    decreases s.len(),
{
    if s.len() > 0 {
        lemma_find_hash(s.drop_first(), h);
        assert forall|k: int| 1 <= k < s.len() implies s[k] == s.drop_first()[k - 1] by {}
    }
}

pub proof fn lemma_find_id(s: Seq<EntryView>, id: int)
    ensures
        match find_id(s, id) {
            Some(i) => i < s.len() && s[i as int].id == id && forall|k: int|
                0 <= k < i ==> s[k].id != id,
            None => forall|k: int| 0 <= k < s.len() ==> s[k].id != id,
        },
    decreases s.len(),
{
    if s.len() > 0 {
        lemma_find_id(s.drop_first(), id);
        assert forall|k: int| 1 <= k < s.len() implies s[k] == s.drop_first()[k - 1] by {}
    }
}

pub proof fn lemma_slot_for(s: Seq<EntryView>, ts: int)
    ensures
        slot_for(s, ts) <= s.len(),
        forall|k: int| 0 <= k < slot_for(s, ts) ==> s[k].timestamp > ts,
        slot_for(s, ts) < s.len() ==> s[slot_for(s, ts) as int].timestamp <= ts,
    decreases s.len(),
{
    if s.len() > 0 {
        lemma_slot_for(s.drop_first(), ts);
        assert forall|k: int| 1 <= k < s.len() implies s[k] == s.drop_first()[k - 1] by {}
    }
}

/// In a newest-first sequence the slot is the first entry not newer than `ts`.
pub proof fn lemma_slot_unique(s: Seq<EntryView>, ts: int, i: int)
    requires
        0 <= i <= s.len(),
        forall|k: int| 0 <= k < i ==> s[k].timestamp > ts,
        i < s.len() ==> s[i].timestamp <= ts,
    ensures
        slot_for(s, ts) == i,
    decreases s.len(),
{
    if s.len() > 0 && i > 0 {
        assert forall|k: int| 0 <= k < i - 1 implies s.drop_first()[k].timestamp > ts by {
            assert(s.drop_first()[k] == s[k + 1]);
        }
        lemma_slot_unique(s.drop_first(), ts, i - 1);
    }
}

pub proof fn lemma_place(s: Seq<EntryView>, e: EntryView)
    requires
        newest_first(s),
    ensures
        newest_first(place(s, e)),
        place(s, e).len() == s.len() + 1,
        place(s, e).contains(e),
        forall|x: EntryView| place(s, e).contains(x) <==> (x == e || s.contains(x)),
{
    lemma_slot_for(s, e.timestamp);
    let p = place(s, e);
    let k = slot_for(s, e.timestamp) as int;
    assert(p[k] == e);
    assert forall|x: EntryView| p.contains(x) <==> (x == e || s.contains(x)) by {
        if p.contains(x) {
            let j = choose|j: int| 0 <= j < p.len() && p[j] == x;
            if j < k {
                assert(s[j] == x);
            } else if j > k {
                assert(s[j - 1] == x);
            }
        }
        if s.contains(x) {
            let j = choose|j: int| 0 <= j < s.len() && s[j] == x;
            if j < k {
                assert(p[j] == x);
            } else {
                assert(p[j + 1] == x);
            }
        }
    }
}

/// Every element of a placed sequence is the new entry or an old one, by
/// position.
pub proof fn lemma_place_index(s: Seq<EntryView>, e: EntryView, j: int)
    requires
        0 <= j < s.len() + 1,
    ensures
        ({
            let k = slot_for(s, e.timestamp) as int;
            &&& j < k ==> place(s, e)[j] == s[j]
            &&& j == k ==> place(s, e)[j] == e
            &&& j > k ==> place(s, e)[j] == s[j - 1]
        }),
{
    lemma_slot_for(s, e.timestamp);
}

pub proof fn lemma_kept_contains(s: Seq<EntryView>, images: bool, cap: nat)
    ensures
        forall|x: EntryView| kept(s, images, cap).contains(x) ==> s.contains(x),
        kept(s, images, cap).len() <= s.len(),
    decreases s.len(),
{
    if s.len() > 0 {
        lemma_kept_contains(s.drop_last(), images, cap);
        let p = s.drop_last();
        let k = kept(p, images, cap);
        assert forall|x: EntryView| kept(s, images, cap).contains(x) implies s.contains(x) by {
            if k.contains(x) {
                assert(p.contains(x));
                let j = choose|j: int| 0 <= j < p.len() && p[j] == x;
                assert(s[j] == x);
            } else {
                assert(kept(s, images, cap) == k.push(s.last()));
                let j = choose|j: int| 0 <= j < k.push(s.last()).len() && k.push(s.last())[j] == x;
                assert(s[s.len() - 1] == x);
            }
        }
    }
}

/// `kept` keeps the order and the uniqueness of the entries it keeps.
pub proof fn lemma_kept_valid(s: Seq<EntryView>, images: bool, cap: nat, last_id: int)
    requires
        newest_first(s),
        distinct_entries(s, last_id),
    ensures
        newest_first(kept(s, images, cap)),
        distinct_entries(kept(s, images, cap), last_id),
    decreases s.len(),
{
    if s.len() > 0 {
        let p = s.drop_last();
        assert(newest_first(p));
        assert(distinct_entries(p, last_id));
        lemma_kept_valid(p, images, cap, last_id);
        lemma_kept_contains(p, images, cap);
        let k = kept(p, images, cap);
        if !(evictable(s.last(), images) && count_evictable(p, images) >= cap) {
            let r = k.push(s.last());
            assert forall|i: int| 0 <= i < k.len() implies {
                &&& k[i].timestamp >= s.last().timestamp
                &&& k[i].hash != s.last().hash
                &&& k[i].id != s.last().id
            } by {
                assert(k.contains(k[i]));
                assert(p.contains(k[i]));
                let j = choose|j: int| 0 <= j < p.len() && p[j] == k[i];
                assert(s[j] == k[i]);
            }
            assert forall|i: int, j: int| 0 <= i < j < r.len() implies r[i].timestamp
                >= r[j].timestamp by {
                if j == r.len() - 1 {
                    assert(r[j] == s.last());
                } else {
                    assert(r[i] == k[i] && r[j] == k[j]);
                }
            }
            assert forall|i: int, j: int| 0 <= i < j < r.len() implies r[i].hash != r[j].hash
                && r[i].id != r[j].id by {
                if j == r.len() - 1 {
                    assert(r[j] == s.last());
                } else {
                    assert(r[i] == k[i] && r[j] == k[j]);
                }
            }
            assert forall|i: int| 0 <= i < r.len() implies r[i].id <= last_id by {
                if i == r.len() - 1 {
                    assert(r[i] == s[s.len() - 1]);
                } else {
                    assert(r[i] == k[i]);
                }
            }
        }
    }
}

/// Removing an entry keeps the order and the uniqueness.
pub proof fn lemma_remove_valid(s: Seq<EntryView>, i: int, last_id: int)
    requires
        0 <= i < s.len(),
        newest_first(s),
        distinct_entries(s, last_id),
    ensures
        newest_first(s.remove(i)),
        distinct_entries(s.remove(i), last_id),
        forall|x: EntryView| s.remove(i).contains(x) ==> s.contains(x),
{
    let r = s.remove(i);
    assert forall|a: int| 0 <= a < r.len() implies r[a] == s[if a < i { a } else { a + 1 }] by {}
    assert forall|x: EntryView| r.contains(x) implies s.contains(x) by {
        let a = choose|a: int| 0 <= a < r.len() && r[a] == x;
        assert(r[a] == s[if a < i { a } else { a + 1 }]);
    }
}

/// Changing an entry without touching its time, hash or id keeps the order
/// and the uniqueness.
pub proof fn lemma_update_valid(s: Seq<EntryView>, i: int, e: EntryView, last_id: int)
    requires
        0 <= i < s.len(),
        newest_first(s),
        distinct_entries(s, last_id),
        e.timestamp == s[i].timestamp,
        e.hash == s[i].hash,
        e.id == s[i].id,
    ensures
        newest_first(s.update(i, e)),
        distinct_entries(s.update(i, e), last_id),
{
    let u = s.update(i, e);
    assert forall|a: int, b: int| 0 <= a < b < u.len() implies u[a].timestamp >= u[b].timestamp
        && u[a].hash != u[b].hash && u[a].id != u[b].id by {
        assert(u[a].timestamp == s[a].timestamp && u[a].hash == s[a].hash && u[a].id == s[a].id);
        assert(u[b].timestamp == s[b].timestamp && u[b].hash == s[b].hash && u[b].id == s[b].id);
    }
    assert forall|a: int| 0 <= a < u.len() implies u[a].id <= last_id by {
        assert(u[a].id == s[a].id);
    }
}

/// Placing an entry that is new (fresh id and hash) keeps uniqueness.
pub proof fn lemma_place_distinct(s: Seq<EntryView>, e: EntryView, last_id: int)
    requires
        newest_first(s),
        distinct_entries(s, last_id),
        forall|k: int| 0 <= k < s.len() ==> s[k].hash != e.hash && s[k].id != e.id,
        e.id <= last_id,
    ensures
        newest_first(place(s, e)),
        distinct_entries(place(s, e), last_id),
{
    lemma_place(s, e);
    let p = place(s, e);
    let k = slot_for(s, e.timestamp) as int;
    lemma_slot_for(s, e.timestamp);
    assert forall|a: int| 0 <= a < p.len() implies p[a] == (if a < k {
        s[a]
    } else if a == k {
        e
    } else {
        s[a - 1]
    }) by {
        lemma_place_index(s, e, a);
    }
    assert forall|a: int, b: int| 0 <= a < b < p.len() implies p[a].hash != p[b].hash && p[a].id
        != p[b].id by {
        lemma_place_index(s, e, a);
        lemma_place_index(s, e, b);
    }
    assert forall|a: int| 0 <= a < p.len() implies p[a].id <= last_id by {
        lemma_place_index(s, e, a);
    }
}

pub proof fn lemma_count_take_step(s: Seq<EntryView>, i: int, q: Select)
    requires
        0 <= i < s.len(),
    ensures
        count_where(s.take(i + 1), q) == count_where(s.take(i), q) + if admits(q, s[i]) {
            1nat
        } else {
            0nat
        },
{
    assert(s.take(i + 1).drop_last() =~= s.take(i));
    assert(s.take(i + 1).last() == s[i]);
}

pub proof fn lemma_count_none(s: Seq<EntryView>, q: Select)
    requires
        forall|k: int| 0 <= k < s.len() ==> !admits(q, s[k]),
    ensures
        count_where(s, q) == 0,
    decreases s.len(),
{
    if s.len() > 0 {
        assert forall|k: int| 0 <= k < s.drop_last().len() implies !admits(q, s.drop_last()[k]) by {
            assert(s.drop_last()[k] == s[k]);
        }
        lemma_count_none(s.drop_last(), q);
    }
}

pub open spec fn pair_names(w: Seq<(Seq<char>, nat)>) -> Seq<Seq<char>> {
    w.map_values(|p: (Seq<char>, nat)| p.0)
}

proof fn lemma_has_category_step(s: Seq<EntryView>, i: int, x: Seq<char>)
    requires
        0 <= i < s.len(),
    ensures
        has_category(s.take(i + 1), x) <==> (has_category(s.take(i), x) || s[i].category == Some(x)),
{
    let t = s.take(i + 1);
    if has_category(t, x) {
        let j = choose|j: int| 0 <= j < t.len() && t[j].category == Some(x);
        if j < i {
            assert(s.take(i)[j] == t[j]);
        }
    }
    if has_category(s.take(i), x) {
        let j = choose|j: int| 0 <= j < i && s.take(i)[j].category == Some(x);
        assert(t[j] == s.take(i)[j]);
    }
    if s[i].category == Some(x) {
        assert(t[i] == s[i]);
    }
}

/// Inserting `x` at its slot into a strictly ordered list keeps it so.
pub proof fn lemma_insert_ordered(w: Seq<Seq<char>>, i: int, x: Seq<char>)
    requires
        strictly_ordered(w),
        0 <= i <= w.len(),
        forall|k: int| 0 <= k < i ==> text_lt(w[k], x),
        i < w.len() ==> text_lt(x, w[i]),
    ensures
        strictly_ordered(w.insert(i, x)),
        forall|y: Seq<char>| w.insert(i, x).contains(y) <==> (w.contains(y) || y == x),
{
    w.insert_ensures(i, x);
    let q = w.insert(i, x);
    assert forall|a: int, b: int| 0 <= a < b < q.len() implies text_lt(q[a], q[b]) by {
        if b < i {
        } else if b == i {
        } else if a < i {
            if b - 1 > i {
                lemma_text_order(x, w[i], w[b - 1]);
            }
            lemma_text_order(w[a], x, w[b - 1]);
        } else if a == i {
            if b - 1 > i {
                lemma_text_order(x, w[i], w[b - 1]);
            }
        } else {
        }
    }
    assert forall|y: Seq<char>| q.contains(y) <==> (w.contains(y) || y == x) by {
        if q.contains(y) {
            let j = choose|j: int| 0 <= j < q.len() && q[j] == y;
            if j < i {
                assert(w[j] == y);
            } else if j > i {
                assert(w[j - 1] == y);
            }
        }
        if w.contains(y) {
            let j = choose|j: int| 0 <= j < w.len() && w[j] == y;
            if j < i {
                assert(q[j] == y);
            } else {
                assert(q[j + 1] == y);
            }
        }
        if y == x {
            assert(q[i] == y);
        }
    }
}

/// Counting step for an entry without a category.
pub proof fn lemma_count_step_none(s: Seq<EntryView>, i: int, w: Seq<(Seq<char>, nat)>)
    requires
        0 <= i < s.len(),
        s[i].category is None,
        category_counts_of(s.take(i), w),
    ensures
        category_counts_of(s.take(i + 1), w),
{
    assert forall|k: int| 0 <= k < w.len() implies w[k].1 == count_where(
        s.take(i + 1),
        Select::Category(w[k].0),
    ) && w[k].1 > 0 by {
        lemma_count_take_step(s, i, Select::Category(w[k].0));
    }
    assert forall|x: Seq<char>| #[trigger] has_category(s.take(i + 1), x) implies exists|k: int|
        0 <= k < w.len() && #[trigger] w[k].0 == x by {
        lemma_has_category_step(s, i, x);
    }
}

/// Counting step for an entry whose category is already listed at `j`.
pub proof fn lemma_count_step_hit(s: Seq<EntryView>, i: int, w: Seq<(Seq<char>, nat)>, j: int)
    requires
        0 <= i < s.len(),
        0 <= j < w.len(),
        s[i].category == Some(w[j].0),
        category_counts_of(s.take(i), w),
    ensures
        category_counts_of(s.take(i + 1), w.update(j, (w[j].0, w[j].1 + 1))),
{
    let u = w.update(j, (w[j].0, w[j].1 + 1));
    assert(pair_names(u) =~= pair_names(w));
    assert forall|k: int| 0 <= k < u.len() implies u[k].1 == count_where(
        s.take(i + 1),
        Select::Category(u[k].0),
    ) && u[k].1 > 0 by {
        lemma_count_take_step(s, i, Select::Category(w[k].0));
        if k != j {
            assert(pair_names(w)[k] == w[k].0);
            assert(pair_names(w)[j] == w[j].0);
            lemma_text_order(w[k].0, w[j].0, w[j].0);
            lemma_text_order(w[j].0, w[k].0, w[k].0);
        }
    }
    assert forall|x: Seq<char>| #[trigger] has_category(s.take(i + 1), x) implies exists|k: int|
        0 <= k < u.len() && #[trigger] u[k].0 == x by {
        lemma_has_category_step(s, i, x);
        if !has_category(s.take(i), x) {
            assert(u[j].0 == x);
        } else {
            let k = choose|k: int| 0 <= k < w.len() && #[trigger] w[k].0 == x;
            assert(u[k].0 == x);
        }
    }
}

/// Counting step for an entry whose category `c` is new and goes at `j`.
pub proof fn lemma_count_step_new(s: Seq<EntryView>, i: int, w: Seq<(Seq<char>, nat)>, j: int)
    requires
        0 <= i < s.len(),
        0 <= j <= w.len(),
        s[i].category is Some,
        forall|k: int| 0 <= k < j ==> text_lt(w[k].0, s[i].category->0),
        j < w.len() ==> text_lt(s[i].category->0, w[j].0),
        category_counts_of(s.take(i), w),
    ensures
        category_counts_of(s.take(i + 1), w.insert(j, (s[i].category->0, 1nat))),
{
    let c = s[i].category->0;
    let u = w.insert(j, (c, 1nat));
    w.insert_ensures(j, (c, 1nat));
    let names = pair_names(w);
    assert forall|k: int| 0 <= k < w.len() implies w[k].0 != c by {
        assert(names[k] == w[k].0);
        if k < j {
            lemma_text_order(w[k].0, c, c);
        } else {
            assert(names[j] == w[j].0);
            if k > j {
                lemma_text_order(c, w[j].0, w[k].0);
            }
            lemma_text_order(c, w[k].0, w[k].0);
        }
    }
    assert(!has_category(s.take(i), c));
    assert forall|k: int| 0 <= k < s.take(i).len() implies !admits(Select::Category(c), s.take(i)[k])
        by {
        if admits(Select::Category(c), s.take(i)[k]) {
            assert(has_category(s.take(i), c));
        }
    }
    lemma_count_none(s.take(i), Select::Category(c));
    assert forall|k: int| 0 <= k < u.len() implies u[k].1 == count_where(
        s.take(i + 1),
        Select::Category(u[k].0),
    ) && u[k].1 > 0 by {
        lemma_count_take_step(s, i, Select::Category(u[k].0));
        if k < j {
            assert(u[k] == w[k]);
        } else if k > j {
            assert(u[k] == w[k - 1]);
        }
    }
    let un = pair_names(u);
    assert forall|a: int, b: int| 0 <= a < b < un.len() implies text_lt(un[a], un[b]) by {
        assert(un[a] == u[a].0 && un[b] == u[b].0);
        if b < j {
            assert(u[a] == w[a] && u[b] == w[b]);
            assert(names[a] == w[a].0 && names[b] == w[b].0);
        } else if b == j {
            assert(u[a] == w[a]);
        } else if a < j {
            assert(u[a] == w[a] && u[b] == w[b - 1]);
            assert(names[j] == w[j].0 && names[b - 1] == w[b - 1].0);
            if b - 1 > j {
                lemma_text_order(c, w[j].0, w[b - 1].0);
            }
            lemma_text_order(w[a].0, c, w[b - 1].0);
        } else if a == j {
            assert(u[b] == w[b - 1]);
            assert(names[j] == w[j].0 && names[b - 1] == w[b - 1].0);
            if b - 1 > j {
                lemma_text_order(c, w[j].0, w[b - 1].0);
            }
        } else {
            assert(u[a] == w[a - 1] && u[b] == w[b - 1]);
            assert(names[a - 1] == w[a - 1].0 && names[b - 1] == w[b - 1].0);
        }
    }
    assert forall|x: Seq<char>| #[trigger] has_category(s.take(i + 1), x) implies exists|k: int|
        0 <= k < u.len() && #[trigger] u[k].0 == x by {
        lemma_has_category_step(s, i, x);
        if !has_category(s.take(i), x) {
            assert(u[j].0 == x);
        } else {
            let k = choose|k: int| 0 <= k < w.len() && #[trigger] w[k].0 == x;
            if k < j {
                assert(u[k].0 == x);
            } else {
                assert(u[k + 1].0 == x);
            }
        }
    }
}

/// Two categories at different positions have different names.
pub proof fn lemma_text_order_names(c: Seq<CategoryView>, i: int, j: int, last_id: int)
    requires
        categories_ok(c, last_id),
        0 <= i < c.len(),
        0 <= j < c.len(),
        i != j,
    ensures
        c[i].name != c[j].name,
{
    lemma_text_order(c[i].name, c[j].name, c[j].name);
    lemma_text_order(c[j].name, c[i].name, c[i].name);
}

pub proof fn lemma_select_contains(s: Seq<EntryView>, q: Select)
    ensures
        forall|x: EntryView| select(s, q).contains(x) ==> s.contains(x),
    decreases s.len(),
{
    if s.len() > 0 {
        lemma_select_contains(s.drop_last(), q);
        let p = select(s.drop_last(), q);
        assert forall|x: EntryView| select(s, q).contains(x) implies s.contains(x) by {
            if p.contains(x) {
                assert(s.drop_last().contains(x));
                let j = choose|j: int| 0 <= j < s.drop_last().len() && s.drop_last()[j] == x;
                assert(s[j] == x);
            } else {
                let j = choose|j: int| 0 <= j < select(s, q).len() && select(s, q)[j] == x;
                assert(s[s.len() - 1] == x);
            }
        }
    }
}

/// Selecting from a newest-first sequence keeps it newest first, and so
/// does taking a page of it.
pub proof fn lemma_select_newest_first(s: Seq<EntryView>, q: Select)
    requires
        newest_first(s),
    ensures
        newest_first(select(s, q)),
        forall|limit: nat, offset: nat| newest_first(#[trigger] page(select(s, q), limit, offset)),
    decreases s.len(),
{
    if s.len() > 0 {
        let p = s.drop_last();
        lemma_select_newest_first(p, q);
        lemma_select_contains(p, q);
        let k = select(p, q);
        if admits(q, s.last()) {
            let r = k.push(s.last());
            assert forall|i: int, j: int| 0 <= i < j < r.len() implies r[i].timestamp
                >= r[j].timestamp by {
                if j == r.len() - 1 {
                    assert(k.contains(k[i]));
                    assert(p.contains(k[i]));
                    let a = choose|a: int| 0 <= a < p.len() && p[a] == k[i];
                    assert(s[a] == k[i]);
                } else {
                    assert(r[i] == k[i] && r[j] == k[j]);
                }
            }
        }
    }
    let t = select(s, q);
    assert forall|limit: nat, offset: nat| newest_first(#[trigger] page(t, limit, offset)) by {
        let pg = page(t, limit, offset);
        assert forall|i: int, j: int| 0 <= i < j < pg.len() implies pg[i].timestamp
            >= pg[j].timestamp by {
            let off: int = if offset > i64_max() { 0 } else { offset as int };
            assert(pg[i] == t[off + i] && pg[j] == t[off + j]);
        }
    }
}

} // verus!
