//! Properties of the clipboard history that span its operations.

use vstd::prelude::*;

use crate::digest::text_digest;
use crate::model::{
    firsts, score_slot, top, lemma_score_slot,
    count_evictable, distinct_entries, evictable, find_category, find_hash, find_id, has_category,
    kept, lemma_find_category, lemma_find_hash, lemma_find_id, lemma_kept_contains,
    lemma_kept_valid, lemma_place, lemma_place_distinct, lemma_ranked_sorted, lemma_remove_valid,
    lemma_update_valid, newest_first, page, place, ranked, scored, select, uncategorized,
    CategoryView, EntryView, Select, StoreError, StoreView,
};

use crate::ipc::{command_of, ArgsView, Event};
use crate::shelf::{CardHit, DeleteChoice, ShelfKey, ShelfView, COPIED_BADGE_MS};
use crate::hover::{elapsed, hover_actions, hover_after, hover_next, SHELF_TOGGLED, HoverAction, HoverInput, HoverState, SHELF_HIDDEN, SHELF_HOVERED};

verus! {

/// The eviction cap holds: after eviction at most `cap` entries count
/// against it (exactly `min(count, cap)`).
pub proof fn law_eviction_respects_cap(s: Seq<EntryView>, images: bool, cap: nat)
    ensures
        count_evictable(kept(s, images, cap), images) == if count_evictable(s, images) < cap {
            count_evictable(s, images)
        } else {
            cap
        },
    decreases s.len(),
{
    if s.len() > 0 {
        law_eviction_respects_cap(s.drop_last(), images, cap);
        let k = kept(s.drop_last(), images, cap);
        if !(evictable(s.last(), images) && count_evictable(s.drop_last(), images) >= cap) {
            assert(k.push(s.last()).drop_last() =~= k);
        }
    }
}

/// Eviction never removes an entry that does not count against the cap:
/// favorites survive, and the text cap never removes images (nor the image
/// cap texts).
pub proof fn law_eviction_spares_others(s: Seq<EntryView>, images: bool, cap: nat, x: EntryView)
    requires
        s.contains(x),
        !evictable(x, images),
    ensures
        kept(s, images, cap).contains(x),
    decreases s.len(),
{
    let k = kept(s.drop_last(), images, cap);
    if s.last() == x {
        assert(k.push(s.last())[k.len() as int] == x);
    } else {
        let j = choose|j: int| 0 <= j < s.len() && s[j] == x;
        assert(s.drop_last()[j] == x);
        law_eviction_spares_others(s.drop_last(), images, cap, x);
        if !(evictable(s.last(), images) && count_evictable(s.drop_last(), images) >= cap) {
            let i = choose|i: int| 0 <= i < k.len() && k[i] == x;
            assert(k.push(s.last())[i] == x);
        }
    }
}

/// Recording a text keeps the store's invariant.
pub proof fn law_insert_text_keeps_invariant(
    m: StoreView,
    content: Seq<char>,
    kind: Seq<char>,
    source: Option<Seq<char>>,
    now: int,
)
    requires
        m.valid(),
    ensures
        m.insert_text(content, kind, source, now).0.valid(),
{
    let h = text_digest(content);
    lemma_find_hash(m.entries, h);
    match find_hash(m.entries, h) {
        Some(i) => lemma_refresh_valid(m, i as int, now),
        None => {
            if m.last_entry_id < crate::model::i64_max() {
                let e = EntryView {
                    id: m.last_entry_id + 1,
                    content,
                    content_type: kind,
                    source,
                    hash: h,
                    timestamp: now,
                    favorite: false,
                    content_path: None,
                    mime_type: None,
                    category: None,
                    thumb_path: None,
                };
                lemma_place_distinct(m.entries, e, m.last_entry_id + 1);
                lemma_kept_valid(place(m.entries, e), false, m.max_entries, m.last_entry_id + 1);
            }
        },
    }
}

proof fn lemma_refresh_valid(m: StoreView, i: int, now: int)
    requires
        m.valid(),
        0 <= i < m.entries.len(),
    ensures
        m.refresh(i, now).0.valid(),
        m.refresh(i, now).0.entries.len() == m.entries.len(),
        m.refresh(i, now).0.entries.contains(m.refresh(i, now).1->Ok_0),
{
    let s0 = m.entries;
    let e = EntryView { timestamp: now, ..s0[i] };
    lemma_remove_valid(s0, i, m.last_entry_id);
    let r = s0.remove(i);
    assert forall|k: int| 0 <= k < r.len() implies r[k].hash != e.hash && r[k].id != e.id by {
        let j = if k < i { k } else { k + 1 };
        assert(r[k] == s0[j]);
    }
    lemma_place_distinct(r, e, m.last_entry_id);
    lemma_place(r, e);
}

/// Read after write: once a text is recorded, looking up its hash gives the
/// entry that the insert answered.
pub proof fn law_recorded_text_is_found(
    m: StoreView,
    content: Seq<char>,
    kind: Seq<char>,
    source: Option<Seq<char>>,
    now: int,
)
    requires
        m.valid(),
        m.insert_text(content, kind, source, now).1 is Ok,
    ensures
        m.insert_text(content, kind, source, now).0.get_by_hash(text_digest(content)) == Some(
            m.insert_text(content, kind, source, now).1->Ok_0,
        ),
{
    let h = text_digest(content);
    let (m1, r) = m.insert_text(content, kind, source, now);
    lemma_find_hash(m.entries, h);
    law_insert_text_keeps_invariant(m, content, kind, source, now);
    lemma_find_hash(m1.entries, h);
    match find_hash(m.entries, h) {
        Some(i) => {
            lemma_refresh_valid(m, i as int, now);
            let e = r->Ok_0;
            let j = choose|j: int| 0 <= j < m1.entries.len() && m1.entries[j] == e;
            assert(m1.entries[j].hash == h);
        },
        None => {},
    }
}

/// Copying the same text again records nothing new: the history keeps its
/// length and still has one entry with that content's hash.
pub proof fn law_same_text_is_kept_once(
    m: StoreView,
    content: Seq<char>,
    kind: Seq<char>,
    source: Option<Seq<char>>,
    kind2: Seq<char>,
    source2: Option<Seq<char>>,
    t1: int,
    t2: int,
)
    requires
        m.valid(),
        m.insert_text(content, kind, source, t1).1 is Ok,
    ensures
        ({
            let m1 = m.insert_text(content, kind, source, t1).0;
            let (m2, r2) = m1.insert_text(content, kind2, source2, t2);
            &&& m2.entries.len() == m1.entries.len()
            &&& r2 is Ok
            &&& r2->Ok_0.hash == text_digest(content)
        }),
{
    let h = text_digest(content);
    let m1 = m.insert_text(content, kind, source, t1).0;
    law_recorded_text_is_found(m, content, kind, source, t1);
    law_insert_text_keeps_invariant(m, content, kind, source, t1);
    let i = find_hash(m1.entries, h)->Some_0 as int;
    lemma_find_hash(m1.entries, h);
    lemma_refresh_valid(m1, i, t2);
}

/// Toggling a favorite twice gives the store back unchanged.
pub proof fn law_toggle_favorite_twice(m: StoreView, id: int)
    requires
        m.valid(),
    ensures
        m.toggle_favorite(id).0.toggle_favorite(id).0 == m,
        m.toggle_favorite(id).1 != m.toggle_favorite(id).0.toggle_favorite(id).1 || find_id(
            m.entries,
            id,
        ) is None,
{
    lemma_find_id(m.entries, id);
    match find_id(m.entries, id) {
        Some(i) => {
            let s = m.entries;
            let e = EntryView { favorite: !s[i as int].favorite, ..s[i as int] };
            let s1 = s.update(i as int, e);
            lemma_find_id(s1, id);
            assert forall|k: int| 0 <= k < s.len() implies s1[k].id == s[k].id by {}
            assert(find_id(s1, id) == Some(i));
            assert(s1.update(i as int, EntryView { favorite: !s1[i as int].favorite, ..s1[i as int] })
                =~= s);
        },
        None => {},
    }
}

/// After deleting entry `id`, no entry has that id.
pub proof fn law_deleted_entry_is_gone(m: StoreView, id: int)
    requires
        m.valid(),
    ensures
        m.delete(id).0.get_by_id(id) is None,
        (m.delete(id).1 is Ok) <==> (m.get_by_id(id) is Some),
{
    lemma_find_id(m.entries, id);
    match find_id(m.entries, id) {
        Some(i) => {
            let r = m.entries.remove(i as int);
            lemma_find_id(r, id);
            assert forall|k: int| 0 <= k < r.len() implies r[k].id != id by {
                let j = if k < i { k } else { k + 1 };
                assert(r[k] == m.entries[j]);
            }
        },
        None => {},
    }
}

/// Clearing leaves no entry.
pub proof fn law_clear_empties(m: StoreView)
    ensures
        m.clear().entries.len() == 0,
        m.clear().type_counts() == (0nat, 0nat, 0nat, 0nat),
{
    assert(m.clear().entries =~= Seq::<EntryView>::empty());
}

/// A category that was just created is listed, and creating it again is
/// refused.
pub proof fn law_created_category_is_listed(m: StoreView, name: Seq<char>, color: Option<Seq<char>>, color2: Option<Seq<char>>)
    requires
        m.valid(),
        m.create_category(name, color).1 is Ok,
    ensures
        find_category(m.create_category(name, color).0.categories, name) is Some,
        m.create_category(name, color).0.create_category(name, color2).1 == Err::<int, StoreError>(
            StoreError::DuplicateCategory,
        ),
{
    let c = m.create_category(name, color).0.categories;
    crate::model::lemma_cat_slot(m.categories, name);
    let k = crate::model::cat_slot(m.categories, name) as int;
    m.categories.insert_ensures(k, CategoryView { id: m.last_category_id + 1, name, color });
    assert(c[k].name == name);
    lemma_find_category(c, name);
}

/// After deleting a category, it is neither listed nor on any entry.
pub proof fn law_deleted_category_is_gone(m: StoreView, name: Seq<char>)
    requires
        m.valid(),
    ensures
        find_category(m.delete_category(name).categories, name) is None,
        !has_category(m.delete_category(name).entries, name),
{
    lemma_find_category(m.categories, name);
    let c = m.delete_category(name).categories;
    lemma_find_category(c, name);
    crate::model::lemma_slot_decides(m.categories, name, m.last_category_id);
    match find_category(m.categories, name) {
        Some(i) => {
            assert forall|k: int| 0 <= k < c.len() implies c[k].name != name by {
                let j = if k < i { k } else { k + 1 };
                assert(c[k] == m.categories[j as int]);
                if j != i {
                    crate::model::lemma_text_order_names(m.categories, i as int, j as int, m.last_category_id);
                }
            }
        },
        None => {},
    }
    let u = uncategorized(m.entries, name);
    assert forall|k: int| 0 <= k < u.len() implies u[k].category != Some(name) by {}
}

/// Listings come newest first.
pub proof fn law_listing_is_newest_first(m: StoreView, q: Select, limit: nat, offset: nat)
    requires
        m.valid(),
    ensures
        newest_first(m.list(q, limit, offset)),
{
    crate::model::lemma_select_newest_first(m.entries, q);
}

/// Search results come best match first.
pub proof fn law_search_best_first(m: StoreView, query: Seq<char>)
    ensures
        forall|i: int, j: int|
            0 <= i < j < ranked(scored(m.entries, m.scores(query))).len() ==> ranked(
                scored(m.entries, m.scores(query)),
            )[i].1 >= ranked(scored(m.entries, m.scores(query)))[j].1,
{
    lemma_ranked_sorted(scored(m.entries, m.scores(query)));
}

/// The hover watcher opens the shelf only from the hidden state, with the
/// pointer in the armed hot zone, and only once it has dwelt there for the
/// dwell time; afterwards the zone is disarmed.
pub proof fn law_hover_opens_after_dwell(s: HoverState, i: HoverInput, dwell_ms: u64, close_delay_ms: u64)
    ensures
        hover_next(s, i, dwell_ms, close_delay_ms).1 == HoverAction::Show ==> {
            &&& i.shelf_state == SHELF_HIDDEN
            &&& i.in_zone
            &&& s.armed
            &&& match s.dwell_since {
                Some(t) => elapsed(t, i.now) >= dwell_ms,
                None => dwell_ms == 0,
            }
            &&& !hover_next(s, i, dwell_ms, close_delay_ms).0.armed
        },
{
}

/// After a trigger the pointer must leave the hot zone before the shelf can
/// open again: while it stays in the zone a disarmed watcher stays disarmed
/// and opens nothing; leaving the zone re-arms it in every shelf state.
pub proof fn law_hover_rearms_only_outside(s: HoverState, i: HoverInput, dwell_ms: u64, close_delay_ms: u64)
    ensures
        !s.armed && i.in_zone ==> !hover_next(s, i, dwell_ms, close_delay_ms).0.armed
            && hover_next(s, i, dwell_ms, close_delay_ms).1 != HoverAction::Show,
        !i.in_zone ==> hover_next(s, i, dwell_ms, close_delay_ms).0.armed,
{
}

/// Only a hover-opened shelf is closed, and only once the pointer has been
/// outside the keep-open region for the close delay. A toggled shelf is
/// never touched.
pub proof fn law_hover_closes_only_hovered(s: HoverState, i: HoverInput, dwell_ms: u64, close_delay_ms: u64)
    ensures
        hover_next(s, i, dwell_ms, close_delay_ms).1 == HoverAction::Hide ==> {
            &&& i.shelf_state == SHELF_HOVERED
            &&& !i.in_keep_open
            &&& elapsed(s.last_inside, i.now) >= close_delay_ms
        },
        i.shelf_state != SHELF_HIDDEN && i.shelf_state != SHELF_HOVERED ==> hover_next(
            s,
            i,
            dwell_ms,
            close_delay_ms,
        ).1 == HoverAction::Nothing,
{
}

/// The shelf's selection is always one of its cards (or nothing).
pub open spec fn selection_ok(v: ShelfView) -> bool {
    match v.selected_index {
        Some(i) => i < v.entries.len(),
        None => true,
    }
}

/// Reading the listing again selects its first card, and the arrow keys
/// never move the selection off the cards: the selection stays a card.
pub proof fn law_selection_stays_on_cards(
    v: ShelfView,
    s: StoreView,
    key: ShelfKey,
    focused: bool,
    typing: bool,
)
    requires
        selection_ok(v),
    ensures
        selection_ok(v.refreshed(s)),
        v.entries.len() > 0 ==> selection_ok(v.key_step(key, focused, typing).0),
{
}

/// Escape at the end of a frame closes whatever menu or dialog was open.
pub proof fn law_escape_closes_modals(v: ShelfView, now: u64)
    ensures
        !v.end_frame(true, now).0.context_menu_visible,
        !v.end_frame(true, now).0.delete_confirm_visible,
{
}

/// A click on a card's body asks to paste it, and the shelf hides at the
/// first frame that ends once the "Copied" badge has shown for its time.
pub proof fn law_paste_hides_after_badge(v: ShelfView, s: StoreView, index: int, t: u64, now: u64)
    requires
        0 <= index < v.entries.len(),
        now >= t,
        now - t > COPIED_BADGE_MS,
    ensures
        v.card_click(s, index, CardHit::Body, t).2 == crate::shelf::CardAction::Paste(
            index as usize,
        ),
        v.card_click(s, index, CardHit::Body, t).0.end_frame(false, now).0.should_hide,
{
}

/// Confirming the delete dialog removes its entry from the store.
pub proof fn law_confirmed_delete_removes(v: ShelfView, s: StoreView, id: i64)
    requires
        s.valid(),
        v.delete_confirm_visible,
        v.delete_confirm_entry_id == Some(id),
    ensures
        v.delete_step(s, Some(DeleteChoice::Confirm)).1.get_by_id(id as int) is None,
        !v.delete_step(s, Some(DeleteChoice::Confirm)).0.delete_confirm_visible,
{
    law_deleted_entry_is_gone(s, id as int);
}

/// Every command that changes the history announces it: when the store
/// after a command differs from the store before, the command's effect is
/// the `changed` event that subscribers receive.
pub proof fn law_store_changes_are_announced(m: StoreView, cmd: Seq<char>, a: ArgsView)
    ensures
        command_of(m, cmd, a).0 != m ==> command_of(m, cmd, a).2.event == Some(Event::Changed),
{
}

/// Re-recording a text that is already kept moves its entry to `now` and
/// changes nothing else: the same entry (id, content, type, source,
/// favorite, category) comes back with the new time, the number of entries
/// stays, nothing is evicted, and every other entry stays.
pub proof fn law_reinsert_keeps_entry(
    m: StoreView,
    content: Seq<char>,
    kind: Seq<char>,
    source: Option<Seq<char>>,
    now: int,
)
    requires
        m.valid(),
        m.get_by_hash(text_digest(content)) is Some,
    ensures
        ({
            let x = m.get_by_hash(text_digest(content))->Some_0;
            let (m2, r) = m.insert_text(content, kind, source, now);
            &&& r == Ok::<EntryView, StoreError>(EntryView { timestamp: now, ..x })
            &&& m2 == m.with_entries(m2.entries)
            &&& m2.entries.len() == m.entries.len()
            &&& m2.entries.contains(EntryView { timestamp: now, ..x })
            &&& forall|y: EntryView| m.entries.contains(y) && y != x ==> m2.entries.contains(y)
        }),
{
    let h = text_digest(content);
    lemma_find_hash(m.entries, h);
    let i = find_hash(m.entries, h)->Some_0 as int;
    let x = m.entries[i];
    let e = EntryView { timestamp: now, ..x };
    let r = m.entries.remove(i);
    lemma_remove_valid(m.entries, i, m.last_entry_id);
    lemma_place(r, e);
    assert forall|y: EntryView| m.entries.contains(y) && y != x implies place(r, e).contains(y) by {
        let j = choose|j: int| 0 <= j < m.entries.len() && m.entries[j] == y;
        assert(j != i);
        if j < i {
            assert(r[j] == y);
        } else {
            assert(r[j - 1] == y);
        }
        assert(r.contains(y));
    }
}

/// Whether eviction at cap `cap` removes the entry at position `j` of the
/// newest-first `s`: it counts against the cap and `cap` entries that count
/// come before it.
pub open spec fn evicted_at(s: Seq<EntryView>, images: bool, cap: nat, j: int) -> bool {
    evictable(s[j], images) && count_evictable(s.take(j), images) >= cap
}

proof fn lemma_count_prefix_grows(s: Seq<EntryView>, images: bool, j: int, i: int)
    requires
        0 <= j <= i <= s.len(),
    ensures
        count_evictable(s.take(j), images) <= count_evictable(s.take(i), images),
    decreases i - j,
{
    if j < i {
        lemma_count_prefix_grows(s, images, j, i - 1);
        assert(s.take(i).drop_last() =~= s.take(i - 1));
    }
}

/// Eviction removes exactly the entries that count against the cap and
/// have `cap` counting entries ahead of them; every other entry stays.
pub proof fn law_eviction_removes_exactly(s: Seq<EntryView>, images: bool, cap: nat)
    requires
        forall|a: int, b: int| 0 <= a < b < s.len() ==> s[a] != s[b],
    ensures
        forall|j: int|
            0 <= j < s.len() ==> (kept(s, images, cap).contains(s[j]) <==> !evicted_at(
                s,
                images,
                cap,
                j,
            )),
    decreases s.len(),
{
    if s.len() > 0 {
        let d = s.drop_last();
        let n = s.len() - 1;
        assert forall|a: int, b: int| 0 <= a < b < d.len() implies d[a] != d[b] by {
            assert(d[a] == s[a] && d[b] == s[b]);
        }
        law_eviction_removes_exactly(d, images, cap);
        lemma_kept_contains(d, images, cap);
        let k = kept(d, images, cap);
        assert(s.take(n) =~= d);
        let ks = kept(s, images, cap);
        assert(evicted_at(s, images, cap, n) ==> ks == k);
        assert(!evicted_at(s, images, cap, n) ==> ks == k.push(s[n]));
        assert forall|j: int| 0 <= j < s.len() implies (ks.contains(s[j]) <==> !evicted_at(
            s,
            images,
            cap,
            j,
        )) by {
            if j < n {
                assert(d[j] == s[j]);
                assert(s.take(j) =~= d.take(j));
                assert(evicted_at(d, images, cap, j) == evicted_at(s, images, cap, j));
                assert(k.contains(d[j]) <==> !evicted_at(d, images, cap, j));
                if !evicted_at(s, images, cap, n) {
                    if ks.contains(s[j]) && !k.contains(s[j]) {
                        let t = choose|t: int| 0 <= t < ks.len() && ks[t] == s[j];
                        assert(t == k.len());
                        assert(s[n] == s[j]);
                    }
                    if k.contains(s[j]) {
                        let t = choose|t: int| 0 <= t < k.len() && k[t] == s[j];
                        assert(ks[t] == s[j]);
                    }
                }
            } else {
                assert(j == n);
                if k.contains(s[n]) {
                    assert(d.contains(s[n]));
                    let t = choose|t: int| 0 <= t < d.len() && d[t] == s[n];
                    assert(s[t] == s[n]);
                }
                if !evicted_at(s, images, cap, n) {
                    assert(ks[k.len() as int] == s[n]);
                }
            }
        }
    }
}

/// Eviction takes the oldest entries that count against the cap: an
/// evicted entry comes after, and is no newer than, every counting entry
/// that stays.
pub proof fn law_eviction_removes_oldest(s: Seq<EntryView>, images: bool, cap: nat)
    requires
        newest_first(s),
    ensures
        forall|i: int, j: int|
            0 <= i < s.len() && 0 <= j < s.len() && evictable(s[i], images) && !evicted_at(
                s,
                images,
                cap,
                i,
            ) && evicted_at(s, images, cap, j) ==> i < j && s[j].timestamp <= s[i].timestamp,
{
    assert forall|i: int, j: int|
        0 <= i < s.len() && 0 <= j < s.len() && evictable(s[i], images) && !evicted_at(
            s,
            images,
            cap,
            i,
        ) && evicted_at(s, images, cap, j) implies i < j && s[j].timestamp <= s[i].timestamp by {
        if j <= i {
            lemma_count_prefix_grows(s, images, j, i);
        }
    }
}

/// Recording a new text (not kept yet) leaves at most `max_entries`
/// non-favorite texts, and every favorite and every image stays.
pub proof fn law_new_text_respects_cap(
    m: StoreView,
    content: Seq<char>,
    kind: Seq<char>,
    source: Option<Seq<char>>,
    now: int,
)
    requires
        m.valid(),
        m.get_by_hash(text_digest(content)) is None,
        m.last_entry_id < crate::model::i64_max(),
    ensures
        ({
            let m2 = m.insert_text(content, kind, source, now).0;
            &&& count_evictable(m2.entries, false) <= m.max_entries
            &&& forall|x: EntryView|
                m.entries.contains(x) && !evictable(x, false) ==> m2.entries.contains(x)
        }),
{
    let h = text_digest(content);
    lemma_find_hash(m.entries, h);
    let e = EntryView {
        id: m.last_entry_id + 1,
        content,
        content_type: kind,
        source,
        hash: h,
        timestamp: now,
        favorite: false,
        content_path: None,
        mime_type: None,
        category: None,
        thumb_path: None,
    };
    let placed = place(m.entries, e);
    lemma_place(m.entries, e);
    law_eviction_respects_cap(placed, false, m.max_entries);
    assert forall|x: EntryView| m.entries.contains(x) && !evictable(x, false) implies kept(
        placed,
        false,
        m.max_entries,
    ).contains(x) by {
        law_eviction_spares_others(placed, false, m.max_entries, x);
    }
}

/// Recording a new image (bytes not kept yet) leaves at most
/// `max_image_entries` non-favorite images, and every favorite and every
/// text stays.
pub proof fn law_new_image_respects_cap(
    m: StoreView,
    data: Seq<u8>,
    mime: Seq<char>,
    source: Option<Seq<char>>,
    now: int,
)
    requires
        m.valid(),
        m.get_by_hash(crate::digest::digest_hex(data)) is None,
        m.last_entry_id < crate::model::i64_max(),
    ensures
        ({
            let m2 = m.insert_image(data, mime, source, now).0;
            &&& count_evictable(m2.entries, true) <= m.max_image_entries
            &&& forall|x: EntryView|
                m.entries.contains(x) && !evictable(x, true) ==> m2.entries.contains(x)
        }),
{
    let h = crate::digest::digest_hex(data);
    lemma_find_hash(m.entries, h);
    let path = crate::paths::image_path_of(m.images_dir, h, mime);
    let e = EntryView {
        id: m.last_entry_id + 1,
        content: Seq::empty(),
        content_type: crate::model::image_kind(),
        source,
        hash: h,
        timestamp: now,
        favorite: false,
        content_path: Some(path),
        mime_type: Some(mime),
        category: None,
        thumb_path: crate::paths::thumb_path_of(path),
    };
    let placed = place(m.entries, e);
    lemma_place(m.entries, e);
    law_eviction_respects_cap(placed, true, m.max_image_entries);
    assert forall|x: EntryView| m.entries.contains(x) && !evictable(x, true) implies kept(
        placed,
        true,
        m.max_image_entries,
    ).contains(x) by {
        law_eviction_spares_others(placed, true, m.max_image_entries, x);
    }
}

/// New caps keep every entry, and the next recording of new text or a new
/// image respects them.
pub proof fn law_caps_apply_to_next_insert(
    m: StoreView,
    max_entries: nat,
    max_image_entries: nat,
    content: Seq<char>,
    kind: Seq<char>,
    data: Seq<u8>,
    mime: Seq<char>,
    source: Option<Seq<char>>,
    now: int,
)
    requires
        m.valid(),
        m.last_entry_id < crate::model::i64_max(),
    ensures
        ({
            let m1 = StoreView { max_entries, max_image_entries, ..m };
            &&& m1.entries == m.entries
            &&& m.get_by_hash(text_digest(content)) is None ==> count_evictable(
                m1.insert_text(content, kind, source, now).0.entries,
                false,
            ) <= max_entries
            &&& m.get_by_hash(crate::digest::digest_hex(data)) is None ==> count_evictable(
                m1.insert_image(data, mime, source, now).0.entries,
                true,
            ) <= max_image_entries
        }),
{
    let m1 = StoreView { max_entries, max_image_entries, ..m };
    if m.get_by_hash(text_digest(content)) is None {
        law_new_text_respects_cap(m1, content, kind, source, now);
    }
    if m.get_by_hash(crate::digest::digest_hex(data)) is None {
        law_new_image_respects_cap(m1, data, mime, source, now);
    }
}

/// The monitor never reports the same hash twice in a row: the first report
/// differs from the hash it started after, and each report from the one
/// before it.
pub proof fn law_monitor_never_repeats(last: Option<Seq<char>>, hs: Seq<Seq<char>>)
    ensures
        ({
            let r = crate::monitor::reported_hashes(last, hs);
            &&& r.len() > 0 ==> last != Some(r[0])
            &&& forall|k: int| 0 <= k < r.len() - 1 ==> #[trigger] r[k] != r[k + 1]
        }),
    decreases hs.len(),
{
    if hs.len() > 0 {
        let rest = hs.drop_first();
        if last != Some(hs[0]) {
            law_monitor_never_repeats(Some(hs[0]), rest);
            let r2 = crate::monitor::reported_hashes(Some(hs[0]), rest);
            let r = seq![hs[0]] + r2;
            assert forall|k: int| 0 <= k < r.len() - 1 implies #[trigger] r[k] != r[k + 1] by {
                if k == 0 {
                    assert(r[1] == r2[0]);
                } else {
                    assert(r[k] == r2[k - 1] && r[k + 1] == r2[k]);
                }
            }
        } else {
            law_monitor_never_repeats(last, rest);
        }
    }
}

proof fn lemma_hover_actions_len(s: HoverState, inputs: Seq<HoverInput>, d: u64, c: u64)
    ensures
        hover_actions(s, inputs, d, c).len() == inputs.len(),
    decreases inputs.len(),
{
    if inputs.len() > 0 {
        lemma_hover_actions_len(hover_next(s, inputs[0], d, c).0, inputs.drop_first(), d, c);
    }
}

proof fn lemma_hover_split(s: HoverState, inputs: Seq<HoverInput>, d: u64, c: u64, n: nat)
    requires
        n <= inputs.len(),
    ensures
        hover_actions(s, inputs, d, c).skip(n as int) == hover_actions(
            hover_after(s, inputs, n, d, c),
            inputs.skip(n as int),
            d,
            c,
        ),
    decreases n,
{
    if n > 0 {
        let s1 = hover_next(s, inputs[0], d, c).0;
        lemma_hover_split(s1, inputs.drop_first(), d, c, (n - 1) as nat);
        assert(inputs.drop_first().skip(n - 1) =~= inputs.skip(n as int));
        let a = hover_actions(s, inputs, d, c);
        let tail = hover_actions(s1, inputs.drop_first(), d, c);
        lemma_hover_actions_len(s, inputs, d, c);
        lemma_hover_actions_len(s1, inputs.drop_first(), d, c);
        assert(a == seq![hover_next(s, inputs[0], d, c).1] + tail);
        assert(a.skip(n as int) =~= tail.skip(n - 1));
    } else {
        assert(inputs.skip(0) =~= inputs);
        assert(hover_actions(s, inputs, d, c).skip(0) =~= hover_actions(s, inputs, d, c));
    }
}

/// Over any run of polls, a shelf opened by the toggle command is left
/// alone: no poll that sees it toggled shows or hides anything.
pub proof fn law_hover_leaves_toggled_shelf(s: HoverState, inputs: Seq<HoverInput>, dwell_ms: u64, close_delay_ms: u64)
    ensures
        hover_actions(s, inputs, dwell_ms, close_delay_ms).len() == inputs.len(),
        forall|k: int|
            0 <= k < inputs.len() && inputs[k].shelf_state == SHELF_TOGGLED ==> #[trigger] hover_actions(
                s,
                inputs,
                dwell_ms,
                close_delay_ms,
            )[k] == HoverAction::Nothing,
    decreases inputs.len(),
{
    lemma_hover_actions_len(s, inputs, dwell_ms, close_delay_ms);
    if inputs.len() > 0 {
        let s1 = hover_next(s, inputs[0], dwell_ms, close_delay_ms).0;
        let rest = inputs.drop_first();
        law_hover_leaves_toggled_shelf(s1, rest, dwell_ms, close_delay_ms);
        let a = hover_actions(s, inputs, dwell_ms, close_delay_ms);
        assert forall|k: int| 0 <= k < inputs.len() && inputs[k].shelf_state == SHELF_TOGGLED implies #[trigger] a[k]
            == HoverAction::Nothing by {
            if k > 0 {
                assert(a[k] == hover_actions(s1, rest, dwell_ms, close_delay_ms)[k - 1]);
                assert(rest[k - 1] == inputs[k]);
            }
        }
    }
}

/// A disarmed watcher (as every show leaves it) shows the shelf again only
/// after some poll saw the pointer outside the hot zone.
pub proof fn law_hover_reshow_needs_leaving(s: HoverState, inputs: Seq<HoverInput>, dwell_ms: u64, close_delay_ms: u64)
    requires
        !s.armed,
    ensures
        forall|j: int|
            0 <= j < inputs.len() && #[trigger] hover_actions(s, inputs, dwell_ms, close_delay_ms)[j]
                == HoverAction::Show ==> exists|k: int| 0 <= k < j && !(#[trigger] inputs[k]).in_zone,
{
    lemma_hover_rearm(s, inputs, dwell_ms, close_delay_ms);
}

proof fn lemma_hover_rearm(s: HoverState, inputs: Seq<HoverInput>, d: u64, c: u64)
    ensures
        forall|j: int|
            0 <= j < inputs.len() && #[trigger] hover_actions(s, inputs, d, c)[j] == HoverAction::Show
                ==> s.armed || exists|k: int| 0 <= k < j && !(#[trigger] inputs[k]).in_zone,
    decreases inputs.len(),
{
    lemma_hover_actions_len(s, inputs, d, c);
    if inputs.len() > 0 {
        let s1 = hover_next(s, inputs[0], d, c).0;
        let rest = inputs.drop_first();
        lemma_hover_rearm(s1, rest, d, c);
        let a = hover_actions(s, inputs, d, c);
        assert forall|j: int| 0 <= j < inputs.len() && #[trigger] a[j] == HoverAction::Show implies s.armed
            || exists|k: int| 0 <= k < j && !(#[trigger] inputs[k]).in_zone by {
            if j == 0 {
                assert(a[0] == hover_next(s, inputs[0], d, c).1);
            } else {
                assert(a[j] == hover_actions(s1, rest, d, c)[j - 1]);
                if !s.armed && inputs[0].in_zone {
                    assert(!s1.armed);
                    let k = choose|k: int| 0 <= k < j - 1 && !(#[trigger] rest[k]).in_zone;
                    assert(rest[k] == inputs[k + 1]);
                    assert(!inputs[k + 1].in_zone);
                } else if !s.armed {
                    assert(!inputs[0].in_zone);
                }
            }
        }
    }
}

/// Between two shows in a run of polls, some poll saw the pointer outside
/// the hot zone.
pub proof fn law_hover_two_shows_need_leaving(
    s: HoverState,
    inputs: Seq<HoverInput>,
    dwell_ms: u64,
    close_delay_ms: u64,
    i: int,
    j: int,
)
    requires
        0 <= i < j < inputs.len(),
        hover_actions(s, inputs, dwell_ms, close_delay_ms)[i] == HoverAction::Show,
        hover_actions(s, inputs, dwell_ms, close_delay_ms)[j] == HoverAction::Show,
    ensures
        exists|k: int| i < k < j && !inputs[k].in_zone,
{
    let a = hover_actions(s, inputs, dwell_ms, close_delay_ms);
    lemma_hover_actions_len(s, inputs, dwell_ms, close_delay_ms);
    lemma_hover_split(s, inputs, dwell_ms, close_delay_ms, i as nat);
    lemma_hover_split(s, inputs, dwell_ms, close_delay_ms, (i + 1) as nat);
    let si = hover_after(s, inputs, i as nat, dwell_ms, close_delay_ms);
    let si1 = hover_after(s, inputs, (i + 1) as nat, dwell_ms, close_delay_ms);
    // The poll at `i` shows, so it leaves the watcher disarmed.
    assert(a.skip(i)[0] == a[i]);
    let ti = inputs.skip(i);
    assert(ti[0] == inputs[i]);
    assert(hover_actions(si, ti, dwell_ms, close_delay_ms)[0] == hover_next(si, ti[0], dwell_ms, close_delay_ms).1);
    lemma_hover_after_step(s, inputs, dwell_ms, close_delay_ms, i as nat);
    assert(!si1.armed);
    let t = inputs.skip(i + 1);
    assert(a.skip(i + 1)[j - i - 1] == a[j]);
    law_hover_reshow_needs_leaving(si1, t, dwell_ms, close_delay_ms);
    lemma_hover_actions_len(si1, t, dwell_ms, close_delay_ms);
    assert(hover_actions(si1, t, dwell_ms, close_delay_ms)[j - i - 1] == HoverAction::Show);
    let k = choose|k: int| 0 <= k < j - i - 1 && !(#[trigger] t[k]).in_zone;
    assert(t[k] == inputs[i + 1 + k]);
}

proof fn lemma_hover_after_step(s: HoverState, inputs: Seq<HoverInput>, d: u64, c: u64, n: nat)
    requires
        n < inputs.len(),
    ensures
        hover_after(s, inputs, n + 1, d, c) == hover_next(hover_after(s, inputs, n, d, c), inputs[n as int], d, c).0,
    decreases n,
{
    let s1 = hover_next(s, inputs[0], d, c).0;
    let rest = inputs.drop_first();
    assert(hover_after(s, inputs, n + 1, d, c) == hover_after(s1, rest, n, d, c));
    if n > 0 {
        lemma_hover_after_step(s1, rest, d, c, (n - 1) as nat);
        assert(rest[n - 1] == inputs[n as int]);
        assert(hover_after(s, inputs, n, d, c) == hover_after(s1, rest, (n - 1) as nat, d, c));
    } else {
        assert(hover_after(s1, rest, 0, d, c) == s1);
        assert(hover_after(s, inputs, 0, d, c) == s);
    }
}

/// Polls `i..=j` all saw the shelf hidden and the pointer in the hot zone.
pub open spec fn dwelt_between(inputs: Seq<HoverInput>, i: int, j: int) -> bool {
    forall|t: int| i <= t <= j ==> (#[trigger] inputs[t]).in_zone && inputs[t].shelf_state == SHELF_HIDDEN
}

proof fn lemma_hover_dwell(s: HoverState, inputs: Seq<HoverInput>, d: u64, c: u64)
    requires
        forall|k: int|
            0 <= k < inputs.len() && (#[trigger] inputs[k]).shelf_state == SHELF_HOVERED ==> hover_after(
                s,
                inputs,
                k as nat,
                d,
                c,
            ).dwell_since is None,
    ensures
        forall|j: int|
            0 <= j < inputs.len() && #[trigger] hover_actions(s, inputs, d, c)[j] == HoverAction::Show ==> {
                ||| exists|i: int|
                    0 <= i <= j && dwelt_between(inputs, i, j) && elapsed(#[trigger] inputs[i].now, inputs[j].now)
                        >= d
                ||| s.dwell_since matches Some(t0) && dwelt_between(inputs, 0, j) && elapsed(t0, inputs[j].now)
                    >= d
            },
    decreases inputs.len(),
{
    lemma_hover_actions_len(s, inputs, d, c);
    if inputs.len() > 0 {
        let s1 = hover_next(s, inputs[0], d, c).0;
        let rest = inputs.drop_first();
        assert forall|k: int| 0 <= k < rest.len() && (#[trigger] rest[k]).shelf_state == SHELF_HOVERED implies hover_after(
            s1,
            rest,
            k as nat,
            d,
            c,
        ).dwell_since is None by {
            assert(rest[k] == inputs[k + 1]);
            assert(hover_after(s, inputs, (k + 1) as nat, d, c) == hover_after(s1, rest, k as nat, d, c));
        }
        lemma_hover_dwell(s1, rest, d, c);
        let a = hover_actions(s, inputs, d, c);
        assert forall|j: int| 0 <= j < inputs.len() && #[trigger] a[j] == HoverAction::Show implies {
            ||| exists|i: int|
                0 <= i <= j && dwelt_between(inputs, i, j) && elapsed(#[trigger] inputs[i].now, inputs[j].now)
                    >= d
            ||| s.dwell_since matches Some(t0) && dwelt_between(inputs, 0, j) && elapsed(t0, inputs[j].now) >= d
        } by {
            if j == 0 {
                assert(a[0] == hover_next(s, inputs[0], d, c).1);
                if s.dwell_since is None {
                    assert(dwelt_between(inputs, 0, 0));
                    assert(elapsed(inputs[0].now, inputs[0].now) >= d);
                }
            } else {
                assert(a[j] == hover_actions(s1, rest, d, c)[j - 1]);
                assert(rest[j - 1] == inputs[j]);
                if exists|i: int|
                    0 <= i <= j - 1 && dwelt_between(rest, i, j - 1) && elapsed(#[trigger] rest[i].now, rest[j - 1].now)
                        >= d {
                    let i = choose|i: int|
                        0 <= i <= j - 1 && dwelt_between(rest, i, j - 1) && elapsed(#[trigger] rest[i].now, rest[j - 1].now)
                            >= d;
                    assert(rest[i] == inputs[i + 1]);
                    assert forall|t: int| i + 1 <= t <= j implies (#[trigger] inputs[t]).in_zone
                        && inputs[t].shelf_state == SHELF_HIDDEN by {
                        assert(rest[t - 1] == inputs[t]);
                    }
                    assert(dwelt_between(inputs, i + 1, j));
                } else {
                    let t1 = s1.dwell_since->Some_0;
                    if inputs[0].shelf_state == SHELF_HOVERED {
                        assert(hover_after(s, inputs, 0, d, c) == s);
                    }
                    assert(inputs[0].shelf_state == SHELF_HIDDEN);
                    assert(inputs[0].in_zone);
                    assert forall|t: int| 0 <= t <= j implies (#[trigger] inputs[t]).in_zone
                        && inputs[t].shelf_state == SHELF_HIDDEN by {
                        if t > 0 {
                            assert(rest[t - 1] == inputs[t]);
                        }
                    }
                    assert(dwelt_between(inputs, 0, j));
                    if s.dwell_since is None {
                        assert(t1 == inputs[0].now);
                    }
                }
            }
        }
    }
}

/// Over a run of polls that starts with nothing dwelling, the watcher shows
/// the shelf only after polls saw the shelf hidden and the pointer in the
/// hot zone without a break for at least the dwell time. Runs in which the
/// shelf is reported hover-opened while the watcher is still dwelling (so
/// without the watcher having shown it) are left out: there the watcher
/// keeps its dwell start, as its code does.
pub proof fn law_hover_shows_after_continuous_dwell(
    s: HoverState,
    inputs: Seq<HoverInput>,
    dwell_ms: u64,
    close_delay_ms: u64,
)
    requires
        s.dwell_since is None,
        forall|k: int|
            0 <= k < inputs.len() && (#[trigger] inputs[k]).shelf_state == SHELF_HOVERED ==> hover_after(
                s,
                inputs,
                k as nat,
                dwell_ms,
                close_delay_ms,
            ).dwell_since is None,
    ensures
        forall|j: int|
            0 <= j < inputs.len() && #[trigger] hover_actions(s, inputs, dwell_ms, close_delay_ms)[j]
                == HoverAction::Show ==> exists|i: int|
                0 <= i <= j && dwelt_between(inputs, i, j) && elapsed(#[trigger] inputs[i].now, inputs[j].now)
                    >= dwell_ms,
{
    lemma_hover_dwell(s, inputs, dwell_ms, close_delay_ms);
}

/// The entries of scored pairs `r` whose score is `v`, in order.
pub open spec fn with_score(r: Seq<(EntryView, i64)>, v: i64) -> Seq<EntryView>
    decreases r.len(),
{
    if r.len() == 0 {
        Seq::empty()
    } else if r.last().1 == v {
        with_score(r.drop_last(), v).push(r.last().0)
    } else {
        with_score(r.drop_last(), v)
    }
}

/// The entries of `s` whose score in `scores` is `v`, in order.
pub open spec fn scoring(s: Seq<EntryView>, scores: Seq<Option<i64>>, v: i64) -> Seq<EntryView>
    decreases s.len(),
{
    if s.len() == 0 || scores.len() == 0 {
        Seq::empty()
    } else if scores.last() == Some(v) {
        scoring(s.drop_last(), scores.drop_last(), v).push(s.last())
    } else {
        scoring(s.drop_last(), scores.drop_last(), v)
    }
}

/// Number of scores in `scores` that are present.
pub open spec fn count_scored(scores: Seq<Option<i64>>) -> nat
    decreases scores.len(),
{
    if scores.len() == 0 {
        0
    } else {
        count_scored(scores.drop_last()) + if scores.last() is Some {
            1nat
        } else {
            0nat
        }
    }
}

proof fn lemma_with_score_add(a: Seq<(EntryView, i64)>, b: Seq<(EntryView, i64)>, v: i64)
    ensures
        with_score(a + b, v) == with_score(a, v) + with_score(b, v),
    decreases b.len(),
{
    if b.len() == 0 {
        assert(a + b =~= a);
        assert(with_score(a, v) + with_score(b, v) =~= with_score(a, v));
    } else {
        lemma_with_score_add(a, b.drop_last(), v);
        assert((a + b).drop_last() =~= a + b.drop_last());
        assert((a + b).last() == b.last());
        if b.last().1 == v {
            assert(with_score(a, v) + with_score(b, v) =~= (with_score(a, v) + with_score(
                b.drop_last(),
                v,
            )).push(b.last().0));
        }
    }
}

proof fn lemma_with_score_none(a: Seq<(EntryView, i64)>, v: i64)
    requires
        forall|i: int| 0 <= i < a.len() ==> a[i].1 != v,
    ensures
        with_score(a, v) == Seq::<EntryView>::empty(),
    decreases a.len(),
{
    if a.len() > 0 {
        lemma_with_score_none(a.drop_last(), v);
    }
}

/// Ranking is stable: among equal scores it keeps the order of `t`.
proof fn lemma_ranked_stable(t: Seq<(EntryView, i64)>, v: i64)
    ensures
        with_score(ranked(t), v) == with_score(t, v),
    decreases t.len(),
{
    if t.len() > 0 {
        let d = t.drop_last();
        let x = t.last();
        let r = ranked(d);
        lemma_ranked_stable(d, v);
        lemma_ranked_sorted(d);
        lemma_score_slot(r, x.1);
        let k = score_slot(r, x.1) as int;
        let ins = r.insert(k, x);
        assert(ins =~= r.take(k) + seq![x] + r.skip(k));
        assert(r =~= r.take(k) + r.skip(k));
        lemma_with_score_add(r.take(k) + seq![x], r.skip(k), v);
        lemma_with_score_add(r.take(k), seq![x], v);
        lemma_with_score_add(r.take(k), r.skip(k), v);
        assert(seq![x].drop_last() =~= Seq::<(EntryView, i64)>::empty());
        assert(seq![x].last() == x);
        assert(with_score(seq![x], v) == if x.1 == v {
            seq![x.0]
        } else {
            Seq::<EntryView>::empty()
        }) by {
            let sx = seq![x];
            assert(sx.len() == 1);
            assert(sx.drop_last() =~= Seq::<(EntryView, i64)>::empty());
            assert(sx.last() == x);
            assert(with_score(sx.drop_last(), v) == Seq::<EntryView>::empty());
            assert(Seq::<EntryView>::empty().push(x.0) =~= seq![x.0]);
        }
        if v == x.1 {
            assert forall|i: int| 0 <= i < r.skip(k).len() implies r.skip(k)[i].1 != v by {
                assert(r.skip(k)[i] == r[k + i]);
                assert(r[k].1 < x.1);
                assert(r[k].1 >= r[k + i].1 || i == 0);
            }
            lemma_with_score_none(r.skip(k), v);
            assert(with_score(ins, v) == with_score(r.take(k), v) + seq![x.0] + Seq::<EntryView>::empty());
            assert(with_score(r, v) == with_score(r.take(k), v) + Seq::<EntryView>::empty());
            assert(with_score(ins, v) =~= with_score(r, v).push(x.0));
        } else {
            assert(with_score(ins, v) == with_score(r.take(k), v) + Seq::<EntryView>::empty() + with_score(r.skip(k), v));
            assert(with_score(ins, v) =~= with_score(r, v));
        }
    }
}

proof fn lemma_scored_parts(s: Seq<EntryView>, scores: Seq<Option<i64>>, v: i64)
    requires
        s.len() == scores.len(),
    ensures
        with_score(scored(s, scores), v) == scoring(s, scores, v),
        scored(s, scores).len() == count_scored(scores),
        forall|p: (EntryView, i64)|
            scored(s, scores).contains(p) <==> exists|k: int|
                0 <= k < s.len() && s[k] == p.0 && #[trigger] scores[k] == Some(p.1),
    decreases s.len(),
{
    if s.len() > 0 {
        let d = s.drop_last();
        let ds = scores.drop_last();
        lemma_scored_parts(d, ds, v);
        let rest = scored(d, ds);
        let n = s.len() - 1;
        match scores.last() {
            Some(kk) => {
                let p0 = (s.last(), kk);
                assert(scored(s, scores) == rest.push(p0));
                assert(rest.push(p0).drop_last() =~= rest);
                assert(rest.push(p0).last() == p0);
            },
            None => {
                assert(scored(s, scores) == rest);
            },
        }
        assert forall|p: (EntryView, i64)| scored(s, scores).contains(p) <==> exists|k: int|
            0 <= k < s.len() && s[k] == p.0 && #[trigger] scores[k] == Some(p.1) by {
            if scored(s, scores).contains(p) {
                let i = choose|i: int| 0 <= i < scored(s, scores).len() && scored(s, scores)[i] == p;
                if i < rest.len() {
                    assert(rest[i] == p);
                    assert(rest.contains(p));
                    let k = choose|k: int| 0 <= k < d.len() && d[k] == p.0 && #[trigger] ds[k] == Some(p.1);
                    assert(s[k] == d[k] && scores[k] == ds[k]);
                } else {
                    assert(scores[n] == Some(p.1));
                }
            }
            if exists|k: int| 0 <= k < s.len() && s[k] == p.0 && #[trigger] scores[k] == Some(p.1) {
                let k = choose|k: int| 0 <= k < s.len() && s[k] == p.0 && #[trigger] scores[k] == Some(p.1);
                if k < n {
                    assert(d[k] == s[k] && ds[k] == scores[k]);
                    assert(rest.contains(p));
                    let i = choose|i: int| 0 <= i < rest.len() && rest[i] == p;
                    assert(scored(s, scores)[i] == p);
                } else {
                    assert(scored(s, scores) == rest.push((s.last(), scores.last()->Some_0)));
                    assert(scored(s, scores)[rest.len() as int] == p);
                }
            }
        }
    } else {
        assert forall|p: (EntryView, i64)| !scored(s, scores).contains(p) by {}
    }
}

proof fn lemma_ranked_members(t: Seq<(EntryView, i64)>)
    ensures
        forall|p: (EntryView, i64)| ranked(t).contains(p) <==> t.contains(p),
    decreases t.len(),
{
    if t.len() > 0 {
        let d = t.drop_last();
        let x = t.last();
        let r = ranked(d);
        lemma_ranked_members(d);
        lemma_score_slot(r, x.1);
        let k = score_slot(r, x.1) as int;
        let ins = r.insert(k, x);
        assert forall|p: (EntryView, i64)| ins.contains(p) <==> t.contains(p) by {
            if ins.contains(p) {
                let i = choose|i: int| 0 <= i < ins.len() && ins[i] == p;
                if i == k {
                    assert(t[t.len() - 1] == p);
                } else {
                    let j = if i < k { i } else { i - 1 };
                    assert(r[j] == p);
                    assert(r.contains(p));
                    assert(d.contains(p));
                    let q = choose|q: int| 0 <= q < d.len() && d[q] == p;
                    assert(t[q] == p);
                }
            }
            if t.contains(p) {
                let q = choose|q: int| 0 <= q < t.len() && t[q] == p;
                if q == t.len() - 1 {
                    assert(ins[k] == p);
                } else {
                    assert(d[q] == p);
                    assert(d.contains(p));
                    let i = choose|i: int| 0 <= i < r.len() && r[i] == p;
                    if i < k {
                        assert(ins[i] == p);
                    } else {
                        assert(ins[i + 1] == p);
                    }
                }
            }
        }
    }
}

/// What a search answers: the entries the matcher scores (each entry with
/// a score, once per score it has), best score first, equal scores in
/// listing order (newest first), at most `limit` of them.
pub proof fn law_search_results(m: StoreView, query: Seq<char>, limit: nat, v: i64)
    ensures
        ({
            let sc = m.scores(query);
            let rk = ranked(scored(m.entries, sc));
            let r = m.search(query, limit);
            &&& rk.len() == count_scored(sc)
            &&& r.len() == if limit < rk.len() {
                limit
            } else {
                rk.len()
            }
            &&& forall|k: int| 0 <= k < r.len() ==> r[k] == rk[k].0
            &&& forall|p: (EntryView, i64)|
                rk.contains(p) <==> (m.entries.contains(p.0) && exists|k: int|
                    0 <= k < m.entries.len() && m.entries[k] == p.0 && #[trigger] sc[k] == Some(p.1))
            &&& forall|p: (EntryView, i64)| rk.contains(p) ==> crate::model::fuzzy_score_of(p.0.content, query) == Some(p.1)
            &&& forall|i: int, j: int| 0 <= i < j < rk.len() ==> rk[i].1 >= rk[j].1
            &&& with_score(rk, v) == scoring(m.entries, sc, v)
        }),
{
    let sc = m.scores(query);
    let t = scored(m.entries, sc);
    lemma_scored_parts(m.entries, sc, v);
    lemma_ranked_members(t);
    lemma_ranked_sorted(t);
    lemma_ranked_stable(t, v);
    let rk = ranked(t);
    let f = firsts(rk);
    assert(f.len() == rk.len());
    assert forall|k: int| 0 <= k < m.search(query, limit).len() implies m.search(query, limit)[k] == rk[k].0 by {
        assert(f[k] == rk[k].0);
    }
    assert forall|p: (EntryView, i64)| rk.contains(p) implies m.entries.contains(p.0)
        && crate::model::fuzzy_score_of(p.0.content, query) == Some(p.1) && exists|k: int|
        0 <= k < m.entries.len() && m.entries[k] == p.0 && #[trigger] sc[k] == Some(p.1) by {
        assert(t.contains(p));
        assert(exists|k: int| 0 <= k < m.entries.len() && m.entries[k] == p.0 && #[trigger] sc[k] == Some(p.1));
        let k = choose|k: int| 0 <= k < m.entries.len() && m.entries[k] == p.0 && #[trigger] sc[k] == Some(p.1);
        assert(m.entries.contains(p.0));
        assert(sc[k] == crate::model::fuzzy_score_of(m.entries[k].content, query));
    }
    assert forall|p: (EntryView, i64)| #![trigger rk.contains(p)] (m.entries.contains(p.0) && exists|k: int|
        0 <= k < m.entries.len() && m.entries[k] == p.0 && #[trigger] sc[k] == Some(p.1)) implies rk.contains(p) by {
        assert(t.contains(p));
    }
}

proof fn lemma_new_entry_found(s: Seq<EntryView>, e: EntryView, images: bool, cap: nat)
    requires
        newest_first(s),
        forall|k: int| 0 <= k < s.len() ==> s[k].hash != e.hash,
    ensures
        find_hash(kept(place(s, e), images, cap), e.hash) matches Some(j) ==> kept(
            place(s, e),
            images,
            cap,
        )[j as int] == e,
{
    let p = place(s, e);
    let k = kept(p, images, cap);
    lemma_place(s, e);
    lemma_kept_contains(p, images, cap);
    lemma_find_hash(k, e.hash);
    if let Some(j) = find_hash(k, e.hash) {
        let x = k[j as int];
        assert(k.contains(x));
        assert(p.contains(x));
        if x != e {
            assert(s.contains(x));
            let q = choose|q: int| 0 <= q < s.len() && s[q] == x;
            assert(s[q].hash != e.hash);
        }
    }
}

/// The hash a capture is kept under: of a text's UTF-8 bytes, of an
/// image's bytes.
pub open spec fn capture_hash(c: crate::monitor::ClipboardContent) -> Seq<char> {
    match c {
        crate::monitor::ClipboardContent::Text(t) => text_digest(t@),
        crate::monitor::ClipboardContent::Image { data, .. } => crate::digest::digest_hex(data@),
    }
}

/// Recording a capture keeps where it came from and what it is. A capture
/// not kept yet becomes an entry of its kind (`text` or `image`) under its
/// hash, from `source`, not a favorite, stamped `now`; a repeat answers the
/// kept entry unchanged but for its new time, and moves it to `now`.
pub proof fn law_capture_keeps_source(
    m: StoreView,
    c: crate::monitor::ClipboardContent,
    source: Option<Seq<char>>,
    now: int,
)
    requires
        m.valid(),
    ensures
        ({
            let h = capture_hash(c);
            let r = crate::monitor::capture_recorded(m, c, source, now).1;
            &&& m.get_by_hash(h) is None && r is Ok ==> {
                &&& r->Ok_0.source == source
                &&& r->Ok_0.hash == h
                &&& r->Ok_0.timestamp == now
                &&& !r->Ok_0.favorite
                &&& r->Ok_0.content_type == match c {
                    crate::monitor::ClipboardContent::Text(_) => "text"@,
                    crate::monitor::ClipboardContent::Image { .. } => crate::model::image_kind(),
                }
            }
            &&& m.get_by_hash(h) matches Some(x) ==> r == Ok::<EntryView, StoreError>(
                EntryView { timestamp: now, ..x },
            )
        }),
{
    let h = capture_hash(c);
    lemma_find_hash(m.entries, h);
    if m.get_by_hash(h) is None && m.last_entry_id < crate::model::i64_max() {
        match c {
            crate::monitor::ClipboardContent::Text(t) => {
                let e = EntryView {
                    id: m.last_entry_id + 1,
                    content: t@,
                    content_type: "text"@,
                    source,
                    hash: h,
                    timestamp: now,
                    favorite: false,
                    content_path: None,
                    mime_type: None,
                    category: None,
                    thumb_path: None,
                };
                lemma_new_entry_found(m.entries, e, false, m.max_entries);
            },
            crate::monitor::ClipboardContent::Image { data, mime_type } => {
                let path = crate::paths::image_path_of(m.images_dir, h, mime_type@);
                let e = EntryView {
                    id: m.last_entry_id + 1,
                    content: Seq::empty(),
                    content_type: crate::model::image_kind(),
                    source,
                    hash: h,
                    timestamp: now,
                    favorite: false,
                    content_path: Some(path),
                    mime_type: Some(mime_type@),
                    category: None,
                    thumb_path: crate::paths::thumb_path_of(path),
                };
                lemma_new_entry_found(m.entries, e, true, m.max_image_entries);
            },
        }
    }
}

proof fn lemma_page_from(s: Seq<EntryView>, limit: nat, offset: nat)
    ensures
        forall|x: EntryView| page(s, limit, offset).contains(x) ==> s.contains(x),
{
    assert forall|x: EntryView| page(s, limit, offset).contains(x) implies s.contains(x) by {
        let p = page(s, limit, offset);
        let j = choose|j: int| 0 <= j < p.len() && p[j] == x;
        let off: int = if offset > crate::model::i64_max() { 0 } else { offset as int };
        assert(s[off + j] == x);
    }
}

proof fn lemma_select_admits(s: Seq<EntryView>, q: Select)
    ensures
        forall|x: EntryView| select(s, q).contains(x) ==> crate::model::admits(q, x) && s.contains(x),
    decreases s.len(),
{
    crate::model::lemma_select_contains(s, q);
    if s.len() > 0 {
        lemma_select_admits(s.drop_last(), q);
        let p = select(s.drop_last(), q);
        assert forall|x: EntryView| select(s, q).contains(x) implies crate::model::admits(q, x) by {
            if !p.contains(x) {
                let j = choose|j: int| 0 <= j < select(s, q).len() && select(s, q)[j] == x;
                assert(select(s, q)[j] == s.last());
            }
        }
    }
}

/// The `list` command answers only stored entries that every given argument
/// admits: `favorites` lists favorites; `text` or `image` lists entries of
/// that type, and with a category only those in it; a category alone lists
/// the entries in it. The store is left as it was, and nothing is announced.
pub proof fn law_list_admits_every_argument(m: StoreView, a: ArgsView)
    ensures
        command_of(m, "list"@, a).0 == m,
        command_of(m, "list"@, a).2.event is None,
        command_of(m, "list"@, a).1 matches crate::ipc::ReplyView::Entries(v) && forall|k: int|
            0 <= k < v.len() ==> {
                let e = #[trigger] v[k];
                &&& m.entries.contains(e)
                &&& a.filter == Some("favorites"@) ==> e.favorite
                &&& (a.filter is Some && (a.filter->0 == "text"@ || a.filter->0 == "image"@)) ==> e.content_type
                    == a.filter->0
                &&& (a.category is Some && a.filter != Some("favorites"@)) ==> e.category == a.category
            },
{
    reveal_strlit("list");
    reveal_strlit("favorites");
    reveal_strlit("text");
    reveal_strlit("image");
    let q = crate::ipc::list_selection(a.filter, a.category);
    let sel = select(m.entries, q);
    let lim = crate::ipc::limit_or(a.limit, 200);
    let off = crate::ipc::limit_or(a.offset, 0);
    lemma_select_admits(m.entries, q);
    lemma_page_from(sel, lim, off);
    let v = page(sel, lim, off);
    assert forall|k: int| 0 <= k < v.len() implies m.entries.contains(#[trigger] v[k]) && crate::model::admits(q, v[k]) by {
        assert(v.contains(v[k]));
    }
}

/// The `counts` command answers the number of entries, of `text` entries,
/// of `image` entries and of favorites, in that order, and changes nothing.
pub proof fn law_counts_by_kind(m: StoreView, a: ArgsView)
    ensures
        command_of(m, "counts"@, a).0 == m,
        command_of(m, "counts"@, a).1 == crate::ipc::ReplyView::Counts(
            m.entries.len(),
            crate::model::count_where(m.entries, Select::Kind("text"@)),
            crate::model::count_where(m.entries, Select::Kind("image"@)),
            crate::model::count_where(m.entries, Select::Favorites),
        ),
{
    reveal_strlit("list");
    reveal_strlit("search");
    reveal_strlit("counts");
    reveal_strlit("text");
    reveal_strlit("image");
    assert(crate::model::text_kind() =~= "text"@);
    assert(crate::model::image_kind() =~= "image"@);
    let c = m.type_counts();
    assert(c.1 == crate::model::count_where(m.entries, Select::Kind("text"@)));
    assert(c.2 == crate::model::count_where(m.entries, Select::Kind("image"@)));
    assert("counts"@ != "list"@) by {
        assert("counts"@.len() != "list"@.len());
    }
    assert("counts"@ != "search"@) by {
        assert("counts"@[0] != "search"@[0]);
    }
    assert(command_of(m, "counts"@, a).1 == crate::ipc::ReplyView::Counts(c.0, c.1, c.2, c.3));
}

/// While the shelf stays hidden and the pointer stays in the armed hot
/// zone, a poll that does not open the shelf keeps the dwell start it had
/// (or starts it at this poll), and keeps the zone armed.
pub proof fn law_hover_dwell_start_kept(s: HoverState, i: HoverInput, dwell_ms: u64, close_delay_ms: u64)
    requires
        s.armed,
        i.in_zone,
        i.shelf_state == SHELF_HIDDEN,
    ensures
        hover_next(s, i, dwell_ms, close_delay_ms).1 != HoverAction::Show ==> {
            &&& hover_next(s, i, dwell_ms, close_delay_ms).0.armed
            &&& hover_next(s, i, dwell_ms, close_delay_ms).0.dwell_since == match s.dwell_since {
                Some(t) => Some(t),
                None => Some(i.now),
            }
        },
{
}

/// Liveness of the dwell: from an armed watcher with nothing dwelling, a run
/// of polls that all see the shelf hidden and the pointer in the hot zone,
/// the last at least `dwell_ms` after the first, opens the shelf at some
/// poll of the run.
pub proof fn law_hover_dwell_opens(s: HoverState, inputs: Seq<HoverInput>, dwell_ms: u64, close_delay_ms: u64)
    requires
        s.armed,
        s.dwell_since is None,
        inputs.len() > 0,
        forall|k: int| 0 <= k < inputs.len() ==> (#[trigger] inputs[k]).in_zone && inputs[k].shelf_state == SHELF_HIDDEN,
        inputs.last().now >= inputs[0].now + dwell_ms,
    ensures
        exists|j: int| 0 <= j < inputs.len() && #[trigger] hover_actions(s, inputs, dwell_ms, close_delay_ms)[j] == HoverAction::Show,
{
    lemma_hover_dwell_opens(s, inputs, dwell_ms, close_delay_ms, inputs[0].now);
}

proof fn lemma_hover_dwell_opens(s: HoverState, inputs: Seq<HoverInput>, d: u64, c: u64, t: u64)
    requires
        s.armed,
        s.dwell_since == Some(t) || (s.dwell_since is None && inputs.len() > 0 && inputs[0].now == t),
        inputs.len() > 0,
        forall|k: int| 0 <= k < inputs.len() ==> (#[trigger] inputs[k]).in_zone && inputs[k].shelf_state == SHELF_HIDDEN,
        inputs.last().now >= t + d,
    ensures
        exists|j: int| 0 <= j < inputs.len() && #[trigger] hover_actions(s, inputs, d, c)[j] == HoverAction::Show,
    decreases inputs.len(),
{
    lemma_hover_actions_len(s, inputs, d, c);
    let a = hover_actions(s, inputs, d, c);
    let (s1, a0) = hover_next(s, inputs[0], d, c);
    assert(inputs[0].in_zone && inputs[0].shelf_state == SHELF_HIDDEN);
    assert(a[0] == a0);
    if a0 != HoverAction::Show {
        let rest = inputs.drop_first();
        if inputs.len() == 1 {
            assert(inputs.last() == inputs[0]);
        } else {
            assert forall|k: int| 0 <= k < rest.len() implies (#[trigger] rest[k]).in_zone && rest[k].shelf_state == SHELF_HIDDEN by {
                assert(rest[k] == inputs[k + 1]);
            }
            assert(rest.last() == inputs.last());
            lemma_hover_dwell_opens(s1, rest, d, c, t);
            let j = choose|j: int| 0 <= j < rest.len() && #[trigger] hover_actions(s1, rest, d, c)[j] == HoverAction::Show;
            assert(a[j + 1] == hover_actions(s1, rest, d, c)[j]);
        }
    }
}

/// The arrow keys move the selection by exactly one card when the shelf has
/// the keyboard: Left to the card before (staying on the first), Right to
/// the card after (staying on the last); with nothing selected both go to
/// the first card. Either way the key is used and nothing is pasted.
pub proof fn law_arrows_move_by_one(v: ShelfView)
    requires
        v.entries.len() <= usize::MAX,
    ensures
        ({
            let (l, lu, lp) = v.key_step(ShelfKey::Left, true, false);
            &&& lu && lp is None
            &&& l.selected_index == Some(match v.selected_index {
                Some(i) => if i > 0 { (i - 1) as usize } else { 0usize },
                None => 0usize,
            })
        }),
        ({
            let (r, ru, rp) = v.key_step(ShelfKey::Right, true, false);
            &&& ru && rp is None
            &&& (v.selected_index is Some && v.selected_index->0 + 1 < v.entries.len()) ==> r.selected_index
                == Some((v.selected_index->0 + 1) as usize)
            &&& (v.selected_index is Some && v.selected_index->0 + 1 >= v.entries.len() && v.entries.len() > 0)
                ==> r.selected_index == Some((v.entries.len() - 1) as usize)
            &&& v.selected_index is None ==> r.selected_index == Some(0usize)
        }),
{
}

} // verus!
