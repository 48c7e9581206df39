//! The shelf's state and the decisions it takes on input: which cards it
//! lists, what a key press, a click or a menu choice does to the store and to
//! the shelf, and when transient badges expire. Drawing stays with the
//! toolkit; this module answers what to draw and what to do.

use vstd::prelude::*;

use crate::model::{EntryView, Select, StoreView};
use crate::store::{category_tuples, entry_views, ClipboardEntry, Store};
use crate::gui::hex_color_of;
use crate::model::{find_id, image_kind};
use crate::store::string_views;
use crate::text::text_eq;
use vstd::string::{StrSliceExecFns, StringExecFns};

verus! {

broadcast use vstd::string::group_string_axioms;

/// How long the "Copied" badge stays on a card after a paste, in
/// milliseconds.
pub const COPIED_BADGE_MS: u64 = 1200;

/// How long an OCR status line lingers, in milliseconds.
pub const OCR_STATUS_MS: u64 = 2600;

/// The filter key of the favorites view.
pub open spec fn favorites_key() -> Seq<char> {
    seq!['f', 'a', 'v', 'o', 'r', 'i', 't', 'e', 's']
}

/// The listing a content-type filter and a category pick.
pub open spec fn fetch_select(filter: Option<Seq<char>>, category: Option<Seq<char>>) -> Select {
    match (filter, category) {
        (Some(ft), Some(cat)) => Select::KindAndCategory(ft, cat),
        (Some(ft), None) => Select::Kind(ft),
        (None, Some(cat)) => Select::Category(cat),
        (None, None) => Select::All,
    }
}

/// The cards the shelf shows: search results while a query is typed, else
/// the favorites, else the entries of the active type and category.
pub open spec fn shelf_listing(
    s: StoreView,
    query: Seq<char>,
    filter: Option<Seq<char>>,
    category: Option<Seq<char>>,
    limit: nat,
) -> Seq<EntryView> {
    if query.len() > 0 {
        s.search(query, limit)
    } else if filter == Some(favorites_key()) {
        s.list(Select::Favorites, limit, 0)
    } else {
        s.list(fetch_select(filter, category), limit, 0)
    }
}

/// The selection after the listing changed: the first card, if any.
pub open spec fn first_selected(entries: Seq<EntryView>) -> Option<usize> {
    if entries.len() == 0 {
        None
    } else {
        Some(0usize)
    }
}

/// Entries of the active listing, newest first.
pub fn fetch_entries(
    store: &Store,
    filter: Option<&str>,
    category: Option<&str>,
    limit: usize,
    offset: usize,
) -> (r: Vec<ClipboardEntry>)
    ensures
        entry_views(r@) == store@.list(
            fetch_select(filter.deep_view(), category.deep_view()),
            limit as nat,
            offset as nat,
        ),
{
    match (filter, category) {
        (Some(ft), Some(cat)) => store.list_by_type_and_category(ft, cat, limit, offset),
        (Some(ft), None) => store.list_by_type(ft, limit, offset),
        (None, Some(cat)) => store.list_by_category(cat, limit, offset),
        (None, None) => store.list(limit, offset),
    }
}

/// The shelf's state between frames.
pub struct ClipboardApp {
    pub entries: Vec<ClipboardEntry>,
    pub search_query: String,
    pub selected_index: Option<usize>,
    pub active_filter: Option<String>,
    pub active_category: Option<String>,
    pub categories: Vec<(i64, String, Option<String>)>,
    /// `(total, text, image, favorites)` counts shown on the tabs.
    pub counts: (usize, usize, usize, usize),
    pub shelf_loaded: bool,
    pub context_menu_entry_id: Option<i64>,
    pub context_menu_visible: bool,
    pub delete_confirm_entry_id: Option<i64>,
    pub delete_confirm_visible: bool,
    pub hovered_entry_id: Option<i64>,
    /// Last image card the pointer hovered; the OCR button targets it.
    pub last_image_hovered: Option<i64>,
    pub scroll_to_selected: bool,
    /// When set (milliseconds on a monotonic clock), the shelf hides once
    /// the "Copied" badge has been seen.
    pub pending_hide: Option<u64>,
    pub page_size: usize,
    pub ocr_available: bool,
    /// Set while an OCR job runs.
    pub ocr_pending: bool,
    /// Transient status line and the time it was shown.
    pub ocr_status: Option<(String, u64)>,
    /// Entry id and time of the last paste, driving the "Copied" badge.
    pub copied: Option<(i64, u64)>,
    pub should_hide: bool,
}

/// The shelf's state as plain values.
pub struct ShelfView {
    pub entries: Seq<EntryView>,
    pub search_query: Seq<char>,
    pub selected_index: Option<usize>,
    pub active_filter: Option<Seq<char>>,
    pub active_category: Option<Seq<char>>,
    pub categories: Seq<crate::model::CategoryView>,
    pub counts: (usize, usize, usize, usize),
    pub shelf_loaded: bool,
    pub context_menu_entry_id: Option<i64>,
    pub context_menu_visible: bool,
    pub delete_confirm_entry_id: Option<i64>,
    pub delete_confirm_visible: bool,
    pub hovered_entry_id: Option<i64>,
    pub last_image_hovered: Option<i64>,
    pub scroll_to_selected: bool,
    pub pending_hide: Option<u64>,
    pub page_size: usize,
    pub ocr_available: bool,
    pub ocr_pending: bool,
    pub ocr_status: Option<(Seq<char>, u64)>,
    pub copied: Option<(i64, u64)>,
    pub should_hide: bool,
}

pub open spec fn status_view(s: Option<(String, u64)>) -> Option<(Seq<char>, u64)> {
    match s {
        Some((m, t)) => Some((m@, t)),
        None => None,
    }
}

impl View for ClipboardApp {
    type V = ShelfView;

    open spec fn view(&self) -> ShelfView {
        ShelfView {
            entries: entry_views(self.entries@),
            search_query: self.search_query@,
            selected_index: self.selected_index,
            active_filter: self.active_filter.deep_view(),
            active_category: self.active_category.deep_view(),
            categories: category_tuples(self.categories@),
            counts: self.counts,
            shelf_loaded: self.shelf_loaded,
            context_menu_entry_id: self.context_menu_entry_id,
            context_menu_visible: self.context_menu_visible,
            delete_confirm_entry_id: self.delete_confirm_entry_id,
            delete_confirm_visible: self.delete_confirm_visible,
            hovered_entry_id: self.hovered_entry_id,
            last_image_hovered: self.last_image_hovered,
            scroll_to_selected: self.scroll_to_selected,
            pending_hide: self.pending_hide,
            page_size: self.page_size,
            ocr_available: self.ocr_available,
            ocr_pending: self.ocr_pending,
            ocr_status: status_view(self.ocr_status),
            copied: self.copied,
            should_hide: self.should_hide,
        }
    }
}

/// `counts` as the store computes them.
pub open spec fn counts_of(s: StoreView) -> (usize, usize, usize, usize) {
    let c = s.type_counts();
    (c.0 as usize, c.1 as usize, c.2 as usize, c.3 as usize)
}

impl ShelfView {
    /// The shelf after its listing was read again from `s`.
    pub open spec fn refreshed(self, s: StoreView) -> ShelfView {
        let e = shelf_listing(
            s,
            self.search_query,
            self.active_filter,
            self.active_category,
            self.page_size as nat,
        );
        ShelfView { entries: e, selected_index: first_selected(e), counts: counts_of(s), ..self }
    }
}

impl ClipboardApp {
    /// A shelf showing the newest `max(shelf_max_entries, 1)` entries of
    /// `store`, the first one selected.
    pub fn new(store: &Store, shelf_max_entries: usize, ocr_available: bool) -> (r: ClipboardApp)
        ensures
            r@.page_size == if shelf_max_entries == 0 { 1 } else { shelf_max_entries },
            r@.entries == store@.list(Select::All, r@.page_size as nat, 0),
            r@.selected_index == first_selected(r@.entries),
            r@.categories == store@.categories,
            r@.counts == counts_of(store@),
            r@.search_query == Seq::<char>::empty(),
            r@.active_filter is None,
            r@.active_category is None,
            !r@.shelf_loaded,
            r@.context_menu_entry_id is None,
            !r@.context_menu_visible,
            r@.delete_confirm_entry_id is None,
            !r@.delete_confirm_visible,
            r@.hovered_entry_id is None,
            r@.last_image_hovered is None,
            !r@.scroll_to_selected,
            r@.pending_hide is None,
            r@.ocr_available == ocr_available,
            !r@.ocr_pending,
            r@.ocr_status is None,
            r@.copied is None,
            !r@.should_hide,
    {
        let page_size = if shelf_max_entries == 0 { 1 } else { shelf_max_entries };
        let categories = store.list_categories();
        let c = store.type_counts();
        let entries = fetch_entries(store, None, None, page_size, 0);
        let selected_index = if entries.len() == 0 { None } else { Some(0) };
        ClipboardApp {
            entries,
            search_query: String::new(),
            selected_index,
            active_filter: None,
            active_category: None,
            categories,
            counts: c,
            shelf_loaded: false,
            context_menu_entry_id: None,
            context_menu_visible: false,
            delete_confirm_entry_id: None,
            delete_confirm_visible: false,
            hovered_entry_id: None,
            last_image_hovered: None,
            scroll_to_selected: false,
            pending_hide: None,
            page_size,
            ocr_available,
            ocr_pending: false,
            ocr_status: None,
            copied: None,
            should_hide: false,
        }
    }

    /// Reads the listing again: search results, favorites, or the active
    /// type and category; selects the first card and recounts the tabs.
    pub fn refresh_entries(&mut self, store: &Store)
        ensures
            final(self)@ == old(self)@.refreshed(store@),
    {
        let limit = self.page_size;
        let entries = if !self.search_query.as_str().is_empty() {
            store.search(self.search_query.as_str(), limit)
        } else {
            match &self.active_filter {
                Some(ft) => {
                    proof {
                        reveal_strlit("favorites");
                    }
                    assert("favorites"@ =~= favorites_key());
                    if text_eq(ft.as_str(), "favorites") {
                        store.list_favorites(limit, 0)
                    } else {
                        match &self.active_category {
                            Some(cat) => store.list_by_type_and_category(
                                ft.as_str(),
                                cat.as_str(),
                                limit,
                                0,
                            ),
                            None => store.list_by_type(ft.as_str(), limit, 0),
                        }
                    }
                },
                None => match &self.active_category {
                    Some(cat) => store.list_by_category(cat.as_str(), limit, 0),
                    None => store.list(limit, 0),
                },
            }
        };
        self.selected_index = if entries.len() == 0 { None } else { Some(0) };
        self.entries = entries;
        self.counts = store.type_counts();
    }

    /// True while a context menu or the delete dialog is open (Escape closes
    /// those instead of hiding the shelf).
    pub fn modal_open(&self) -> (r: bool)
        ensures
            r == (self@.context_menu_visible || self@.delete_confirm_visible),
    {
        self.context_menu_visible || self.delete_confirm_visible
    }
}

// ---------------------------------------------------------------------------
// Keyboard
// ---------------------------------------------------------------------------

/// A navigation key the shelf acts on.
#[derive(Debug, Clone, Copy, PartialEq, Eq, Structural)]
pub enum ShelfKey {
    Left,
    Right,
    Enter,
}

/// The card left of the selection (the first when nothing is selected).
pub open spec fn step_left(sel: Option<usize>) -> usize {
    match sel {
        None => 0,
        Some(i) => if i == 0 {
            0
        } else {
            (i - 1) as usize
        },
    }
}

/// The card right of the selection, never past the last one.
pub open spec fn step_right(sel: Option<usize>, len: nat) -> usize {
    let max: int = if len == 0 {
        0
    } else {
        len - 1
    };
    match sel {
        None => 0,
        Some(i) => {
            let n: int = if i < usize::MAX {
                i + 1
            } else {
                i as int
            };
            (if n < max {
                n
            } else {
                max
            }) as usize
        },
    }
}

impl ShelfView {
    /// A key press: the new state, whether the shelf used the key, and the
    /// card to paste. Keys count only while the shelf holds keyboard focus
    /// and no text field takes them.
    pub open spec fn key_step(self, key: ShelfKey, focused: bool, typing: bool) -> (
        ShelfView,
        bool,
        Option<usize>,
    ) {
        if !focused || typing {
            (self, false, None)
        } else {
            match key {
                ShelfKey::Left => (
                    ShelfView {
                        selected_index: Some(step_left(self.selected_index)),
                        scroll_to_selected: true,
                        ..self
                    },
                    true,
                    None,
                ),
                ShelfKey::Right => (
                    ShelfView {
                        selected_index: Some(step_right(self.selected_index, self.entries.len())),
                        scroll_to_selected: true,
                        ..self
                    },
                    true,
                    None,
                ),
                ShelfKey::Enter => if self.selected_index is Some && self.selected_index->0
                    < self.entries.len() {
                    (ShelfView { should_hide: true, ..self }, true, self.selected_index)
                } else {
                    (self, false, None)
                },
            }
        }
    }
}

impl ClipboardApp {
    /// Arrow keys move the selection; Enter asks to paste the selected card
    /// and hide. Answers whether the key was used and which card to paste.
    pub fn handle_key(&mut self, key: ShelfKey, focused: bool, typing: bool) -> (r: (
        bool,
        Option<usize>,
    ))
        ensures
            (final(self)@, r.0, r.1) == old(self)@.key_step(key, focused, typing),
    {
        if !focused || typing {
            return (false, None);
        }
        match key {
            ShelfKey::Left => {
                let n = match self.selected_index {
                    None => 0,
                    Some(i) => if i == 0 {
                        0
                    } else {
                        i - 1
                    },
                };
                self.selected_index = Some(n);
                self.scroll_to_selected = true;
                (true, None)
            },
            ShelfKey::Right => {
                let max = if self.entries.len() == 0 {
                    0
                } else {
                    self.entries.len() - 1
                };
                let n = match self.selected_index {
                    None => 0,
                    Some(i) => {
                        let up = if i < usize::MAX {
                            i + 1
                        } else {
                            i
                        };
                        if up < max {
                            up
                        } else {
                            max
                        }
                    },
                };
                self.selected_index = Some(n);
                self.scroll_to_selected = true;
                (true, None)
            },
            ShelfKey::Enter => match self.selected_index {
                Some(i) => {
                    if i < self.entries.len() {
                        self.should_hide = true;
                        (true, Some(i))
                    } else {
                        (false, None)
                    }
                },
                None => (false, None),
            },
        }
    }
}

// ---------------------------------------------------------------------------
// Cards
// ---------------------------------------------------------------------------

/// Which part of a card a click landed on.
#[derive(Debug, Clone, Copy, PartialEq, Eq, Structural)]
pub enum CardHit {
    Open,
    Favorite,
    Delete,
    Body,
}

/// What the caller does after a card click.
#[derive(Debug, Clone, Copy, PartialEq, Eq, Structural)]
pub enum CardAction {
    Nothing,
    OpenImage(i64),
    Paste(usize),
}

/// Action buttons take priority over a paste; the open button exists on
/// image cards only.
pub open spec fn hit_of(is_image: bool, in_open: bool, in_fav: bool, in_del: bool) -> CardHit {
    if is_image && in_open {
        CardHit::Open
    } else if in_fav {
        CardHit::Favorite
    } else if in_del {
        CardHit::Delete
    } else {
        CardHit::Body
    }
}

/// Routes a click by the buttons under the pointer.
pub fn click_target(is_image: bool, in_open: bool, in_fav: bool, in_del: bool) -> (r: CardHit)
    ensures
        r == hit_of(is_image, in_open, in_fav, in_del),
{
    if is_image && in_open {
        CardHit::Open
    } else if in_fav {
        CardHit::Favorite
    } else if in_del {
        CardHit::Delete
    } else {
        CardHit::Body
    }
}

impl ShelfView {
    /// A click on card `index` at time `now`: the new shelf and store, and
    /// what the caller does next.
    pub open spec fn card_click(self, s: StoreView, index: int, hit: CardHit, now: u64) -> (
        ShelfView,
        StoreView,
        CardAction,
    ) {
        let id = self.entries[index].id as i64;
        match hit {
            CardHit::Open => (self, s, CardAction::OpenImage(id)),
            CardHit::Favorite => {
                let s1 = s.toggle_favorite(id as int).0;
                (self.refreshed(s1), s1, CardAction::Nothing)
            },
            CardHit::Delete => (
                ShelfView {
                    delete_confirm_entry_id: Some(id),
                    delete_confirm_visible: true,
                    ..self
                },
                s,
                CardAction::Nothing,
            ),
            CardHit::Body => (
                ShelfView {
                    selected_index: Some(index as usize),
                    copied: Some((id, now)),
                    pending_hide: Some(now),
                    ..self
                },
                s,
                CardAction::Paste(index as usize),
            ),
        }
    }

    /// The pointer is over card `index`, or has left it.
    pub open spec fn card_hover(self, index: int, hovered: bool) -> ShelfView {
        let e = self.entries[index];
        let id = e.id as i64;
        if hovered {
            ShelfView {
                hovered_entry_id: Some(id),
                last_image_hovered: if e.content_type == crate::model::image_kind() {
                    Some(id)
                } else {
                    self.last_image_hovered
                },
                ..self
            }
        } else if self.hovered_entry_id == Some(id) {
            ShelfView { hovered_entry_id: None, ..self }
        } else {
            self
        }
    }
}

impl ClipboardApp {
    /// A click on card `index`: the open button opens an image, the star
    /// toggles the favorite, the trash asks for confirmation, the body
    /// selects the card and asks to paste it (then the shelf hides once the
    /// "Copied" badge was seen).
    pub fn card_clicked(
        &mut self,
        store: &mut Store,
        index: usize,
        in_open: bool,
        in_fav: bool,
        in_del: bool,
        now: u64,
    ) -> (r: CardAction)
        requires
            old(store).wf(),
            index < old(self)@.entries.len(),
        ensures
            final(store).wf(),
            (final(self)@, final(store)@, r) == old(self)@.card_click(
                old(store)@,
                index as int,
                hit_of(
                    old(self)@.entries[index as int].content_type == crate::model::image_kind(),
                    in_open,
                    in_fav,
                    in_del,
                ),
                now,
            ),
    {
        let id = self.entries[index].id;
        let is_image = crate::store::is_image_kind(self.entries[index].content_type.as_str());
        assert(self@.entries[index as int] == self.entries@[index as int]@);
        match click_target(is_image, in_open, in_fav, in_del) {
            CardHit::Open => CardAction::OpenImage(id),
            CardHit::Favorite => {
                store.toggle_favorite(id);
                self.refresh_entries(store);
                CardAction::Nothing
            },
            CardHit::Delete => {
                self.delete_confirm_entry_id = Some(id);
                self.delete_confirm_visible = true;
                CardAction::Nothing
            },
            CardHit::Body => {
                self.selected_index = Some(index);
                self.copied = Some((id, now));
                self.pending_hide = Some(now);
                CardAction::Paste(index)
            },
        }
    }

    /// A right click on card `index` opens its context menu.
    pub fn card_secondary_clicked(&mut self, index: usize)
        requires
            index < old(self)@.entries.len(),
        ensures
            final(self)@ == (ShelfView {
                context_menu_entry_id: Some(old(self)@.entries[index as int].id as i64),
                context_menu_visible: true,
                ..old(self)@
            }),
    {
        assert(self@.entries[index as int] == self.entries@[index as int]@);
        self.context_menu_entry_id = Some(self.entries[index].id);
        self.context_menu_visible = true;
    }

    /// Tracks the hovered card, and the last hovered image for OCR.
    pub fn card_hovered(&mut self, index: usize, hovered: bool)
        requires
            index < old(self)@.entries.len(),
        ensures
            final(self)@ == old(self)@.card_hover(index as int, hovered),
    {
        let id = self.entries[index].id;
        assert(self@.entries[index as int] == self.entries@[index as int]@);
        if hovered {
            self.hovered_entry_id = Some(id);
            if crate::store::is_image_kind(self.entries[index].content_type.as_str()) {
                self.last_image_hovered = Some(id);
            }
        } else if self.hovered_entry_id == Some(id) {
            self.hovered_entry_id = None;
        }
    }
}

// ---------------------------------------------------------------------------
// Context menu and delete dialog
// ---------------------------------------------------------------------------

/// A choice in a card's context menu.
#[derive(Debug)]
pub enum MenuAction {
    ToggleFavorite,
    SetCategory(String),
    ClearCategory,
    Delete,
}

/// A context-menu choice as plain values.
pub enum MenuChoice {
    ToggleFavorite,
    SetCategory(Seq<char>),
    ClearCategory,
    Delete,
}

impl View for MenuAction {
    type V = MenuChoice;

    open spec fn view(&self) -> MenuChoice {
        match self {
            MenuAction::ToggleFavorite => MenuChoice::ToggleFavorite,
            MenuAction::SetCategory(c) => MenuChoice::SetCategory(c@),
            MenuAction::ClearCategory => MenuChoice::ClearCategory,
            MenuAction::Delete => MenuChoice::Delete,
        }
    }
}

pub open spec fn choice_view(a: Option<MenuAction>) -> Option<MenuChoice> {
    match a {
        Some(x) => Some(x@),
        None => None,
    }
}

/// A button of the delete dialog.
#[derive(Debug, Clone, Copy, PartialEq, Eq, Structural)]
pub enum DeleteChoice {
    Cancel,
    Confirm,
}

impl ShelfView {
    pub open spec fn menu_closed(self) -> ShelfView {
        ShelfView { context_menu_visible: false, context_menu_entry_id: None, ..self }
    }

    pub open spec fn dialog_closed(self) -> ShelfView {
        ShelfView { delete_confirm_visible: false, delete_confirm_entry_id: None, ..self }
    }

    /// One frame of the context menu: Escape closes it; a choice is applied
    /// to the menu's entry, the listing read again and the menu closed.
    /// `anchored` says whether the menu has a card to stand beside.
    pub open spec fn menu_step(
        self,
        s: StoreView,
        escape: bool,
        anchored: bool,
        action: Option<MenuChoice>,
    ) -> (ShelfView, StoreView) {
        if !self.context_menu_visible {
            (self, s)
        } else if escape {
            (self.menu_closed(), s)
        } else {
            match self.context_menu_entry_id {
                None => (self, s),
                Some(id) => if !anchored {
                    (self, s)
                } else {
                    match action {
                        None => (self, s),
                        Some(a) => self.menu_apply(s, id, a),
                    }
                },
            }
        }
    }

    /// Applies context-menu choice `a` to entry `id`, reads the listing
    /// again and closes the menu.
    pub open spec fn menu_apply(self, s: StoreView, id: i64, a: MenuChoice) -> (ShelfView, StoreView) {
        let (v1, s1) = match a {
            MenuChoice::ToggleFavorite => (self, s.toggle_favorite(id as int).0),
            MenuChoice::SetCategory(c) => (self, s.set_category(id as int, Some(c))),
            MenuChoice::ClearCategory => (self, s.set_category(id as int, None)),
            MenuChoice::Delete => (
                ShelfView { delete_confirm_entry_id: Some(id), delete_confirm_visible: true, ..self },
                s,
            ),
        };
        (v1.refreshed(s1).menu_closed(), s1)
    }

    /// One frame of the delete dialog: Cancel closes it; Confirm deletes
    /// its entry, reads the listing again and closes it.
    pub open spec fn delete_step(self, s: StoreView, choice: Option<DeleteChoice>) -> (
        ShelfView,
        StoreView,
    ) {
        if !self.delete_confirm_visible {
            (self, s)
        } else {
            match choice {
                None => (self, s),
                Some(DeleteChoice::Cancel) => (self.dialog_closed(), s),
                Some(DeleteChoice::Confirm) => match self.delete_confirm_entry_id {
                    Some(id) => {
                        let s1 = s.delete(id as int).0;
                        (self.refreshed(s1).dialog_closed(), s1)
                    },
                    None => (self.dialog_closed(), s),
                },
            }
        }
    }
}

impl ClipboardApp {
    /// Whether entry `id` is a favorite and its category, as the context
    /// menu marks them (the first listed card with that id; none listed:
    /// not a favorite, no category).
    pub fn menu_marks(&self, id: i64) -> (r: (bool, Option<String>))
        ensures
            match crate::model::find_id(self@.entries, id as int) {
                Some(i) => r.0 == self@.entries[i as int].favorite && r.1.deep_view()
                    == self@.entries[i as int].category,
                None => !r.0 && r.1 is None,
            },
    {
        match self.position_of(id) {
            Some(i) => {
                assert(self@.entries[i as int] == self.entries@[i as int]@);
                (self.entries[i].favorite, crate::store::copy_opt(&self.entries[i].category))
            },
            None => (false, None),
        }
    }

    /// One frame of the context menu (see `ShelfView::menu_step`).
    pub fn context_menu_step(
        &mut self,
        store: &mut Store,
        escape: bool,
        anchored: bool,
        action: Option<MenuAction>,
    )
        requires
            old(store).wf(),
        ensures
            final(store).wf(),
            (final(self)@, final(store)@) == old(self)@.menu_step(
                old(store)@,
                escape,
                anchored,
                choice_view(action),
            ),
    {
        if !self.context_menu_visible {
            return ;
        }
        if escape {
            self.context_menu_visible = false;
            self.context_menu_entry_id = None;
            return ;
        }
        let id = match self.context_menu_entry_id {
            Some(id) => id,
            None => {
                return ;
            },
        };
        if !anchored {
            return ;
        }
        match action {
            None => {},
            Some(a) => self.apply_menu_action(store, id, a),
        }
    }

    fn apply_menu_action(&mut self, store: &mut Store, id: i64, a: MenuAction)
        requires
            old(store).wf(),
        ensures
            final(store).wf(),
            (final(self)@, final(store)@) == old(self)@.menu_apply(old(store)@, id, a@),
    {
        match a {
            MenuAction::ToggleFavorite => {
                store.toggle_favorite(id);
            },
            MenuAction::SetCategory(c) => {
                store.set_category(id, Some(c.as_str()));
            },
            MenuAction::ClearCategory => {
                store.set_category(id, None);
            },
            MenuAction::Delete => {
                self.delete_confirm_entry_id = Some(id);
                self.delete_confirm_visible = true;
            },
        }
        self.refresh_entries(store);
        self.context_menu_visible = false;
        self.context_menu_entry_id = None;
    }

    /// One frame of the delete dialog (see `ShelfView::delete_step`).
    pub fn delete_dialog_step(&mut self, store: &mut Store, choice: Option<DeleteChoice>)
        requires
            old(store).wf(),
        ensures
            final(store).wf(),
            (final(self)@, final(store)@) == old(self)@.delete_step(old(store)@, choice),
    {
        if !self.delete_confirm_visible {
            return ;
        }
        match choice {
            None => {},
            Some(DeleteChoice::Cancel) => {
                self.delete_confirm_visible = false;
                self.delete_confirm_entry_id = None;
            },
            Some(DeleteChoice::Confirm) => {
                match self.delete_confirm_entry_id {
                    Some(id) => {
                        let _ = store.delete(id);
                        self.refresh_entries(store);
                    },
                    None => {},
                }
                self.delete_confirm_visible = false;
                self.delete_confirm_entry_id = None;
            },
        }
    }
}

proof fn lemma_find_id_first(s: Seq<EntryView>, id: int, i: int)
    requires
        0 <= i < s.len(),
        s[i].id == id,
        forall|k: int| 0 <= k < i ==> s[k].id != id,
    ensures
        crate::model::find_id(s, id) == Some(i as nat),
    decreases i,
{
    if i > 0 {
        assert forall|k: int| 0 <= k < i - 1 implies s.drop_first()[k].id != id by {
            assert(s.drop_first()[k] == s[k + 1]);
        }
        lemma_find_id_first(s.drop_first(), id, i - 1);
    }
}

proof fn lemma_find_id_none(s: Seq<EntryView>, id: int)
    requires
        forall|k: int| 0 <= k < s.len() ==> s[k].id != id,
    ensures
        crate::model::find_id(s, id) is None,
    decreases s.len(),
{
    if s.len() > 0 {
        assert forall|k: int| 0 <= k < s.len() - 1 implies s.drop_first()[k].id != id by {
            assert(s.drop_first()[k] == s[k + 1]);
        }
        lemma_find_id_none(s.drop_first(), id);
    }
}

// ---------------------------------------------------------------------------
// Header: favorites button, tabs, search
// ---------------------------------------------------------------------------

impl ShelfView {
    pub open spec fn favorites_active(self) -> bool {
        self.active_filter == Some(favorites_key())
    }

    /// A tab is lit when its key is the active filter and the favorites
    /// view is off.
    pub open spec fn tab_lit(self, key: Option<Seq<char>>) -> bool {
        !self.favorites_active() && self.active_filter == key
    }
}

impl ClipboardApp {
    /// Whether the favorites view is on.
    pub fn favorites_active(&self) -> (r: bool)
        ensures
            r == self@.favorites_active(),
    {
        proof {
            reveal_strlit("favorites");
        }
        assert("favorites"@ =~= favorites_key());
        match &self.active_filter {
            Some(ft) => text_eq(ft.as_str(), "favorites"),
            None => false,
        }
    }

    /// Whether the tab of `key` (`None` for the whole history) is lit.
    pub fn tab_active(&self, key: Option<&str>) -> (r: bool)
        ensures
            r == self@.tab_lit(key.deep_view()),
    {
        if self.favorites_active() {
            return false;
        }
        match (&self.active_filter, key) {
            (Some(ft), Some(k)) => text_eq(ft.as_str(), k),
            (None, None) => true,
            _ => false,
        }
    }

    /// The star button switches the favorites view on or off.
    pub fn toggle_favorites(&mut self, store: &Store)
        ensures
            final(self)@ == (ShelfView {
                active_filter: if old(self)@.favorites_active() {
                    None
                } else {
                    Some(favorites_key())
                },
                ..old(self)@
            }).refreshed(store@),
    {
        let on = self.favorites_active();
        proof {
            reveal_strlit("favorites");
        }
        assert("favorites"@ =~= favorites_key());
        self.active_filter = if on {
            None
        } else {
            Some("favorites".to_owned())
        };
        self.refresh_entries(store);
    }

    /// A tab click shows the entries of `key` (`None`: all of them).
    pub fn select_tab(&mut self, store: &Store, key: Option<&str>)
        ensures
            final(self)@ == (ShelfView { active_filter: key.deep_view(), ..old(self)@ }).refreshed(
                store@,
            ),
    {
        self.active_filter = crate::store::own_opt(key);
        self.refresh_entries(store);
    }

    /// The search text changed.
    pub fn set_search(&mut self, store: &Store, query: String)
        ensures
            final(self)@ == (ShelfView { search_query: query@, ..old(self)@ }).refreshed(store@),
    {
        self.search_query = query;
        self.refresh_entries(store);
    }

    /// Reads the listing the first time the shelf is drawn; answers whether
    /// it did (thumbnails are then loaded).
    pub fn load_once(&mut self, store: &Store) -> (r: bool)
        ensures
            r == !old(self)@.shelf_loaded,
            final(self)@ == if r {
                (ShelfView { shelf_loaded: true, ..old(self)@ }).refreshed(store@)
            } else {
                old(self)@
            },
    {
        if self.shelf_loaded {
            return false;
        }
        self.shelf_loaded = true;
        self.refresh_entries(store);
        true
    }

    /// What the empty shelf says.
    pub fn empty_message(&self) -> (r: &'static str)
        ensures
            r@ == if self@.search_query.len() == 0 {
                "Clipboard history is empty"@
            } else {
                "No matches"@
            },
    {
        if self.search_query.as_str().is_empty() {
            "Clipboard history is empty"
        } else {
            "No matches"
        }
    }
}

// ---------------------------------------------------------------------------
// End of a frame: Escape, badges, repaint pace
// ---------------------------------------------------------------------------

/// Milliseconds from `t` to `now` on a monotonic clock, never negative.
pub open spec fn elapsed(now: u64, t: u64) -> int {
    if now >= t {
        now - t
    } else {
        0
    }
}

impl ShelfView {
    /// The end of a frame at time `now`: Escape closes an open menu and an
    /// open dialog; after the "Copied" badge was seen a pending hide takes
    /// effect; expired badges go; the next frame comes after 60 ms while
    /// anything transient shows, after 500 ms otherwise.
    pub open spec fn end_frame(self, escape: bool, now: u64) -> (ShelfView, u64) {
        let v1 = if self.context_menu_visible && escape {
            self.menu_closed()
        } else {
            self
        };
        let v2 = if v1.delete_confirm_visible && escape {
            v1.dialog_closed()
        } else {
            v1
        };
        let v3 = match v2.pending_hide {
            Some(t) => if elapsed(now, t) > COPIED_BADGE_MS {
                ShelfView { pending_hide: None, should_hide: true, ..v2 }
            } else {
                v2
            },
            None => v2,
        };
        let v4 = match v3.copied {
            Some((_, t)) => if elapsed(now, t) > COPIED_BADGE_MS {
                ShelfView { copied: None, ..v3 }
            } else {
                v3
            },
            None => v3,
        };
        let v5 = match v4.ocr_status {
            Some((_, t)) => if elapsed(now, t) > OCR_STATUS_MS {
                ShelfView { ocr_status: None, ..v4 }
            } else {
                v4
            },
            None => v4,
        };
        let busy = v5.copied is Some || v5.ocr_status is Some || v5.ocr_pending
            || v5.pending_hide is Some;
        (v5, if busy {
            60
        } else {
            500
        })
    }
}

fn elapsed_ms(now: u64, t: u64) -> (r: u64)
    ensures
        r == elapsed(now, t),
{
    if now >= t {
        now - t
    } else {
        0
    }
}

impl ClipboardApp {
    /// Starts a frame: the shelf stays unless this frame asks to hide it.
    pub fn begin_frame(&mut self)
        ensures
            final(self)@ == (ShelfView { should_hide: false, ..old(self)@ }),
    {
        self.should_hide = false;
    }

    /// Ends a frame at `now` (see `ShelfView::end_frame`); answers the
    /// delay before the next frame in milliseconds.
    pub fn end_frame(&mut self, escape: bool, now: u64) -> (r: u64)
        ensures
            (final(self)@, r) == old(self)@.end_frame(escape, now),
    {
        if self.context_menu_visible && escape {
            self.context_menu_visible = false;
            self.context_menu_entry_id = None;
        }
        if self.delete_confirm_visible && escape {
            self.delete_confirm_visible = false;
            self.delete_confirm_entry_id = None;
        }
        match self.pending_hide {
            Some(t) => {
                if elapsed_ms(now, t) > COPIED_BADGE_MS {
                    self.pending_hide = None;
                    self.should_hide = true;
                }
            },
            None => {},
        }
        match self.copied {
            Some((_, t)) => {
                if elapsed_ms(now, t) > COPIED_BADGE_MS {
                    self.copied = None;
                }
            },
            None => {},
        }
        let expire = match &self.ocr_status {
            Some((_, t)) => elapsed_ms(now, *t) > OCR_STATUS_MS,
            None => false,
        };
        if expire {
            self.ocr_status = None;
        }
        let busy = self.copied.is_some() || self.ocr_status.is_some() || self.ocr_pending
            || self.pending_hide.is_some();
        if busy {
            60
        } else {
            500
        }
    }
}

// ---------------------------------------------------------------------------
// OCR
// ---------------------------------------------------------------------------

impl ShelfView {
    /// The card OCR reads: the last hovered image, else the selected card.
    pub open spec fn ocr_candidate(self) -> Option<i64> {
        match self.last_image_hovered {
            Some(id) => Some(id),
            None => match self.selected_index {
                Some(i) => if i < self.entries.len() {
                    Some(self.entries[i as int].id as i64)
                } else {
                    None
                },
                None => None,
            },
        }
    }

    /// Whether the candidate is a listed image card.
    pub open spec fn ocr_candidate_is_image(self) -> bool {
        match self.ocr_candidate() {
            Some(id) => match find_id(self.entries, id as int) {
                Some(i) => self.entries[i as int].content_type == image_kind(),
                None => false,
            },
            None => false,
        }
    }

    /// The OCR button at `now`: the entry to read, or a status line saying
    /// why there is none; nothing while a job runs.
    pub open spec fn ocr_pick(self, now: u64) -> (ShelfView, Option<i64>) {
        if !self.ocr_available {
            (ShelfView { ocr_status: Some(("tesseract not installed"@, now)), ..self }, None)
        } else if self.ocr_pending {
            (self, None)
        } else if self.ocr_candidate_is_image() {
            (self, self.ocr_candidate())
        } else {
            (ShelfView { ocr_status: Some(("Hover an image to scan"@, now)), ..self }, None)
        }
    }
}

impl ClipboardApp {
    /// Position of the first listed card with id `id`.
    fn position_of(&self, id: i64) -> (r: Option<usize>)
        ensures
            match r {
                Some(i) => i < self@.entries.len() && find_id(self@.entries, id as int) == Some(
                    i as nat,
                ),
                None => find_id(self@.entries, id as int) is None,
            },
    {
        let mut i: usize = 0;
        while i < self.entries.len()
            invariant
                i <= self.entries@.len(),
                forall|k: int| 0 <= k < i ==> self@.entries[k].id != id,
            decreases self.entries@.len() - i,
        {
            assert(self@.entries[i as int] == self.entries@[i as int]@);
            if self.entries[i].id == id {
                proof {
                    lemma_find_id_first(self@.entries, id as int, i as int);
                }
                return Some(i);
            }
            i = i + 1;
        }
        proof {
            lemma_find_id_none(self@.entries, id as int);
        }
        None
    }

    /// The OCR button (see `ShelfView::ocr_pick`).
    pub fn ocr_target(&mut self, now: u64) -> (r: Option<i64>)
        ensures
            (final(self)@, r) == old(self)@.ocr_pick(now),
    {
        if !self.ocr_available {
            self.ocr_status = Some(("tesseract not installed".to_owned(), now));
            return None;
        }
        if self.ocr_pending {
            return None;
        }
        let candidate = match self.last_image_hovered {
            Some(id) => Some(id),
            None => match self.selected_index {
                Some(i) => if i < self.entries.len() {
                    assert(self@.entries[i as int] == self.entries@[i as int]@);
                    Some(self.entries[i].id)
                } else {
                    None
                },
                None => None,
            },
        };
        let is_image = match candidate {
            Some(id) => match self.position_of(id) {
                Some(i) => {
                    assert(self@.entries[i as int] == self.entries@[i as int]@);
                    crate::store::is_image_kind(self.entries[i].content_type.as_str())
                },
                None => false,
            },
            None => false,
        };
        if is_image {
            candidate
        } else {
            self.ocr_status = Some(("Hover an image to scan".to_owned(), now));
            None
        }
    }

    /// An OCR job started at `now`.
    pub fn ocr_started(&mut self, now: u64)
        ensures
            final(self)@ == (ShelfView {
                ocr_pending: true,
                ocr_status: Some(("Scanning…"@, now)),
                ..old(self)@
            }),
    {
        self.ocr_pending = true;
        self.ocr_status = Some(("Scanning…".to_owned(), now));
    }

    /// The OCR job answered `text` at `now`; answers whether the text is to
    /// be copied and recorded (it is not when empty).
    pub fn ocr_finished(&mut self, text: &str, now: u64) -> (r: bool)
        ensures
            r == (text@.len() > 0),
            final(self)@ == if r {
                ShelfView { ocr_pending: false, ..old(self)@ }
            } else {
                ShelfView {
                    ocr_pending: false,
                    ocr_status: Some(("No text found"@, now)),
                    ..old(self)@
                }
            },
    {
        self.ocr_pending = false;
        if text.is_empty() {
            self.ocr_status = Some(("No text found".to_owned(), now));
            false
        } else {
            true
        }
    }

    /// Records recognised text as a text entry from source `ocr` at
    /// `now_ns` (nanoseconds since the epoch), reads the listing again and
    /// says so at `now`.
    pub fn ocr_recorded(&mut self, store: &mut Store, text: &str, now_ns: i64, now: u64)
        requires
            old(store).wf(),
        ensures
            final(store).wf(),
            final(store)@ == old(store)@.insert_text(text@, "text"@, Some("ocr"@), now_ns as int).0,
            final(self)@ == (ShelfView {
                ocr_status: Some(("Text copied"@, now)),
                ..old(self)@.refreshed(final(store)@)
            }),
    {
        let _ = store.insert(text, "text", Some("ocr"), now_ns);
        self.refresh_entries(store);
        self.ocr_status = Some(("Text copied".to_owned(), now));
    }
}

// ---------------------------------------------------------------------------
// Day headings, paste type, colour swatches
// ---------------------------------------------------------------------------

/// `g` splits `0..labels.len()` into maximal runs of equal labels, in
/// order, each given as `(start, end)`.
pub open spec fn groups_of(labels: Seq<Seq<char>>, g: Seq<(usize, usize)>) -> bool {
    &&& (labels.len() == 0 <==> g.len() == 0)
    &&& g.len() > 0 ==> g[0].0 == 0 && g.last().1 == labels.len()
    &&& forall|k: int| 0 <= k < g.len() ==> #[trigger] g[k].0 < g[k].1 <= labels.len()
    &&& forall|k: int| 0 <= k < g.len() - 1 ==> #[trigger] g[k].1 == g[k + 1].0
    &&& forall|k: int, j: int|
        0 <= k < g.len() && g[k].0 <= j < g[k].1 ==> #[trigger] labels[j] == labels[#[trigger] g[k].0 as int]
    &&& forall|k: int|
        0 <= k < g.len() && #[trigger] g[k].1 < labels.len() ==> labels[g[k].1 as int] != labels[g[k].0 as int]
}

/// Groups consecutive cards under one heading per day: the runs of equal
/// labels, in order.
pub fn day_groups(labels: &Vec<String>) -> (r: Vec<(usize, usize)>)
    ensures
        groups_of(string_views(labels@), r@),
{
    let ghost l = string_views(labels@);
    let n = labels.len();
    let mut out: Vec<(usize, usize)> = Vec::new();
    let mut i: usize = 0;
    while i < n
        invariant
            n == labels@.len(),
            l == string_views(labels@),
            l.len() == n,
            i <= n,
            (i == 0 <==> out@.len() == 0),
            out@.len() > 0 ==> out@[0].0 == 0 && out@.last().1 == i,
            forall|k: int| 0 <= k < out@.len() ==> #[trigger] out@[k].0 < out@[k].1 <= i,
            forall|k: int| 0 <= k < out@.len() - 1 ==> #[trigger] out@[k].1 == out@[k + 1].0,
            forall|k: int, j: int|
                0 <= k < out@.len() && out@[k].0 <= j < out@[k].1 ==> #[trigger] l[j]
                    == l[#[trigger] out@[k].0 as int],
            forall|k: int|
                0 <= k < out@.len() && #[trigger] out@[k].1 < n ==> l[out@[k].1 as int]
                    != l[out@[k].0 as int],
        decreases n - i,
    {
        let mut j: usize = i + 1;
        assert(l[i as int] == labels@[i as int]@);
        while j < n && labels[j] == labels[i]
            invariant
                n == labels@.len(),
                l == string_views(labels@),
                l.len() == n,
                i < j <= n,
                forall|t: int| i <= t < j ==> #[trigger] l[t] == l[i as int],
            decreases n - j,
        {
            assert(l[j as int] == labels@[j as int]@);
            j = j + 1;
        }
        if j < n {
            assert(l[j as int] == labels@[j as int]@);
            assert(l[j as int] != l[i as int]);
        }
        let ghost before = out@;
        out.push((i, j));
        assert forall|k: int|
            0 <= k < out@.len() && #[trigger] out@[k].1 < n implies l[out@[k].1 as int]
            != l[out@[k].0 as int] by {
            if k < before.len() {
                assert(out@[k] == before[k]);
            }
        }
        assert forall|k: int, t: int|
            0 <= k < out@.len() && out@[k].0 <= t < out@[k].1 implies #[trigger] l[t]
            == l[#[trigger] out@[k].0 as int] by {
            if k < before.len() {
                assert(out@[k] == before[k]);
            }
        }
        i = j;
    }
    out
}

pub open spec fn image_prefix() -> Seq<char> {
    seq!['i', 'm', 'a', 'g', 'e', '/']
}

/// The type an image card is pasted as: its own `image/...` type, else
/// `image/png`.
pub open spec fn paste_mime_of(content: Seq<char>) -> Seq<char> {
    if content.len() >= 6 && content.take(6) == image_prefix() {
        content
    } else {
        image_prefix() + seq!['p', 'n', 'g']
    }
}

/// The type to paste an image card as, from its content (its mime type).
pub fn paste_mime(content: &str) -> (r: String)
    ensures
        r@ == paste_mime_of(content@),
{
    proof {
        reveal_strlit("image/png");
    }
    let n = content.unicode_len();
    if n >= 6 && content.get_char(0) == 'i' && content.get_char(1) == 'm' && content.get_char(2)
        == 'a' && content.get_char(3) == 'g' && content.get_char(4) == 'e' && content.get_char(5)
        == '/' {
        assert(content@.take(6) =~= image_prefix());
        content.to_owned()
    } else {
        assert(n >= 6 ==> content@.take(6) != image_prefix()) by {
            if n >= 6 && content@.take(6) == image_prefix() {
                assert(content@[0] == content@.take(6)[0]);
                assert(content@[1] == content@.take(6)[1]);
                assert(content@[2] == content@.take(6)[2]);
                assert(content@[3] == content@.take(6)[3]);
                assert(content@[4] == content@.take(6)[4]);
                assert(content@[5] == content@.take(6)[5]);
            }
        }
        assert("image/png"@ =~= image_prefix() + seq!['p', 'n', 'g']);
        "image/png".to_owned()
    }
}

/// The colour a card is painted with: a text card that reads as a hex
/// colour; never an image card.
pub fn card_swatch(e: &ClipboardEntry) -> (r: Option<(u8, u8, u8)>)
    ensures
        r == if e@.content_type == image_kind() {
            None
        } else {
            hex_color_of(e@.content)
        },
{
    if crate::store::is_image_kind(e.content_type.as_str()) {
        None
    } else {
        crate::gui::parse_hex_color(e.content.as_str())
    }
}

pub open spec fn hex_upper_digits() -> Seq<char> {
    seq!['0', '1', '2', '3', '4', '5', '6', '7', '8', '9', 'A', 'B', 'C', 'D', 'E', 'F']
}

/// `b` as two upper-case hex digits.
pub open spec fn byte_hex(b: u8) -> Seq<char> {
    seq![hex_upper_digits()[(b / 16) as int], hex_upper_digits()[(b % 16) as int]]
}

/// A colour as `#RRGGBB`.
pub open spec fn swatch_label_of(c: (u8, u8, u8)) -> Seq<char> {
    seq!['#'] + byte_hex(c.0) + byte_hex(c.1) + byte_hex(c.2)
}

fn hex_digit_text(d: u8) -> (r: &'static str)
    requires
        d < 16,
    ensures
        r@ == seq![hex_upper_digits()[d as int]],
{
    proof {
        reveal_strlit("0");
        reveal_strlit("1");
        reveal_strlit("2");
        reveal_strlit("3");
        reveal_strlit("4");
        reveal_strlit("5");
        reveal_strlit("6");
        reveal_strlit("7");
        reveal_strlit("8");
        reveal_strlit("9");
        reveal_strlit("A");
        reveal_strlit("B");
        reveal_strlit("C");
        reveal_strlit("D");
        reveal_strlit("E");
        reveal_strlit("F");
    }
    let r = match d {
        0 => "0",
        1 => "1",
        2 => "2",
        3 => "3",
        4 => "4",
        5 => "5",
        6 => "6",
        7 => "7",
        8 => "8",
        9 => "9",
        10 => "A",
        11 => "B",
        12 => "C",
        13 => "D",
        14 => "E",
        _ => "F",
    };
    assert(r@ =~= seq![hex_upper_digits()[d as int]]);
    r
}

/// The label a colour swatch shows: `#RRGGBB`, upper case.
pub fn swatch_label(c: (u8, u8, u8)) -> (r: String)
    ensures
        r@ == swatch_label_of(c),
{
    proof {
        reveal_strlit("#");
    }
    let mut s = "#".to_owned();
    s.append(hex_digit_text(c.0 / 16));
    s.append(hex_digit_text(c.0 % 16));
    s.append(hex_digit_text(c.1 / 16));
    s.append(hex_digit_text(c.1 % 16));
    s.append(hex_digit_text(c.2 / 16));
    s.append(hex_digit_text(c.2 % 16));
    assert(s@ =~= swatch_label_of(c));
    s
}

} // verus!
