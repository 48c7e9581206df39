//! The daemon's socket protocol: framing, the legacy one-shot tokens, the
//! JSON commands against the store, and event fan-out to subscribers.

use std::sync::mpsc::Sender;
use std::sync::{Arc, Mutex, MutexGuard};
use vstd::prelude::*;
use vstd::string::StringExecFns;

use crate::model::{image_kind, CategoryView, EntryView, Select, StoreView};
use crate::store::{
    category_tuples, copy_opt, entry_views, ClipboardEntry, EntryOptionView, Store,
};
use crate::text::{
    ascii_ws, bytes_eq, decimal, decimal_text, first_byte, is_ascii_ws, lemma_first_byte, text_eq,
    trim_ascii, trimmed,
};

verus! {

/// std's `mpsc::Sender`, carried through as an opaque value.
#[verifier::external_type_specification]
#[verifier::external_body]
#[verifier::reject_recursive_types(T)]
pub struct ExSender<T>(Sender<T>);

/// std's `Mutex`, carried through as an opaque value.
#[verifier::external_type_specification]
#[verifier::external_body]
#[verifier::reject_recursive_types(T)]
pub struct ExMutex<T: ?Sized>(Mutex<T>);

/// std's `MutexGuard`, carried through as an opaque value.
#[verifier::external_type_specification]
#[verifier::external_body]
#[verifier::reject_recursive_types(T)]
pub struct ExMutexGuard<'a, T: ?Sized + 'a>(MutexGuard<'a, T>);


/// Legacy one-shot token: show or hide the shelf.
pub const TOGGLE_CMD: [u8; 6] = [116u8, 111u8, 103u8, 103u8, 108u8, 101u8];
/// Legacy one-shot token: stop the daemon.
pub const QUIT_CMD: [u8; 4] = [113u8, 117u8, 105u8, 116u8];
/// Legacy one-shot token: report the entry count.
pub const STATUS_CMD: [u8; 6] = [115u8, 116u8, 97u8, 116u8, 117u8, 115u8];

/// Line pushed to every subscriber whenever the history changes.
pub const CHANGED_EVENT: &'static str = "{\"event\":\"changed\"}";
/// Line pushed to every subscriber to toggle the shelf's visibility.
pub const TOGGLE_EVENT: &'static str = "{\"event\":\"toggle\"}";
/// Line pushed to every subscriber when the config changes.
pub const CONFIG_EVENT: &'static str = "{\"event\":\"config\"}";


// ---------------------------------------------------------------------------
// Legacy one-shot tokens and line framing
// ---------------------------------------------------------------------------

/// A legacy one-shot command, recognised on a connection's first chunk.
#[derive(Debug, Clone, Copy, PartialEq, Eq, Structural)]
pub enum Legacy {
    Toggle,
    Quit,
    Status,
    /// Not a legacy token: the chunk starts the JSON line protocol.
    NotLegacy,
}

pub open spec fn legacy_of(chunk: Seq<u8>) -> Legacy {
    let t = trimmed(chunk);
    if t == TOGGLE_CMD@ {
        Legacy::Toggle
    } else if t == QUIT_CMD@ {
        Legacy::Quit
    } else if t == STATUS_CMD@ {
        Legacy::Status
    } else {
        Legacy::NotLegacy
    }
}

/// Which legacy token the first chunk of a connection is, if any.
pub fn legacy_command(chunk: &[u8]) -> (r: Legacy)
    ensures
        r == legacy_of(chunk@),
{
    let t = trim_ascii(chunk);
    if bytes_eq(t, TOGGLE_CMD.as_slice()) {
        Legacy::Toggle
    } else if bytes_eq(t, QUIT_CMD.as_slice()) {
        Legacy::Quit
    } else if bytes_eq(t, STATUS_CMD.as_slice()) {
        Legacy::Status
    } else {
        Legacy::NotLegacy
    }
}

/// What a legacy command is answered: `ok`, `bye`, or the entry count and a
/// newline.
pub open spec fn legacy_answer_of(l: Legacy, count: nat) -> Seq<char> {
    match l {
        Legacy::Toggle => seq!['o', 'k'],
        Legacy::Quit => seq!['b', 'y', 'e'],
        Legacy::Status => decimal(count) + seq!['\n'],
        Legacy::NotLegacy => Seq::empty(),
    }
}

pub fn legacy_answer(l: Legacy, count: usize) -> (r: String)
    ensures
        r@ == legacy_answer_of(l, count as nat),
{
    match l {
        Legacy::Toggle => {
            proof {
                reveal_strlit("ok");
            }
            let r = "ok".to_owned();
            assert(r@ =~= seq!['o', 'k']);
            r
        },
        Legacy::Quit => {
            proof {
                reveal_strlit("bye");
            }
            let r = "bye".to_owned();
            assert(r@ =~= seq!['b', 'y', 'e']);
            r
        },
        Legacy::Status => {
            let mut r = decimal_text(count as u64);
            proof {
                reveal_strlit("\n");
            }
            r.append("\n");
            assert(r@ =~= decimal(count as nat) + seq!['\n']);
            r
        },
        Legacy::NotLegacy => String::new(),
    }
}

/// Takes the first complete line (up to the first newline) off the front of
/// `acc`, without its newline.
pub fn take_line(acc: &mut Vec<u8>) -> (r: Option<Vec<u8>>)
    ensures
        match first_byte(old(acc)@, 10u8) {
            Some(p) => r is Some && r->Some_0@ == old(acc)@.take(p as int) && final(acc)@
                == old(acc)@.skip(p as int + 1),
            None => r is None && final(acc)@ == old(acc)@,
        },
{
    let mut p: usize = 0;
    while p < acc.len() && acc[p] != 10u8
        invariant
            p <= acc@.len(),
            acc@ == old(acc)@,
            forall|k: int| 0 <= k < p ==> acc@[k] != 10u8,
        decreases acc@.len() - p,
    {
        p = p + 1;
    }
    proof {
        lemma_first_byte(acc@, 10u8, p as int);
    }
    if p == acc.len() {
        return None;
    }
    let rest = acc.split_off(p + 1);
    let mut line: Vec<u8> = Vec::new();
    std::mem::swap(&mut line, acc);
    *acc = rest;
    line.pop();
    assert(line@ =~= old(acc)@.take(p as int));
    Some(line)
}

/// Whether a line holds nothing but ASCII whitespace.
pub fn is_blank(line: &[u8]) -> (r: bool)
    ensures
        r == forall|k: int| 0 <= k < line@.len() ==> ascii_ws(line@[k]),
{
    let mut i: usize = 0;
    while i < line.len()
        invariant
            i <= line@.len(),
            forall|k: int| 0 <= k < i ==> ascii_ws(line@[k]),
        decreases line@.len() - i,
    {
        if !is_ascii_ws(line[i]) {
            return false;
        }
        i = i + 1;
    }
    true
}

/// Writes `s` and a newline to `out`: one protocol line.
pub fn write_line(out: &mut Vec<u8>, s: &str)
    ensures
        final(out)@ == old(out)@ + crate::text::utf8(s@) + seq![10u8],
{
    let mut v = vstd::slice::slice_to_vec(s.as_bytes());
    v.push(10u8);
    let ghost before = out@;
    let ghost added = v@;
    out.append(&mut v);
    assert(out@ =~= before + crate::text::utf8(s@) + seq![10u8]);
}

// ---------------------------------------------------------------------------
// JSON commands
// ---------------------------------------------------------------------------

/// The arguments a command may carry, as the request's `args` object gave
/// them (an argument of the wrong JSON type counts as absent).
#[derive(Debug)]
pub struct Args {
    pub limit: Option<u64>,
    pub offset: Option<u64>,
    pub filter: Option<String>,
    pub category: Option<String>,
    pub query: Option<String>,
    pub id: Option<i64>,
}

pub struct ArgsView {
    pub limit: Option<u64>,
    pub offset: Option<u64>,
    pub filter: Option<Seq<char>>,
    pub category: Option<Seq<char>>,
    pub query: Option<Seq<char>>,
    pub id: Option<i64>,
}

impl View for Args {
    type V = ArgsView;

    open spec fn view(&self) -> ArgsView {
        ArgsView {
            limit: self.limit,
            offset: self.offset,
            filter: self.filter.deep_view(),
            category: self.category.deep_view(),
            query: self.query.deep_view(),
            id: self.id,
        }
    }
}

/// What pasting an entry back to the clipboard takes.
#[derive(Debug)]
pub enum PastePlan {
    Text(String),
    /// The image file at `path`, offered as `mime`.
    Image { path: String, mime: String },
}

pub enum PasteView {
    Text(Seq<char>),
    Image(Seq<char>, Seq<char>),
}

/// The answer to a command.
#[derive(Debug)]
pub enum Reply {
    Entries(Vec<ClipboardEntry>),
    Entry(Option<ClipboardEntry>),
    Counts { total: usize, text: usize, image: usize, favorites: usize },
    Categories(Vec<(i64, String, Option<String>)>),
    Favorite(bool),
    Status(usize),
    /// `{"ok": true}`.
    Done,
    /// `{"ok": false, "error": ...}`.
    Failed(String),
    /// Copy back to the clipboard, then answer `{"ok": true}`.
    Paste(PastePlan),
    /// Recognise the text of the image file of entry `id`.
    Ocr { id: i64, path: String },
    /// Answer the current configuration.
    ShowConfig,
    /// Merge the `args` object over the configuration.
    SetConfig,
    /// Re-read the configuration file.
    Reload,
}

pub enum ReplyView {
    Entries(Seq<EntryView>),
    Entry(Option<EntryView>),
    Counts(nat, nat, nat, nat),
    Categories(Seq<CategoryView>),
    Favorite(bool),
    Status(nat),
    Done,
    Failed(Seq<char>),
    Paste(PasteView),
    Ocr(int, Seq<char>),
    ShowConfig,
    SetConfig,
    Reload,
}

impl View for Reply {
    type V = ReplyView;

    open spec fn view(&self) -> ReplyView {
        match self {
            Reply::Entries(v) => ReplyView::Entries(entry_views(v@)),
            Reply::Entry(e) => ReplyView::Entry(e.deep_view_entry()),
            Reply::Counts { total, text, image, favorites } => ReplyView::Counts(
                *total as nat,
                *text as nat,
                *image as nat,
                *favorites as nat,
            ),
            Reply::Categories(c) => ReplyView::Categories(category_tuples(c@)),
            Reply::Favorite(b) => ReplyView::Favorite(*b),
            Reply::Status(n) => ReplyView::Status(*n as nat),
            Reply::Done => ReplyView::Done,
            Reply::Failed(m) => ReplyView::Failed(m@),
            Reply::Paste(PastePlan::Text(t)) => ReplyView::Paste(PasteView::Text(t@)),
            Reply::Paste(PastePlan::Image { path, mime }) => ReplyView::Paste(
                PasteView::Image(path@, mime@),
            ),
            Reply::Ocr { id, path } => ReplyView::Ocr(*id as int, path@),
            Reply::ShowConfig => ReplyView::ShowConfig,
            Reply::SetConfig => ReplyView::SetConfig,
            Reply::Reload => ReplyView::Reload,
        }
    }
}

/// An event for the subscribers.
#[derive(Debug, Clone, Copy, PartialEq, Eq, Structural)]
pub enum Event {
    Changed,
    Toggle,
    Config,
}

/// The line that announces `e`.
pub fn event_line(e: Event) -> (r: &'static str)
    ensures
        r@ == match e {
            Event::Changed => CHANGED_EVENT@,
            Event::Toggle => TOGGLE_EVENT@,
            Event::Config => CONFIG_EVENT@,
        },
{
    match e {
        Event::Changed => CHANGED_EVENT,
        Event::Toggle => TOGGLE_EVENT,
        Event::Config => CONFIG_EVENT,
    }
}

/// Side effects of a command besides its reply.
#[derive(Debug, Clone, Copy, PartialEq, Eq, Structural)]
pub struct Effects {
    /// Event to broadcast.
    pub event: Option<Event>,
    /// Whether the daemon is to stop.
    pub quit: bool,
}

pub open spec fn no_effects() -> Effects {
    Effects { event: None, quit: false }
}

pub open spec fn changed() -> Effects {
    Effects { event: Some(Event::Changed), quit: false }
}

/// Which listing `list` runs for its `filter` and `category` arguments.
pub open spec fn list_selection(filter: Option<Seq<char>>, category: Option<Seq<char>>) -> Select {
    match filter {
        Some(f) => if f == "favorites"@ {
            Select::Favorites
        } else if f == "text"@ || f == "image"@ {
            match category {
                Some(c) => Select::KindAndCategory(f, c),
                None => Select::Kind(f),
            }
        } else {
            match category {
                Some(c) => Select::Category(c),
                None => Select::All,
            }
        },
        None => match category {
            Some(c) => Select::Category(c),
            None => Select::All,
        },
    }
}

pub open spec fn limit_or(a: Option<u64>, dflt: nat) -> nat {
    match a {
        Some(n) => (n as usize) as nat,
        None => dflt,
    }
}

pub open spec fn text_or_empty(a: Option<Seq<char>>) -> Seq<char> {
    match a {
        Some(t) => t,
        None => Seq::empty(),
    }
}

/// What pasting entry `id` takes.
pub open spec fn paste_of(m: StoreView, id: int) -> ReplyView {
    match m.get_by_id(id) {
        None => ReplyView::Failed("entry not found"@),
        Some(e) => if e.content_type == image_kind() {
            match m.image_file(id) {
                Some(p) => ReplyView::Paste(
                    PasteView::Image(
                        p,
                        match e.mime_type {
                            Some(t) => t,
                            None => "image/png"@,
                        },
                    ),
                ),
                None => ReplyView::Failed("no image data for entry"@),
            }
        } else {
            ReplyView::Paste(PasteView::Text(e.content))
        },
    }
}

/// The command `cmd` with arguments `a` against store `m`: the store after,
/// the reply, and the side effects.
pub open spec fn command_of(m: StoreView, cmd: Seq<char>, a: ArgsView) -> (
    StoreView,
    ReplyView,
    Effects,
) {
    let offset = limit_or(a.offset, 0);
    if cmd == "list"@ {
        (
            m,
            ReplyView::Entries(
                m.list(list_selection(a.filter, a.category), limit_or(a.limit, 200), offset),
            ),
            no_effects(),
        )
    } else if cmd == "search"@ {
        (
            m,
            ReplyView::Entries(m.search(text_or_empty(a.query), limit_or(a.limit, 200))),
            no_effects(),
        )
    } else if cmd == "counts"@ {
        let c = m.type_counts();
        (m, ReplyView::Counts(c.0, c.1, c.2, c.3), no_effects())
    } else if cmd == "categories"@ {
        (m, ReplyView::Categories(m.categories), no_effects())
    } else if cmd == "entry"@ {
        match a.id {
            Some(id) => (m, ReplyView::Entry(m.get_by_id(id as int)), no_effects()),
            None => (m, ReplyView::Failed("missing id"@), no_effects()),
        }
    } else if cmd == "favorite"@ {
        match a.id {
            Some(id) => {
                let (m2, f) = m.toggle_favorite(id as int);
                (m2, ReplyView::Favorite(f), changed())
            },
            None => (m, ReplyView::Failed("missing id"@), no_effects()),
        }
    } else if cmd == "set_category"@ {
        match a.id {
            Some(id) => (m.set_category(id as int, a.category), ReplyView::Done, changed()),
            None => (m, ReplyView::Failed("missing id"@), no_effects()),
        }
    } else if cmd == "delete"@ {
        match a.id {
            Some(id) => {
                let (m2, r) = m.delete(id as int);
                match r {
                    Ok(()) => (m2, ReplyView::Done, changed()),
                    Err(_) => (m2, ReplyView::Failed("entry not found for deletion"@), no_effects()),
                }
            },
            None => (m, ReplyView::Failed("missing id"@), no_effects()),
        }
    } else if cmd == "paste"@ {
        match a.id {
            Some(id) => (m, paste_of(m, id as int), no_effects()),
            None => (m, ReplyView::Failed("missing id"@), no_effects()),
        }
    } else if cmd == "ocr"@ {
        match a.id {
            Some(id) => match m.image_file(id as int) {
                Some(p) => (m, ReplyView::Ocr(id as int, p), no_effects()),
                None => (m, ReplyView::Failed("no image data for entry"@), no_effects()),
            },
            None => (m, ReplyView::Failed("missing id"@), no_effects()),
        }
    } else if cmd == "clear"@ {
        (m.clear(), ReplyView::Done, changed())
    } else if cmd == "toggle"@ {
        (m, ReplyView::Done, Effects { event: Some(Event::Toggle), quit: false })
    } else if cmd == "quit"@ {
        (m, ReplyView::Done, Effects { event: None, quit: true })
    } else if cmd == "status"@ {
        (m, ReplyView::Status(m.entries.len()), no_effects())
    } else if cmd == "config"@ {
        (m, ReplyView::ShowConfig, no_effects())
    } else if cmd == "set_config"@ {
        (m, ReplyView::SetConfig, no_effects())
    } else if cmd == "reload"@ {
        (m, ReplyView::Reload, no_effects())
    } else {
        (m, ReplyView::Failed("unknown command: "@ + cmd), no_effects())
    }
}

fn missing_id() -> (r: Reply)
    ensures
        r@ == ReplyView::Failed("missing id"@),
{
    Reply::Failed("missing id".to_owned())
}

fn arg_limit(a: Option<u64>, dflt: usize) -> (r: usize)
    ensures
        r as nat == limit_or(a, dflt as nat),
{
    match a {
        Some(n) => n as usize,
        None => dflt,
    }
}

fn list_filter(filter: &Option<String>, category: &Option<String>) -> (r: crate::store::Filter)
    ensures
        r@ == list_selection(filter.deep_view(), category.deep_view()),
{
    let cat = copy_opt(category);
    match filter {
        Some(f) => {
            if text_eq(f.as_str(), "favorites") {
                crate::store::Filter::Favorites
            } else if text_eq(f.as_str(), "text") || text_eq(f.as_str(), "image") {
                match cat {
                    Some(c) => crate::store::Filter::KindAndCategory(f.clone(), c),
                    None => crate::store::Filter::Kind(f.clone()),
                }
            } else {
                match cat {
                    Some(c) => crate::store::Filter::Category(c),
                    None => crate::store::Filter::All,
                }
            }
        },
        None => match cat {
            Some(c) => crate::store::Filter::Category(c),
            None => crate::store::Filter::All,
        },
    }
}

fn paste_reply(store: &Store, id: i64) -> (r: Reply)
    ensures
        r@ == paste_of(store@, id as int),
{
    match store.get_by_id(id) {
        None => Reply::Failed("entry not found".to_owned()),
        Some(e) => {
            if crate::store::is_image_kind(e.content_type.as_str()) {
                match store.image_file(id) {
                    Some(p) => {
                        let mime = match e.mime_type {
                            Some(t) => t,
                            None => "image/png".to_owned(),
                        };
                        Reply::Paste(PastePlan::Image { path: p, mime })
                    },
                    None => Reply::Failed("no image data for entry".to_owned()),
                }
            } else {
                Reply::Paste(PastePlan::Text(e.content))
            }
        },
    }
}

/// Runs command `cmd` with arguments `args` against `store`.
pub fn handle_command(cmd: &str, args: &Args, store: &mut Store) -> (r: (Reply, Effects))
    requires
        old(store).wf(),
    ensures
        final(store).wf(),
        (final(store)@, r.0@, r.1) == command_of(old(store)@, cmd@, args@),
{
    let offset = arg_limit(args.offset, 0);
    if text_eq(cmd, "list") {
        let f = list_filter(&args.filter, &args.category);
        let lim = arg_limit(args.limit, 200);
        let v = store.list_selected(&f, lim, offset);
        (Reply::Entries(v), Effects { event: None, quit: false })
    } else if text_eq(cmd, "search") {
        let q = match &args.query {
            Some(q) => q.clone(),
            None => String::new(),
        };
        let lim = arg_limit(args.limit, 200);
        (Reply::Entries(store.search(q.as_str(), lim)), Effects { event: None, quit: false })
    } else if text_eq(cmd, "counts") {
        let (total, text, image, favorites) = store.type_counts();
        (Reply::Counts { total, text, image, favorites }, Effects { event: None, quit: false })
    } else if text_eq(cmd, "categories") {
        (Reply::Categories(store.list_categories()), Effects { event: None, quit: false })
    } else if text_eq(cmd, "entry") {
        match args.id {
            Some(id) => (Reply::Entry(store.get_by_id(id)), Effects { event: None, quit: false }),
            None => (missing_id(), Effects { event: None, quit: false }),
        }
    } else if text_eq(cmd, "favorite") {
        match args.id {
            Some(id) => {
                let f = store.toggle_favorite(id);
                (Reply::Favorite(f), Effects { event: Some(Event::Changed), quit: false })
            },
            None => (missing_id(), Effects { event: None, quit: false }),
        }
    } else if text_eq(cmd, "set_category") {
        match args.id {
            Some(id) => {
                let c = match &args.category {
                    Some(c) => Some(c.as_str()),
                    None => None,
                };
                store.set_category(id, c);
                (Reply::Done, Effects { event: Some(Event::Changed), quit: false })
            },
            None => (missing_id(), Effects { event: None, quit: false }),
        }
    } else if text_eq(cmd, "delete") {
        match args.id {
            Some(id) => match store.delete(id) {
                Ok(()) => (Reply::Done, Effects { event: Some(Event::Changed), quit: false }),
                Err(_) => (
                    Reply::Failed("entry not found for deletion".to_owned()),
                    Effects { event: None, quit: false },
                ),
            },
            None => (missing_id(), Effects { event: None, quit: false }),
        }
    } else if text_eq(cmd, "paste") {
        match args.id {
            Some(id) => (paste_reply(store, id), Effects { event: None, quit: false }),
            None => (missing_id(), Effects { event: None, quit: false }),
        }
    } else if text_eq(cmd, "ocr") {
        match args.id {
            Some(id) => match store.image_file(id) {
                Some(p) => (Reply::Ocr { id, path: p }, Effects { event: None, quit: false }),
                None => (
                    Reply::Failed("no image data for entry".to_owned()),
                    Effects { event: None, quit: false },
                ),
            },
            None => (missing_id(), Effects { event: None, quit: false }),
        }
    } else if text_eq(cmd, "clear") {
        store.clear();
        (Reply::Done, Effects { event: Some(Event::Changed), quit: false })
    } else if text_eq(cmd, "toggle") {
        (Reply::Done, Effects { event: Some(Event::Toggle), quit: false })
    } else if text_eq(cmd, "quit") {
        (Reply::Done, Effects { event: None, quit: true })
    } else if text_eq(cmd, "status") {
        (Reply::Status(store.count()), Effects { event: None, quit: false })
    } else if text_eq(cmd, "config") {
        (Reply::ShowConfig, Effects { event: None, quit: false })
    } else if text_eq(cmd, "set_config") {
        (Reply::SetConfig, Effects { event: None, quit: false })
    } else if text_eq(cmd, "reload") {
        (Reply::Reload, Effects { event: None, quit: false })
    } else {
        let mut msg = "unknown command: ".to_owned();
        msg.append(cmd);
        (Reply::Failed(msg), Effects { event: None, quit: false })
    }
}

/// Registered event-stream senders; every subscribed connection owns one
/// receiver.
pub type Subscribers = Arc<Mutex<Vec<Sender<String>>>>;

/// `Mutex::lock` of std. Answers the guard, or `None` when the lock is
/// poisoned; nothing is claimed of the contents.
#[verifier::external_body]
fn lock_subscribers<'a>(m: &'a Mutex<Vec<Sender<String>>>) -> (r: Option<MutexGuard<'a, Vec<Sender<String>>>>) {
    m.lock().ok()
}

/// `DerefMut` of std's `MutexGuard`: the locked vector.
#[verifier::external_body]
fn guarded<'a, 'b>(g: &'b mut MutexGuard<'a, Vec<Sender<String>>>) -> (r: &'b mut Vec<Sender<String>>) {
    &mut **g
}

/// `Arc` of std dereferenced to the subscribers' mutex.
#[verifier::external_body]
fn subscribers_mutex(s: &Subscribers) -> (r: &Mutex<Vec<Sender<String>>>) {
    &**s
}

/// `Sender::send` of std with an owned copy of `msg`. Answers whether the
/// message was queued, which depends on whether the receiving end still
/// exists; nothing more is claimed.
#[verifier::external_body]
fn send_text(tx: &Sender<String>, msg: &str) -> (r: bool) {
    tx.send(msg.to_owned()).is_ok()
}

/// The items of `s` whose flag in `keep` is set, in order.
pub open spec fn kept_where<T>(s: Seq<T>, keep: Seq<bool>) -> Seq<T>
    decreases s.len(),
{
    if s.len() == 0 || keep.len() == 0 {
        Seq::empty()
    } else if keep.last() {
        kept_where(s.drop_last(), keep.drop_last()).push(s.last())
    } else {
        kept_where(s.drop_last(), keep.drop_last())
    }
}

/// Sends `msg` to every subscriber and keeps exactly those that took it.
/// Answers, per subscriber in order, whether it took the message.
pub fn retain_delivered(subs: &mut Vec<Sender<String>>, msg: &str) -> (delivered: Vec<bool>)
    ensures
        delivered@.len() == old(subs)@.len(),
        final(subs)@ == kept_where(old(subs)@, delivered@),
{
    let mut all: Vec<Sender<String>> = Vec::new();
    std::mem::swap(&mut all, subs);
    let ghost s = all@;
    let mut flags: Vec<bool> = Vec::new();
    let mut i: usize = 0;
    assert(subs@ =~= kept_where(s.take(0), flags@));
    assert(all@ =~= s.skip(0));
    let n = all.len();
    while all.len() > 0
        invariant
            i <= s.len(),
            s.len() == n,
            all@ == s.skip(i as int),
            flags@.len() == i,
            subs@ == kept_where(s.take(i as int), flags@),
        decreases all@.len(),
    {
        let tx = all.remove(0);
        assert(tx == s[i as int]);
        let ok = send_text(&tx, msg);
        let ghost before = flags@;
        flags.push(ok);
        let ghost t = s.take(i + 1);
        assert(t.drop_last() =~= s.take(i as int));
        assert(flags@.drop_last() =~= before);
        if ok {
            subs.push(tx);
        }
        assert(all@ =~= s.skip(i + 1));
        i = i + 1;
    }
    assert(s.take(s.len() as int) =~= s);
    flags
}

/// Sends `msg` to every subscriber, dropping those whose receiver has hung
/// up. A poisoned lock leaves the subscribers untouched.
pub fn broadcast(subscribers: &Subscribers, msg: &str) {
    let m = subscribers_mutex(subscribers);
    match lock_subscribers(m) {
        Some(mut g) => {
            let v = guarded(&mut g);
            let _ = retain_delivered(v, msg);
        },
        None => {},
    }
}

} // verus!
