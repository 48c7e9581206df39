//! Notch hover: the decisions of the watcher that opens the shelf when the
//! pointer dwells in a top-center hot zone and closes a hover-opened shelf
//! once the pointer has left it. Times are milliseconds of a monotonic clock.

use std::sync::atomic::{AtomicBool, AtomicU8};
use std::sync::Arc;
use vstd::prelude::*;

verus! {

/// Shelf is not shown.
pub const SHELF_HIDDEN: u8 = 0;
/// Shelf was opened via the toggle command; the watcher leaves it alone.
pub const SHELF_TOGGLED: u8 = 1;
/// Shelf was opened by notch hover; the watcher may auto-close it.
pub const SHELF_HOVERED: u8 = 2;

/// Signals shared between the GUI event loop and the hover watcher thread.
#[derive(Clone)]
pub struct HoverSignals {
    /// Watcher asks the GUI to show the shelf.
    pub show: Arc<AtomicBool>,
    /// Watcher asks the GUI to hide a hover-opened shelf.
    pub hide: Arc<AtomicBool>,
    /// GUI publishes the current shelf state (one of the `SHELF_*` constants).
    pub shelf_state: Arc<AtomicU8>,
}

impl HoverSignals {
    /// Fresh signals: no request pending, the shelf considered hidden.
    pub fn new() -> (r: Self) {
        HoverSignals {
            show: Arc::new(AtomicBool::new(false)),
            hide: Arc::new(AtomicBool::new(false)),
            shelf_state: Arc::new(AtomicU8::new(SHELF_HIDDEN)),
        }
    }
}

/// What the watcher remembers between polls.
#[derive(Debug, Clone, Copy, PartialEq, Eq, Structural)]
pub struct HoverState {
    /// The hot zone may trigger; after a trigger the pointer must leave the
    /// zone before it can trigger again.
    pub armed: bool,
    /// When the pointer was last inside the keep-open region.
    pub last_inside: u64,
    /// Since when the pointer has dwelt in the hot zone, if it does.
    pub dwell_since: Option<u64>,
}

/// One poll's observation.
#[derive(Debug, Clone, Copy, PartialEq, Eq, Structural)]
pub struct HoverInput {
    pub now: u64,
    /// The pointer is in the hot zone of the monitor under it.
    pub in_zone: bool,
    /// The pointer is in the keep-open region recorded at the last trigger.
    pub in_keep_open: bool,
    /// The shelf state the GUI published.
    pub shelf_state: u8,
}

/// What the watcher does after a poll.
#[derive(Debug, Clone, Copy, PartialEq, Eq, Structural)]
pub enum HoverAction {
    Nothing,
    /// Show the shelf, and record the keep-open region of the monitor under
    /// the pointer.
    Show,
    /// Hide the hover-opened shelf.
    Hide,
}

/// Time elapsed from `since` to `now` on a monotonic clock.
pub open spec fn elapsed(since: u64, now: u64) -> int {
    if now >= since {
        now - since
    } else {
        0
    }
}

/// The watcher's decision for one poll.
pub open spec fn hover_next(s: HoverState, i: HoverInput, dwell_ms: u64, close_delay_ms: u64) -> (
    HoverState,
    HoverAction,
) {
    if i.shelf_state == SHELF_HIDDEN {
        if i.in_zone && s.armed {
            let since = match s.dwell_since {
                Some(t) => t,
                None => i.now,
            };
            if elapsed(since, i.now) >= dwell_ms {
                (HoverState { armed: false, last_inside: i.now, dwell_since: None }, HoverAction::Show)
            } else {
                (HoverState { dwell_since: Some(since), ..s }, HoverAction::Nothing)
            }
        } else {
            (
                HoverState { armed: if !i.in_zone { true } else { s.armed }, dwell_since: None, ..s },
                HoverAction::Nothing,
            )
        }
    } else if i.shelf_state == SHELF_HOVERED {
        if i.in_keep_open {
            (HoverState { last_inside: i.now, armed: !i.in_zone, ..s }, HoverAction::Nothing)
        } else if elapsed(s.last_inside, i.now) >= close_delay_ms {
            (HoverState { armed: !i.in_zone, ..s }, HoverAction::Hide)
        } else {
            (HoverState { armed: !i.in_zone, ..s }, HoverAction::Nothing)
        }
    } else {
        (HoverState { armed: !i.in_zone, dwell_since: None, ..s }, HoverAction::Nothing)
    }
}

fn elapsed_ms(since: u64, now: u64) -> (r: u64)
    ensures
        r == elapsed(since, now),
{
    if now >= since {
        now - since
    } else {
        0
    }
}

/// The watcher's starting state: armed, nothing dwelling.
pub fn initial_hover_state(now: u64) -> (r: HoverState)
    ensures
        r == (HoverState { armed: true, last_inside: now, dwell_since: None }),
{
    HoverState { armed: true, last_inside: now, dwell_since: None }
}

/// The watcher's decision for one poll: open after the pointer has dwelt in
/// the armed hot zone for `dwell_ms`, close a hover-opened shelf once the
/// pointer has been outside the keep-open region for `close_delay_ms`.
pub fn hover_step(s: HoverState, i: HoverInput, dwell_ms: u64, close_delay_ms: u64) -> (r: (
    HoverState,
    HoverAction,
))
    ensures
        r == hover_next(s, i, dwell_ms, close_delay_ms),
{
    if i.shelf_state == SHELF_HIDDEN {
        if i.in_zone && s.armed {
            let since = match s.dwell_since {
                Some(t) => t,
                None => i.now,
            };
            if elapsed_ms(since, i.now) >= dwell_ms {
                (HoverState { armed: false, last_inside: i.now, dwell_since: None }, HoverAction::Show)
            } else {
                (HoverState { dwell_since: Some(since), ..s }, HoverAction::Nothing)
            }
        } else {
            (
                HoverState { armed: if !i.in_zone { true } else { s.armed }, dwell_since: None, ..s },
                HoverAction::Nothing,
            )
        }
    } else if i.shelf_state == SHELF_HOVERED {
        if i.in_keep_open {
            (HoverState { last_inside: i.now, armed: !i.in_zone, ..s }, HoverAction::Nothing)
        } else if elapsed_ms(s.last_inside, i.now) >= close_delay_ms {
            (HoverState { armed: !i.in_zone, ..s }, HoverAction::Hide)
        } else {
            (HoverState { armed: !i.in_zone, ..s }, HoverAction::Nothing)
        }
    } else {
        (HoverState { armed: !i.in_zone, dwell_since: None, ..s }, HoverAction::Nothing)
    }
}

/// The poll interval, kept between 30 ms and one second.
pub fn hover_poll_interval(ms: u64) -> (r: u64)
    ensures
        r == if ms < 30 {
            30
        } else if ms > 1000 {
            1000
        } else {
            ms
        },
{
    if ms < 30 {
        30
    } else if ms > 1000 {
        1000
    } else {
        ms
    }
}

/// Whether the cached monitor layout, fetched at `fetched` (if ever), is
/// older than two seconds at `now`.
pub fn layout_stale(fetched: Option<u64>, now: u64) -> (r: bool)
    ensures
        r == match fetched {
            Some(t) => elapsed(t, now) > 2000,
            None => true,
        },
{
    match fetched {
        Some(t) => elapsed_ms(t, now) > 2000,
        None => true,
    }
}

/// Position of the first monitor containing the pointer, or -1.
pub open spec fn first_true(s: Seq<bool>) -> int
    decreases s.len(),
{
    if s.len() == 0 {
        -1
    } else if s[0] {
        0
    } else if first_true(s.drop_first()) < 0 {
        -1
    } else {
        first_true(s.drop_first()) + 1
    }
}

/// Position of the last focused monitor, or -1.
pub open spec fn last_true(s: Seq<bool>) -> int
    decreases s.len(),
{
    if s.len() == 0 {
        -1
    } else if s.last() {
        s.len() - 1
    } else {
        last_true(s.drop_last())
    }
}

/// The monitor under the pointer: the first whose bounds contain it, else
/// the (last) focused one.
pub open spec fn monitor_choice(contains: Seq<bool>, focused: Seq<bool>) -> Option<nat> {
    if first_true(contains) >= 0 {
        Some(first_true(contains) as nat)
    } else if last_true(focused) >= 0 {
        Some(last_true(focused) as nat)
    } else {
        None
    }
}

proof fn lemma_first_true(s: Seq<bool>, i: int)
    requires
        0 <= i <= s.len(),
        forall|k: int| 0 <= k < i ==> !s[k],
    ensures
        i < s.len() && s[i] ==> first_true(s) == i,
        i == s.len() ==> first_true(s) == -1,
    decreases s.len(),
{
    if s.len() > 0 && i > 0 {
        assert forall|k: int| 0 <= k < i - 1 implies !s.drop_first()[k] by {
            assert(s.drop_first()[k] == s[k + 1]);
        }
        lemma_first_true(s.drop_first(), i - 1);
    }
}

/// Picks the monitor under the pointer from per-monitor flags: whether its
/// bounds contain the pointer, and whether it is focused.
pub fn pick_monitor(contains: &Vec<bool>, focused: &Vec<bool>) -> (r: Option<usize>)
    requires
        contains@.len() == focused@.len(),
    ensures
        match r {
            Some(i) => monitor_choice(contains@, focused@) == Some(i as nat),
            None => monitor_choice(contains@, focused@) is None,
        },
{
    let mut i: usize = 0;
    let mut last_focused: Option<usize> = None;
    assert(focused@.take(0) =~= Seq::<bool>::empty());
    while i < contains.len()
        invariant
            i <= contains@.len(),
            contains@.len() == focused@.len(),
            forall|k: int| 0 <= k < i ==> !contains@[k],
            match last_focused {
                Some(j) => last_true(focused@.take(i as int)) == j,
                None => last_true(focused@.take(i as int)) == -1,
            },
        decreases contains@.len() - i,
    {
        if contains[i] {
            proof {
                lemma_first_true(contains@, i as int);
            }
            return Some(i);
        }
        assert(focused@.take(i + 1).drop_last() =~= focused@.take(i as int));
        if focused[i] {
            last_focused = Some(i);
        }
        i = i + 1;
    }
    proof {
        lemma_first_true(contains@, i as int);
        assert(focused@.take(i as int) =~= focused@);
    }
    last_focused
}

/// The watcher's decisions over a run of polls `inputs`, starting in `s`.
pub open spec fn hover_actions(s: HoverState, inputs: Seq<HoverInput>, dwell_ms: u64, close_delay_ms: u64) -> Seq<HoverAction>
    decreases inputs.len(),
{
    if inputs.len() == 0 {
        Seq::empty()
    } else {
        let (s1, a) = hover_next(s, inputs[0], dwell_ms, close_delay_ms);
        seq![a] + hover_actions(s1, inputs.drop_first(), dwell_ms, close_delay_ms)
    }
}

/// The watcher's state after the first `n` polls of `inputs`.
pub open spec fn hover_after(s: HoverState, inputs: Seq<HoverInput>, n: nat, dwell_ms: u64, close_delay_ms: u64) -> HoverState
    decreases n,
{
    if n == 0 || inputs.len() == 0 {
        s
    } else {
        hover_after(
            hover_next(s, inputs[0], dwell_ms, close_delay_ms).0,
            inputs.drop_first(),
            (n - 1) as nat,
            dwell_ms,
            close_delay_ms,
        )
    }
}

} // verus!
