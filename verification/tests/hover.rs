use clipvault::hover::{
    hover_poll_interval, hover_step, initial_hover_state, layout_stale, pick_monitor, HoverAction,
    HoverInput, HoverSignals, HoverState, SHELF_HIDDEN, SHELF_HOVERED, SHELF_TOGGLED,
};
use std::sync::atomic::Ordering;

fn input(now: u64, in_zone: bool, in_keep_open: bool, shelf_state: u8) -> HoverInput {
    HoverInput { now, in_zone, in_keep_open, shelf_state }
}

#[test]
fn opens_after_dwell_and_disarms() {
    let s = initial_hover_state(0);
    let (s, a) = hover_step(s, input(100, true, false, SHELF_HIDDEN), 150, 400);
    assert_eq!(a, HoverAction::Nothing);
    assert_eq!(s.dwell_since, Some(100));
    let (s, a) = hover_step(s, input(260, true, false, SHELF_HIDDEN), 150, 400);
    assert_eq!(a, HoverAction::Show);
    assert!(!s.armed);
    // Still in the zone: stays disarmed, opens nothing.
    let (s, a) = hover_step(s, input(300, true, false, SHELF_HIDDEN), 150, 400);
    assert_eq!(a, HoverAction::Nothing);
    assert!(!s.armed);
    // Leaving re-arms.
    let (s, _) = hover_step(s, input(320, false, false, SHELF_HIDDEN), 150, 400);
    assert!(s.armed);
}

#[test]
fn closes_hovered_shelf_after_delay_only() {
    let s = HoverState { armed: false, last_inside: 1000, dwell_since: None };
    let (_, a) = hover_step(s, input(1200, false, false, SHELF_HOVERED), 150, 400);
    assert_eq!(a, HoverAction::Nothing);
    let (_, a) = hover_step(s, input(1400, false, false, SHELF_HOVERED), 150, 400);
    assert_eq!(a, HoverAction::Hide);
    let (s2, a) = hover_step(s, input(1400, false, true, SHELF_HOVERED), 150, 400);
    assert_eq!(a, HoverAction::Nothing);
    assert_eq!(s2.last_inside, 1400);
    let (_, a) = hover_step(s, input(9000, false, false, SHELF_TOGGLED), 150, 400);
    assert_eq!(a, HoverAction::Nothing);
}

#[test]
fn zero_dwell_opens_at_once() {
    let (_, a) = hover_step(initial_hover_state(5), input(5, true, false, SHELF_HIDDEN), 0, 400);
    assert_eq!(a, HoverAction::Show);
}

#[test]
fn intervals_and_layout_age() {
    assert_eq!(hover_poll_interval(1), 30);
    assert_eq!(hover_poll_interval(5000), 1000);
    assert_eq!(hover_poll_interval(60), 60);
    assert!(layout_stale(None, 0));
    assert!(!layout_stale(Some(1000), 3000));
    assert!(layout_stale(Some(1000), 3001));
}

#[test]
fn monitor_under_pointer_or_focused() {
    assert_eq!(pick_monitor(&vec![false, true, true], &vec![true, false, false]), Some(1));
    assert_eq!(pick_monitor(&vec![false, false], &vec![true, true]), Some(1));
    assert_eq!(pick_monitor(&vec![false], &vec![false]), None);
}

#[test]
fn signals_start_cleared() {
    let s = HoverSignals::new();
    assert!(!s.show.load(Ordering::SeqCst));
    assert!(!s.hide.load(Ordering::SeqCst));
    assert_eq!(s.shelf_state.load(Ordering::SeqCst), SHELF_HIDDEN);
}
