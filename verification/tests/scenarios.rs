use tilewm::Config;
use tilewm::ConfigureRequest;
use tilewm::Direction;
use tilewm::Geometry;
use tilewm::Manager;
use tilewm::NudgeOutcome;
use tilewm::Request;

fn base_config() -> Config {
    Config {
        screen_width: 1920,
        screen_height: 1080,
        bar_offset: 13,
        border_width: 2,
        focus_color: 0x0099dd,
        defocus_color: 0x444444,
        max_split_depth: 0,
    }
}

/// A manager with windows 100 and 200 side by side, 200 split out of a
/// focused 100.
fn two_windows() -> Manager {
    let mut m = Manager::new(base_config());
    m.add_window(100);
    m.handle_enter(100);
    m.add_window(200);
    m
}

#[test]
fn first_window_full_screen() {
    let mut m = Manager::new(base_config());
    let requests = m.add_window(100);
    assert_eq!(m.window_count(), 1);
    assert_eq!(
        m.geometry_of(100),
        Some(Geometry { x: 0, y: 13, width: 1920, height: 1067 })
    );
    assert_eq!(m.id_of(100), Some(0));
    assert_eq!(m.split_parent_of(100), Some(None));
    assert_eq!(m.split_depth_of(100), Some(0));
    // the redraw pass: configure less border and gap, attributes with
    // event mask, kill-key grab, map
    assert_eq!(
        requests,
        vec![
            Request::Configure(ConfigureRequest {
                window: 100,
                x: Some(0),
                y: Some(13),
                width: Some(1916),
                height: Some(1063),
                border_width: Some(2),
            }),
            Request::ChangeAttributes { window: 100, border_color: 0x444444, set_event_mask: true },
            Request::GrabKillKey { window: 100 },
            Request::MapWin { window: 100 },
        ]
    );
}

#[test]
fn vertical_split_scenario() {
    let m = two_windows();
    assert_eq!(
        m.geometry_of(100),
        Some(Geometry { x: 0, y: 13, width: 960, height: 1067 })
    );
    assert_eq!(
        m.geometry_of(200),
        Some(Geometry { x: 960, y: 13, width: 960, height: 1067 })
    );
    // the split is recorded on both ends, and both gain a depth level
    assert_eq!(m.split_parent_of(200), Some(Some(0)));
    assert_eq!(m.split_children_of(100), Some(vec![1]));
    assert_eq!(m.split_depth_of(100), Some(1));
    assert_eq!(m.split_depth_of(200), Some(1));
}

#[test]
fn split_partition_covers_parent() {
    // the two halves partition the parent's pre-split rectangle exactly
    let m = two_windows();
    let kept = m.geometry_of(100).unwrap();
    let new = m.geometry_of(200).unwrap();
    assert_eq!(kept.y, new.y);
    assert_eq!(kept.height, new.height);
    assert_eq!(kept.x + kept.width as i32, new.x);
    assert_eq!(kept.width + new.width, 1920);
}

#[test]
fn odd_dimension_split_partitions_exactly() {
    // splitting an odd dimension gives the new window the larger rest,
    // so the two halves still cover every pixel of the parent
    let mut m = two_windows();
    // 100 is still focused and stands at (0, 13, 960, 1067): taller than
    // wide, so the next split is horizontal and halves the odd 1067
    m.add_window(300);
    assert_eq!(m.geometry_of(100), Some(Geometry { x: 0, y: 13, width: 960, height: 533 }));
    assert_eq!(m.geometry_of(300), Some(Geometry { x: 0, y: 546, width: 960, height: 534 }));
    let kept = m.geometry_of(100).unwrap();
    let new = m.geometry_of(300).unwrap();
    assert_eq!(kept.height + new.height, 1067);
    assert_eq!(kept.y + kept.height as i32, new.y);
}

#[test]
fn horizontal_split_on_tie() {
    // a square rectangle splits top over bottom
    let mut m = Manager::new(Config { screen_width: 1000, screen_height: 1000, bar_offset: 0, ..base_config() });
    m.add_window(1);
    m.handle_enter(1);
    m.add_window(2);
    assert_eq!(m.geometry_of(1), Some(Geometry { x: 0, y: 0, width: 1000, height: 500 }));
    assert_eq!(m.geometry_of(2), Some(Geometry { x: 0, y: 500, width: 1000, height: 500 }));
}

#[test]
fn unfocused_second_window_takes_full_screen() {
    // no focused item: the next window overlaps at full usable size
    let mut m = Manager::new(base_config());
    m.add_window(100);
    m.add_window(200);
    assert_eq!(
        m.geometry_of(200),
        Some(Geometry { x: 0, y: 13, width: 1920, height: 1067 })
    );
    assert_eq!(m.split_parent_of(200), Some(None));
}

#[test]
fn redraw_idempotent() {
    let m = two_windows();
    let first = m.redraw_requests();
    let second = m.redraw_requests();
    assert_eq!(first, second);
    assert_eq!(first.len(), 8);
}

#[test]
fn redraw_clamps_tiny_window() {
    // a rectangle smaller than border and gap configures a zero size
    let mut m = Manager::new(base_config());
    m.add_window(100);
    m.handle_enter(100);
    m.nudge(Direction::Up, Geometry { x: 0, y: 13, width: 3, height: 3 });
    m.nudge(Direction::Reset, Geometry { x: 0, y: 0, width: 0, height: 0 });
    assert_eq!(m.geometry_of(100), Some(Geometry { x: 0, y: 13, width: 3, height: 3 }));
    let requests = m.redraw_requests();
    assert_eq!(
        requests[0],
        Request::Configure(ConfigureRequest {
            window: 100,
            x: Some(0),
            y: Some(13),
            width: Some(0),
            height: Some(0),
            border_width: Some(2),
        })
    );
}

#[test]
fn nudge_right_then_reset_round_trip() {
    let mut m = two_windows();
    // the live rectangle the server reports may differ from the stored one
    let live = Geometry { x: 1, y: 14, width: 959, height: 1066 };
    let out = m.nudge(Direction::Right, live);
    assert_eq!(
        out,
        NudgeOutcome::Configured(ConfigureRequest {
            window: 100,
            x: Some(0),
            y: None,
            width: Some(1920),
            height: None,
            border_width: None,
        })
    );
    assert_eq!(m.geometry_of(100), Some(Geometry { x: 0, y: 13, width: 1920, height: 1067 }));
    assert_eq!(m.revert_count_of(100), Some(1));
    let out2 = m.nudge(Direction::Reset, Geometry { x: 7, y: 7, width: 7, height: 7 });
    assert_eq!(
        out2,
        NudgeOutcome::Configured(ConfigureRequest {
            window: 100,
            x: Some(1),
            y: Some(14),
            width: Some(959),
            height: Some(1066),
            border_width: None,
        })
    );
    assert_eq!(m.geometry_of(100), Some(live));
    assert_eq!(m.revert_count_of(100), Some(0));
}

#[test]
fn empty_revert_is_no_op() {
    let mut m = two_windows();
    let before = m.geometry_of(100).unwrap();
    let out = m.nudge(Direction::Reset, before);
    assert_eq!(out, NudgeOutcome::NoReversions);
    assert_eq!(m.geometry_of(100), Some(before));
    assert_eq!(m.revert_count_of(100), Some(0));
}

#[test]
fn nudge_each_direction() {
    let mut m = two_windows();
    m.handle_enter(200);
    let live = Geometry { x: 960, y: 13, width: 960, height: 1067 };
    let up = m.nudge(Direction::Up, live);
    assert_eq!(
        up,
        NudgeOutcome::Configured(ConfigureRequest {
            window: 200,
            x: None,
            y: Some(13),
            width: None,
            height: Some(1067),
            border_width: None,
        })
    );
    let left = m.nudge(Direction::Left, live);
    assert_eq!(
        left,
        NudgeOutcome::Configured(ConfigureRequest {
            window: 200,
            x: Some(0),
            y: None,
            width: Some(1920),
            height: None,
            border_width: None,
        })
    );
    assert_eq!(m.geometry_of(200), Some(Geometry { x: 0, y: 13, width: 1920, height: 1067 }));
    let down = m.nudge(Direction::Down, live);
    assert_eq!(
        down,
        NudgeOutcome::Configured(ConfigureRequest {
            window: 200,
            x: None,
            y: Some(13),
            width: None,
            height: Some(1067),
            border_width: None,
        })
    );
    let right = m.nudge(Direction::Right, live);
    assert_eq!(
        right,
        NudgeOutcome::Configured(ConfigureRequest {
            window: 200,
            x: Some(0),
            y: None,
            width: Some(1920),
            height: None,
            border_width: None,
        })
    );
    // every directional nudge remembered the live rectangle it saw
    assert_eq!(m.revert_count_of(200), Some(4));
}

#[test]
fn nudge_down_from_below_screen_is_empty() {
    // a window whose top edge lies past the bottom screen edge shrinks
    // to zero height rather than wrapping
    let mut m = Manager::new(base_config());
    m.add_window(100);
    m.handle_enter(100);
    m.nudge(Direction::Up, Geometry { x: 0, y: 2000, width: 10, height: 10 });
    m.nudge(Direction::Reset, Geometry { x: 0, y: 0, width: 0, height: 0 });
    assert_eq!(m.geometry_of(100), Some(Geometry { x: 0, y: 2000, width: 10, height: 10 }));
    let out = m.nudge(Direction::Down, Geometry { x: 0, y: 2000, width: 10, height: 10 });
    assert_eq!(
        out,
        NudgeOutcome::Configured(ConfigureRequest {
            window: 100,
            x: None,
            y: Some(2000),
            width: None,
            height: Some(0),
            border_width: None,
        })
    );
    assert_eq!(m.geometry_of(100), Some(Geometry { x: 0, y: 2000, width: 10, height: 0 }));
}

#[test]
fn nudge_without_focus_is_no_op() {
    let mut m = Manager::new(base_config());
    m.add_window(100);
    let before = m.geometry_of(100).unwrap();
    let out = m.nudge(Direction::Right, before);
    assert_eq!(out, NudgeOutcome::NoFocusedItem);
    assert_eq!(m.geometry_of(100), Some(before));
}

#[test]
fn nudge_with_unmanaged_focus_is_no_op() {
    let mut m = Manager::new(base_config());
    m.add_window(100);
    m.handle_enter(999);
    let g = Geometry { x: 0, y: 0, width: 1, height: 1 };
    assert_eq!(m.nudge(Direction::Left, g), NudgeOutcome::NoFocusedItem);
}

#[test]
fn destroy_scenario() {
    let mut m = two_windows();
    m.handle_enter(200);
    let request = m.destroy_focused();
    assert_eq!(request, Some(Request::DestroyWin { window: 200 }));
    // the managed set shrank by exactly one and no lookup reaches the
    // destroyed item any more
    assert_eq!(m.window_count(), 1);
    assert!(!m.manages(200));
    assert_eq!(m.geometry_of(200), None);
    assert_eq!(m.split_children_of(100), Some(vec![]));
    // the survivor keeps its rectangle: no re-layout
    assert_eq!(m.geometry_of(100), Some(Geometry { x: 0, y: 13, width: 960, height: 1067 }));
}

#[test]
fn destroy_parent_clears_child_link() {
    let mut m = two_windows();
    // 100 is still focused from the split
    let request = m.destroy_focused();
    assert_eq!(request, Some(Request::DestroyWin { window: 100 }));
    assert_eq!(m.window_count(), 1);
    assert!(!m.manages(100));
    // the orphaned child loses its parent link and keeps its rectangle
    assert_eq!(m.split_parent_of(200), Some(None));
    assert_eq!(m.geometry_of(200), Some(Geometry { x: 960, y: 13, width: 960, height: 1067 }));
}

#[test]
fn destroy_without_focus_is_no_op() {
    let mut m = Manager::new(base_config());
    m.add_window(100);
    assert_eq!(m.destroy_focused(), None);
    assert_eq!(m.window_count(), 1);
}

#[test]
fn destroy_with_unmanaged_focus_is_no_op() {
    let mut m = Manager::new(base_config());
    m.add_window(100);
    m.handle_enter(999);
    assert_eq!(m.destroy_focused(), None);
    assert_eq!(m.window_count(), 1);
}

#[test]
fn unmap_removes_managed_window() {
    let mut m = two_windows();
    m.handle_unmap(200);
    assert_eq!(m.window_count(), 1);
    assert!(!m.manages(200));
    assert_eq!(m.split_children_of(100), Some(vec![]));
}

#[test]
fn unmap_of_unknown_window_is_no_op() {
    let mut m = two_windows();
    m.handle_unmap(999);
    assert_eq!(m.window_count(), 2);
}

#[test]
fn ids_are_never_reused() {
    let mut m = two_windows();
    m.handle_enter(200);
    m.destroy_focused();
    m.handle_enter(100);
    m.add_window(300);
    // 200 had id 1; the id is not handed out again
    assert_eq!(m.id_of(300), Some(2));
}

#[test]
fn depth_grows_on_both_ends_of_every_split() {
    let mut m = two_windows();
    m.handle_enter(100);
    m.add_window(300);
    // 100 took part in two splits; 300 was created below it
    assert_eq!(m.split_depth_of(100), Some(2));
    assert_eq!(m.split_depth_of(300), Some(2));
    assert_eq!(m.split_depth_of(200), Some(1));
}

#[test]
fn enter_focuses_and_raises() {
    let mut m = Manager::new(base_config());
    m.add_window(100);
    let requests = m.handle_enter(100);
    assert_eq!(m.focused_window(), Some(100));
    assert_eq!(
        requests,
        vec![
            Request::ChangeAttributes { window: 100, border_color: 0x0099dd, set_event_mask: false },
            Request::SetFocus { window: 100 },
            Request::Raise { window: 100 },
        ]
    );
}

#[test]
fn leave_defocuses_managed_window() {
    let mut m = Manager::new(base_config());
    m.add_window(100);
    m.handle_enter(100);
    let requests = m.handle_leave(100);
    assert_eq!(m.focused_window(), None);
    assert_eq!(
        requests,
        vec![Request::ChangeAttributes { window: 100, border_color: 0x444444, set_event_mask: false }]
    );
}

#[test]
fn leave_of_vanished_window_is_tolerated() {
    // the window may already be destroyed when the leave arrives
    let mut m = Manager::new(base_config());
    m.add_window(100);
    m.handle_enter(999);
    let requests = m.handle_leave(999);
    assert_eq!(m.focused_window(), None);
    assert_eq!(requests, vec![]);
}
