use dwindle_core::navigation::best_candidate;
use dwindle_core::{
    Command, Config, ContextKey, Direction, EngineError, EngineState, LayoutTree, Orientation,
    Placement, Rect, Response, Shape, Snapshot, TreeError, WindowId, WindowSnapshot,
    WorkAreaSnapshot,
};

fn id(value: &str) -> WindowId {
    WindowId::new(value)
}

fn key(workspace: u32, monitor: u32) -> ContextKey {
    ContextKey { workspace, monitor }
}

fn screen() -> Rect {
    Rect {
        x: 0,
        y: 0,
        width: 1920,
        height: 1080,
    }
}

fn gaps() -> Config {
    Config {
        inner_gap: 10,
        outer_gap: 10,
        ..Config::default()
    }
}

fn snapshot_window(name: &str, context: ContextKey, focused: bool) -> WindowSnapshot {
    WindowSnapshot {
        id: id(name),
        context,
        app_id: None,
        frame_rect: Rect::default(),
        min_width: 0,
        min_height: 0,
        fullscreen: false,
        window_type: "normal".to_string(),
        focused,
    }
}

fn engine(contexts: &[ContextKey]) -> EngineState {
    let mut state = EngineState::new(gaps());
    state
        .full_sync(
            Snapshot {
                windows: Vec::new(),
                work_areas: contexts
                    .iter()
                    .map(|k| WorkAreaSnapshot {
                        context: *k,
                        rect: screen(),
                    })
                    .collect(),
            },
            gaps(),
        )
        .unwrap();
    state
}

fn add_to(state: &mut EngineState, name: &str, context: ContextKey) -> Response {
    state
        .apply(Command::AddWindow {
            window: snapshot_window(name, context, false),
            work_area: screen(),
        })
        .unwrap()
}

fn leaf(name: &str) -> Shape {
    Shape::Leaf(name.to_string())
}

fn split(orientation: Orientation, ratio: u32, first: Shape, second: Shape) -> Shape {
    Shape::Split(orientation, ratio, Box::new(first), Box::new(second))
}

#[test]
fn rect_formulas_have_exact_values() {
    let r = Rect {
        x: 10,
        y: 20,
        width: 101,
        height: 51,
    };
    assert_eq!(r.right(), 111);
    assert_eq!(r.bottom(), 71);
    assert_eq!(r.area(), 5151);
    assert!(r.is_valid());
    assert_eq!(
        r.inset(5),
        Rect {
            x: 15,
            y: 25,
            width: 91,
            height: 41
        }
    );
    assert_eq!(
        Rect {
            x: 0,
            y: 0,
            width: 5,
            height: 3
        }
        .inset(100),
        Rect {
            x: 1,
            y: 1,
            width: 3,
            height: 1
        }
    );
    let (a, b) = r.split_horizontal(500_000, 11);
    assert_eq!(
        a,
        Rect {
            x: 10,
            y: 20,
            width: 45,
            height: 51
        }
    );
    assert_eq!(
        b,
        Rect {
            x: 66,
            y: 20,
            width: 45,
            height: 51
        }
    );
    let (c, d) = r.split_vertical(300_000, 0);
    assert_eq!(c.height, 15);
    assert_eq!(d.y, 35);
    assert_eq!(d.height, 36);
    assert_eq!(r.split(Orientation::Vertical, 300_000, 0), (c, d));
    assert!(r.contains(a) && r.contains(b));
    assert!(!a.contains(r));
    assert!(!Rect::default().is_valid());
}

#[test]
fn sanitized_config_clamps_every_setting() {
    let wild = Config {
        inner_gap: -4,
        outer_gap: 9_999,
        split_ratio: 2_000_000,
        resize_step: 1,
        smart_split: false,
    };
    assert_eq!(
        wild.sanitized(),
        Config {
            inner_gap: 0,
            outer_gap: 512,
            split_ratio: 900_000,
            resize_step: 10_000,
            smart_split: false,
        }
    );
    assert_eq!(Config::default().sanitized(), Config::default());
}

#[test]
fn window_ids_are_valid_up_to_128_bytes() {
    assert!(id("a").is_valid());
    assert!(!id("").is_valid());
    assert!(id(&"x".repeat(128)).is_valid());
    assert!(!id(&"x".repeat(129)).is_valid());
    assert!(!id(&"é".repeat(65)).is_valid());
}

#[test]
fn ids_are_ordered_by_their_bytes() {
    assert!(id("A").precedes(&id("B")));
    assert!(!id("B").precedes(&id("A")));
    assert!(id("ab").precedes(&id("abc")));
    assert!(!id("a").precedes(&id("a")));
    assert!(key(0, 5).precedes(&key(1, 0)));
    assert!(!key(1, 0).precedes(&key(0, 5)));
}

#[test]
fn placements_come_ordered_by_window_id() {
    let k = key(0, 0);
    let mut state = engine(&[k]);
    for name in ["Zed", "Alpha", "Mid"] {
        add_to(&mut state, name, k);
    }
    let names: Vec<String> = state
        .placements_for(k)
        .into_iter()
        .map(|p: Placement| p.window_id.0)
        .collect();
    assert_eq!(names, vec!["Alpha", "Mid", "Zed"]);
}

#[test]
fn placements_of_contexts_come_in_context_order() {
    let (a, b) = (key(1, 0), key(0, 2));
    let mut state = engine(&[a, b]);
    add_to(&mut state, "InA", a);
    add_to(&mut state, "InB", b);
    let names: Vec<String> = state
        .placements()
        .into_iter()
        .map(|p| p.window_id.0)
        .collect();
    assert_eq!(names, vec!["InB", "InA"]);
}

#[test]
fn every_error_is_reported() {
    let k = key(0, 0);
    let mut state = engine(&[k]);
    assert_eq!(
        state.apply(Command::AddWindow {
            window: snapshot_window("", k, false),
            work_area: screen(),
        }),
        Err(EngineError::InvalidWindowId)
    );
    assert_eq!(
        state.apply(Command::AddWindow {
            window: snapshot_window("A", key(3, 4), false),
            work_area: Rect {
                x: 0,
                y: 0,
                width: 0,
                height: 10
            },
        }),
        Err(EngineError::InvalidWorkArea(3, 4))
    );
    add_to(&mut state, "A", k);
    assert_eq!(
        state.apply(Command::AddWindow {
            window: snapshot_window("A", k, false),
            work_area: screen(),
        }),
        Err(EngineError::DuplicateWindow(id("A")))
    );
    assert_eq!(
        state.apply(Command::RemoveWindow { window_id: id("Nope") }),
        Err(EngineError::UnknownWindow(id("Nope")))
    );
    assert_eq!(
        state.apply(Command::FullSync {
            snapshot: Snapshot {
                windows: vec![snapshot_window("W", key(7, 8), false)],
                work_areas: Vec::new(),
            },
            config: gaps(),
        }),
        Err(EngineError::MissingContext(7, 8))
    );
    assert_eq!(
        state.apply(Command::FullSync {
            snapshot: Snapshot {
                windows: Vec::new(),
                work_areas: vec![
                    WorkAreaSnapshot {
                        context: key(1, 1),
                        rect: Rect::default()
                    },
                    WorkAreaSnapshot {
                        context: key(2, 2),
                        rect: Rect::default()
                    }
                ],
            },
            config: gaps(),
        }),
        Err(EngineError::InvalidWorkArea(1, 1))
    );
    state.validate_invariants().unwrap();
}

#[test]
fn refused_commands_change_nothing() {
    let k = key(0, 0);
    let mut state = engine(&[k]);
    add_to(&mut state, "A", k);
    add_to(&mut state, "B", k);
    let before = state.placements();
    for command in [
        Command::RemoveWindow { window_id: id("X") },
        Command::FocusWindow { window_id: id("X") },
        Command::Resize {
            window_id: id("X"),
            direction: Direction::Left,
        },
        Command::MoveDirection {
            window_id: id("X"),
            direction: Direction::Left,
        },
        Command::FocusDirection {
            window_id: id("X"),
            direction: Direction::Left,
        },
        Command::ToggleFloating { window_id: id("X") },
        Command::ToggleMaximize { window_id: id("X") },
    ] {
        assert_eq!(state.apply(command), Err(EngineError::UnknownWindow(id("X"))));
        assert_eq!(state.placements(), before);
    }
    assert_eq!(state.window_count(), 2);
}

#[test]
fn a_refused_window_keeps_the_new_work_area() {
    let k = key(0, 0);
    let mut state = engine(&[k]);
    let smaller = Rect {
        x: 0,
        y: 0,
        width: 1000,
        height: 500,
    };
    assert_eq!(
        state.apply(Command::AddWindow {
            window: snapshot_window("", k, false),
            work_area: smaller,
        }),
        Err(EngineError::InvalidWindowId)
    );
    add_to(&mut state, "A", k);
    let fresh = key(5, 5);
    assert!(state
        .apply(Command::AddWindow {
            window: snapshot_window("A", fresh, false),
            work_area: smaller,
        })
        .is_err());
    assert_eq!(state.context_len(fresh), 0);
    assert!(state.tree(fresh).is_some());
    assert_eq!(
        state.apply(Command::Relayout { context: Some(fresh) }),
        Ok(Response::Placements { placements: Vec::new() })
    );
}

#[test]
fn other_contexts_are_untouched_by_a_command() {
    let (a, b) = (key(0, 0), key(0, 1));
    let mut state = engine(&[a, b]);
    add_to(&mut state, "A1", a);
    add_to(&mut state, "A2", a);
    add_to(&mut state, "B1", b);
    add_to(&mut state, "B2", b);
    let other = state.tree(b).unwrap().shape();
    state
        .apply(Command::Resize {
            window_id: id("A1"),
            direction: Direction::Right,
        })
        .unwrap();
    state
        .apply(Command::MoveDirection {
            window_id: id("A1"),
            direction: Direction::Right,
        })
        .unwrap();
    state
        .apply(Command::ToggleMaximize { window_id: id("A2") })
        .unwrap();
    state
        .apply(Command::RemoveWindow { window_id: id("A1") })
        .unwrap();
    assert_eq!(state.tree(b).unwrap().shape(), other);
    assert_eq!(state.maximized_window(b), None);
}

#[test]
fn maximized_window_covers_the_work_area_and_toggles_back() {
    let k = key(0, 0);
    let mut state = engine(&[k]);
    add_to(&mut state, "A", k);
    add_to(&mut state, "B", k);
    let tiled = state.placements_for(k);
    let shape = state.tree(k).unwrap().shape();
    let response = state.apply(Command::ToggleMaximize { window_id: id("B") }).unwrap();
    let Response::Placements { placements } = response else {
        panic!("expected placements");
    };
    assert_eq!(placements.len(), 2);
    assert_eq!(placements[1], Placement { window_id: id("B"), rect: screen() });
    assert_eq!(placements[0], tiled[0]);
    state.apply(Command::ToggleMaximize { window_id: id("B") }).unwrap();
    assert_eq!(state.maximized_window(k), None);
    assert_eq!(state.placements_for(k), tiled);
    assert_eq!(state.tree(k).unwrap().shape(), shape);
}

#[test]
fn floating_windows_get_no_placement() {
    let k = key(0, 0);
    let mut state = engine(&[k]);
    let mut full = snapshot_window("Full", k, false);
    full.fullscreen = true;
    let mut dialog = snapshot_window("Dialog", k, false);
    dialog.window_type = "dialog".to_string();
    for w in [full, dialog] {
        state
            .apply(Command::AddWindow {
                window: w,
                work_area: screen(),
            })
            .unwrap();
    }
    assert_eq!(state.is_floating(&id("Full")), Some(true));
    assert_eq!(state.is_floating(&id("Dialog")), Some(true));
    assert_eq!(state.is_floating(&id("Other")), None);
    assert_eq!(state.context_len(k), 0);
    assert!(state.placements().is_empty());
    assert_eq!(
        state.apply(Command::ToggleMaximize { window_id: id("Full") }),
        Ok(Response::Ack)
    );
    assert_eq!(
        state.apply(Command::FocusDirection {
            window_id: id("Full"),
            direction: Direction::Left,
        }),
        Ok(Response::Ack)
    );
    assert_eq!(state.window_count(), 2);
}

#[test]
fn float_round_trip_tiles_the_window_again() {
    let k = key(0, 0);
    let mut state = engine(&[k]);
    add_to(&mut state, "A", k);
    add_to(&mut state, "B", k);
    state.apply(Command::ToggleFloating { window_id: id("A") }).unwrap();
    assert_eq!(state.tree(k).unwrap().shape(), Some(leaf("B")));
    state.apply(Command::ToggleFloating { window_id: id("A") }).unwrap();
    assert_eq!(state.is_floating(&id("A")), Some(false));
    assert!(state.tree(k).unwrap().contains(&id("A")));
    assert_eq!(state.context_len(k), 2);
}

#[test]
fn focus_direction_answers_focus_without_maximize() {
    let k = key(0, 0);
    let mut state = engine(&[k]);
    add_to(&mut state, "A", k);
    add_to(&mut state, "B", k);
    assert_eq!(
        state.apply(Command::FocusDirection {
            window_id: id("A"),
            direction: Direction::Right,
        }),
        Ok(Response::Focus { window_id: id("B") })
    );
    assert_eq!(
        state.apply(Command::FocusDirection {
            window_id: id("A"),
            direction: Direction::Left,
        }),
        Ok(Response::Ack)
    );
    assert_eq!(
        state.apply(Command::FocusWindow { window_id: id("A") }),
        Ok(Response::Ack)
    );
}

#[test]
fn navigation_without_source_or_candidate_finds_nothing() {
    let square = Rect {
        x: 0,
        y: 0,
        width: 10,
        height: 10,
    };
    let rects = vec![(id("A"), square)];
    assert_eq!(best_candidate(&id("A"), Direction::Right, &rects), None);
    assert_eq!(best_candidate(&id("Z"), Direction::Right, &rects), None);
    let far = Rect {
        x: 100,
        y: 500,
        width: 10,
        height: 10,
    };
    let near_but_off_axis = Rect {
        x: 20,
        y: 40,
        width: 10,
        height: 10,
    };
    let rects = vec![(id("A"), square), (id("Off"), near_but_off_axis), (id("Far"), far)];
    assert_eq!(
        best_candidate(&id("A"), Direction::Down, &rects),
        Some(id("Off"))
    );
    let aligned = Rect {
        x: 0,
        y: 900,
        width: 10,
        height: 10,
    };
    let rects = vec![(id("A"), square), (id("Off"), near_but_off_axis), (id("Aligned"), aligned)];
    assert_eq!(
        best_candidate(&id("A"), Direction::Down, &rects),
        Some(id("Aligned"))
    );
}

#[test]
fn swapping_twice_restores_the_tree() {
    let mut tree = LayoutTree::new();
    let cfg = gaps();
    tree.insert(id("A"), None, screen(), &cfg).unwrap();
    tree.insert(id("B"), None, screen(), &cfg).unwrap();
    tree.insert(id("C"), None, screen(), &cfg).unwrap();
    let before = tree.shape();
    let nodes = tree.node_count();
    tree.swap(&id("A"), &id("C")).unwrap();
    assert_ne!(tree.shape(), before);
    tree.swap(&id("A"), &id("C")).unwrap();
    assert_eq!(tree.shape(), before);
    assert_eq!(tree.node_count(), nodes);
    assert_eq!(nodes, 5);
    assert_eq!(tree.swap(&id("A"), &id("A")), Ok(()));
    assert_eq!(
        tree.swap(&id("A"), &id("Q")),
        Err(TreeError::UnknownWindow(id("Q")))
    );
}

#[test]
fn inserting_then_removing_restores_the_tree() {
    let mut tree = LayoutTree::new();
    let cfg = gaps();
    tree.insert(id("A"), None, screen(), &cfg).unwrap();
    tree.insert(id("B"), None, screen(), &cfg).unwrap();
    let before = tree.shape();
    tree.insert(id("C"), Some(&id("A")), screen(), &cfg).unwrap();
    assert_eq!(tree.len(), 3);
    tree.remove(&id("C")).unwrap();
    assert_eq!(tree.shape(), before);
    assert_eq!(
        tree.insert(id("A"), None, screen(), &cfg),
        Err(TreeError::DuplicateWindow(id("A")))
    );
    assert_eq!(
        tree.remove(&id("Q")),
        Err(TreeError::UnknownWindow(id("Q")))
    );
    assert_eq!(tree.resize(&id("Q"), Direction::Left, 50_000), Err(TreeError::UnknownWindow(id("Q"))));
}

#[test]
fn a_leaf_too_small_to_split_is_refused_and_the_tree_kept() {
    let strip = Rect {
        x: 0,
        y: 0,
        width: 3,
        height: 1,
    };
    let cfg = Config {
        inner_gap: 0,
        outer_gap: 0,
        ..Config::default()
    };
    let mut tree = LayoutTree::new();
    tree.insert(id("A"), None, strip, &cfg).unwrap();
    tree.insert(id("B"), Some(&id("A")), strip, &cfg).unwrap();
    let before = tree.shape();
    assert_eq!(
        before,
        Some(split(Orientation::Horizontal, 500_000, leaf("A"), leaf("B")))
    );
    assert_eq!(
        tree.insert(id("C"), Some(&id("B")), strip, &cfg),
        Err(TreeError::CannotSplit {
            width: 1,
            height: 1,
        })
    );
    assert_eq!(tree.shape(), before);
    assert_eq!(tree.len(), 2);
    tree.insert(id("C"), Some(&id("A")), strip, &cfg).unwrap();
    tree.remove(&id("C")).unwrap();
    assert_eq!(tree.shape(), before);
    assert_eq!(tree.validate_invariants(), Ok(()));
}

#[test]
fn swapping_either_way_gives_the_same_tree() {
    let cfg = gaps();
    let mut first = LayoutTree::new();
    let mut second = LayoutTree::new();
    for name in ["A", "B", "C"] {
        first.insert(id(name), None, screen(), &cfg).unwrap();
        second.insert(id(name), None, screen(), &cfg).unwrap();
    }
    first.swap(&id("A"), &id("C")).unwrap();
    second.swap(&id("C"), &id("A")).unwrap();
    assert_eq!(first.shape(), second.shape());
    assert_eq!(
        first.rectangles(screen(), 10, 10),
        second.rectangles(screen(), 10, 10)
    );
}

#[test]
fn a_leaf_one_pixel_wide_still_splits_along_the_preferred_axis() {
    let column = Rect {
        x: 0,
        y: 0,
        width: 1,
        height: 5,
    };
    let cfg = Config {
        inner_gap: 0,
        outer_gap: 0,
        smart_split: false,
        ..Config::default()
    };
    let mut tree = LayoutTree::new();
    tree.insert(id("A"), None, column, &cfg).unwrap();
    tree.insert(id("B"), Some(&id("A")), column, &cfg).unwrap();
    assert_eq!(
        tree.shape(),
        Some(split(Orientation::Horizontal, 500_000, leaf("A"), leaf("B")))
    );
    assert_eq!(
        tree.rectangles(column, 0, 0),
        vec![(id("A"), column), (id("B"), column)]
    );
}

#[test]
fn a_negative_resize_step_moves_the_border_back() {
    let mut tree = LayoutTree::new();
    let cfg = gaps();
    tree.insert(id("A"), None, screen(), &cfg).unwrap();
    tree.insert(id("B"), None, screen(), &cfg).unwrap();
    assert_eq!(tree.resize(&id("A"), Direction::Right, -50_000), Ok(true));
    assert_eq!(
        tree.shape(),
        Some(split(Orientation::Horizontal, 450_000, leaf("A"), leaf("B")))
    );
    assert_eq!(tree.resize(&id("B"), Direction::Right, -700_000), Ok(true));
    assert_eq!(
        tree.shape(),
        Some(split(Orientation::Horizontal, 900_000, leaf("A"), leaf("B")))
    );
}

#[test]
fn smart_split_follows_the_longer_side() {
    let tall = Rect {
        x: 0,
        y: 0,
        width: 400,
        height: 1000,
    };
    let mut tree = LayoutTree::new();
    let cfg = Config {
        inner_gap: 0,
        outer_gap: 0,
        ..Config::default()
    };
    tree.insert(id("A"), None, tall, &cfg).unwrap();
    tree.insert(id("B"), None, tall, &cfg).unwrap();
    assert_eq!(
        tree.shape(),
        Some(split(Orientation::Vertical, 500_000, leaf("A"), leaf("B")))
    );
    let plain = Config {
        smart_split: false,
        ..cfg
    };
    let mut other = LayoutTree::new();
    other.insert(id("A"), None, tall, &plain).unwrap();
    other.insert(id("B"), None, tall, &plain).unwrap();
    assert_eq!(
        other.shape(),
        Some(split(Orientation::Horizontal, 500_000, leaf("A"), leaf("B")))
    );
}

#[test]
fn remembered_window_is_split_when_nothing_is_focused() {
    let mut tree = LayoutTree::new();
    let cfg = Config {
        inner_gap: 0,
        outer_gap: 0,
        smart_split: false,
        ..Config::default()
    };
    tree.insert(id("A"), None, screen(), &cfg).unwrap();
    tree.insert(id("B"), None, screen(), &cfg).unwrap();
    tree.remove(&id("B")).unwrap();
    tree.insert(id("C"), None, screen(), &cfg).unwrap();
    assert_eq!(
        tree.shape(),
        Some(split(Orientation::Horizontal, 500_000, leaf("A"), leaf("C")))
    );
    tree.set_focused(&id("A"));
    tree.insert(id("D"), None, screen(), &cfg).unwrap();
    assert_eq!(
        tree.shape(),
        Some(split(
            Orientation::Horizontal,
            500_000,
            split(Orientation::Horizontal, 500_000, leaf("A"), leaf("D")),
            leaf("C")
        ))
    );
}

#[test]
fn resize_reports_whether_a_split_moved() {
    let mut tree = LayoutTree::new();
    let cfg = gaps();
    tree.insert(id("A"), None, screen(), &cfg).unwrap();
    assert_eq!(tree.resize(&id("A"), Direction::Right, 50_000), Ok(false));
    tree.insert(id("B"), None, screen(), &cfg).unwrap();
    assert_eq!(tree.resize(&id("A"), Direction::Down, 50_000), Ok(false));
    assert_eq!(tree.resize(&id("A"), Direction::Right, 50_000), Ok(true));
    assert_eq!(tree.resize(&id("B"), Direction::Right, 50_000), Ok(true));
    assert_eq!(
        tree.shape(),
        Some(split(Orientation::Horizontal, 500_000, leaf("A"), leaf("B")))
    );
    assert_eq!(tree.resize(&id("B"), Direction::Left, 600_000), Ok(true));
    assert_eq!(
        tree.shape(),
        Some(split(Orientation::Horizontal, 900_000, leaf("A"), leaf("B")))
    );
}

#[test]
fn full_sync_ignores_the_previous_state() {
    let k = key(0, 0);
    let snapshot = || Snapshot {
        windows: vec![
            snapshot_window("C", k, false),
            snapshot_window("A", k, true),
            snapshot_window("B", k, false),
        ],
        work_areas: vec![WorkAreaSnapshot {
            context: k,
            rect: screen(),
        }],
    };
    let mut fresh = EngineState::new(gaps());
    let mut busy = engine(&[k, key(3, 3)]);
    add_to(&mut busy, "Old", k);
    let first = fresh.apply(Command::FullSync {
        snapshot: snapshot(),
        config: gaps(),
    });
    let second = busy.apply(Command::FullSync {
        snapshot: snapshot(),
        config: gaps(),
    });
    assert_eq!(first, second);
    assert_eq!(fresh.tree(k).unwrap().shape(), busy.tree(k).unwrap().shape());
    assert_eq!(busy.window_context(&id("Old")), None);
    assert!(busy.tree(key(3, 3)).is_none());
    assert_eq!(
        fresh.tree(k).unwrap().shape(),
        Some(split(
            Orientation::Horizontal,
            500_000,
            split(Orientation::Vertical, 500_000, leaf("A"), leaf("C")),
            leaf("B")
        ))
    );
}

#[test]
fn configure_sanitizes_and_keeps_trees() {
    let k = key(0, 0);
    let mut state = engine(&[k]);
    add_to(&mut state, "A", k);
    add_to(&mut state, "B", k);
    let shape = state.tree(k).unwrap().shape();
    let response = state
        .apply(Command::Configure {
            config: Config {
                inner_gap: 0,
                outer_gap: -50,
                split_ratio: 0,
                resize_step: 999_999,
                smart_split: true,
            },
        })
        .unwrap();
    assert_eq!(state.tree(k).unwrap().shape(), shape);
    assert_eq!(
        response,
        Response::Placements {
            placements: vec![
                Placement {
                    window_id: id("A"),
                    rect: Rect {
                        x: 0,
                        y: 0,
                        width: 960,
                        height: 1080
                    }
                },
                Placement {
                    window_id: id("B"),
                    rect: Rect {
                        x: 960,
                        y: 0,
                        width: 960,
                        height: 1080
                    }
                },
            ]
        }
    );
    state.validate_invariants().unwrap();
}

#[test]
fn moving_to_the_same_context_only_updates_its_work_area() {
    let k = key(0, 0);
    let mut state = engine(&[k]);
    add_to(&mut state, "A", k);
    let half = Rect {
        x: 0,
        y: 0,
        width: 960,
        height: 1080,
    };
    let response = state
        .apply(Command::WindowContextChanged {
            window_id: id("A"),
            context: k,
            work_area: half,
        })
        .unwrap();
    assert_eq!(
        response,
        Response::Placements {
            placements: vec![Placement {
                window_id: id("A"),
                rect: half.inset(10)
            }]
        }
    );
}

#[test]
fn window_count_and_len_follow_the_windows() {
    let k = key(0, 0);
    let mut state = EngineState::default();
    assert_eq!(state.window_count(), 0);
    assert_eq!(state.context_len(k), 0);
    assert!(state.tree(k).is_none());
    state = engine(&[k]);
    add_to(&mut state, "A", k);
    add_to(&mut state, "B", k);
    assert_eq!(state.window_count(), 2);
    assert_eq!(state.context_len(k), 2);
    assert_eq!(state.tree(k).unwrap().node_count(), 3);
    assert!(!state.tree(k).unwrap().is_empty());
}

#[test]
fn focusing_another_window_restores_the_maximized_one() {
    let k = key(0, 0);
    let mut state = engine(&[k]);
    add_to(&mut state, "A", k);
    add_to(&mut state, "B", k);
    let tiled = state.placements_for(k);
    state.apply(Command::ToggleMaximize { window_id: id("A") }).unwrap();
    assert_eq!(
        state.apply(Command::FocusWindow { window_id: id("A") }),
        Ok(Response::Ack)
    );
    assert_eq!(
        state.apply(Command::FocusWindow { window_id: id("B") }),
        Ok(Response::Placements { placements: tiled })
    );
    assert_eq!(state.maximized_window(k), None);
}

#[test]
fn moving_a_floating_window_only_changes_its_context() {
    let (a, b) = (key(0, 0), key(0, 1));
    let mut state = engine(&[a, b]);
    add_to(&mut state, "T", a);
    let mut dialog = snapshot_window("D", a, false);
    dialog.window_type = "dialog".to_string();
    state
        .apply(Command::AddWindow {
            window: dialog,
            work_area: screen(),
        })
        .unwrap();
    let shape_a = state.tree(a).unwrap().shape();
    let response = state
        .apply(Command::WindowContextChanged {
            window_id: id("D"),
            context: b,
            work_area: screen(),
        })
        .unwrap();
    assert_eq!(state.window_context(&id("D")), Some(b));
    assert_eq!(state.is_floating(&id("D")), Some(true));
    assert_eq!(state.tree(a).unwrap().shape(), shape_a);
    assert_eq!(state.context_len(b), 0);
    assert_eq!(
        response,
        Response::Placements {
            placements: state.placements_for(a)
        }
    );
}

#[test]
fn moving_a_tiled_window_lays_out_both_contexts() {
    let (a, b) = (key(2, 0), key(1, 0));
    let mut state = engine(&[a, b]);
    add_to(&mut state, "A1", a);
    add_to(&mut state, "A2", a);
    add_to(&mut state, "B1", b);
    let response = state
        .apply(Command::WindowContextChanged {
            window_id: id("A2"),
            context: b,
            work_area: screen(),
        })
        .unwrap();
    let mut expected = state.placements_for(b);
    expected.extend(state.placements_for(a));
    assert_eq!(response, Response::Placements { placements: expected });
    assert_eq!(state.context_len(a), 1);
    assert_eq!(state.context_len(b), 2);
    state.validate_invariants().unwrap();
}

#[test]
fn full_sync_focuses_the_first_focused_window() {
    let k = key(0, 0);
    let mut state = EngineState::new(gaps());
    let mut dialog = snapshot_window("Dialog", k, true);
    dialog.window_type = "dialog".to_string();
    state
        .full_sync(
            Snapshot {
                windows: vec![dialog, snapshot_window("B", k, true), snapshot_window("A", k, false)],
                work_areas: vec![WorkAreaSnapshot {
                    context: k,
                    rect: screen(),
                }],
            },
            gaps(),
        )
        .unwrap();
    assert_eq!(state.is_floating(&id("Dialog")), Some(true));
    assert_eq!(state.context_len(k), 2);
    state
        .apply(Command::AddWindow {
            window: snapshot_window("C", k, false),
            work_area: screen(),
        })
        .unwrap();
    assert_eq!(
        state.tree(k).unwrap().shape(),
        Some(split(
            Orientation::Horizontal,
            500_000,
            leaf("A"),
            split(Orientation::Vertical, 500_000, leaf("B"), leaf("C"))
        ))
    );
}

#[test]
fn relayout_of_everything_lists_all_placements() {
    let (a, b) = (key(0, 0), key(0, 1));
    let mut state = engine(&[a, b]);
    add_to(&mut state, "A", a);
    add_to(&mut state, "B", b);
    assert_eq!(
        state.apply(Command::Relayout { context: None }),
        Ok(Response::Placements {
            placements: state.placements()
        })
    );
    assert_eq!(state.placements().len(), 2);
    assert!(EngineState::default().validate_invariants().is_ok());
}
