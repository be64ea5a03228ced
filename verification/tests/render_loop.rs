//! Change-poll propagation and the end-to-end counter scenario.

use ratatui_kit::element::{AnyElement, AnyProps, EventTextProps, FragmentProps, StateTextProps, ViewProps};
use ratatui_kit::key::ElementKey;
use ratatui_kit::element::ScrollViewProps;
use ratatui_kit::layout::{Constraint, LayoutStyle, Rect, ScrollBars, ScrollViewState, ScrollbarVisibility};
use ratatui_kit::runtime::{loop_step, LoopControl, LoopEvent, TreeRuntime};
use ratatui_kit::value::Value;

fn site_key(site: u64) -> ElementKey {
    ElementKey::new(site)
}

fn counter_elem() -> AnyElement {
    AnyElement::new(
        ElementKey::new(1),
        AnyProps::StateText(StateTextProps { init: Value::Int(0) }),
        vec![],
    )
}

fn row_text(buf: &ratatui_kit::buffer::TextBuffer, y: u16) -> String {
    let mut s = String::new();
    for x in 0..buf.width() {
        s.push(buf.get(x, y));
    }
    s
}

#[test]
fn leaf_readiness_reaches_the_root_poll() {
    let mut rt = TreeRuntime::new();
    // A leaf two levels down: root fragment -> fragment -> state leaf.
    let leaf = counter_elem();
    let mid = AnyElement::new(ElementKey::new(2), AnyProps::Fragment(FragmentProps {}), vec![leaf]);
    let root = AnyElement::new(ElementKey::new(3), AnyProps::Fragment(FragmentProps {}), vec![mid]);
    rt.update(&vec![root]);
    assert!(!rt.poll_change());

    // Write into the leaf's cell: the aggregated root poll reports ready
    // in the same cycle.
    assert!(rt.write_state(&vec![0, 0, 0], 0, Value::Int(5)));
    assert!(rt.poll_change());
    // ... and exactly once: with no further changes the next poll is
    // pending again.
    assert!(!rt.poll_change());
}

#[test]
fn writes_between_polls_coalesce() {
    let mut rt = TreeRuntime::new();
    rt.update(&vec![counter_elem()]);
    assert!(rt.write_state(&vec![0], 0, Value::Int(1)));
    assert!(rt.write_state(&vec![0], 0, Value::Int(2)));
    assert!(rt.write_state(&vec![0], 0, Value::Int(3)));
    // Three writes, one re-render.
    assert!(rt.poll_change());
    assert!(!rt.poll_change());
}

#[test]
fn counter_renders_the_value_after_n_intervals() {
    let mut rt = TreeRuntime::new();
    rt.update(&vec![counter_elem()]);
    let buf = rt.draw(8, 1);
    assert_eq!(row_text(&buf, 0), "0       ");

    // A background task increments the cell once per interval; after
    // three intervals, one update+draw cycle renders the literal value.
    let n = 3i64;
    for step in 1..=n {
        assert!(rt.write_state(&vec![0], 0, Value::Int(step)));
    }
    assert!(rt.poll_change());
    rt.update(&vec![counter_elem()]);
    let buf = rt.draw(8, 1);
    assert_eq!(row_text(&buf, 0), "3       ");
    // One re-render per batch of increments: the poll is quiet again.
    assert!(!rt.poll_change());
}

#[test]
fn loop_decisions() {
    assert_eq!(loop_step(false, &LoopEvent::Input(13)), LoopControl::Render);
    assert_eq!(loop_step(false, &LoopEvent::Change), LoopControl::Render);
    assert_eq!(loop_step(false, &LoopEvent::Interrupt), LoopControl::Exit);
    assert_eq!(loop_step(true, &LoopEvent::Change), LoopControl::Exit);
    assert_eq!(loop_step(true, &LoopEvent::Input(0)), LoopControl::Exit);
}

#[test]
fn exit_request_ends_the_loop() {
    let mut rt = TreeRuntime::new();
    rt.update(&vec![counter_elem()]);
    assert!(!rt.should_exit());
    rt.request_exit();
    assert!(rt.should_exit());
    assert_eq!(loop_step(rt.should_exit(), &LoopEvent::Change), LoopControl::Exit);
}

#[test]
fn invalid_state_addresses_are_rejected() {
    let mut rt = TreeRuntime::new();
    rt.update(&vec![counter_elem()]);
    assert!(!rt.write_state(&vec![1], 0, Value::Int(5)));
    assert!(!rt.write_state(&vec![0], 1, Value::Int(5)));
    assert!(!rt.write_state(&vec![0, 0], 0, Value::Int(5)));
    assert!(!rt.poll_change());
}

#[test]
fn containers_draw_their_children_in_split_areas() {
    let mut rt = TreeRuntime::new();
    let top = AnyElement::new(
        ElementKey::new(10),
        AnyProps::Text(ratatui_kit::element::TextProps { text: String::from("alpha") }),
        vec![],
    );
    let bottom = AnyElement::new(
        ElementKey::new(11),
        AnyProps::Text(ratatui_kit::element::TextProps { text: String::from("beta") }),
        vec![],
    );
    let root = AnyElement::new(
        ElementKey::new(1),
        AnyProps::Pane(ViewProps { layout: LayoutStyle::default() }),
        vec![top, bottom],
    );
    rt.update(&vec![root]);
    let buf = rt.draw(6, 2);
    assert_eq!(row_text(&buf, 0), "alpha ");
    assert_eq!(row_text(&buf, 1), "beta  ");
}

#[test]
fn single_shot_render_paints_the_root() {
    let root = AnyElement::new(
        ElementKey::new(5),
        AnyProps::Text(ratatui_kit::element::TextProps { text: String::from("once") }),
        vec![],
    );
    let (rt, buf) = ratatui_kit::runtime::render(root, 6, 1);
    assert_eq!(row_text(&buf, 0), "once  ");
    assert_eq!(rt.root_components().items.len(), 1);
}

#[test]
fn input_events_reach_subscribed_cells_before_the_next_update() {
    let subscriber = AnyElement::new(
        ElementKey::new(9),
        AnyProps::EventText(EventTextProps {}),
        vec![],
    );
    let mut rt = TreeRuntime::new();
    rt.update(&vec![AnyElement::new(
        ElementKey::new(8),
        AnyProps::Fragment(FragmentProps {}),
        vec![subscriber],
    )]);
    assert!(!rt.poll_change());

    // An input event is dispatched into every event cell, marking it
    // dirty; the following update renders the code.
    rt.dispatch_input(65);
    assert!(rt.poll_change());
    let subscriber = AnyElement::new(
        ElementKey::new(9),
        AnyProps::EventText(EventTextProps {}),
        vec![],
    );
    rt.update(&vec![AnyElement::new(
        ElementKey::new(8),
        AnyProps::Fragment(FragmentProps {}),
        vec![subscriber],
    )]);
    let buf = rt.draw(4, 1);
    assert_eq!(row_text(&buf, 0), "65  ");
    // State cells are untouched by input dispatch.
    assert!(!rt.poll_change());
}

#[test]
fn input_dispatch_leaves_state_cells_alone() {
    let mut rt = TreeRuntime::new();
    rt.update(&vec![counter_elem()]);
    rt.dispatch_input(65);
    // No event cell exists here: nothing became dirty.
    assert!(!rt.poll_change());
    match &rt.root_components().items[0].hooks[0].value {
        Value::Int(v) => assert_eq!(*v, 0),
        _ => panic!("state cell does not hold an integer"),
    }
}

#[test]
fn draw_areas_are_captured_for_the_next_frame() {
    let make_root = || {
        AnyElement::new(
            ElementKey::new(1),
            AnyProps::Pane(ViewProps { layout: LayoutStyle::default() }),
            vec![
                AnyElement::new(
                    ElementKey::new(10),
                    AnyProps::Text(ratatui_kit::element::TextProps { text: String::from("a") }),
                    vec![],
                ),
                AnyElement::new(
                    ElementKey::new(11),
                    AnyProps::Text(ratatui_kit::element::TextProps { text: String::from("b") }),
                    vec![],
                ),
            ],
        )
    };
    let mut rt = TreeRuntime::new();
    rt.update(&vec![make_root()]);
    // Before any draw, no area has been recorded.
    assert_eq!(rt.root_components().items[0].last_area, Rect::new(0, 0, 0, 0));

    let _ = rt.draw(6, 2);
    let root = &rt.root_components().items[0];
    assert_eq!(root.last_area, Rect::new(0, 0, 6, 2));
    assert_eq!(root.children.items[0].last_area, Rect::new(0, 0, 6, 1));
    assert_eq!(root.children.items[1].last_area, Rect::new(0, 1, 6, 1));

    // The recorded areas survive into the next update, where a
    // component can read the area it was just drawn into.
    rt.update(&vec![make_root()]);
    let root = &rt.root_components().items[0];
    assert_eq!(root.children.items[1].last_area, Rect::new(0, 1, 6, 1));
}

#[test]
fn scroll_views_draw_the_window_at_their_position() {
    let line = |site: u64, text: &str| {
        AnyElement::new(
            site_key(site),
            AnyProps::Pane(ViewProps {
                layout: LayoutStyle { height: Constraint::Length(1), ..LayoutStyle::default() },
            }),
            vec![AnyElement::new(
                site_key(site + 100),
                AnyProps::Text(ratatui_kit::element::TextProps { text: String::from(text) }),
                vec![],
            )],
        )
    };
    let make_root = |offset_y: u16| {
        AnyElement::new(
            site_key(1),
            AnyProps::ScrollView(ScrollViewProps {
                layout: LayoutStyle::default(),
                scroll_bars: ScrollBars {
                    horizontal: ScrollbarVisibility::Never,
                    vertical: ScrollbarVisibility::Never,
                },
                scroll: Some(ScrollViewState { offset_x: 0, offset_y }),
            }),
            vec![line(10, "one"), line(11, "two"), line(12, "three")],
        )
    };
    let mut rt = TreeRuntime::new();
    // Three one-row lines in a two-row view, unscrolled: the window shows
    // the first two.
    rt.update(&vec![make_root(0)]);
    let buf = rt.draw(6, 2);
    assert_eq!(row_text(&buf, 0), "one   ");
    assert_eq!(row_text(&buf, 1), "two   ");

    // Scrolled one row down, the window starts at the second line.
    rt.update(&vec![make_root(1)]);
    let buf = rt.draw(6, 2);
    assert_eq!(row_text(&buf, 0), "two   ");
    assert_eq!(row_text(&buf, 1), "three ");
}
