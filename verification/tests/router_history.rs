//! The navigation history and path splitting.

use ratatui_kit::element::{AnyProps, Element, Fragment, FragmentProps};
use ratatui_kit::key::ElementKey;
use ratatui_kit::router::{match_route, split_path, Navigate, Route, RouteContext, RouterHistory};
use ratatui_kit::value::Value;

fn route(path: &str) -> RouteContext {
    RouteContext::new(split_path(path))
}

fn path_of(ctx: &RouteContext) -> Vec<String> {
    ctx.path.clone()
}

#[test]
fn split_keeps_leading_slashes() {
    let segs = split_path("/user/42");
    assert_eq!(segs, vec![String::from("/user"), String::from("/42")]);
    assert_eq!(split_path("/"), vec![String::from("/")]);
    assert_eq!(split_path(""), Vec::<String>::new());
    assert_eq!(split_path("//a"), vec![String::from("/"), String::from("/a")]);
    // Characters before the first slash belong to no segment.
    assert_eq!(split_path("x/a"), vec![String::from("/a")]);
}

#[test]
fn history_push_back_forward() {
    let mut h = RouterHistory::new(route("/"), 10);
    h.push(route("/a"));
    h.push(route("/b"));
    assert_eq!(path_of(&h.current_context()), vec![String::from("/b")]);

    let back = h.back().unwrap();
    assert_eq!(path_of(&back), vec![String::from("/a")]);
    let back = h.back().unwrap();
    assert_eq!(path_of(&back), vec![String::from("/")]);
    assert!(h.back().is_none());

    let fwd = h.forward().unwrap();
    assert_eq!(path_of(&fwd), vec![String::from("/a")]);
}

#[test]
fn history_go_moves_relative() {
    let mut h = RouterHistory::new(route("/"), 10);
    h.push(route("/a"));
    h.push(route("/b"));
    let dest = h.go(-2).unwrap();
    assert_eq!(path_of(&dest), vec![String::from("/")]);
    assert!(h.go(5).is_none());
    let dest = h.go(2).unwrap();
    assert_eq!(path_of(&dest), vec![String::from("/b")]);
}

#[test]
fn history_evicts_oldest_when_full() {
    let mut h = RouterHistory::new(route("/one"), 2);
    h.push(route("/two"));
    h.push(route("/three"));
    assert_eq!(h.history.len(), 2);
    assert_eq!(path_of(&h.history[0]), vec![String::from("/two")]);
    assert_eq!(path_of(&h.history[1]), vec![String::from("/three")]);
}

#[test]
fn replace_swaps_the_current_route() {
    let mut h = RouterHistory::new(route("/a"), 10);
    h.push(route("/b"));
    h.replace(route("/c"));
    assert_eq!(path_of(&h.current_context()), vec![String::from("/c")]);
    assert_eq!(h.history.len(), 2);
}

#[test]
fn navigate_carries_params_and_state() {
    let mut nav = Navigate::new(RouterHistory::new(route("/"), 10));
    nav.push("/items");
    assert_eq!(path_of(&nav.history.current_context()), vec![String::from("/items")]);
    assert!(nav.history.current_context().state.is_none());

    nav.push_with_state("/items/7", Value::Int(7));
    let ctx = nav.history.current_context();
    assert_eq!(path_of(&ctx), vec![String::from("/items"), String::from("/7")]);
    assert!(ctx.state.unwrap().same_as(&Value::Int(7)));

    // A plain push copies the current context: the state travels with it.
    nav.push("/next");
    let ctx = nav.history.current_context();
    assert_eq!(path_of(&ctx), vec![String::from("/next")]);
    assert!(ctx.state.unwrap().same_as(&Value::Int(7)));

    // So does a plain replace, and neither grows the history.
    let len_before = nav.history.history.len();
    nav.replace("/renamed");
    let ctx = nav.history.current_context();
    assert_eq!(path_of(&ctx), vec![String::from("/renamed")]);
    assert!(ctx.state.unwrap().same_as(&Value::Int(7)));
    assert_eq!(nav.history.history.len(), len_before);

    nav.replace_with_state("/other", Value::Bool(true));
    let ctx = nav.history.current_context();
    assert_eq!(path_of(&ctx), vec![String::from("/other")]);
    assert!(ctx.state.unwrap().same_as(&Value::Bool(true)));
    assert_eq!(nav.history.history.len(), len_before);

    nav.back();
    assert_eq!(path_of(&nav.history.current_context()), vec![String::from("/items"), String::from("/7")]);
    nav.forward();
    nav.go(-1);
    assert_eq!(path_of(&nav.history.current_context()), vec![String::from("/items"), String::from("/7")]);
}

#[test]
fn elements_erase_through_their_type() {
    let e: Element<Fragment> = Element {
        key: ElementKey::new(9),
        props: FragmentProps {},
        children: vec![],
    };
    let any = e.into_any();
    assert_eq!(any.key, ElementKey::new(9));
    assert!(matches!(any.props, AnyProps::Fragment(_)));
    assert_eq!(any.props.props_tag(), 2);
}

#[test]
fn routes_match_literals_and_parameters() {
    let routes = vec![
        Route { path: String::from("/home") },
        Route { path: String::from("/:id") },
        Route { path: String::from("/about") },
    ];
    // A literal wins at its position.
    let m = match_route(&routes, &String::from("/home")).unwrap();
    assert_eq!(m.0, 0);
    assert!(m.1.is_none());
    // Anything else falls through to the parameter binder, which binds
    // the segment's text under the pattern's name.
    let m = match_route(&routes, &String::from("/42")).unwrap();
    assert_eq!(m.0, 1);
    let (name, value) = m.1.unwrap();
    assert_eq!(name, "id");
    assert_eq!(value, "42");

    let none = match_route(&vec![Route { path: String::from("/x") }], &String::from("/y"));
    assert!(none.is_none());
}
