//! The keyed multimaps, text rendering and the frame buffer.

use ratatui_kit::buffer::{format_u64, render_value, string_chars, TextBuffer};
use ratatui_kit::key::ElementKey;
use ratatui_kit::layout::Rect;
use ratatui_kit::multimap::{AppendOnlyMultimap, RemoveOnlyMultimap};
use ratatui_kit::value::Value;

#[test]
fn multimap_pops_fifo_per_key() {
    let k = ElementKey::new(1);
    let other = ElementKey::new(2);
    let mut m: AppendOnlyMultimap<&str> = AppendOnlyMultimap::new();
    m.push_back(k, "x");
    m.push_back(other, "o");
    m.push_back(k, "y");
    let mut m = RemoveOnlyMultimap::from_append(m);
    assert_eq!(m.pop_front(&k), Some("x"));
    assert_eq!(m.pop_front(&k), Some("y"));
    assert_eq!(m.pop_front(&k), None);
    assert_eq!(m.pop_front(&other), Some("o"));
}

#[test]
fn multimap_iterates_in_declaration_order() {
    let mut m: AppendOnlyMultimap<u32> = AppendOnlyMultimap::new();
    m.push_back(ElementKey::new(1), 10);
    m.push_back(ElementKey::new(2), 20);
    m.push_back(ElementKey::new(1), 30);
    let mut m = RemoveOnlyMultimap::from_append(m);
    assert_eq!(m.iter().clone(), vec![10, 20, 30]);
    // Popping the front of one key's queue moves the rest up in place.
    assert_eq!(m.pop_front(&ElementKey::new(1)), Some(10));
    assert_eq!(m.iter().clone(), vec![20, 30]);
    assert_eq!(m.len(), 2);
    assert_eq!(*m.get(0), 20);
}

#[test]
fn keys_compare_by_both_parts() {
    assert_eq!(ElementKey::new(5), ElementKey::with_user(5, 0));
    assert_ne!(ElementKey::with_user(5, 1), ElementKey::with_user(5, 2));
    assert_ne!(ElementKey::new(5), ElementKey::new(6));
}

#[test]
fn integers_render_in_decimal() {
    assert_eq!(format_u64(0), vec!['0']);
    assert_eq!(format_u64(907), vec!['9', '0', '7']);
    assert_eq!(render_value(&Value::Int(-45)), vec!['-', '4', '5']);
    assert_eq!(render_value(&Value::Bool(true)), vec!['t', 'r', 'u', 'e']);
    assert_eq!(render_value(&Value::Unit), Vec::<char>::new());
    assert_eq!(render_value(&Value::Text(String::from("hi"))), vec!['h', 'i']);
    assert_eq!(string_chars(&String::from("abc")), vec!['a', 'b', 'c']);
}

#[test]
fn values_compare_by_content() {
    assert!(Value::Int(3).same_as(&Value::Int(3)));
    assert!(!Value::Int(3).same_as(&Value::Int(4)));
    assert!(!Value::Int(3).same_as(&Value::Bool(true)));
    assert!(Value::Text(String::from("a")).same_as(&Value::Text(String::from("a"))));
    let v = Value::Text(String::from("deep"));
    assert!(v.duplicate().same_as(&v));
}

#[test]
fn painting_clips_to_the_area_and_the_grid() {
    let mut buf = TextBuffer::new(5, 2);
    let text: Vec<char> = vec!['h', 'e', 'l', 'l', 'o', '!'];
    buf.paint_text(Rect::new(1, 0, 3, 1), &text);
    let row: String = (0..5).map(|x| buf.get(x, 0)).collect();
    assert_eq!(row, " hel ");
    let row1: String = (0..5).map(|x| buf.get(x, 1)).collect();
    assert_eq!(row1, "     ");

    // A paint outside the grid changes nothing.
    buf.paint_text(Rect::new(0, 9, 3, 1), &text);
    let row: String = (0..5).map(|x| buf.get(x, 0)).collect();
    assert_eq!(row, " hel ");
}
