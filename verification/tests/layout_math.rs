//! The layout arithmetic: splitting, justification, content measures and
//! scrollbar decisions on concrete values.

use ratatui_kit::layout::{
    clamp_offset, content_size, resolve_content, resolve_cross, resolve_fixed, scroll_view_plan,
    split_areas, split_main, Constraint, Direction, Flex, LayoutStyle, Placement, Rect,
    ScrollBars, ScrollViewState, ScrollbarVisibility,
};

#[test]
fn fixed_tokens_split_in_order() {
    let cs = vec![Constraint::Length(3), Constraint::Length(4)];
    let r = split_main(&cs, 10, 0, Flex::Start);
    assert_eq!(r, vec![(0, 3), (3, 4)]);
}

#[test]
fn gaps_separate_children() {
    let cs = vec![Constraint::Length(3), Constraint::Length(4)];
    let r = split_main(&cs, 12, 2, Flex::Start);
    assert_eq!(r, vec![(0, 3), (5, 4)]);
}

#[test]
fn percentages_and_ratios_take_their_share() {
    assert_eq!(resolve_content(&Constraint::Percentage(50), 10), 5);
    assert_eq!(resolve_content(&Constraint::Percentage(33), 10), 3);
    assert_eq!(resolve_content(&Constraint::Ratio(1, 4), 100), 25);
    assert_eq!(resolve_content(&Constraint::Ratio(1, 0), 100), 0);
    assert_eq!(resolve_content(&Constraint::Fill(2), 10), 20);
    assert_eq!(resolve_fixed(&Constraint::Length(400), 100), 100);
    assert_eq!(resolve_cross(&Constraint::Min(5), 30), 30);
    assert_eq!(resolve_cross(&Constraint::Max(5), 30), 5);
}

#[test]
fn fill_tokens_share_the_leftover_by_weight() {
    let cs = vec![Constraint::Length(4), Constraint::Fill(1), Constraint::Fill(3)];
    let r = split_main(&cs, 20, 0, Flex::Start);
    // 16 cells left over: weight 1 takes 4, weight 3 takes 12.
    assert_eq!(r, vec![(0, 4), (4, 4), (8, 12)]);
}

#[test]
fn justification_distributes_free_space() {
    let cs = vec![Constraint::Length(4)];
    assert_eq!(split_main(&cs, 10, 0, Flex::Start), vec![(0, 4)]);
    assert_eq!(split_main(&cs, 10, 0, Flex::Center), vec![(3, 4)]);
    assert_eq!(split_main(&cs, 10, 0, Flex::End), vec![(6, 4)]);

    let two = vec![Constraint::Length(2), Constraint::Length(2)];
    assert_eq!(split_main(&two, 10, 0, Flex::SpaceBetween), vec![(0, 2), (8, 2)]);
}

#[test]
fn overfull_rows_clip_to_the_area() {
    let cs = vec![Constraint::Length(8), Constraint::Length(8)];
    let r = split_main(&cs, 10, 0, Flex::Start);
    assert_eq!(r, vec![(0, 8), (8, 2)]);
}

#[test]
fn areas_lie_inside_the_parent() {
    let area = Rect::new(2, 3, 20, 10);
    let cs = vec![Constraint::Percentage(50), Constraint::Fill(1)];
    let r = split_areas(area, Direction::Horizontal, Flex::Start, 0, &cs);
    assert_eq!(r.len(), 2);
    for rect in &r {
        assert!(rect.x >= area.x);
        assert!(rect.x + rect.width <= area.x + area.width);
        assert!(rect.y >= area.y);
        assert!(rect.y + rect.height <= area.y + area.height);
    }
    assert_eq!(r[0], Rect::new(2, 3, 10, 10));
    assert_eq!(r[1], Rect::new(12, 3, 10, 10));
}

#[test]
fn margins_shrink_the_drawable_area() {
    let style = LayoutStyle { margin: 2, ..LayoutStyle::default() };
    let inner = style.inner_area(Rect::new(0, 0, 10, 8));
    assert_eq!(inner, Rect::new(2, 2, 6, 4));

    let tight = style.inner_area(Rect::new(0, 0, 3, 3));
    assert_eq!(tight.width, 0);
}

#[test]
fn content_measures_sum_and_max() {
    let main = vec![Constraint::Length(5), Constraint::Length(7)];
    let cross = vec![Constraint::Length(2), Constraint::Length(9)];
    let (main_len, cross_len) = content_size(&main, &cross, 100, 50, 1);
    // 5 + 7 plus one gap along the main axis; the largest across.
    assert_eq!(main_len, 13);
    assert_eq!(cross_len, 9);
}

#[test]
fn scrollbars_follow_their_policy() {
    let auto = ScrollBars::default();
    assert_eq!(auto.visible_scrollbars(1, 1), (false, false));
    assert_eq!(auto.visible_scrollbars(0, -5), (true, true));
    let fixed = ScrollBars {
        horizontal: ScrollbarVisibility::Always,
        vertical: ScrollbarVisibility::Never,
    };
    assert_eq!(fixed.visible_scrollbars(5, -5), (true, false));
}

#[test]
fn scroll_positions_clamp_to_content() {
    let s = ScrollViewState::default();
    let s = s.scroll_by(3, 10, 5, 4);
    assert_eq!((s.offset_x, s.offset_y), (3, 4));
    let s = s.scroll_by(-10, -1, 5, 4);
    assert_eq!((s.offset_x, s.offset_y), (0, 3));
    assert_eq!(clamp_offset(2, i32::MIN, 9), 0);
}

#[test]
fn placements_map_to_justifications() {
    assert_eq!(Placement::Start.to_flex(), Flex::Start);
    assert_eq!(Placement::Center.to_flex(), Flex::Center);
    assert_eq!(Placement::End.to_flex(), Flex::End);
    assert_eq!(Placement::SpaceBetween.to_flex(), Flex::SpaceBetween);
    assert_eq!(Placement::SpaceAround.to_flex(), Flex::SpaceAround);
}

#[test]
fn scroll_plan_reserves_bars_and_sizes_content() {
    let style = LayoutStyle::default();
    // Three rows of 4 cells in a 10x6 view: the content (12 rows) overflows
    // vertically, so the automatic vertical bar shows and takes a column.
    let main = vec![Constraint::Length(4), Constraint::Length(4), Constraint::Length(4)];
    let cross = vec![Constraint::Length(8), Constraint::Length(8), Constraint::Length(8)];
    let plan = scroll_view_plan(
        Rect::new(0, 0, 10, 6),
        &style,
        &main,
        &cross,
        &ScrollBars::default(),
    );
    assert!(!plan.horizontal_bar);
    assert!(plan.vertical_bar);
    assert_eq!(plan.content, Rect::new(0, 0, 8, 12));
    assert_eq!(plan.areas.len(), 3);
    assert_eq!(plan.areas[0], Rect::new(0, 0, 8, 4));
    assert_eq!(plan.areas[1], Rect::new(0, 4, 8, 4));
    assert_eq!(plan.areas[2], Rect::new(0, 8, 8, 4));
}
