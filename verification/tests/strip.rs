use tab_strip::segment::LinePart;
use tab_strip::line::{compose, get_clicked_line_part, get_tab_to_focus};

fn seg(text: &str, len: usize, tab: Option<usize>) -> LinePart {
    LinePart { part: text.to_string(), len, tab_index: tab }
}

#[test]
fn click_finds_segment_by_column() {
    let parts = vec![seg("aa", 2, Some(0)), seg("bbb", 3, Some(1)), seg("c", 1, None)];
    let hit = get_clicked_line_part(&parts, 0).expect("column 0 is inside the first segment");
    assert_eq!(hit.tab_index, Some(0));
    let hit = get_clicked_line_part(&parts, 2).expect("column 2 is inside the second segment");
    assert_eq!(hit.tab_index, Some(1));
    let hit = get_clicked_line_part(&parts, 5).expect("column 5 is inside the third segment");
    assert_eq!(hit.tab_index, None);
    assert!(get_clicked_line_part(&parts, 6).is_none());
}

#[test]
fn click_resolves_to_one_based_ordinal() {
    let parts = vec![seg("aa", 2, Some(0)), seg("bbb", 3, Some(1))];
    assert_eq!(get_tab_to_focus(&parts, 1, 3), Some(2));
}

#[test]
fn click_resolution_is_idempotent() {
    let parts = vec![seg("aa", 2, Some(0)), seg("bbb", 3, Some(1))];
    let first = get_tab_to_focus(&parts, 1, 3);
    let second = get_tab_to_focus(&parts, 1, 3);
    assert_eq!(first, second);
}

#[test]
fn click_on_active_tab_is_no_selection() {
    let parts = vec![seg("aa", 2, Some(0)), seg("bbb", 3, Some(1))];
    assert_eq!(get_tab_to_focus(&parts, 1, 0), None);
    assert_eq!(get_tab_to_focus(&parts, 2, 3), None);
}

#[test]
fn click_on_unowned_segment_is_no_selection() {
    let parts = vec![seg("s", 1, None), seg("aa", 2, Some(0))];
    assert_eq!(get_tab_to_focus(&parts, 9, 0), None);
    assert_eq!(get_tab_to_focus(&parts, 9, 1), Some(1));
}

fn total_width(parts: &[LinePart]) -> usize {
    parts.iter().map(|p| p.len).sum()
}

#[test]
fn compose_width_never_exceeds_budget() {
    for max in 0..12 {
        let tabs = vec![seg("aaa", 3, Some(0)), seg("bbb", 3, Some(1)), seg("ccc", 3, Some(2))];
        let strip = compose(None, tabs, 1, max);
        assert!(total_width(&strip) <= max, "width over budget {}", max);
    }
}

#[test]
fn compose_empty_tabs_gives_empty_strip() {
    let strip = compose(Some(seg("sess", 4, None)), Vec::new(), 0, 80);
    assert!(strip.is_empty());
}

#[test]
fn compose_keeps_all_when_they_fit() {
    let tabs = vec![seg("aaa", 3, Some(0)), seg("bbb", 3, Some(1))];
    let strip = compose(None, tabs, 0, 10);
    assert_eq!(strip.len(), 2);
    assert_eq!(strip[0].tab_index, Some(0));
    assert_eq!(strip[1].tab_index, Some(1));
}

#[test]
fn compose_drops_trailing_overflow() {
    let tabs = vec![seg("aaa", 3, Some(0)), seg("bbb", 3, Some(1)), seg("ccc", 3, Some(2))];
    let strip = compose(None, tabs, 0, 7);
    assert_eq!(strip.len(), 2);
    assert_eq!(strip[0].tab_index, Some(0));
    assert_eq!(strip[1].tab_index, Some(1));
}

#[test]
fn compose_keeps_active_tab_visible() {
    let tabs = vec![seg("aaa", 3, Some(0)), seg("bbb", 3, Some(1)), seg("ccc", 3, Some(2))];
    let strip = compose(None, tabs, 2, 5);
    assert!(strip.iter().any(|p| p.tab_index == Some(2)), "active tab was truncated away");
    assert!(total_width(&strip) <= 5);
}

#[test]
fn compose_prepends_fitting_session_segment() {
    let tabs = vec![seg("aaa", 3, Some(0))];
    let strip = compose(Some(seg("s", 1, None)), tabs, 0, 10);
    assert_eq!(strip.len(), 2);
    assert_eq!(strip[0].tab_index, None);
    let tabs = vec![seg("aaa", 3, Some(0))];
    let strip = compose(Some(seg("toolong", 7, None)), tabs, 0, 4);
    assert_eq!(strip.len(), 1);
    assert_eq!(strip[0].tab_index, Some(0));
}
