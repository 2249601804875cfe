use tab_strip::host::{Capabilities, Color, InputMode, Palette, TabInfo, ThemeHue};
use tab_strip::line::tab_line;
use tab_strip::tab::{render_tab, session_segment, style_tabs, tab_style};

fn palette() -> Palette {
    Palette {
        fg: Color::EightBit(15),
        bg: Color::EightBit(0),
        black: Color::EightBit(0),
        white: Color::EightBit(15),
        yellow: Color::EightBit(11),
        theme_hue: ThemeHue::Dark,
        client_colors: vec![Color::Rgb(255, 0, 0), Color::Rgb(0, 255, 0)],
    }
}

fn tab(name: &str, position: usize, active: bool) -> TabInfo {
    TabInfo {
        position,
        name: name.to_string(),
        active,
        is_sync_panes_active: false,
        other_focused_clients: Vec::new(),
    }
}

#[test]
fn rendered_tab_width_is_padded_text_width() {
    let t = tab("abc", 0, false);
    let seg = render_tab("1 abc".to_string(), &t, &palette());
    assert_eq!(seg.len, 7);
    assert_eq!(seg.tab_index, Some(0));
}

#[test]
fn rendered_tab_text_is_styled() {
    let t = tab("abc", 0, false);
    let seg = render_tab("1 abc".to_string(), &t, &palette());
    assert!(seg.part.contains(" 1 abc "));
    assert!(seg.part.contains('\u{1b}'), "no escape sequence in styled text");
}

#[test]
fn wide_characters_count_their_columns() {
    let t = tab("你好", 0, false);
    let seg = render_tab("你好".to_string(), &t, &palette());
    assert_eq!(seg.len, 6);
}

#[test]
fn sync_suffix_is_measured() {
    let mut t = tab("work", 3, false);
    t.is_sync_panes_active = true;
    let seg = tab_style("work".to_string(), &t, &palette());
    assert_eq!(seg.len, " work (Sync) ".len());
    assert!(seg.part.contains(" work (Sync) "));
}

#[test]
fn focused_clients_add_cursor_columns() {
    let mut t = tab("a", 0, false);
    t.other_focused_clients = vec![1, 2];
    let seg = tab_style("a".to_string(), &t, &palette());
    assert_eq!(seg.len, 3 + 2 + 2);
    assert!(seg.part.contains('['));
    assert!(seg.part.contains(']'));
}

#[test]
fn unresolvable_clients_add_nothing() {
    let mut t = tab("a", 0, false);
    t.other_focused_clients = vec![7, 0];
    let seg = tab_style("a".to_string(), &t, &palette());
    let plain = tab_style("a".to_string(), &tab("a", 0, false), &palette());
    assert_eq!(seg.len, 3);
    assert_eq!(seg.part, plain.part);
}

#[test]
fn session_segment_is_unowned_and_measured() {
    let seg = session_segment(&"main".to_string(), &palette());
    assert_eq!(seg.len, 6);
    assert_eq!(seg.tab_index, None);
    assert!(seg.part.contains(" main "));
}

#[test]
fn tabs_are_numbered_from_one() {
    let tabs = vec![tab("alpha", 0, true), tab("beta", 1, false)];
    let styled = style_tabs(&tabs, InputMode::Normal, &palette());
    assert_eq!(styled.len(), 2);
    assert!(styled[0].part.contains(" 1 alpha "));
    assert!(styled[1].part.contains(" 2 beta "));
}

#[test]
fn renaming_empty_active_tab_shows_placeholder() {
    let tabs = vec![tab("a", 1, false), tab("", 2, true)];
    let styled = style_tabs(&tabs, InputMode::RenameTab, &palette());
    assert!(styled[1].part.contains("Enter name..."));
    assert!(styled[1].part.contains(" 2 Enter name... "));
}

#[test]
fn renaming_leaves_inactive_names_alone() {
    let tabs = vec![tab("", 0, false), tab("b", 1, true)];
    let styled = style_tabs(&tabs, InputMode::RenameTab, &palette());
    assert!(!styled[0].part.contains("Enter name..."));
}

#[test]
fn tab_line_prepends_session_name() {
    let name = "main".to_string();
    let tabs = vec![tab("alpha", 0, true)];
    let styled = style_tabs(&tabs, InputMode::Normal, &palette());
    let strip = tab_line(
        Some(&name),
        styled,
        0,
        80,
        &palette(),
        Capabilities { arrow_fonts: false },
    );
    assert_eq!(strip.len(), 2);
    assert_eq!(strip[0].tab_index, None);
    assert!(strip[0].part.contains(" main "));
    assert_eq!(strip[1].tab_index, Some(0));
}

#[test]
fn arrow_fonts_drop_the_session_prefix() {
    let name = "main".to_string();
    let tabs = vec![tab("alpha", 0, true)];
    let styled = style_tabs(&tabs, InputMode::Normal, &palette());
    let strip = tab_line(
        Some(&name),
        styled,
        0,
        80,
        &palette(),
        Capabilities { arrow_fonts: true },
    );
    assert_eq!(strip.len(), 1);
    assert_eq!(strip[0].tab_index, Some(0));
}
