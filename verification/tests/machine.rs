use tab_strip::cache::{CacheStore, ClientLayout};
use tab_strip::host::{Capabilities, ClientInfo, Color, InputMode, ModeInfo, PaneInfo, Palette, SessionInfo, TabInfo, TabPanes, ThemeHue};
use tab_strip::state::{plan_switch, scroll_down_target, scroll_up_target, State, SwitchDecision};

fn tab(name: &str, position: usize, active: bool) -> TabInfo {
    TabInfo {
        position,
        name: name.to_string(),
        active,
        is_sync_panes_active: false,
        other_focused_clients: Vec::new(),
    }
}

fn session(name: &str, current: bool) -> SessionInfo {
    SessionInfo { name: name.to_string(), is_current_session: current }
}

fn client(pid: u32, current: bool) -> ClientInfo {
    ClientInfo { client_pid: pid, is_current_client: current }
}

#[test]
fn active_tab_ordinal_is_position_plus_one() {
    let mut st = State::new();
    let rendered = st.on_tab_update(vec![tab("a", 0, false), tab("b", 1, true)]);
    assert!(rendered);
    assert_eq!(st.active_tab_idx, 2);
}

#[test]
fn tab_update_without_active_tab_is_ignored() {
    let mut st = State::new();
    st.on_tab_update(vec![tab("a", 0, true)]);
    let rendered = st.on_tab_update(vec![tab("x", 0, false)]);
    assert!(!rendered);
    assert_eq!(st.active_tab_idx, 1);
    assert_eq!(st.tabs.len(), 1);
}

#[test]
fn active_tab_ordinal_follows_position_not_index() {
    let mut st = State::new();
    st.on_tab_update(vec![tab("late", 5, true), tab("early", 0, false)]);
    assert_eq!(st.active_tab_idx, 6);
}

#[test]
fn shrinking_to_one_session_drops_the_candidate() {
    let mut st = State::new();
    st.on_session_update(vec![session("work", true), session("home", false)]);
    assert_eq!(st.next_session, Some("home".to_string()));
    st.on_session_update(vec![session("work", true)]);
    assert_eq!(st.next_session, None);
    st.on_pipe("switch_session", Some(9));
    let target = st.on_client_list(vec![client(9, true)]);
    assert_eq!(target, None);
}

#[test]
fn no_switch_still_records_the_client_pid() {
    let mut st = State::new();
    st.on_session_update(vec![session("work", true), session("home", false)]);
    let target = st.on_client_list(vec![client(31, true)]);
    assert_eq!(target, None);
    assert_eq!(st.pid, 31);
}

#[test]
fn scroll_targets_stay_in_range() {
    assert_eq!(scroll_up_target(2, 3), 3);
    assert_eq!(scroll_up_target(3, 3), 3);
    assert_eq!(scroll_down_target(2), 1);
    assert_eq!(scroll_down_target(1), 1);
    assert_eq!(scroll_down_target(0), 1);
}

#[test]
fn unchanged_tab_list_needs_no_render() {
    let mut st = State::new();
    assert!(st.on_tab_update(vec![tab("a", 0, true), tab("b", 1, false)]));
    let again = st.on_tab_update(vec![tab("a", 0, true), tab("b", 1, false)]);
    assert!(!again);
    let renamed = st.on_tab_update(vec![tab("a2", 0, true), tab("b", 1, false)]);
    assert!(renamed);
}

fn starting_mode_info(mode: InputMode) -> ModeInfo {
    ModeInfo {
        mode,
        session_name: None,
        palette: Palette {
            fg: Color::EightBit(15),
            bg: Color::EightBit(0),
            black: Color::EightBit(0),
            white: Color::EightBit(15),
            yellow: Color::EightBit(11),
            theme_hue: ThemeHue::Dark,
            client_colors: Vec::new(),
        },
        capabilities: Capabilities { arrow_fonts: false },
    }
}

#[test]
fn unchanged_mode_needs_no_render() {
    let mut st = State::new();
    assert!(!st.on_mode_update(starting_mode_info(InputMode::Normal)));
    assert!(st.on_mode_update(starting_mode_info(InputMode::RenameTab)));
    assert!(!st.on_mode_update(starting_mode_info(InputMode::RenameTab)));
}

#[test]
fn pipe_trigger_stores_source_and_requests_clients() {
    let mut st = State::new();
    let request = st.on_pipe("switch_session", Some(77));
    assert!(request);
    assert_eq!(st.switch_session_event_source_pid, Some(77));
    let request = st.on_pipe("something_else", Some(5));
    assert!(!request);
    assert_eq!(st.switch_session_event_source_pid, Some(77));
}

#[test]
fn second_trigger_overwrites_the_first() {
    let mut st = State::new();
    st.on_pipe("switch_session", Some(1));
    st.on_pipe("switch_session", Some(2));
    assert_eq!(st.switch_session_event_source_pid, Some(2));
}

#[test]
fn single_session_trigger_resolves_to_noop() {
    let mut st = State::new();
    st.on_session_update(vec![session("only", true)]);
    assert_eq!(st.current_session, "only");
    assert_eq!(st.next_session, None);
    st.on_pipe("switch_session", Some(9));
    let target = st.on_client_list(vec![client(9, true)]);
    assert_eq!(target, None);
    assert_eq!(st.switch_session_event_source_pid, None);
}

#[test]
fn two_sessions_trigger_from_own_pid_switches_plainly() {
    let mut st = State::new();
    st.on_session_update(vec![session("work", true), session("home", false)]);
    assert_eq!(st.current_session, "work");
    assert_eq!(st.next_session, Some("home".to_string()));
    st.on_pipe("switch_session", Some(40));
    let target = st.on_client_list(vec![client(3, false), client(40, true)]);
    assert_eq!(target, Some("home".to_string()));
    assert_eq!(st.pid, 40);
    assert_eq!(st.switch_session_event_source_pid, None);
    let empty = CacheStore::new();
    match plan_switch("home".to_string(), &empty, 40) {
        SwitchDecision::Plain(name) => assert_eq!(name, "home"),
        other => panic!("expected a plain switch, got {:?}", other),
    }
}

#[test]
fn cached_layout_switches_with_focus() {
    let mut store = CacheStore::new();
    store.insert(40, ClientLayout { tab_idx: 2, pane_id: 8, pane_is_plugin: false });
    match plan_switch("home".to_string(), &store, 40) {
        SwitchDecision::WithFocus(name, l) => {
            assert_eq!(name, "home");
            assert_eq!(l.tab_idx, 2);
            assert_eq!(l.pane_id, 8);
            assert!(!l.pane_is_plugin);
        },
        other => panic!("expected a focused switch, got {:?}", other),
    }
}

#[test]
fn trigger_from_foreign_pid_is_noop() {
    let mut st = State::new();
    st.on_session_update(vec![session("work", true), session("home", false)]);
    st.on_pipe("switch_session", Some(999));
    let target = st.on_client_list(vec![client(40, true)]);
    assert_eq!(target, None);
    assert_eq!(st.switch_session_event_source_pid, None);
}

#[test]
fn current_layout_needs_active_tab_and_focused_pane() {
    let mut st = State::new();
    assert!(st.current_layout().is_none());
    st.on_tab_update(vec![tab("a", 0, true)]);
    assert!(st.current_layout().is_none());
    st.on_pane_update(vec![TabPanes {
        tab_position: 0,
        panes: vec![
            PaneInfo { id: 5, is_plugin: false, is_focused: false },
            PaneInfo { id: 6, is_plugin: true, is_focused: true },
        ],
    }]);
    let l = st.current_layout().expect("active tab and focused pane are present");
    assert_eq!(l.tab_idx, 0);
    assert_eq!(l.pane_id, 6);
    assert!(l.pane_is_plugin);
}

#[test]
fn render_line_stays_inside_the_width() {
    let mut st = State::new();
    st.on_tab_update(vec![tab("alpha", 0, false), tab("beta", 1, true), tab("gamma", 2, false)]);
    let (text, _bg) = st.render_line(12).expect("tabs are present");
    let used: usize = st.tab_line.iter().map(|p| p.len).sum();
    assert!(used <= 11, "strip wider than the column budget");
    assert!(!text.is_empty());
}

#[test]
fn render_line_without_tabs_renders_nothing() {
    let mut st = State::new();
    assert!(st.render_line(80).is_none());
}

#[test]
fn render_line_shows_rename_placeholder() {
    let mut st = State::new();
    st.on_tab_update(vec![tab("a", 1, false), tab("", 2, true)]);
    let mode = st.mode_info.mode;
    assert_eq!(mode, InputMode::Normal);
    st.mode_info.mode = InputMode::RenameTab;
    let (text, _bg) = st.render_line(200).expect("tabs are present");
    assert!(text.contains("Enter name..."));
}
