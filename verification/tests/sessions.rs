use tab_strip::host::SessionInfo;
use tab_strip::session::{next_session_name, str_lt};

fn session(name: &str, current: bool) -> SessionInfo {
    SessionInfo { name: name.to_string(), is_current_session: current }
}

#[test]
fn name_order_is_lexicographic() {
    assert!(str_lt("a", "b"));
    assert!(!str_lt("b", "a"));
    assert!(str_lt("a", "ab"));
    assert!(!str_lt("ab", "a"));
    assert!(!str_lt("same", "same"));
    assert!(str_lt("", "x"));
}

#[test]
fn selection_is_cyclic_middle() {
    let sessions = vec![session("a", false), session("b", true), session("c", false)];
    let next = next_session_name(&sessions, "b").expect("three sessions give a candidate");
    assert_eq!(next, "c");
}

#[test]
fn selection_is_cyclic_wraps() {
    let sessions = vec![session("a", false), session("b", false), session("c", true)];
    let next = next_session_name(&sessions, "c").expect("three sessions give a candidate");
    assert_eq!(next, "a");
}

#[test]
fn selection_ignores_list_order() {
    let sessions = vec![session("c", false), session("a", false), session("b", true)];
    assert_eq!(next_session_name(&sessions, "b"), Some("c".to_string()));
}

#[test]
fn single_session_has_no_candidate() {
    let sessions = vec![session("only", true)];
    assert_eq!(next_session_name(&sessions, "only"), None);
}

#[test]
fn no_sessions_have_no_candidate() {
    assert_eq!(next_session_name(&Vec::new(), "x"), None);
}
