use flash_jump::actions::{JumpAction, JumpAndClose, JumpAndOpen};
use flash_jump::matcher::Entry;
use flash_jump::session::Session;

fn listing() -> Vec<Entry> {
    vec![
        Entry::new(0, String::from("foo.txt")),
        Entry::new(1, String::from("bar.txt")),
        Entry::new(2, String::from("foobar.txt")),
    ]
}

fn type_query(session: &mut Session, query: &str, entries: &Vec<Entry>) {
    for c in query.chars() {
        session.on_push_char(c, entries);
    }
}

#[test]
fn test_fresh_labels_for_first_matches() {
    // query "foo" matches ids 0 and 2 in listing order; both labels are
    // fresh and distinct
    let entries = listing();
    let mut session = Session::new();
    type_query(&mut session, "foo", &entries);
    assert!(!session.is_terminal());
    assert_eq!(session.current_query(), String::from("foo"));
    let map = session.current_jump_map();
    assert_eq!(map.len(), 2);
    assert_eq!(map.get('m'), Some(0));
    assert_eq!(map.get('n'), Some(2));
}

#[test]
fn test_surviving_id_keeps_label_after_edit() {
    // extending the query to "foob" leaves only id 2 matching; it keeps
    // the exact label it held, and id 0's label is dropped
    let entries = listing();
    let mut session = Session::new();
    type_query(&mut session, "foo", &entries);
    session.on_push_char('b', &entries);
    assert!(!session.is_terminal());
    let map = session.current_jump_map();
    assert_eq!(map.len(), 1);
    assert_eq!(map.get('n'), Some(2));
    assert_eq!(map.get('m'), None);
}

#[test]
fn test_no_matches_terminates_with_empty_map() {
    let entries = listing();
    let mut session = Session::new();
    type_query(&mut session, "fo", &entries);
    assert!(!session.is_terminal());
    session.on_push_char('z', &entries);
    assert!(session.is_terminal());
    assert_eq!(session.current_jump_map().len(), 0);
}

#[test]
fn test_query_cleared_after_matches_terminates() {
    let entries = listing();
    let mut session = Session::new();
    session.on_push_char('f', &entries);
    assert!(!session.is_terminal());
    assert_eq!(session.current_jump_map().len(), 2);
    session.on_drop_char(&entries);
    assert!(session.is_terminal());
}

#[test]
fn test_drop_on_empty_query_stays_active() {
    let entries = listing();
    let mut session = Session::new();
    session.on_drop_char(&entries);
    assert!(!session.is_terminal());
    assert_eq!(session.current_jump_map().len(), 0);
}

#[test]
fn test_label_key_emits_jump_and_closes() {
    let entries = listing();
    let mut session = Session::new();
    type_query(&mut session, "foo", &entries);
    let action = session.on_label_key('n');
    assert_eq!(action, Some(JumpAction::Close(JumpAndClose::new(2))));
    assert!(session.is_terminal());
}

#[test]
fn test_label_key_open_mode() {
    let entries = listing();
    let mut session = Session::new_with_open();
    type_query(&mut session, "foo", &entries);
    let action = session.on_label_key('m');
    assert_eq!(action, Some(JumpAction::Open(JumpAndOpen::new(0))));
    assert!(session.is_terminal());
}

#[test]
fn test_unbound_key_does_nothing() {
    let entries = listing();
    let mut session = Session::new();
    type_query(&mut session, "foo", &entries);
    assert_eq!(session.on_label_key('q'), None);
    assert!(!session.is_terminal());
    assert_eq!(session.current_jump_map().len(), 2);
}

#[test]
fn test_refresh_twice_keeps_map() {
    let entries = listing();
    let mut session = Session::new();
    type_query(&mut session, "foo", &entries);
    let before = session.current_jump_map().pairs();
    session.refresh(&entries);
    let after = session.current_jump_map().pairs();
    assert_eq!(before, after);
    assert!(!session.is_terminal());
}

#[test]
fn test_explicit_quit() {
    let entries = listing();
    let mut session = Session::new();
    type_query(&mut session, "foo", &entries);
    session.on_quit();
    assert!(session.is_terminal());
}

#[test]
fn test_too_many_matches_gives_no_labels() {
    // 26 matching entries outnumber the 25 labels: the map is left empty
    // rather than partially filled, and the session stays active
    let entries: Vec<Entry> = (0..26).map(|i| Entry::new(i, format!("file{i}"))).collect();
    let mut session = Session::new();
    type_query(&mut session, "file", &entries);
    assert!(!session.is_terminal());
    assert_eq!(session.current_jump_map().len(), 0);
}

#[test]
fn test_label_actions_lists_every_binding() {
    let entries = listing();
    let mut session = Session::new();
    type_query(&mut session, "foo", &entries);
    let actions = session.label_actions();
    assert_eq!(actions.len(), 2);
    assert!(actions.contains(&('m', JumpAction::Close(JumpAndClose::new(0)))));
    assert!(actions.contains(&('n', JumpAction::Close(JumpAndClose::new(2)))));
}

#[test]
fn test_display_details() {
    let entries = listing();
    let mut session = Session::new();
    assert_eq!(session.display_details(), String::from("Jump"));
    type_query(&mut session, "fo", &entries);
    assert_eq!(session.display_details(), String::from("Jump: fo"));
    let open_session = Session::new_with_open();
    assert_eq!(open_session.display_details(), String::from("Open"));
}

#[test]
fn test_target_id() {
    let close = JumpAction::Close(JumpAndClose::new(7));
    assert_eq!(close.target_id(), 7);
    let open = JumpAction::Open(JumpAndOpen::new(9));
    assert_eq!(open.target_id(), 9);
}
