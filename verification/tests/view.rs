use manette::view::{CliView, EditorAction, EditorEvent};

#[test]
fn test_insert_ascii() {
    let mut v = CliView::new();
    v.insert('l');
    v.insert('s');
    assert_eq!(v.content, "ls".to_string());
    assert_eq!(v.cursor, 2);
}

#[test]
fn test_insert_multibyte_advances_by_encoded_length() {
    let mut v = CliView::new();
    v.insert('é');
    assert_eq!(v.content, "é".to_string());
    assert_eq!(v.cursor, 2);
    v.insert('語');
    assert_eq!(v.content, "é語".to_string());
    assert_eq!(v.cursor, 5);
}

#[test]
fn test_backspace_ascii() {
    let mut v = CliView::new();
    v.insert('l');
    v.insert('s');
    v.backspace();
    assert_eq!(v.content, "l".to_string());
    assert_eq!(v.cursor, 1);
}

#[test]
fn test_backspace_removes_whole_multibyte_character() {
    let mut v = CliView::new();
    v.insert('a');
    v.insert('é');
    assert_eq!(v.cursor, 3);
    v.backspace();
    // the cursor moved back by the character's full two-byte encoding
    assert_eq!(v.content, "a".to_string());
    assert_eq!(v.cursor, 1);
}

#[test]
fn test_backspace_removes_whole_cluster() {
    // 'e' followed by a combining acute accent is one user-perceived
    // character of three bytes; deleting it removes both code points
    let mut v = CliView::new();
    v.insert('e');
    v.insert('\u{301}');
    assert_eq!(v.cursor, 3);
    v.backspace();
    assert_eq!(v.content, String::new());
    assert_eq!(v.cursor, 0);
}

#[test]
fn test_backspace_empty_is_noop() {
    let mut v = CliView::new();
    v.backspace();
    assert_eq!(v.content, String::new());
    assert_eq!(v.cursor, 0);
}

#[test]
fn test_set_content_moves_cursor_to_end() {
    let mut v = CliView::new();
    v.insert('x');
    v.set_content("ls dir/a".to_string());
    assert_eq!(v.content, "ls dir/a".to_string());
    assert_eq!(v.cursor, 8);
}

#[test]
fn test_on_event_dispatch() {
    let mut v = CliView::new();
    assert!(matches!(v.on_event(EditorEvent::Char('l')), EditorAction::Consumed));
    assert!(matches!(v.on_event(EditorEvent::Char('s')), EditorAction::Consumed));
    match v.on_event(EditorEvent::Submit) {
        EditorAction::Submitted(line) => assert_eq!(line, "ls".to_string()),
        _ => panic!("submit must hand the line back"),
    }
    match v.on_event(EditorEvent::Trigger) {
        EditorAction::Autocomplete(line) => assert_eq!(line, "ls".to_string()),
        _ => panic!("trigger must hand the line back"),
    }
    assert!(matches!(v.on_event(EditorEvent::Backspace), EditorAction::Consumed));
    assert_eq!(v.content, "l".to_string());
    v.backspace();
    assert!(matches!(v.on_event(EditorEvent::Backspace), EditorAction::Ignored));
}
