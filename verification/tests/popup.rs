use manette::autocomplete::CompletionChoice;
use manette::autocompleteview::{AutocompletePopup, PopupAction, PopupEvent};

fn choice(label: &str) -> CompletionChoice {
    CompletionChoice {
        label: label.to_string(),
        completion: format!("ls {}", label),
    }
}

fn popup(labels: &[&str]) -> AutocompletePopup {
    AutocompletePopup::new(
        "ls ".to_string(),
        labels.iter().map(|l| choice(l)).collect(),
    )
}

#[test]
fn test_new_focuses_first_choice() {
    let p = popup(&["a", "b", "c"]);
    assert_eq!(p.focus, 0);
    assert_eq!(p.choices.len(), 3);
}

#[test]
fn test_scroll_wraps_cyclically() {
    let mut p = popup(&["a", "b", "c"]);
    p.scroll_up(1, true);
    assert_eq!(p.focus, 2);
    p.scroll_down(1, true);
    assert_eq!(p.focus, 0);
    p.scroll_down(1, true);
    p.scroll_down(1, true);
    p.scroll_down(1, true);
    assert_eq!(p.focus, 0);
}

#[test]
fn test_page_moves_clamp() {
    let mut p = popup(&["a", "b", "c"]);
    p.scroll_down(5, false);
    assert_eq!(p.focus, 2);
    p.scroll_up(5, false);
    assert_eq!(p.focus, 0);
}

#[test]
fn test_home_end_accept() {
    let mut p = popup(&["a", "b", "c"]);
    assert!(matches!(p.inner_on_event(PopupEvent::End), PopupAction::Consumed));
    assert_eq!(p.focus, 2);
    assert!(matches!(p.inner_on_event(PopupEvent::Home), PopupAction::Consumed));
    assert_eq!(p.focus, 0);
    assert!(matches!(p.inner_on_event(PopupEvent::Down), PopupAction::Consumed));
    match p.inner_on_event(PopupEvent::Accept) {
        PopupAction::Submit(line) => assert_eq!(line, "ls b".to_string()),
        _ => panic!("accept must submit the focused completion"),
    }
}

#[test]
fn test_pointer_press_and_release() {
    let mut p = popup(&["a", "b", "c"]);
    assert!(matches!(p.inner_on_event(PopupEvent::Press(2)), PopupAction::Consumed));
    assert_eq!(p.focus, 2);
    // a press below the list leaves the focus alone
    assert!(matches!(p.inner_on_event(PopupEvent::Press(9)), PopupAction::Consumed));
    assert_eq!(p.focus, 2);
    // a release on another row is not an accept
    assert!(matches!(p.inner_on_event(PopupEvent::Release(1)), PopupAction::Ignored));
    match p.inner_on_event(PopupEvent::Release(2)) {
        PopupAction::Submit(line) => assert_eq!(line, "ls c".to_string()),
        _ => panic!("release on the focused row must submit"),
    }
}

#[test]
fn test_cancel_dismisses() {
    let mut p = popup(&["a"]);
    assert!(matches!(p.inner_on_event(PopupEvent::Cancel), PopupAction::Dismiss));
}

#[test]
fn test_char_records_input_and_requeries() {
    let mut p = popup(&["a", "ab"]);
    match p.inner_on_event(PopupEvent::Char('a')) {
        PopupAction::Requery(c) => assert_eq!(c, 'a'),
        _ => panic!("a typed character must ask for a re-query"),
    }
    assert_eq!(p.input, "ls a".to_string());
}

#[test]
fn test_refilter_keeps_focused_label() {
    // focus "beta", type one more character: the new set still holds "beta",
    // so the focus follows it to its new position
    let mut p = popup(&["alpha", "beta", "gamma"]);
    p.scroll_down(1, true);
    assert_eq!(p.choices[p.focus].label, "beta".to_string());
    let kept = p.refilter(vec![choice("beta"), choice("brave")]);
    assert!(kept);
    assert_eq!(p.focus, 0);
    assert_eq!(p.choices[p.focus].label, "beta".to_string());

    let kept = p.refilter(vec![choice("brim"), choice("beta")]);
    assert!(kept);
    assert_eq!(p.focus, 1);
    assert_eq!(p.choices[p.focus].label, "beta".to_string());
}

#[test]
fn test_refilter_falls_back_to_first() {
    let mut p = popup(&["alpha", "beta"]);
    p.scroll_down(1, true);
    let kept = p.refilter(vec![choice("gamma"), choice("delta")]);
    assert!(kept);
    assert_eq!(p.focus, 0);
}

#[test]
fn test_refilter_empty_dismisses() {
    let mut p = popup(&["alpha"]);
    let kept = p.refilter(Vec::new());
    assert!(!kept);
    assert_eq!(p.choices.len(), 1);
}

#[test]
fn test_required_size() {
    let p = popup(&["a", "abc"]);
    let size = p.inner_required_size();
    assert_eq!(size, (5, 2));
}
