use keychords::key_event::{to_ascii_lower, to_ascii_upper, KeyCode, KeyEvent, KeyModifiers};
use keychords::settings::chords::{parse_key_sequence, KeyErrorKind, KeySequenceError};
use keychords::settings::keybindings::KeyString;
use keychords::settings::{config_dir_from, get_config_dir};

fn one(raw: &str) -> KeyEvent {
    let events = parse_key_sequence(raw).unwrap();
    assert_eq!(events.len(), 1);
    events[0]
}

fn fault(raw: &str) -> KeySequenceError {
    parse_key_sequence(raw).unwrap_err()
}

fn mods(shift: bool, control: bool, alt: bool) -> KeyModifiers {
    KeyModifiers { shift, control, alt }
}

#[test]
fn shift_and_upper_case_are_one_chord() {
    assert_eq!(one("<Shift-q>"), one("<Q>"));
    assert_eq!(KeyString::from(one("<Shift-q>")), KeyString::from(one("<Q>")));
    assert_eq!(one("<Q>"), KeyEvent::new(KeyCode::Char('Q'), KeyModifiers::shift()));
    assert_ne!(one("<q>"), one("<Q>"));
}

#[test]
fn modifier_order_does_not_matter() {
    assert_eq!(one("<Ctrl-Alt-a>"), one("<Alt-Ctrl-a>"));
    assert_eq!(KeyString::from(one("<Ctrl-Alt-a>")), KeyString::from(one("<Alt-Ctrl-a>")));
    assert_eq!(one("<Ctrl-Alt-a>"), KeyEvent::new(KeyCode::Char('a'), mods(false, true, true)));
    assert_eq!(one("<shift-alt-ctrl-shift-x>"), KeyEvent::new(KeyCode::Char('X'), mods(true, true, true)));
}

#[test]
fn modifier_and_key_names_ignore_case() {
    assert_eq!(one("<CTRL-ENTER>"), KeyEvent::new(KeyCode::Enter, KeyModifiers::control()));
    assert_eq!(one("<aLt-Esc>"), KeyEvent::new(KeyCode::Esc, KeyModifiers::alt()));
    assert_eq!(one("<SHIFT-F5>"), KeyEvent::new(KeyCode::F(5), KeyModifiers::shift()));
}

#[test]
fn every_key_name_is_read() {
    let none = KeyModifiers::empty();
    assert_eq!(one("<esc>"), KeyEvent::new(KeyCode::Esc, none));
    assert_eq!(one("<enter>"), KeyEvent::new(KeyCode::Enter, none));
    assert_eq!(one("<left>"), KeyEvent::new(KeyCode::Left, none));
    assert_eq!(one("<right>"), KeyEvent::new(KeyCode::Right, none));
    assert_eq!(one("<up>"), KeyEvent::new(KeyCode::Up, none));
    assert_eq!(one("<down>"), KeyEvent::new(KeyCode::Down, none));
    assert_eq!(one("<home>"), KeyEvent::new(KeyCode::Home, none));
    assert_eq!(one("<end>"), KeyEvent::new(KeyCode::End, none));
    assert_eq!(one("<pageup>"), KeyEvent::new(KeyCode::PageUp, none));
    assert_eq!(one("<pagedown>"), KeyEvent::new(KeyCode::PageDown, none));
    assert_eq!(one("<backspace>"), KeyEvent::new(KeyCode::Backspace, none));
    assert_eq!(one("<delete>"), KeyEvent::new(KeyCode::Delete, none));
    assert_eq!(one("<insert>"), KeyEvent::new(KeyCode::Insert, none));
    assert_eq!(one("<tab>"), KeyEvent::new(KeyCode::Tab, none));
    assert_eq!(one("<space>"), KeyEvent::new(KeyCode::Char(' '), none));
    assert_eq!(one("<hyphen>"), KeyEvent::new(KeyCode::Char('-'), none));
    assert_eq!(one("<minus>"), KeyEvent::new(KeyCode::Char('-'), none));
    assert_eq!(one("<f1>"), KeyEvent::new(KeyCode::F(1), none));
    assert_eq!(one("<f2>"), KeyEvent::new(KeyCode::F(2), none));
    assert_eq!(one("<f3>"), KeyEvent::new(KeyCode::F(3), none));
    assert_eq!(one("<f4>"), KeyEvent::new(KeyCode::F(4), none));
    assert_eq!(one("<f5>"), KeyEvent::new(KeyCode::F(5), none));
    assert_eq!(one("<f6>"), KeyEvent::new(KeyCode::F(6), none));
    assert_eq!(one("<f7>"), KeyEvent::new(KeyCode::F(7), none));
    assert_eq!(one("<f8>"), KeyEvent::new(KeyCode::F(8), none));
    assert_eq!(one("<f9>"), KeyEvent::new(KeyCode::F(9), none));
    assert_eq!(one("<f10>"), KeyEvent::new(KeyCode::F(10), none));
    assert_eq!(one("<f11>"), KeyEvent::new(KeyCode::F(11), none));
    assert_eq!(one("<f12>"), KeyEvent::new(KeyCode::F(12), none));
}

#[test]
fn backtab_carries_shift() {
    assert_eq!(one("<backtab>"), KeyEvent::new(KeyCode::BackTab, KeyModifiers::shift()));
    assert_eq!(one("<ctrl-backtab>"), KeyEvent::new(KeyCode::BackTab, mods(true, true, false)));
    assert_eq!(
        KeyString::from(KeyEvent::new(KeyCode::BackTab, KeyModifiers::empty())),
        KeyString::from(one("<BackTab>"))
    );
}

#[test]
fn single_characters_name_themselves() {
    let none = KeyModifiers::empty();
    assert_eq!(one("<q>"), KeyEvent::new(KeyCode::Char('q'), none));
    assert_eq!(one("<->"), KeyEvent::new(KeyCode::Char('-'), none));
    assert_eq!(one("<ctrl-->"), KeyEvent::new(KeyCode::Char('-'), KeyModifiers::control()));
    assert_eq!(one("<<>"), KeyEvent::new(KeyCode::Char('<'), none));
    assert_eq!(one("< >"), KeyEvent::new(KeyCode::Char(' '), none));
    assert_eq!(one("<é>"), KeyEvent::new(KeyCode::Char('é'), none));
    assert_eq!(one("<shift-1>"), KeyEvent::new(KeyCode::Char('1'), KeyModifiers::shift()));
    assert_eq!(one("<shift-z>"), KeyEvent::new(KeyCode::Char('Z'), KeyModifiers::shift()));
}

#[test]
fn sequences_keep_their_order() {
    let events = parse_key_sequence("<Ctrl-a><Alt-b><esc>").unwrap();
    assert_eq!(
        events,
        vec![
            KeyEvent::new(KeyCode::Char('a'), KeyModifiers::control()),
            KeyEvent::new(KeyCode::Char('b'), KeyModifiers::alt()),
            KeyEvent::new(KeyCode::Esc, KeyModifiers::empty()),
        ]
    );
    assert_eq!(parse_key_sequence("").unwrap(), Vec::new());
}

#[test]
fn missing_open_is_refused() {
    let error = fault("q>");
    assert_eq!(error.kind, KeyErrorKind::MissingOpen);
    assert_eq!(error.raw, "q>");
    assert_eq!(error.message(), "Expected '<' at start of key segment in `q>`");
    assert_eq!(fault("q").kind, KeyErrorKind::MissingOpen);
    assert_eq!(fault("<a>b").kind, KeyErrorKind::MissingOpen);
    assert_eq!(fault("<a> <b>").kind, KeyErrorKind::MissingOpen);
}

#[test]
fn unclosed_segment_is_refused() {
    let error = fault("<Ctrl-a");
    assert_eq!(error.kind, KeyErrorKind::Unclosed);
    assert_eq!(error.raw, "<Ctrl-a");
    assert_eq!(error.message(), "Unclosed '<' in `<Ctrl-a`");
    assert_eq!(fault("<a><").kind, KeyErrorKind::Unclosed);
}

#[test]
fn unknown_key_name_is_refused() {
    let error = fault("<a><foo>");
    assert_eq!(error.kind, KeyErrorKind::UnknownKey);
    assert_eq!(error.raw, "<a><foo>");
    assert_eq!(error.message(), "Unable to parse `<a><foo>`");
    assert_eq!(fault("<>").kind, KeyErrorKind::UnknownKey);
    assert_eq!(fault("<ctrl->").kind, KeyErrorKind::UnknownKey);
    assert_eq!(fault("<f13>").kind, KeyErrorKind::UnknownKey);
    assert_eq!(fault("<\t>").kind, KeyErrorKind::UnknownKey);
    assert_eq!(fault("<a-ctrl-b>").kind, KeyErrorKind::UnknownKey);
}

#[test]
fn first_fault_from_the_left_is_reported() {
    assert_eq!(fault("<foo><a").kind, KeyErrorKind::UnknownKey);
    assert_eq!(fault("<a>b<foo>").kind, KeyErrorKind::MissingOpen);
}

#[test]
fn normal_form_of_key_presses() {
    let shift = KeyModifiers::shift();
    let none = KeyModifiers::empty();
    assert_eq!(
        KeyEvent::new(KeyCode::Char('q'), shift).normalized(),
        KeyEvent::new(KeyCode::Char('Q'), shift)
    );
    assert_eq!(
        KeyEvent::new(KeyCode::Char('Q'), none).normalized(),
        KeyEvent::new(KeyCode::Char('Q'), shift)
    );
    assert_eq!(
        KeyEvent::new(KeyCode::Char('q'), none).normalized(),
        KeyEvent::new(KeyCode::Char('q'), none)
    );
    assert_eq!(KeyEvent::new(KeyCode::Tab, none).normalized(), KeyEvent::new(KeyCode::Tab, none));
    assert_eq!(to_ascii_upper('a'), 'A');
    assert_eq!(to_ascii_upper('z'), 'Z');
    assert_eq!(to_ascii_upper('{'), '{');
    assert_eq!(to_ascii_upper('é'), 'é');
    assert_eq!(to_ascii_lower('A'), 'a');
    assert_eq!(to_ascii_lower('Z'), 'z');
    assert_eq!(to_ascii_lower('['), '[');
}

#[test]
fn modifier_sets() {
    let mut held = KeyModifiers::empty();
    assert!(held.contains(KeyModifiers::empty()));
    assert!(!held.contains(KeyModifiers::control()));
    held.insert(KeyModifiers::control());
    held.insert(KeyModifiers::alt());
    assert_eq!(held, mods(false, true, true));
    assert!(held.contains(KeyModifiers::control()));
    assert!(held.contains(KeyModifiers::alt()));
    assert!(!held.contains(KeyModifiers::shift()));
    held.insert(KeyModifiers::shift());
    assert_eq!(held, mods(true, true, true));
}

#[test]
fn config_dir_falls_back() {
    assert_eq!(config_dir_from(None), "./.config");
    assert_eq!(config_dir_from(Some("/home/alice/.config/keys".to_string())), "/home/alice/.config/keys");
    assert!(!get_config_dir().is_empty());
}
