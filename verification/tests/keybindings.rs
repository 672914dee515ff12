use keychords::actions::Action;
use keychords::app_state::AppState;
use keychords::key_event::{KeyCode, KeyEvent, KeyModifiers};
use keychords::key_mode::KeyMode;
use keychords::settings::chords::KeyErrorKind;
use keychords::settings::keybindings::{
    add_binding_to_tree, build_tree, KeyBindingValue, KeyBindings, KeyBindingsNode, KeyString,
    NextKeys,
};
use keychords::settings::Settings;
use std::collections::BTreeMap;

fn simple(raw: &str, action: Action) -> (String, KeyBindingValue) {
    (raw.to_string(), KeyBindingValue::Simple(action))
}

fn detailed(raw: &str, action: Action, description: Option<&str>) -> (String, KeyBindingValue) {
    (
        raw.to_string(),
        KeyBindingValue::Detailed { action, description: description.map(|d| d.to_string()) },
    )
}

fn settings_for(mode: KeyMode, bindings: Vec<(String, KeyBindingValue)>) -> Settings {
    let keybindings = KeyBindings::from_config(&vec![(mode, bindings)]).unwrap();
    Settings { update_torrent_list_interval: 0, keybindings }
}

fn action_named(name: &str) -> Action {
    match name {
        "Quit" => Action::Quit,
        "AddTorrent" => Action::AddTorrent,
        "NoOp" => Action::NoOp,
        other => panic!("unknown action {other}"),
    }
}

fn mode_named(name: &str) -> KeyMode {
    match name {
        "TorrentList" => KeyMode::TorrentList,
        "AddTorrent" => KeyMode::AddTorrent,
        other => panic!("unknown key mode {other}"),
    }
}

fn binding_value(value: config::Value) -> KeyBindingValue {
    match value.kind {
        config::ValueKind::String(name) => KeyBindingValue::Simple(action_named(&name)),
        config::ValueKind::Table(fields) => KeyBindingValue::Detailed {
            action: match fields.get("action") {
                Some(name) => action_named(&name.clone().into_string().unwrap()),
                None => Action::default(),
            },
            description: fields.get("description").map(|text| text.clone().into_string().unwrap()),
        },
        other => panic!("unexpected binding value {other:?}"),
    }
}

fn settings_from_toml(config_toml: &str) -> Settings {
    let config = config::Config::builder()
        .add_source(config::File::from_str(config_toml, config::FileFormat::Toml))
        .build()
        .unwrap();
    let mut tables = Vec::new();
    if let Ok(modes) = config.get_table("keybindings") {
        let modes: BTreeMap<String, config::Value> = modes.into_iter().collect();
        for (mode, bindings) in modes {
            let bindings: BTreeMap<String, config::Value> =
                bindings.into_table().unwrap().into_iter().collect();
            let bindings =
                bindings.into_iter().map(|(raw, value)| (raw, binding_value(value))).collect();
            tables.push((mode_named(&mode), bindings));
        }
    }
    let keybindings = KeyBindings::from_config(&tables).unwrap();
    Settings { update_torrent_list_interval: 0, keybindings }
}

fn child<'a>(settings: &'a Settings, key_string: &KeyString) -> &'a KeyBindingsNode {
    settings
        .keybindings
        .get(&KeyMode::TorrentList)
        .and_then(|k| k.next.get(key_string))
        .unwrap_or_else(|| panic!("KeyString {key_string:?} not found"))
}

#[test]
fn parse_single_key_without_description() {
    let config_toml = r#"
            [keybindings.TorrentList]
            "<q>" = "Quit"
        "#;
    let settings = settings_from_toml(config_toml);
    let key_event = KeyEvent::new(KeyCode::Char('q'), KeyModifiers::empty());
    let key_string = KeyString::from(key_event);
    let keybindings = child(&settings, &key_string);
    assert_eq!(keybindings.action, Action::Quit);
    assert_eq!(keybindings.description, None);
    assert_eq!(keybindings.next.is_empty(), true);
}

#[test]
fn parse_single_key_with_description() {
    let config_toml = r#"
            [keybindings.TorrentList]
            "<q>" = { action = "Quit", description = "Quit" }
        "#;
    let settings = settings_from_toml(config_toml);
    let key_event = KeyEvent::new(KeyCode::Char('q'), KeyModifiers::empty());
    let key_string = KeyString::from(key_event);
    let keybindings = child(&settings, &key_string);

    assert_eq!(keybindings.action, Action::Quit);
    assert_eq!(keybindings.description, Some("Quit".to_string()));
    assert_eq!(keybindings.next.is_empty(), true);
}

#[test]
fn parse_keys_with_ctrl_modifier() {
    let config_toml = r#"
            [keybindings.TorrentList]
            "<Ctrl-q>" = "Quit"
        "#;
    let settings = settings_from_toml(config_toml);
    let key_event = KeyEvent::new(KeyCode::Char('q'), KeyModifiers::control());
    let key_string = KeyString::from(key_event);
    let keybindings = child(&settings, &key_string);

    assert_eq!(keybindings.action, Action::Quit);
    assert_eq!(keybindings.description, None);
    assert_eq!(keybindings.next.is_empty(), true);
}

#[test]
fn parse_keys_with_alt_modifier() {
    let config_toml = r#"
            [keybindings.TorrentList]
            "<Alt-q>" = "Quit"
        "#;
    let settings = settings_from_toml(config_toml);
    let key_event = KeyEvent::new(KeyCode::Char('q'), KeyModifiers::alt());
    let key_string = KeyString::from(key_event);
    let keybindings = child(&settings, &key_string);

    assert_eq!(keybindings.action, Action::Quit);
    assert_eq!(keybindings.description, None);
    assert_eq!(keybindings.next.is_empty(), true);
}

#[test]
fn parse_keys_with_shift_modifier() {
    let config_toml = r#"
            [keybindings.TorrentList]
            "<Shift-q>" = "Quit"
        "#;
    let settings = settings_from_toml(config_toml);
    let key_event = KeyEvent::new(KeyCode::Char('Q'), KeyModifiers::shift());
    let key_string = KeyString::from(key_event);
    let keybindings = child(&settings, &key_string);

    assert_eq!(keybindings.action, Action::Quit);
    assert_eq!(keybindings.description, None);
    assert_eq!(keybindings.next.is_empty(), true);
}

#[test]
fn make_keybindings_tree() {
    let config_toml = r#"
          [keybindings.TorrentList]
          "<Ctrl-a><Alt-b>" = "AddTorrent"
        "#;
    let settings = settings_from_toml(config_toml);
    let key_event1 = KeyEvent::new(KeyCode::Char('a'), KeyModifiers::control());
    let key_event2 = KeyEvent::new(KeyCode::Char('b'), KeyModifiers::alt());
    let key_string1 = KeyString::from(key_event1);
    let key_string2 = KeyString::from(key_event2);

    let keybindings = child(&settings, &key_string1);

    assert_eq!(keybindings.action, Action::NoOp);
    assert_eq!(keybindings.description, None);
    assert_eq!(keybindings.next.is_empty(), false);

    let next = keybindings
        .next
        .get(&key_string2)
        .unwrap_or_else(|| panic!("KeyString {key_string2:?} not found"));

    assert_eq!(next.action, Action::AddTorrent);
    assert_eq!(next.description, None);
    assert_eq!(next.next.is_empty(), true);
}

#[test]
fn keybindings_with_common_prefix_share_node() {
    let config_toml = r#"
            [keybindings.TorrentList]
            "<Ctrl-a>" = { description = "Add" }
            "<Ctrl-a><t>" = { action = "AddTorrent", description = "Torrent" }
        "#;
    let settings = settings_from_toml(config_toml);
    let key_event1 = KeyEvent::new(KeyCode::Char('a'), KeyModifiers::control());
    let key_event2 = KeyEvent::new(KeyCode::Char('t'), KeyModifiers::empty());
    let key_string1 = KeyString::from(key_event1);
    let key_string2 = KeyString::from(key_event2);

    let keybindings = child(&settings, &key_string1);

    assert_eq!(keybindings.action, Action::NoOp);
    assert_eq!(keybindings.description, Some("Add".to_string()));
    assert_eq!(keybindings.next.is_empty(), false);

    let next = keybindings
        .next
        .get(&key_string2)
        .unwrap_or_else(|| panic!("KeyString {key_string2:?} not found"));

    assert_eq!(next.action, Action::AddTorrent);
    assert_eq!(next.description, Some("Torrent".to_string()));
    assert_eq!(next.next.is_empty(), true);
}

#[test]
fn prefix_bound_after_the_longer_sequence_keeps_the_children() {
    let settings = settings_for(
        KeyMode::TorrentList,
        vec![
            detailed("<Ctrl-a><t>", Action::AddTorrent, Some("Torrent")),
            detailed("<Ctrl-a>", Action::Quit, Some("Add")),
        ],
    );
    let key_string1 =
        KeyString::from(KeyEvent::new(KeyCode::Char('a'), KeyModifiers::control()));
    let key_string2 = KeyString::from(KeyEvent::new(KeyCode::Char('t'), KeyModifiers::empty()));

    let prefix = child(&settings, &key_string1);
    assert_eq!(prefix.action, Action::Quit);
    assert_eq!(prefix.description, Some("Add".to_string()));
    assert_eq!(prefix.next.is_empty(), false);

    let next = prefix.next.get(&key_string2).unwrap();
    assert_eq!(next.action, Action::AddTorrent);
    assert_eq!(next.description, Some("Torrent".to_string()));
}

#[test]
fn later_binding_of_the_same_sequence_stands() {
    let settings = settings_for(
        KeyMode::TorrentList,
        vec![
            detailed("<q>", Action::AddTorrent, Some("first")),
            simple("<q>", Action::Quit),
        ],
    );
    let key_string = KeyString::from(KeyEvent::new(KeyCode::Char('q'), KeyModifiers::empty()));
    let node = child(&settings, &key_string);
    assert_eq!(node.action, Action::Quit);
    assert_eq!(node.description, None);
}

#[test]
fn binding_one_sequence_leaves_the_others() {
    let mut root = KeyBindingsNode::default();
    let a = KeyEvent::new(KeyCode::Char('a'), KeyModifiers::empty());
    let b = KeyEvent::new(KeyCode::Char('b'), KeyModifiers::empty());
    let c = KeyEvent::new(KeyCode::Char('c'), KeyModifiers::empty());
    add_binding_to_tree(&mut root, vec![a, b], KeyBindingValue::Simple(Action::Quit));
    add_binding_to_tree(&mut root, vec![a, c], KeyBindingValue::Simple(Action::AddTorrent));
    add_binding_to_tree(&mut root, vec![c], KeyBindingValue::Simple(Action::Quit));
    add_binding_to_tree(&mut root, Vec::new(), KeyBindingValue::Simple(Action::Quit));

    assert_eq!(root.action, Action::NoOp);
    let under_a = root.next.get(&KeyString::from(a)).unwrap();
    assert_eq!(under_a.action, Action::NoOp);
    assert_eq!(under_a.next.get(&KeyString::from(b)).unwrap().action, Action::Quit);
    assert_eq!(under_a.next.get(&KeyString::from(c)).unwrap().action, Action::AddTorrent);
    assert!(under_a.next.get(&KeyString::from(a)).is_none());
    assert_eq!(root.next.get(&KeyString::from(c)).unwrap().action, Action::Quit);
    assert!(root.next.get(&KeyString::from(b)).is_none());
}

#[test]
fn next_keys_insert_replaces_and_remove_takes_out() {
    let q = KeyString::from(KeyEvent::new(KeyCode::Char('q'), KeyModifiers::empty()));
    let w = KeyString::from(KeyEvent::new(KeyCode::Char('w'), KeyModifiers::empty()));
    let mut next = NextKeys::new();
    assert!(next.is_empty());
    next.insert(q, KeyBindingsNode::from(KeyBindingValue::Simple(Action::Quit)));
    next.insert(w, KeyBindingsNode::from(KeyBindingValue::Simple(Action::AddTorrent)));
    next.insert(q, KeyBindingsNode::from(KeyBindingValue::Simple(Action::NoOp)));
    assert_eq!(next.get(&q).unwrap().action, Action::NoOp);
    assert_eq!(next.get(&w).unwrap().action, Action::AddTorrent);
    assert!(next.contains_key(&q));
    assert_eq!(next.remove(&q).unwrap().action, Action::NoOp);
    assert!(next.remove(&q).is_none());
    assert!(!next.contains_key(&q));
    assert!(!next.is_empty());
    assert_eq!(next.remove(&w).unwrap().action, Action::AddTorrent);
    assert!(next.is_empty());
}

#[test]
fn node_from_value_and_duplicate() {
    let value = KeyBindingValue::Detailed {
        action: Action::AddTorrent,
        description: Some("Add".to_string()),
    };
    let node = KeyBindingsNode::from(value.clone());
    assert_eq!(node.action, Action::AddTorrent);
    assert_eq!(node.description, Some("Add".to_string()));
    assert!(node.next.is_empty());
    let bare = KeyBindingsNode::from(KeyBindingValue::Simple(Action::Quit));
    assert_eq!(bare.action, Action::Quit);
    assert_eq!(bare.description, None);
    let fresh = KeyBindingsNode::default();
    assert_eq!(fresh.action, Action::NoOp);
    assert_eq!(fresh.description, None);
    assert!(fresh.next.is_empty());
}

#[test]
fn single_key_round_trip() {
    let settings = settings_for(KeyMode::TorrentList, vec![simple("<q>", Action::Quit)]);
    let mut app_state = AppState::builder(&settings).build().unwrap();
    let pressed = KeyEvent::new(KeyCode::Char('q'), KeyModifiers::empty());
    assert_eq!(app_state.action(pressed), Some(Action::Quit));
    assert_eq!(app_state.at_root(), true);
}

#[test]
fn two_chord_round_trip() {
    let settings =
        settings_for(KeyMode::TorrentList, vec![simple("<Ctrl-a><Alt-b>", Action::AddTorrent)]);
    let mut app_state = AppState::builder(&settings).build().unwrap();
    let first = KeyEvent::new(KeyCode::Char('a'), KeyModifiers::control());
    let second = KeyEvent::new(KeyCode::Char('b'), KeyModifiers::alt());
    assert_eq!(app_state.action(first), None);
    assert_eq!(app_state.at_root(), false);
    assert_eq!(app_state.action(second), Some(Action::AddTorrent));
    assert_eq!(app_state.at_root(), true);
}

#[test]
fn malformed_text_fails_the_table() {
    let error = KeyBindings::from_config(&vec![(
        KeyMode::TorrentList,
        vec![simple("<w>", Action::NoOp), simple("q>", Action::Quit)],
    )])
    .unwrap_err();
    assert_eq!(error.kind, KeyErrorKind::MissingOpen);
    assert_eq!(error.raw, "q>");
    assert_eq!(error.message(), "Expected '<' at start of key segment in `q>`");
}

#[test]
fn first_fault_of_the_configuration_is_reported() {
    let error = KeyBindings::from_config(&vec![
        (KeyMode::TorrentList, vec![simple("<q>", Action::Quit)]),
        (KeyMode::AddTorrent, vec![simple("<nokey>", Action::Quit), simple("<q", Action::Quit)]),
    ])
    .unwrap_err();
    assert_eq!(error.kind, KeyErrorKind::UnknownKey);
    assert_eq!(error.raw, "<nokey>");
    let error = build_tree(&vec![simple("<q", Action::Quit), simple("q", Action::Quit)])
        .unwrap_err();
    assert_eq!(error.kind, KeyErrorKind::Unclosed);
    assert_eq!(error.raw, "<q");
}

#[test]
fn table_holds_one_tree_per_mode() {
    let table = KeyBindings::from_config(&vec![
        (KeyMode::AddTorrent, vec![simple("<esc>", Action::Quit)]),
        (KeyMode::TorrentList, vec![simple("<a>", Action::AddTorrent)]),
        (KeyMode::AddTorrent, vec![simple("<enter>", Action::AddTorrent)]),
    ])
    .unwrap();
    assert_eq!(table.keys(), vec![KeyMode::TorrentList, KeyMode::AddTorrent]);
    let esc = KeyString::from(KeyEvent::new(KeyCode::Esc, KeyModifiers::empty()));
    let enter = KeyString::from(KeyEvent::new(KeyCode::Enter, KeyModifiers::empty()));
    let add = table.get(&KeyMode::AddTorrent).unwrap();
    assert!(add.next.get(&esc).is_none());
    assert_eq!(add.next.get(&enter).unwrap().action, Action::AddTorrent);

    let empty = KeyBindings::from_config(&Vec::new()).unwrap();
    assert_eq!(empty.keys(), Vec::new());
    assert!(empty.get(&KeyMode::TorrentList).is_none());
    assert!(!KeyBindings::default().contains_key(&KeyMode::AddTorrent));
}
