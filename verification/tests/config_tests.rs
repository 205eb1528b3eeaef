use serverbrowser::config::{default_keybindings, default_vault_dir, Config, KeyBinding, OutputMode};

#[test]
fn defaults_have_normal_bindings() {
    let cfg = Config::default();
    assert!(cfg.keybindings.contains_key("normal"));
    assert!(cfg.start_page == "about:blank");
}

#[test]
fn default_config_values() {
    let cfg = Config::for_home(Some("/home/u"));
    assert_eq!(cfg.output_mode, OutputMode::Kitty);
    assert_eq!(cfg.viewport_width, 1280);
    assert_eq!(cfg.viewport_height, 800);
    assert_eq!(cfg.max_tabs, 16);
    assert_eq!(cfg.vault_dir, "/home/u/.local/share/serverbrowser/vault");
    assert!(cfg.url_prefixes.is_empty());
    assert_eq!(OutputMode::default(), OutputMode::Kitty);
}

#[test]
fn vault_dir_joins_home() {
    assert_eq!(default_vault_dir(Some("/home/u/")), "/home/u/.local/share/serverbrowser/vault");
    assert_eq!(default_vault_dir(Some("")), ".local/share/serverbrowser/vault");
    assert_eq!(default_vault_dir(None), ".serverbrowser/vault");
}

#[test]
fn default_normal_bindings_in_order() {
    let kb = default_keybindings();
    let normal = kb.get("normal").unwrap();
    assert_eq!(normal.len(), 24);
    assert_eq!(normal[0].key, "j");
    assert_eq!(normal[0].command, "scroll down");
    assert_eq!(normal[4].key, "gg");
    assert_eq!(normal[4].command, "scroll-to-perc 0");
    assert_eq!(normal[23].key, "q");
    assert_eq!(normal[23].command, "quit");
    assert!(kb.get("command").is_none());
}

#[test]
fn insert_replaces_mode_bindings() {
    let mut kb = default_keybindings();
    kb.insert(
        "normal".to_string(),
        vec![KeyBinding { key: "x".to_string(), command: "quit".to_string() }],
    );
    assert_eq!(kb.entries().len(), 1);
    assert_eq!(kb.get("normal").unwrap()[0].key, "x");
    kb.insert("command".to_string(), vec![]);
    assert_eq!(kb.entries().len(), 2);
    assert!(kb.contains_key("command"));
    assert_eq!(kb.get("normal").unwrap()[0].command, "quit");
}

#[test]
fn fill_missing_keybindings_only_when_empty() {
    let mut cfg = Config::default();
    cfg.keybindings = serverbrowser::config::Keybindings::new();
    assert!(cfg.keybindings.is_empty());
    cfg.fill_missing_keybindings();
    assert_eq!(cfg.keybindings.get("normal").unwrap().len(), 24);

    let mut kb = serverbrowser::config::Keybindings::new();
    kb.insert("command".to_string(), vec![]);
    cfg.keybindings = kb;
    cfg.fill_missing_keybindings();
    assert!(!cfg.keybindings.contains_key("normal"));
}
