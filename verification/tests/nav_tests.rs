use serverbrowser::config::{Config, KeyBinding, Keybindings};
use serverbrowser::nav::{parse_command, parse_command_token, Command, Keymap, Outcome, ZoomFactor};

#[test]
fn parse_open() {
    assert_eq!(
        parse_command(":open https://example.com"),
        Command::Open {
            url: "https://example.com".into(),
            tab: false
        }
    );
    assert_eq!(
        parse_command(":open -t https://example.com"),
        Command::Open {
            url: "https://example.com".into(),
            tab: true
        }
    );
}

#[test]
fn parse_quit() {
    assert_eq!(parse_command(":quit"), Command::Quit);
}

#[test]
fn keymap_gg() {
    let cfg = Config::default();
    let mut km = Keymap::new(&cfg);
    assert!(matches!(km.feed("g"), Outcome::Pending(_)));
    assert!(matches!(km.feed("g"), Outcome::Command(Command::ScrollToPerc { perc: 0 })));
}

#[test]
fn keymap_j() {
    let cfg = Config::default();
    let mut km = Keymap::new(&cfg);
    assert!(matches!(km.feed("j"), Outcome::Command(Command::Scroll { dy: 200, .. })));
}

#[test]
fn parse_aliases_and_whitespace() {
    assert_eq!(parse_command("  ::o   example.org  "), Command::Open { url: "example.org".into(), tab: false });
    assert_eq!(parse_command("b"), Command::Back);
    assert_eq!(parse_command(":f"), Command::Forward);
    assert_eq!(parse_command(":r"), Command::Reload);
    assert_eq!(parse_command(":exit"), Command::Quit);
    assert_eq!(parse_command(":gt"), Command::TabNext);
    assert_eq!(parse_command(":gT"), Command::TabPrev);
    assert_eq!(parse_command(":d"), Command::TabClose);
    assert_eq!(parse_command(":u"), Command::TabUndo);
    assert_eq!(parse_command(":hint"), Command::Hint);
    assert_eq!(parse_command(":bookmarks"), Command::Bookmarks);
    assert_eq!(parse_command(":yank"), Command::Yank);
    assert_eq!(parse_command(":"), Command::SetCmdText { text: String::new() });
    assert_eq!(parse_command(":frobnicate now"), Command::Unknown { raw: "frobnicate".into() });
}

#[test]
fn parse_scroll_and_numbers() {
    assert_eq!(parse_command(":scroll dx=5 dy=-7"), Command::Scroll { dx: 5, dy: -7 });
    assert_eq!(parse_command(":scroll dy=3 dy=x dx=+2"), Command::Scroll { dx: 2, dy: 0 });
    assert_eq!(parse_command(":scroll dx=2147483648"), Command::Scroll { dx: 0, dy: 0 });
    assert_eq!(parse_command(":scroll dx=-2147483648"), Command::Scroll { dx: i32::MIN, dy: 0 });
    assert_eq!(parse_command(":G 40"), Command::ScrollToPerc { perc: 40 });
    assert_eq!(parse_command(":scroll-to-perc -1"), Command::ScrollToPerc { perc: 100 });
    assert_eq!(parse_command(":scroll-to-perc 4294967295"), Command::ScrollToPerc { perc: u32::MAX });
    assert_eq!(parse_command(":scroll-to-perc 4294967296"), Command::ScrollToPerc { perc: 100 });
}

#[test]
fn parse_bookmark_zoom_text() {
    assert_eq!(
        parse_command(":bookmark-add https://a.org Parent extra"),
        Command::BookmarkAdd { url: Some("https://a.org".into()), parent: Some("Parent".into()) }
    );
    assert_eq!(parse_command(":bookmark-add"), Command::BookmarkAdd { url: None, parent: None });
    assert_eq!(
        parse_command(":zoom 1.5"),
        Command::Zoom { factor: ZoomFactor { text: "1.5".into(), negate: false } }
    );
    assert_eq!(parse_command(":set-cmd-text  :open x "), Command::SetCmdText { text: ":open x".into() });
}

#[test]
fn parse_binding_tokens() {
    assert_eq!(parse_command_token("scroll left"), Command::Scroll { dx: -100, dy: 0 });
    assert_eq!(parse_command_token("scroll right"), Command::Scroll { dx: 100, dy: 0 });
    assert_eq!(parse_command_token("scroll up"), Command::Scroll { dx: 0, dy: -200 });
    assert_eq!(parse_command_token("scroll"), Command::Scroll { dx: 0, dy: 0 });
    assert_eq!(parse_command_token("scroll-to-perc 100"), Command::ScrollToPerc { perc: 100 });
    assert_eq!(parse_command_token("scroll-to-perc"), Command::ScrollToPerc { perc: 0 });
    assert_eq!(parse_command_token("set-cmd-text :open "), Command::SetCmdText { text: ":open ".into() });
    assert_eq!(parse_command_token("set-cmd-text"), Command::SetCmdText { text: String::new() });
    assert_eq!(
        parse_command_token("zoom +0.1"),
        Command::Zoom { factor: ZoomFactor { text: "0.1".into(), negate: false } }
    );
    assert_eq!(
        parse_command_token("zoom -0.1"),
        Command::Zoom { factor: ZoomFactor { text: "0.1".into(), negate: true } }
    );
    assert_eq!(
        parse_command_token("zoom"),
        Command::Zoom { factor: ZoomFactor { text: "1".into(), negate: false } }
    );
    assert_eq!(parse_command_token("bogus thing"), Command::Unknown { raw: "bogus thing".into() });
}

#[test]
fn keymap_unbound_and_reset() {
    let cfg = Config::default();
    let mut km = Keymap::new(&cfg);
    match km.feed("x") {
        Outcome::Unbound(s) => assert_eq!(s, "x"),
        _ => panic!("expected unbound"),
    }
    assert!(matches!(km.feed("g"), Outcome::Pending(_)));
    match km.feed("x") {
        Outcome::Unbound(s) => assert_eq!(s, "gx"),
        _ => panic!("expected unbound"),
    }
    assert!(matches!(km.feed("y"), Outcome::Pending(_)));
    km.reset();
    assert!(matches!(km.feed("q"), Outcome::Command(Command::Quit)));
}

#[test]
fn keymap_without_normal_mode() {
    let mut cfg = Config::default();
    let mut kb = Keybindings::new();
    kb.insert("command".to_string(), vec![KeyBinding { key: "j".into(), command: "quit".into() }]);
    cfg.keybindings = kb;
    let mut km = Keymap::new(&cfg);
    assert!(matches!(km.feed("j"), Outcome::Unbound(_)));
}

#[test]
fn colon_and_padding_do_not_matter() {
    for s in ["open x.org", "scroll dx=3", "bookmark-add u p", "  quit", "zoom 2", ""] {
        assert_eq!(parse_command(&format!("  :{}\n", s)), parse_command(s));
    }
}
