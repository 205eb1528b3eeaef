use serverbrowser::cli::{
    bookmark_line, bookmark_listing, bookmark_target, edge_line, interactive_step, open_target, output_mode_for,
    parse_subcommand, render_target, title_from_url, Step, Subcommand,
};
use serverbrowser::config::OutputMode;
use serverbrowser::mindmap::{Mindmap, Node};
use serverbrowser::nav::{parse_command, Command};

fn strings(xs: &[&str]) -> Vec<String> {
    xs.iter().map(|s| s.to_string()).collect()
}

#[test]
fn title_from_url_takes_host() {
    assert_eq!(title_from_url("https://doc.rust-lang.org/std/"), "doc.rust-lang.org");
    assert_eq!(title_from_url("http://crates.io"), "crates.io");
    assert_eq!(title_from_url("https://example.com///"), "example.com");
    assert_eq!(title_from_url("example.com/a/b"), "example.com");
    assert_eq!(title_from_url("http://http://x.org/"), "x.org");
    assert_eq!(title_from_url(""), "");
    assert!(!title_from_url("https://a/b/c/").contains('/'));
}

#[test]
fn subcommands_and_aliases() {
    assert_eq!(parse_subcommand(None), Subcommand::Open);
    assert_eq!(parse_subcommand(Some("open")), Subcommand::Open);
    assert_eq!(parse_subcommand(Some("o")), Subcommand::Open);
    assert_eq!(parse_subcommand(Some("ba")), Subcommand::BookmarkAdd);
    assert_eq!(parse_subcommand(Some("bookmark-add")), Subcommand::BookmarkAdd);
    assert_eq!(parse_subcommand(Some("bm")), Subcommand::Bookmarks);
    assert_eq!(parse_subcommand(Some("r")), Subcommand::Render);
    assert_eq!(parse_subcommand(Some("--help")), Subcommand::Help);
    assert_eq!(parse_subcommand(Some("-h")), Subcommand::Help);
    assert_eq!(parse_subcommand(Some("zap")), Subcommand::Unknown("zap".to_string()));
}

#[test]
fn open_and_render_targets() {
    let start = "about:blank";
    assert_eq!(open_target(&strings(&[]), start), "about:blank");
    assert_eq!(open_target(&strings(&["open"]), start), "about:blank");
    assert_eq!(open_target(&strings(&["open", "https://a.org"]), start), "https://a.org");
    assert_eq!(open_target(&strings(&["o"]), start), "about:blank");
    assert_eq!(open_target(&strings(&["o", "openbsd.org"]), start), "openbsd.org");
    assert_eq!(render_target(&strings(&[]), start), "about:blank");
    assert_eq!(render_target(&strings(&["https://c.org", "x"]), start), "https://c.org");
}

#[test]
fn output_mode_override() {
    assert_eq!(output_mode_for(Some("sixel"), OutputMode::Kitty), OutputMode::Sixel);
    assert_eq!(output_mode_for(Some("blocks"), OutputMode::Kitty), OutputMode::Blocks);
    assert_eq!(output_mode_for(Some("text"), OutputMode::Kitty), OutputMode::Text);
    assert_eq!(output_mode_for(Some("kitty"), OutputMode::Text), OutputMode::Kitty);
    assert_eq!(output_mode_for(Some("png"), OutputMode::Blocks), OutputMode::Blocks);
    assert_eq!(output_mode_for(None, OutputMode::Sixel), OutputMode::Sixel);
}

#[test]
fn listing_lines() {
    let mut n = Node::new("Rust Docs", Some("https://doc.rust-lang.org".to_string()));
    assert_eq!(bookmark_line("rust-docs", &n), "  [rust-docs] Rust Docs  https://doc.rust-lang.org");
    n.link("cargo");
    n.link("crates");
    assert_eq!(
        bookmark_line("rust-docs", &n),
        "  [rust-docs] Rust Docs  https://doc.rust-lang.org  -> links: cargo, crates"
    );
    let m = Node::new("Notes", None);
    assert_eq!(bookmark_line("notes", &m), "  [notes] Notes  ");
    assert_eq!(edge_line("a", "b"), "  a <-> b");
}

#[test]
fn prompt_steps() {
    assert_eq!(interactive_step(parse_command(":quit")), Step::Quit);
    assert_eq!(interactive_step(parse_command(":open -t x.org")), Step::Load("x.org".to_string()));
    assert_eq!(interactive_step(Command::Back), Step::Back);
    assert_eq!(interactive_step(Command::Forward), Step::Forward);
    assert_eq!(interactive_step(Command::Reload), Step::Reload);
    assert_eq!(
        interactive_step(parse_command(":bookmark-add https://a.org Parent")),
        Step::Bookmark { url: Some("https://a.org".to_string()), parent: Some("Parent".to_string()) }
    );
    assert_eq!(interactive_step(Command::Yank), Step::NotHandled);
    assert_eq!(interactive_step(parse_command(":nope")), Step::NotHandled);
}

#[test]
fn prompt_bookmark_target() {
    assert_eq!(
        bookmark_target(Some("u".to_string()), Some("cur".to_string()), Some("T".to_string())),
        ("T".to_string(), "u".to_string())
    );
    assert_eq!(
        bookmark_target(None, Some("cur".to_string()), None),
        ("cur".to_string(), "cur".to_string())
    );
    assert_eq!(bookmark_target(None, None, None), (String::new(), String::new()));
}

#[test]
fn listing_text() {
    let mut m = Mindmap::default();
    assert_eq!(bookmark_listing(&m, "/v"), "no bookmarks yet in /v\n");
    let mut a = Node::new("A", Some("u".into()));
    a.link("b");
    m.store_node(&a);
    m.store_node(&Node::new("B", None));
    assert_eq!(
        bookmark_listing(&m, "/v"),
        "Bookmarks (mindmap nodes) in /v:\n\n  [a] A  u  -> links: b\n  [b] B  \n\nEdges (for the future minimap):\n  a <-> b\n"
    );
    let mut lone = Mindmap::default();
    lone.store_node(&Node::new("C", None));
    assert_eq!(bookmark_listing(&lone, "/v"), "Bookmarks (mindmap nodes) in /v:\n\n  [c] C  \n");
}
