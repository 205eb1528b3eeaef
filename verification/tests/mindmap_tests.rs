use serverbrowser::mindmap::{node_file_name, node_id_for_file, slugify, Mindmap, Node, VaultFile};

#[test]
fn slugify_basic() {
    assert_eq!(slugify("Rust Programming"), "rust-programming");
    assert_eq!(slugify("  Hello World!!  "), "hello-world");
    assert_eq!(slugify("..."), "node");
}

#[test]
fn node_markdown_roundtrip() {
    let mut n = Node::new("Rust Docs", Some("https://doc.rust-lang.org".into()));
    n.tags = vec!["rust".into(), "docs".into()];
    n.link("cargo");
    n.body = "Some notes".to_string();
    let md = n.to_markdown();
    let back = Node::from_markdown(&n.id, &md, n.created, n.updated);
    assert_eq!(back.title, "Rust Docs");
    assert_eq!(back.url.as_deref(), Some("https://doc.rust-lang.org"));
    assert_eq!(back.tags, vec!["rust", "docs"]);
    assert_eq!(back.links, vec!["cargo"]);
}

#[test]
fn edges_deduplicated() {
    let mut m = Mindmap::default();
    let mut a = Node::new("A", None);
    a.link("b");
    let mut b = Node::new("B", None);
    b.link("a");
    m.nodes.insert("a".into(), a);
    m.nodes.insert("b".into(), b);
    assert_eq!(m.edges(), vec![("a".to_string(), "b".to_string())]);
}

#[test]
fn markdown_layout() {
    let mut n = Node::new("Say \"hi\"", None);
    n.link("x");
    n.link("x");
    let md = n.to_markdown();
    assert_eq!(md, "---\ntitle: \"Say \\\"hi\\\"\"\n---\n\n- [[x]]\n");
}

#[test]
fn from_markdown_details() {
    let text = "---\r\ntitle: 'Quoted'\nurl:\ntags: a, \"b\", , c\nother: 1\n---\n\nline one\n  - [[target|alias]]  \nline two\n";
    let n = Node::from_markdown("id1", text, 5, 6);
    assert_eq!(n.id, "id1");
    assert_eq!(n.title, "Quoted");
    assert_eq!(n.url, None);
    assert_eq!(n.tags, vec!["a", "b", "c"]);
    assert_eq!(n.links, vec!["target"]);
    assert_eq!(n.body, "line one\nline two");
    assert_eq!(n.created, 5);
    assert_eq!(n.updated, 6);
    let plain = Node::from_markdown("p", "[[a]]\nno frontmatter\n", 0, 0);
    assert_eq!(plain.title, "p");
    assert_eq!(plain.links, vec!["a"]);
    assert_eq!(plain.body, "");
}

#[test]
fn unlink_removes_every_copy() {
    let mut n = Node::new("N", None);
    n.links = vec!["a".into(), "b".into(), "a".into()];
    n.unlink("a");
    assert_eq!(n.links, vec!["b"]);
}

#[test]
fn find_by_key_title_and_url() {
    let mut m = Mindmap::default();
    m.nodes.insert("zeta".into(), Node::new("Shared", Some("HTTPS://Z.ORG".into())));
    m.nodes.insert("alpha".into(), Node::new("Shared", None));
    assert_eq!(m.find("zeta").unwrap().id, "shared");
    assert_eq!(m.find("SHARED").unwrap().url, None);
    assert_eq!(m.find("https://z.org").unwrap().url.as_deref(), Some("HTTPS://Z.ORG"));
    assert!(m.find("nothing").is_none());
}

#[test]
fn children_and_keys_in_order() {
    let mut m = Mindmap::with_root("/v".to_string());
    let mut a = Node::new("a", None);
    a.link("c");
    a.link("missing");
    a.link("b");
    m.nodes.insert("c".into(), Node::new("c", None));
    m.nodes.insert("a".into(), a);
    m.nodes.insert("b".into(), Node::new("b", None));
    let kids: Vec<String> = m.children("a").iter().map(|n| n.id.clone()).collect();
    assert_eq!(kids, vec!["c", "b"]);
    let keys: Vec<String> = m.nodes.entries().iter().map(|e| e.0.clone()).collect();
    assert_eq!(keys, vec!["a", "b", "c"]);
    assert_eq!(m.root(), "/v");
    assert!(m.children("none").is_empty());
}

#[test]
fn plan_bookmark_links_parent() {
    let mut m = Mindmap::default();
    m.store_node(&Node::new("Rust", None));
    let plan = m.plan_bookmark("Crates", "https://crates.io", Some("rust"));
    assert_eq!(plan.node.id, "crates");
    assert_eq!(plan.node.links, vec!["rust"]);
    let (key, p) = plan.parent.unwrap();
    assert_eq!(key, "rust");
    assert_eq!(p.links, vec!["crates"]);
    assert_eq!(m.nodes.get("rust").unwrap().links, vec!["crates"]);
    let lone = m.plan_bookmark("X", "u", Some("nope"));
    assert!(lone.parent.is_none());
    assert_eq!(lone.node.links, vec!["nope"]);
}

#[test]
fn vault_files() {
    assert_eq!(node_id_for_file("a.md").as_deref(), Some("a"));
    assert_eq!(node_id_for_file("a.b.md").as_deref(), Some("a.b"));
    assert_eq!(node_id_for_file(".md"), None);
    assert_eq!(node_id_for_file("notes.txt"), None);
    assert_eq!(node_id_for_file("md"), None);
    assert_eq!(node_file_name("rust"), "rust.md");
    let mut m = Mindmap::default();
    m.load_files(&vec![
        VaultFile { stem: "b".into(), text: "---\ntitle: B\n---\n".into(), modified: 3 },
        VaultFile { stem: "a".into(), text: "- [[b]]\n".into(), modified: 4 },
    ]);
    assert_eq!(m.nodes.len(), 2);
    assert_eq!(m.nodes.get("b").unwrap().title, "B");
    assert_eq!(m.nodes.get("a").unwrap().links, vec!["b"]);
    assert_eq!(m.nodes.get("a").unwrap().created, 4);
}

#[test]
fn slugify_is_idempotent_and_shaped() {
    for t in ["Rust Programming", "  Hello World!!  ", "...", "a--b", "-x-", "Ünïcödé Title 42"] {
        let s = slugify(t);
        assert_eq!(slugify(&s), s);
        assert!(!s.is_empty());
        assert!(!s.starts_with('-') && !s.ends_with('-'));
        assert!(!s.contains("--"));
    }
}

#[test]
fn link_twice_is_link_once() {
    let mut n = Node::new("N", None);
    n.link("a");
    n.link("b");
    n.link("a");
    assert_eq!(n.links, vec!["a", "b"]);
    n.link("c");
    n.unlink("c");
    assert_eq!(n.links, vec!["a", "b"]);
}

#[test]
fn store_then_get() {
    let mut m = Mindmap::default();
    let n = Node::new("First", Some("u1".into()));
    m.store_node(&n);
    m.store_node(&Node::new("Other", None));
    let mut n2 = Node::new("First", Some("u2".into()));
    n2.link("other");
    m.store_node(&n2);
    assert_eq!(m.nodes.len(), 2);
    assert_eq!(m.nodes.get("first").unwrap().url.as_deref(), Some("u2"));
    assert_eq!(m.nodes.get("first").unwrap().links, vec!["other"]);
    assert!(m.nodes.get("other").unwrap().links.is_empty());
    assert_eq!(m.edges(), vec![("first".to_string(), "other".to_string())]);
}

#[test]
fn multiline_body_roundtrip() {
    let mut n = Node::new("Notes", Some("https://example.org/a?b=c".into()));
    n.tags = vec!["one".into(), "two words".into()];
    n.body = "first line\n\n  indented line\nlast".to_string();
    n.link("x");
    n.link("y z");
    let back = Node::from_markdown(&n.id, &n.to_markdown(), n.created, n.updated);
    assert_eq!(back, n);
}

#[test]
fn timestamps_given_explicitly() {
    let mut n = Node::new_at("Rust Docs", None, 100);
    assert_eq!(n.id, "rust-docs");
    assert_eq!((n.created, n.updated), (100, 100));
    n.link_at("cargo", 150);
    assert_eq!((n.created, n.updated), (100, 150));
    n.link_at("cargo", 160);
    assert_eq!(n.links, vec!["cargo"]);
    assert_eq!(n.updated, 160);
    n.unlink_at("cargo", 170);
    assert!(n.links.is_empty());
    assert_eq!((n.created, n.updated), (100, 170));
    let fresh = Node::new("T", None);
    assert_eq!(fresh.created, fresh.updated);
}

#[test]
fn bookmark_parent_by_title() {
    let mut m = Mindmap::default();
    m.store_node(&Node::new("RustDocs", Some("https://doc.rust-lang.org".into())));
    let plan = m.plan_bookmark("crates.io", "https://crates.io", Some("RustDocs"));
    assert_eq!(plan.node.id, "crates-io");
    assert_eq!(plan.node.links, vec!["rustdocs"]);
    let (key, p) = plan.parent.unwrap();
    assert_eq!(key, "rustdocs");
    assert_eq!(p.links, vec!["crates-io"]);
    assert_eq!(m.nodes.get("rustdocs").unwrap().links, vec!["crates-io"]);
    m.store_node(&plan.node);
    assert_eq!(m.edges(), vec![("crates-io".to_string(), "rustdocs".to_string())]);
}

#[test]
fn escapes_read_back() {
    let mut n = Node::new("Say \"hi\" \\ bye", Some("https://x.org/\"q\"".into()));
    n.link("x");
    let back = Node::from_markdown(&n.id, &n.to_markdown(), n.created, n.updated);
    assert_eq!(back.title, "Say \"hi\" \\ bye");
    assert_eq!(back.url.as_deref(), Some("https://x.org/\"q\""));
    assert_eq!(back, n);
    let plain = Node::from_markdown("p", "---\ntitle: \"a\\nb\"\n---\n", 0, 0);
    assert_eq!(plain.title, "a\\nb");
}

#[test]
fn slugify_lowercases_beyond_ascii() {
    assert_eq!(slugify("Émile Zola"), "émile-zola");
    assert_eq!(slugify("ÀB--ÇD"), "àb-çd");
    assert_eq!(slugify("Straße 7"), "straße-7");
}

#[test]
fn saved_node_reads_back_with_file_time() {
    let mut n = Node::new_at("Rust Docs", Some("https://doc.rust-lang.org".into()), 5);
    n.tags = vec!["rust".into()];
    n.link("cargo");
    let mut m = Mindmap::default();
    m.load_files(&vec![
        VaultFile { stem: "other".into(), text: "x\n".into(), modified: 1 },
        VaultFile { stem: n.id.clone(), text: n.to_markdown(), modified: 42 },
    ]);
    let mut expected = n.clone();
    expected.created = 42;
    expected.updated = 42;
    assert_eq!(m.nodes.get("rust-docs"), Some(&expected));
}

#[test]
fn bookmark_parent_links_to_key() {
    let mut m = Mindmap::default();
    m.nodes.insert("p".into(), Node::new("Other", Some("https://o.org".into())));
    let plan = m.plan_bookmark("New", "u", Some("p"));
    assert_eq!(plan.node.links, vec!["p"]);
    let (key, parent) = plan.parent.unwrap();
    assert_eq!(key, "p");
    assert_eq!(parent.links, vec!["new"]);
    m.store_node(&plan.node);
    let kids: Vec<String> = m.children("new").iter().map(|n| n.id.clone()).collect();
    assert_eq!(kids, vec!["other"]);
    let by_url = m.plan_bookmark("X", "u", Some("https://o.org"));
    assert!(by_url.parent.is_none());
    assert_eq!(by_url.node.links, vec!["https://o.org"]);
    let by_title = m.plan_bookmark("Y", "u", Some("OTHER"));
    assert_eq!(by_title.node.links, vec!["p"]);
}

#[test]
fn title_and_url_read_back_whatever_the_body() {
    let mut n = Node::new_at("a\"b\\c", Some("u\\\"".into()), 3);
    n.tags = vec![" spaced , tag ".into(), "x\r".into()];
    n.body = "---\n- [[not a link|x]]\n  trailing  ".to_string();
    n.link(" odd | link ");
    let back = Node::from_markdown(&n.id, &n.to_markdown(), 0, 0);
    assert_eq!(back.title, n.title);
    assert_eq!(back.url, n.url);
}

#[test]
fn vault_keys_are_the_stems() {
    let mut m = Mindmap::default();
    m.load_files(&vec![
        VaultFile { stem: "b".into(), text: String::new(), modified: 1 },
        VaultFile { stem: "a".into(), text: "x".into(), modified: 2 },
        VaultFile { stem: "b".into(), text: "y".into(), modified: 3 },
    ]);
    let keys: Vec<String> = m.nodes.entries().iter().map(|e| e.0.clone()).collect();
    assert_eq!(keys, vec!["a", "b"]);
    assert_eq!(m.nodes.get("b").unwrap().created, 3);
}
