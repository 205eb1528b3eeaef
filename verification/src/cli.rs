//! The decisions of the command-line front end: which subcommand runs, which
//! URL is opened, which output mode is used, how bookmarks are listed and
//! what the interactive prompt does with a command.

use vstd::prelude::*;
use crate::config::OutputMode;
use crate::mindmap::{edge_list, entry_views, join_spec, pair_views, string_views, EntryView, Mindmap, Node, NodeView};
use crate::nav::{opt_view, Command};
use crate::text::{
    chars_of, eq_str, find_char, find_char_from, lemma_find_char, string_of, strip_all_prefix,
    strip_all_prefix_str, strip_all_suffix_char, strip_all_suffix_char_of, subslice,
};

verus! {

/// The host part of a URL used as a bookmark title: scheme prefixes
/// `http://` and `https://` and trailing slashes removed, then everything
/// up to the first `/`.
pub open spec fn title_from_url_spec(url: Seq<char>) -> Seq<char> {
    let a = strip_all_prefix(url, "http://"@);
    let b = strip_all_prefix(a, "https://"@);
    let c = strip_all_suffix_char(b, '/');
    c.take(find_char(c, '/') as int)
}

/// A title taken from a URL holds no `/`.
pub proof fn law_title_has_no_slash(url: Seq<char>)
    ensures
        !title_from_url_spec(url).contains('/'),
{
    let c = strip_all_suffix_char(strip_all_prefix(strip_all_prefix(url, "http://"@), "https://"@), '/');
    lemma_find_char(c, '/');
    let t = title_from_url_spec(url);
    if t.contains('/') {
        let i = choose|i: int| 0 <= i < t.len() && t[i] == '/';
        assert(c[i] == '/');
    }
}

pub fn title_from_url(url: &str) -> (res: String)
    ensures
        res@ == title_from_url_spec(url@),
{
    let uc = chars_of(url);
    let a = strip_all_prefix_str(uc.as_slice(), "http://");
    let b = strip_all_prefix_str(a.as_slice(), "https://");
    let c = strip_all_suffix_char_of(b.as_slice(), '/');
    let i = find_char_from(c.as_slice(), 0, '/');
    assert(c@.skip(0) == c@);
    proof {
        lemma_find_char(c@, '/');
    }
    string_of(subslice(c.as_slice(), 0, i).as_slice())
}

/// The subcommands of the program.
#[derive(Debug, Clone, PartialEq)]
pub enum Subcommand {
    BookmarkAdd,
    Bookmarks,
    Render,
    Open,
    Help,
    Unknown(String),
}

/// The subcommand named by the first argument (none: open).
pub open spec fn subcommand_spec(first: Option<Seq<char>>) -> Subcommand {
    match first {
        None => Subcommand::Open,
        Some(a) => if a == "bookmark-add"@ || a == "ba"@ {
            Subcommand::BookmarkAdd
        } else if a == "bookmarks"@ || a == "bm"@ {
            Subcommand::Bookmarks
        } else if a == "render"@ || a == "r"@ {
            Subcommand::Render
        } else if a == "open"@ || a == "o"@ {
            Subcommand::Open
        } else if a == "help"@ || a == "-h"@ || a == "--help"@ {
            Subcommand::Help
        } else {
            Subcommand::Unknown(arbitrary())
        },
    }
}

pub fn parse_subcommand(first: Option<&str>) -> (res: Subcommand)
    ensures
        match res {
            Subcommand::Unknown(s) => subcommand_spec(opt_str_view(first)) is Unknown && Some(s@)
                == opt_str_view(first),
            other => subcommand_spec(opt_str_view(first)) == other,
        },
{
    match first {
        None => Subcommand::Open,
        Some(a) => {
            let ac = chars_of(a);
            let s = ac.as_slice();
            if eq_str(s, "bookmark-add") || eq_str(s, "ba") {
                Subcommand::BookmarkAdd
            } else if eq_str(s, "bookmarks") || eq_str(s, "bm") {
                Subcommand::Bookmarks
            } else if eq_str(s, "render") || eq_str(s, "r") {
                Subcommand::Render
            } else if eq_str(s, "open") || eq_str(s, "o") {
                Subcommand::Open
            } else if eq_str(s, "help") || eq_str(s, "-h") || eq_str(s, "--help") {
                Subcommand::Help
            } else {
                Subcommand::Unknown(a.to_string())
            }
        },
    }
}

/// The view of an optional `&str`.
pub open spec fn opt_str_view(o: Option<&str>) -> Option<Seq<char>> {
    match o {
        Some(s) => Some(s@),
        None => None,
    }
}

/// The URL that the `open` subcommand loads, given all the arguments
/// (`[open|o] [URL]`, subcommand included): the second argument, else the
/// start page.
pub open spec fn open_target_spec(args: Seq<Seq<char>>, start_page: Seq<char>) -> Seq<char> {
    if args.len() > 1 {
        args[1]
    } else {
        start_page
    }
}

pub fn open_target(args: &Vec<String>, start_page: &str) -> (res: String)
    ensures
        res@ == open_target_spec(string_views(args@), start_page@),
{
    if args.len() > 1 {
        args[1].clone()
    } else {
        start_page.to_string()
    }
}

/// The URL that the `render` subcommand loads, given the arguments after
/// the subcommand: the first one, else the start page.
pub open spec fn render_target_spec(args: Seq<Seq<char>>, start_page: Seq<char>) -> Seq<char> {
    if args.len() > 0 {
        args[0]
    } else {
        start_page
    }
}

pub fn render_target(args: &Vec<String>, start_page: &str) -> (res: String)
    ensures
        res@ == render_target_spec(string_views(args@), start_page@),
{
    if args.len() > 0 {
        args[0].clone()
    } else {
        start_page.to_string()
    }
}

/// The output mode: the `SERVERBROWSER_OUTPUT` value when it names a mode,
/// the configured one otherwise.
pub open spec fn output_mode_spec(env: Option<Seq<char>>, configured: OutputMode) -> OutputMode {
    match env {
        Some(v) => if v == "kitty"@ {
            OutputMode::Kitty
        } else if v == "sixel"@ {
            OutputMode::Sixel
        } else if v == "blocks"@ {
            OutputMode::Blocks
        } else if v == "text"@ {
            OutputMode::Text
        } else {
            configured
        },
        None => configured,
    }
}

pub fn output_mode_for(env: Option<&str>, configured: OutputMode) -> (res: OutputMode)
    ensures
        res == output_mode_spec(opt_str_view(env), configured),
{
    match env {
        Some(v) => {
            let vc = chars_of(v);
            let s = vc.as_slice();
            if eq_str(s, "kitty") {
                OutputMode::Kitty
            } else if eq_str(s, "sixel") {
                OutputMode::Sixel
            } else if eq_str(s, "blocks") {
                OutputMode::Blocks
            } else if eq_str(s, "text") {
                OutputMode::Text
            } else {
                configured
            }
        },
        None => configured,
    }
}

/// One line of the bookmark listing:
/// `  [id] title  url  -> links: a, b` (the links part only when there are links).
pub open spec fn bookmark_line_spec(id: Seq<char>, n: NodeView) -> Seq<char> {
    "  ["@ + id + "] "@ + n.title + "  "@ + (match n.url {
        Some(u) => u,
        None => Seq::empty(),
    }) + if n.links.len() == 0 {
        Seq::empty()
    } else {
        "  -> links: "@ + join_spec(n.links, ", "@)
    }
}

pub fn bookmark_line(id: &str, node: &Node) -> (res: String)
    ensures
        res@ == bookmark_line_spec(id@, node@),
{
    let mut s = String::new();
    s.append("  [");
    s.append(id);
    s.append("] ");
    s.append(node.title.as_str());
    s.append("  ");
    match &node.url {
        Some(u) => s.append(u.as_str()),
        None => {},
    }
    let ghost b = s@;
    if node.links.len() > 0 {
        s.append("  -> links: ");
        let ghost lv = string_views(node.links@);
        let mut i: usize = 0;
        while i < node.links.len()
            invariant
                0 <= i <= node.links@.len(),
                node.links@.len() > 0,
                lv == string_views(node.links@),
                i > 0 ==> s@ == b + "  -> links: "@ + join_spec(lv.take(i as int), ", "@),
                i == 0 ==> s@ == b + "  -> links: "@,
            decreases node.links.len() - i,
        {
            assert(lv.take(i + 1).drop_last() == lv.take(i as int));
            assert(lv.take(i + 1).last() == node.links@[i as int]@);
            if i > 0 {
                s.append(", ");
            }
            s.append(node.links[i].as_str());
            assert(i == 0 ==> lv.take(1) == seq![lv[0]]);
            i = i + 1;
        }
        assert(lv.take(node.links@.len() as int) == lv);
    }
    s
}

/// One line of the edge listing: `  a <-> b`.
pub fn edge_line(a: &str, b: &str) -> (res: String)
    ensures
        res@ == "  "@ + a@ + " <-> "@ + b@,
{
    let mut s = String::new();
    s.append("  ");
    s.append(a);
    s.append(" <-> ");
    s.append(b);
    s
}

/// What the interactive prompt does with a command.
#[derive(Debug, Clone, PartialEq)]
pub enum Step {
    Quit,
    Load(String),
    Back,
    Forward,
    Reload,
    Bookmark { url: Option<String>, parent: Option<String> },
    NotHandled,
}

/// The prompt's step for each command: quit, open (in any tab), history,
/// reload, bookmark-add; anything else is not handled.
pub open spec fn step_matches(cmd: Command, step: Step) -> bool {
    match cmd {
        Command::Quit => step == Step::Quit,
        Command::Open { url, .. } => step matches Step::Load(u) && u@ == url@,
        Command::Back => step == Step::Back,
        Command::Forward => step == Step::Forward,
        Command::Reload => step == Step::Reload,
        Command::BookmarkAdd { url, parent } => step matches Step::Bookmark { url: u, parent: p }
            && opt_view(u) == opt_view(url) && opt_view(p) == opt_view(parent),
        _ => step == Step::NotHandled,
    }
}

pub fn interactive_step(cmd: Command) -> (res: Step)
    ensures
        step_matches(cmd, res),
{
    match cmd {
        Command::Quit => Step::Quit,
        Command::Open { url, .. } => Step::Load(url),
        Command::Back => Step::Back,
        Command::Forward => Step::Forward,
        Command::Reload => Step::Reload,
        Command::BookmarkAdd { url, parent } => Step::Bookmark { url, parent },
        _ => Step::NotHandled,
    }
}

/// The (title, url) of a bookmark added from the prompt: the given URL, else
/// the current page's, else empty; the page title, else the URL.
pub open spec fn bookmark_target_spec(
    given: Option<Seq<char>>,
    current_url: Option<Seq<char>>,
    current_title: Option<Seq<char>>,
) -> (Seq<char>, Seq<char>) {
    let u = match given {
        Some(u) => u,
        None => match current_url {
            Some(c) => c,
            None => Seq::empty(),
        },
    };
    let t = match current_title {
        Some(t) => t,
        None => u,
    };
    (t, u)
}

pub fn bookmark_target(given: Option<String>, current_url: Option<String>, current_title: Option<String>) -> (res: (String, String))
    ensures
        (res.0@, res.1@) == bookmark_target_spec(
            opt_view(given),
            opt_view(current_url),
            opt_view(current_title),
        ),
{
    let u = match given {
        Some(u) => u,
        None => match current_url {
            Some(c) => c,
            None => String::new(),
        },
    };
    let t = match current_title {
        Some(t) => t,
        None => u.clone(),
    };
    (t, u)
}


/// The node lines of the bookmark listing, one per entry in key order.
pub open spec fn node_lines(es: Seq<EntryView>) -> Seq<char>
    decreases es.len(),
{
    if es.len() == 0 {
        Seq::empty()
    } else {
        node_lines(es.drop_last()) + bookmark_line_spec(es.last().0, es.last().1) + "\n"@
    }
}

/// The edge lines of the bookmark listing.
pub open spec fn edge_lines(edges: Seq<(Seq<char>, Seq<char>)>) -> Seq<char>
    decreases edges.len(),
{
    if edges.len() == 0 {
        Seq::empty()
    } else {
        edge_lines(edges.drop_last()) + "  "@ + edges.last().0 + " <-> "@ + edges.last().1 + "\n"@
    }
}

/// What the `bookmarks` command prints for the nodes `es` and the edges
/// `edges` of the vault `dir`.
pub open spec fn listing_spec(es: Seq<EntryView>, edges: Seq<(Seq<char>, Seq<char>)>, dir: Seq<char>) -> Seq<char> {
    if es.len() == 0 {
        "no bookmarks yet in "@ + dir + "\n"@
    } else {
        "Bookmarks (mindmap nodes) in "@ + dir + ":\n\n"@ + node_lines(es) + if edges.len() == 0 {
            Seq::empty()
        } else {
            "\nEdges (for the future minimap):\n"@ + edge_lines(edges)
        }
    }
}

/// The text of the `bookmarks` command: the nodes of `m`, then its edges.
pub fn bookmark_listing(m: &Mindmap, vault_dir: &str) -> (res: String)
    ensures
        res@ == listing_spec(m.nodes@, edge_list(m.nodes@), vault_dir@),
{
    let edges = m.edges();
    let es = m.nodes.entries();
    let mut s = String::new();
    if es.len() == 0 {
        s.append("no bookmarks yet in ");
        s.append(vault_dir);
        s.append("\n");
        return s;
    }
    s.append("Bookmarks (mindmap nodes) in ");
    s.append(vault_dir);
    s.append(":\n\n");
    let ghost head = s@;
    let ghost ev = m.nodes@;
    let mut i: usize = 0;
    assert(ev.take(0) =~= Seq::<EntryView>::empty());
    while i < es.len()
        invariant
            i <= ev.len(),
            ev == entry_views(es@),
            s@ == head + node_lines(ev.take(i as int)),
        decreases es.len() - i,
    {
        assert(ev.take(i + 1).drop_last() == ev.take(i as int));
        assert(ev.take(i + 1).last() == ev[i as int]);
        let line = bookmark_line(es[i].0.as_str(), &es[i].1);
        s.append(line.as_str());
        s.append("\n");
        i = i + 1;
    }
    assert(ev.take(ev.len() as int) == ev);
    let ghost pv = pair_views(edges@);
    if edges.len() > 0 {
        s.append("\nEdges (for the future minimap):\n");
        let ghost mid = s@;
        let mut j: usize = 0;
        assert(pv.take(0) =~= Seq::<(Seq<char>, Seq<char>)>::empty());
        while j < edges.len()
            invariant
                j <= pv.len(),
                pv == pair_views(edges@),
                s@ == mid + edge_lines(pv.take(j as int)),
            decreases edges.len() - j,
        {
            assert(pv.take(j + 1).drop_last() == pv.take(j as int));
            assert(pv.take(j + 1).last() == pv[j as int]);
            let line = edge_line(edges[j].0.as_str(), edges[j].1.as_str());
            s.append(line.as_str());
            s.append("\n");
            j = j + 1;
        }
        assert(pv.take(pv.len() as int) == pv);
    }
    s
}

} // verus!
