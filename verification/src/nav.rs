//! qutebrowser-style navigation: `:` command parsing and key dispatch.
//!
//! Two modes, as in qutebrowser: in "normal" mode key sequences map to
//! commands through a keymap with prefix matching (`g` waits for `gg`); in
//! "command" mode a `:` prompt such as `:open URL` is parsed into a command.

use vstd::prelude::*;
use crate::config::{
    binding_views, bindings_for, duplicate_bindings, Config, KeyBinding, KeyBindingView,
};
use crate::text::{
    chars_of, eq_str, is_whitespace, parse_i32, parse_i32_spec, parse_u32, parse_u32_spec,
    split_whitespace, string_of, strip_all_prefix_char, strip_all_prefix_char_of, strip_prefix_str,
    subslice, trim, trim_chars, views, word_len, words, is_ws, trim_start, trim_end, lemma_trim_start,
    lemma_trim_start_ws_prefix, lemma_trim_end_ws_suffix, lemma_trim_end_cons,
    lemma_trim_end_idempotent, lemma_trim_commute,
};

verus! {

/// The argument of a `zoom` command. Its value is the decimal `text` read as
/// a float: when `negate` holds, minus that value (0 when `text` is not a
/// number); otherwise the value itself (1 when `text` is not a number).
#[derive(Debug, Clone, PartialEq)]
pub struct ZoomFactor {
    pub text: String,
    pub negate: bool,
}

/// A parsed command from `:` mode, or a built-in action from a keybinding.
#[derive(Debug, Clone, PartialEq)]
pub enum Command {
    Open { url: String, tab: bool },
    OpenUrl { url: String },
    Back,
    Forward,
    Reload,
    Quit,
    Scroll { dx: i32, dy: i32 },
    ScrollToPerc { perc: u32 },
    TabNext,
    TabPrev,
    TabClose,
    TabUndo,
    Hint,
    BookmarkAdd { url: Option<String>, parent: Option<String> },
    Bookmarks,
    Yank,
    Zoom { factor: ZoomFactor },
    SetCmdText { text: String },
    /// Key sequence that didn't map to a command.
    Unbound { keys: String },
    /// A `:` command string that didn't parse.
    Unknown { raw: String },
}

pub enum CommandView {
    Open { url: Seq<char>, tab: bool },
    OpenUrl { url: Seq<char> },
    Back,
    Forward,
    Reload,
    Quit,
    Scroll { dx: i32, dy: i32 },
    ScrollToPerc { perc: u32 },
    TabNext,
    TabPrev,
    TabClose,
    TabUndo,
    Hint,
    BookmarkAdd { url: Option<Seq<char>>, parent: Option<Seq<char>> },
    Bookmarks,
    Yank,
    Zoom { text: Seq<char>, negate: bool },
    SetCmdText { text: Seq<char> },
    Unbound { keys: Seq<char> },
    Unknown { raw: Seq<char> },
}

/// The view of an optional string.
pub open spec fn opt_view(o: Option<String>) -> Option<Seq<char>> {
    match o {
        Some(s) => Some(s@),
        None => None,
    }
}

impl View for Command {
    type V = CommandView;

    open spec fn view(&self) -> CommandView {
        match self {
            Command::Open { url, tab } => CommandView::Open { url: url@, tab: *tab },
            Command::OpenUrl { url } => CommandView::OpenUrl { url: url@ },
            Command::Back => CommandView::Back,
            Command::Forward => CommandView::Forward,
            Command::Reload => CommandView::Reload,
            Command::Quit => CommandView::Quit,
            Command::Scroll { dx, dy } => CommandView::Scroll { dx: *dx, dy: *dy },
            Command::ScrollToPerc { perc } => CommandView::ScrollToPerc { perc: *perc },
            Command::TabNext => CommandView::TabNext,
            Command::TabPrev => CommandView::TabPrev,
            Command::TabClose => CommandView::TabClose,
            Command::TabUndo => CommandView::TabUndo,
            Command::Hint => CommandView::Hint,
            Command::BookmarkAdd { url, parent } => CommandView::BookmarkAdd {
                url: opt_view(*url),
                parent: opt_view(*parent),
            },
            Command::Bookmarks => CommandView::Bookmarks,
            Command::Yank => CommandView::Yank,
            Command::Zoom { factor } => CommandView::Zoom {
                text: factor.text@,
                negate: factor.negate,
            },
            Command::SetCmdText { text } => CommandView::SetCmdText { text: text@ },
            Command::Unbound { keys } => CommandView::Unbound { keys: keys@ },
            Command::Unknown { raw } => CommandView::Unknown { raw: raw@ },
        }
    }
}

/// A navigation input: a command-mode prompt (`:`...) or a raw key sequence
/// in normal mode.
#[derive(Debug, Clone)]
pub enum Input {
    Command(String),
    Keys(String),
}

/// `(dx, dy)` from the `dx=N` / `dy=N` tokens of a `:scroll` command; a later
/// token overrides an earlier one, and a value that is not an `i32` counts
/// as 0.
pub open spec fn scroll_args(toks: Seq<Seq<char>>) -> (i32, i32)
    decreases toks.len(),
{
    if toks.len() == 0 {
        (0, 0)
    } else {
        let (dx, dy) = scroll_args(toks.drop_last());
        let t = toks.last();
        if "dx="@.is_prefix_of(t) {
            (
                match parse_i32_spec(t.skip("dx="@.len() as int)) {
                    Some(v) => v,
                    None => 0,
                },
                dy,
            )
        } else if "dy="@.is_prefix_of(t) {
            (
                dx,
                match parse_i32_spec(t.skip("dy="@.len() as int)) {
                    Some(v) => v,
                    None => 0,
                },
            )
        } else {
            (dx, dy)
        }
    }
}

/// The command line with surrounding whitespace and leading `:`s removed.
pub open spec fn command_line(raw: Seq<char>) -> Seq<char> {
    trim(strip_all_prefix_char(trim(raw), ':'))
}

/// The command name: the line up to its first whitespace.
pub open spec fn command_name(raw: Seq<char>) -> Seq<char> {
    let r = command_line(raw);
    r.take(word_len(r) as int)
}

/// The arguments: the rest of the line after the name, trimmed.
pub open spec fn command_args(raw: Seq<char>) -> Seq<char> {
    let r = command_line(raw);
    trim(r.skip(word_len(r) as int))
}

/// What `parse_command` makes of a `:` command line.
pub open spec fn parse_command_spec(raw: Seq<char>) -> CommandView {
    let cmd = command_name(raw);
    let args = command_args(raw);
    if cmd == "open"@ || cmd == "o"@ {
        if "-t "@.is_prefix_of(args) {
            CommandView::Open { url: args.skip("-t "@.len() as int), tab: true }
        } else {
            CommandView::Open { url: args, tab: false }
        }
    } else if cmd == "back"@ || cmd == "b"@ {
        CommandView::Back
    } else if cmd == "forward"@ || cmd == "f"@ {
        CommandView::Forward
    } else if cmd == "reload"@ || cmd == "r"@ {
        CommandView::Reload
    } else if cmd == "quit"@ || cmd == "q"@ || cmd == "exit"@ {
        CommandView::Quit
    } else if cmd == "scroll"@ {
        let (dx, dy) = scroll_args(words(args));
        CommandView::Scroll { dx, dy }
    } else if cmd == "scroll-to-perc"@ || cmd == "G"@ {
        CommandView::ScrollToPerc {
            perc: match parse_u32_spec(args) {
                Some(v) => v,
                None => 100,
            },
        }
    } else if cmd == "tab-next"@ || cmd == "gt"@ {
        CommandView::TabNext
    } else if cmd == "tab-prev"@ || cmd == "gT"@ {
        CommandView::TabPrev
    } else if cmd == "tab-close"@ || cmd == "d"@ {
        CommandView::TabClose
    } else if cmd == "tab-undo"@ || cmd == "u"@ {
        CommandView::TabUndo
    } else if cmd == "hint"@ {
        CommandView::Hint
    } else if cmd == "bookmark-add"@ {
        let ws = words(args);
        CommandView::BookmarkAdd {
            url: if ws.len() > 0 {
                Some(ws[0])
            } else {
                None
            },
            parent: if ws.len() > 1 {
                Some(ws[1])
            } else {
                None
            },
        }
    } else if cmd == "bookmarks"@ {
        CommandView::Bookmarks
    } else if cmd == "yank"@ {
        CommandView::Yank
    } else if cmd == "zoom"@ {
        CommandView::Zoom { text: args, negate: false }
    } else if cmd == "set-cmd-text"@ {
        CommandView::SetCmdText { text: args }
    } else if cmd.len() == 0 {
        CommandView::SetCmdText { text: Seq::empty() }
    } else {
        CommandView::Unknown { raw: cmd }
    }
}

fn scroll_from_tokens(toks: &Vec<Vec<char>>) -> (res: (i32, i32))
    ensures
        res == scroll_args(views(toks@)),
{
    let mut dx: i32 = 0;
    let mut dy: i32 = 0;
    let mut i: usize = 0;
    assert(views(toks@).take(0) == Seq::<Seq<char>>::empty());
    while i < toks.len()
        invariant
            i <= toks@.len(),
            (dx, dy) == scroll_args(views(toks@).take(i as int)),
        decreases toks.len() - i,
    {
        let tok = &toks[i];
        assert(views(toks@).take(i + 1).drop_last() == views(toks@).take(i as int));
        assert(views(toks@).take(i + 1).last() == tok@);
        match strip_prefix_str(tok.as_slice(), "dx=") {
            Some(v) => {
                dx = match parse_i32(v.as_slice()) {
                    Some(n) => n,
                    None => 0,
                };
            },
            None => {
                match strip_prefix_str(tok.as_slice(), "dy=") {
                    Some(v) => {
                        dy = match parse_i32(v.as_slice()) {
                            Some(n) => n,
                            None => 0,
                        };
                    },
                    None => {},
                }
            },
        }
        i = i + 1;
    }
    assert(views(toks@).take(toks@.len() as int) == views(toks@));
    (dx, dy)
}

/// Parse a `:` command line into a [`Command`].
pub fn parse_command(raw: &str) -> (res: Command)
    ensures
        res@ == parse_command_spec(raw@),
{
    let rc = chars_of(raw);
    let t0 = trim_chars(rc.as_slice());
    let t1 = strip_all_prefix_char_of(t0.as_slice(), ':');
    let r = trim_chars(t1.as_slice());
    let mut n: usize = 0;
    assert(r@.skip(0) == r@);
    while n < r.len() && !is_whitespace(r[n])
        invariant
            n <= r@.len(),
            word_len(r@) == n + word_len(r@.skip(n as int)),
        decreases r.len() - n,
    {
        assert(r@.skip(n + 1) == r@.skip(n as int).drop_first());
        n = n + 1;
    }
    assert(word_len(r@) == n);
    let cmd = subslice(r.as_slice(), 0, n);
    let rest = subslice(r.as_slice(), n, r.len());
    let args = trim_chars(rest.as_slice());
    assert(cmd@ == command_name(raw@));
    assert(args@ == command_args(raw@));
    let c = cmd.as_slice();
    if eq_str(c, "open") || eq_str(c, "o") {
        match strip_prefix_str(args.as_slice(), "-t ") {
            Some(url) => Command::Open { url: string_of(url.as_slice()), tab: true },
            None => Command::Open { url: string_of(args.as_slice()), tab: false },
        }
    } else if eq_str(c, "back") || eq_str(c, "b") {
        Command::Back
    } else if eq_str(c, "forward") || eq_str(c, "f") {
        Command::Forward
    } else if eq_str(c, "reload") || eq_str(c, "r") {
        Command::Reload
    } else if eq_str(c, "quit") || eq_str(c, "q") || eq_str(c, "exit") {
        Command::Quit
    } else if eq_str(c, "scroll") {
        let toks = split_whitespace(args.as_slice());
        let (dx, dy) = scroll_from_tokens(&toks);
        Command::Scroll { dx, dy }
    } else if eq_str(c, "scroll-to-perc") || eq_str(c, "G") {
        let perc = match parse_u32(args.as_slice()) {
            Some(v) => v,
            None => 100,
        };
        Command::ScrollToPerc { perc }
    } else if eq_str(c, "tab-next") || eq_str(c, "gt") {
        Command::TabNext
    } else if eq_str(c, "tab-prev") || eq_str(c, "gT") {
        Command::TabPrev
    } else if eq_str(c, "tab-close") || eq_str(c, "d") {
        Command::TabClose
    } else if eq_str(c, "tab-undo") || eq_str(c, "u") {
        Command::TabUndo
    } else if eq_str(c, "hint") {
        Command::Hint
    } else if eq_str(c, "bookmark-add") {
        let ws = split_whitespace(args.as_slice());
        let url = if ws.len() > 0 {
            Some(string_of(ws[0].as_slice()))
        } else {
            None
        };
        let parent = if ws.len() > 1 {
            Some(string_of(ws[1].as_slice()))
        } else {
            None
        };
        Command::BookmarkAdd { url, parent }
    } else if eq_str(c, "bookmarks") {
        Command::Bookmarks
    } else if eq_str(c, "yank") {
        Command::Yank
    } else if eq_str(c, "zoom") {
        Command::Zoom { factor: ZoomFactor { text: string_of(args.as_slice()), negate: false } }
    } else if eq_str(c, "set-cmd-text") {
        Command::SetCmdText { text: string_of(args.as_slice()) }
    } else if c.len() == 0 {
        Command::SetCmdText { text: String::new() }
    } else {
        Command::Unknown { raw: string_of(c) }
    }
}


/// The `n`-th whitespace-separated word of `s`, if there is one.
pub open spec fn nth_word(s: Seq<char>, n: int) -> Option<Seq<char>> {
    if 0 <= n < words(s).len() {
        Some(words(s)[n])
    } else {
        None
    }
}

/// The zoom argument of a keybinding: `+X` reads X (default 1), `-X` reads
/// minus X (default 0), anything else reads itself (default 1).
pub open spec fn zoom_token_spec(arg: Seq<char>) -> CommandView {
    if arg.len() > 0 && arg[0] == '+' {
        CommandView::Zoom { text: arg.drop_first(), negate: false }
    } else if arg.len() > 0 && arg[0] == '-' {
        CommandView::Zoom { text: arg.drop_first(), negate: true }
    } else {
        CommandView::Zoom { text: arg, negate: false }
    }
}

/// What a keybinding's command token (e.g. "scroll down") stands for.
pub open spec fn parse_command_token_spec(token: Seq<char>) -> CommandView {
    let name = match nth_word(token, 0) {
        Some(w) => w,
        None => Seq::empty(),
    };
    let arg = nth_word(token, 1);
    if name == "scroll"@ {
        let dir = match arg {
            Some(w) => w,
            None => Seq::empty(),
        };
        let dy: i32 = if dir == "down"@ {
            200
        } else if dir == "up"@ {
            -200i32
        } else {
            0
        };
        let dx: i32 = if dir == "left"@ {
            -100i32
        } else if dir == "right"@ {
            100
        } else {
            0
        };
        CommandView::Scroll { dx, dy }
    } else if name == "scroll-to-perc"@ {
        CommandView::ScrollToPerc {
            perc: match arg {
                Some(w) => match parse_u32_spec(w) {
                    Some(v) => v,
                    None => 0,
                },
                None => 0,
            },
        }
    } else if name == "tab-next"@ {
        CommandView::TabNext
    } else if name == "tab-prev"@ {
        CommandView::TabPrev
    } else if name == "tab-close"@ {
        CommandView::TabClose
    } else if name == "tab-undo"@ {
        CommandView::TabUndo
    } else if name == "reload"@ {
        CommandView::Reload
    } else if name == "back"@ {
        CommandView::Back
    } else if name == "forward"@ {
        CommandView::Forward
    } else if name == "hint"@ {
        CommandView::Hint
    } else if name == "set-cmd-text"@ {
        CommandView::SetCmdText {
            text: if "set-cmd-text "@.is_prefix_of(token) {
                token.skip("set-cmd-text "@.len() as int)
            } else {
                Seq::empty()
            },
        }
    } else if name == "yank"@ {
        CommandView::Yank
    } else if name == "quit"@ {
        CommandView::Quit
    } else if name == "zoom"@ {
        zoom_token_spec(
            match arg {
                Some(w) => w,
                None => "1"@,
            },
        )
    } else {
        CommandView::Unknown { raw: token }
    }
}

fn zoom_from_token(arg: &[char]) -> (res: Command)
    ensures
        res@ == zoom_token_spec(arg@),
{
    if arg.len() > 0 && arg[0] == '+' {
        let rest = subslice(arg, 1, arg.len());
        assert(rest@ == arg@.drop_first());
        Command::Zoom { factor: ZoomFactor { text: string_of(rest.as_slice()), negate: false } }
    } else if arg.len() > 0 && arg[0] == '-' {
        let rest = subslice(arg, 1, arg.len());
        assert(rest@ == arg@.drop_first());
        Command::Zoom { factor: ZoomFactor { text: string_of(rest.as_slice()), negate: true } }
    } else {
        Command::Zoom { factor: ZoomFactor { text: string_of(arg), negate: false } }
    }
}

/// Parse the command token of a keybinding (the right-hand side, e.g.
/// "scroll down" or "zoom +0.1").
pub fn parse_command_token(token: &str) -> (res: Command)
    ensures
        res@ == parse_command_token_spec(token@),
{
    let tc = chars_of(token);
    let ws = split_whitespace(tc.as_slice());
    let empty: Vec<char> = Vec::new();
    let name: &Vec<char> = if ws.len() > 0 {
        &ws[0]
    } else {
        &empty
    };
    let has_arg = ws.len() > 1;
    let n = name.as_slice();
    if eq_str(n, "scroll") {
        let dir: &Vec<char> = if has_arg {
            &ws[1]
        } else {
            &empty
        };
        let d = dir.as_slice();
        let dy: i32 = if eq_str(d, "down") {
            200
        } else if eq_str(d, "up") {
            -200
        } else {
            0
        };
        let dx: i32 = if eq_str(d, "left") {
            -100
        } else if eq_str(d, "right") {
            100
        } else {
            0
        };
        Command::Scroll { dx, dy }
    } else if eq_str(n, "scroll-to-perc") {
        let perc = if has_arg {
            match parse_u32(ws[1].as_slice()) {
                Some(v) => v,
                None => 0,
            }
        } else {
            0
        };
        Command::ScrollToPerc { perc }
    } else if eq_str(n, "tab-next") {
        Command::TabNext
    } else if eq_str(n, "tab-prev") {
        Command::TabPrev
    } else if eq_str(n, "tab-close") {
        Command::TabClose
    } else if eq_str(n, "tab-undo") {
        Command::TabUndo
    } else if eq_str(n, "reload") {
        Command::Reload
    } else if eq_str(n, "back") {
        Command::Back
    } else if eq_str(n, "forward") {
        Command::Forward
    } else if eq_str(n, "hint") {
        Command::Hint
    } else if eq_str(n, "set-cmd-text") {
        let text = match strip_prefix_str(tc.as_slice(), "set-cmd-text ") {
            Some(rest) => string_of(rest.as_slice()),
            None => String::new(),
        };
        Command::SetCmdText { text }
    } else if eq_str(n, "yank") {
        Command::Yank
    } else if eq_str(n, "quit") {
        Command::Quit
    } else if eq_str(n, "zoom") {
        if has_arg {
            zoom_from_token(ws[1].as_slice())
        } else {
            let one = chars_of("1");
            zoom_from_token(one.as_slice())
        }
    } else {
        Command::Unknown { raw: string_of(tc.as_slice()) }
    }
}

/// Result of feeding keys through the keymap.
#[derive(Debug, Clone)]
pub enum Outcome {
    Command(Command),
    /// A partial multi-key prefix that needs more input (e.g. "g" before "g").
    Pending(String),
    Unbound(String),
}

pub enum OutcomeView {
    Command(CommandView),
    Pending(Seq<char>),
    Unbound(Seq<char>),
}

impl View for Outcome {
    type V = OutcomeView;

    open spec fn view(&self) -> OutcomeView {
        match self {
            Outcome::Command(c) => OutcomeView::Command(c@),
            Outcome::Pending(s) => OutcomeView::Pending(s@),
            Outcome::Unbound(s) => OutcomeView::Unbound(s@),
        }
    }
}

/// The command of the first binding whose key is `keys`.
pub open spec fn first_binding(bs: Seq<KeyBindingView>, keys: Seq<char>) -> Option<Seq<char>>
    decreases bs.len(),
{
    if bs.len() == 0 {
        None
    } else if bs[0].key == keys {
        Some(bs[0].command)
    } else {
        first_binding(bs.drop_first(), keys)
    }
}

/// Whether `keys` begins some binding's key.
pub open spec fn begins_binding(bs: Seq<KeyBindingView>, keys: Seq<char>) -> bool {
    exists|i: int| 0 <= i < bs.len() && keys.is_prefix_of(#[trigger] bs[i].key)
}

/// The key sequence that a feed looks up: the pending prefix, then the new keys.
pub open spec fn feed_sequence(pending: Option<Seq<char>>, keys: Seq<char>) -> Seq<char> {
    match pending {
        Some(p) => p + keys,
        None => keys,
    }
}

/// What looking up `seq` in the bindings `bs` gives.
pub open spec fn lookup_outcome(bs: Seq<KeyBindingView>, seq: Seq<char>) -> OutcomeView {
    match first_binding(bs, seq) {
        Some(cmd) => OutcomeView::Command(parse_command_token_spec(cmd)),
        None => if begins_binding(bs, seq) {
            OutcomeView::Pending(seq)
        } else {
            OutcomeView::Unbound(seq)
        },
    }
}

/// A pending prefix can still complete: some binding's key is strictly
/// longer and begins with it.
pub proof fn law_pending_prefix_extends(bs: Seq<KeyBindingView>, seq: Seq<char>)
    requires
        lookup_outcome(bs, seq) is Pending,
    ensures
        exists|i: int|
            0 <= i < bs.len() && seq.is_prefix_of(#[trigger] bs[i].key) && bs[i].key.len() > seq.len(),
{
    let i = choose|i: int| 0 <= i < bs.len() && seq.is_prefix_of(#[trigger] bs[i].key);
    lemma_first_binding_none(bs, seq, i);
    if bs[i].key.len() == seq.len() {
        assert(bs[i].key =~= seq);
    }
}

proof fn lemma_first_binding_none(bs: Seq<KeyBindingView>, seq: Seq<char>, i: int)
    requires
        first_binding(bs, seq) is None,
        0 <= i < bs.len(),
    ensures
        bs[i].key != seq,
    decreases bs.len(),
{
    if i > 0 {
        lemma_first_binding_none(bs.drop_first(), seq, i - 1);
        assert(bs.drop_first()[i - 1] == bs[i]);
    }
}

/// Feeding keys after a pending prefix looks up the prefix and the keys
/// together, as if they had been fed at once.
pub proof fn law_pending_then_keys(bs: Seq<KeyBindingView>, prefix: Seq<char>, keys: Seq<char>)
    requires
        lookup_outcome(bs, prefix) is Pending,
    ensures
        lookup_outcome(bs, feed_sequence(Some(prefix), keys)) == lookup_outcome(
            bs,
            feed_sequence(None, prefix + keys),
        ),
{
}

pub struct KeymapView {
    pub normal: Seq<KeyBindingView>,
    pub pending: Option<Seq<char>>,
}

/// A keymap engine with prefix matching (like qutebrowser's `gg`).
pub struct Keymap {
    normal: Vec<KeyBinding>,
    /// Pending prefix (for `g` + `g` style bindings).
    pending: Option<String>,
}

impl View for Keymap {
    type V = KeymapView;

    closed spec fn view(&self) -> KeymapView {
        KeymapView { normal: binding_views(self.normal@), pending: opt_view(self.pending) }
    }
}

impl Keymap {
    /// A keymap over the "normal" bindings of `cfg` (none when it has none),
    /// with nothing pending.
    pub fn new(cfg: &Config) -> (res: Self)
        ensures
            res@.normal == match bindings_for(cfg.keybindings@, "normal"@) {
                Some(bs) => bs,
                None => Seq::empty(),
            },
            res@.pending is None,
    {
        let normal = match cfg.keybindings.get("normal") {
            Some(bs) => duplicate_bindings(bs),
            None => Vec::new(),
        };
        let k = Keymap { normal, pending: None };
        assert(binding_views(Seq::<KeyBinding>::empty()) =~= Seq::<KeyBindingView>::empty());
        k
    }

    fn find_binding(&self, seq: &[char]) -> (res: Option<usize>)
        ensures
            match res {
                Some(i) => i < self@.normal.len() && first_binding(self@.normal, seq@) == Some(
                    self@.normal[i as int].command,
                ),
                None => first_binding(self@.normal, seq@) is None,
            },
    {
        let ghost bs = self@.normal;
        let mut i: usize = 0;
        assert(bs.skip(0) == bs);
        while i < self.normal.len()
            invariant
                i <= bs.len(),
                bs == binding_views(self.normal@),
                first_binding(bs, seq@) == first_binding(bs.skip(i as int), seq@),
            decreases self.normal.len() - i,
        {
            let k = chars_of(self.normal[i].key.as_str());
            assert(bs.skip(i as int)[0] == bs[i as int]);
            if crate::text::eq_chars(k.as_slice(), seq) {
                return Some(i);
            }
            assert(bs.skip(i as int).drop_first() == bs.skip(i + 1));
            i = i + 1;
        }
        None
    }

    fn any_begins(&self, seq: &[char]) -> (res: bool)
        ensures
            res == begins_binding(self@.normal, seq@),
    {
        let ghost bs = self@.normal;
        let mut i: usize = 0;
        while i < self.normal.len()
            invariant
                i <= bs.len(),
                bs == binding_views(self.normal@),
                forall|j: int| 0 <= j < i ==> !seq@.is_prefix_of(#[trigger] bs[j].key),
            decreases self.normal.len() - i,
        {
            let k = chars_of(self.normal[i].key.as_str());
            let hit = match crate::text::strip_prefix(k.as_slice(), seq) {
                Some(_) => true,
                None => false,
            };
            if hit {
                assert(seq@.is_prefix_of(bs[i as int].key));
                return true;
            }
            i = i + 1;
        }
        false
    }

    /// Feed a key sequence and return the mapped command, or `Pending` when
    /// it begins a longer binding, or `Unbound`. A pending prefix from the
    /// previous feed is put in front of `keys`; the new prefix is kept only
    /// when the outcome is `Pending`.
    pub fn feed(&mut self, keys: &str) -> (res: Outcome)
        ensures
            res@ == lookup_outcome(old(self)@.normal, feed_sequence(old(self)@.pending, keys@)),
            final(self)@.normal == old(self)@.normal,
            final(self)@.pending == match res@ {
                OutcomeView::Pending(s) => Some(s),
                _ => None,
            },
    {
        let pending = self.pending.take();
        let seq: String = match pending {
            Some(p) => {
                let mut s = p;
                s.append(keys);
                s
            },
            None => keys.to_string(),
        };
        let sc = chars_of(seq.as_str());
        match self.find_binding(sc.as_slice()) {
            Some(i) => {
                let cmd = parse_command_token(self.normal[i].command.as_str());
                return Outcome::Command(cmd);
            },
            None => {},
        }
        if self.any_begins(sc.as_slice()) {
            self.pending = Some(seq.clone());
            return Outcome::Pending(seq);
        }
        Outcome::Unbound(seq)
    }

    /// Drop any pending prefix.
    pub fn reset(&mut self)
        ensures
            final(self)@.normal == old(self)@.normal,
            final(self)@.pending is None,
    {
        self.pending = None;
    }
}


proof fn lemma_trim_end_first(s: Seq<char>)
    ensures
        trim_end(s).len() > 0 ==> trim_end(s)[0] == s[0],
{
    if s.len() > 0 {
        assert(s == seq![s[0]] + s.drop_first());
        lemma_trim_end_cons(s[0], s.drop_first());
    }
}

/// The command line of a text that starts with a non-`:` (or is blank):
/// both ends trimmed.
proof fn lemma_command_line_plain(s: Seq<char>)
    requires
        !(trim_start(s).len() > 0 && trim_start(s)[0] == ':'),
    ensures
        command_line(s) == trim_end(trim_start(s)),
{
    let t = trim_start(s);
    lemma_trim_start(s);
    let y = trim_end(t);
    lemma_trim_end_first(t);
    assert(strip_all_prefix_char(y, ':') == y);
    lemma_trim_commute(y);
    assert(trim_start(t) == t);
    lemma_trim_commute(t);
    lemma_trim_end_idempotent(t);
}

/// A leading `:` and whitespace around the line (such as the newline that
/// reading a line keeps) never change the parsed command.
pub proof fn law_command_padding(w1: Seq<char>, s: Seq<char>, w2: Seq<char>)
    requires
        forall|i: int| 0 <= i < w1.len() ==> is_ws(#[trigger] w1[i]),
        forall|i: int| 0 <= i < w2.len() ==> is_ws(#[trigger] w2[i]),
        !(trim_start(s).len() > 0 && trim_start(s)[0] == ':'),
    ensures
        parse_command_spec(w1 + seq![':'] + s + w2) == parse_command_spec(s),
{
    let raw = w1 + seq![':'] + s + w2;
    let inner = seq![':'] + s;
    assert(raw == w1 + (inner + w2));
    lemma_trim_start_ws_prefix(w1, inner + w2);
    assert((inner + w2)[0] == ':');
    assert(trim_start(inner + w2) == inner + w2);
    lemma_trim_end_ws_suffix(inner, w2);
    lemma_trim_end_cons(':', s);
    let y = trim_end(s);
    assert(trim(raw) == seq![':'] + y);
    assert((seq![':'] + y).drop_first() == y);
    lemma_trim_end_first(s);
    lemma_trim_start(s);
    assert(y.len() > 0 ==> y[0] != ':') by {
        if y.len() > 0 && !is_ws(s[0]) {
            assert(trim_start(s) == s);
        }
    }
    assert(strip_all_prefix_char(y, ':') == y);
    assert(strip_all_prefix_char(seq![':'] + y, ':') == y);
    lemma_trim_commute(s);
    lemma_trim_start(s);
    assert(trim_start(trim_start(s)) == trim_start(s));
    lemma_trim_commute(trim_start(s));
    lemma_trim_end_idempotent(trim_start(s));
    assert(command_line(raw) == trim_end(trim_start(s)));
    lemma_command_line_plain(s);
}


/// A `:` command line is dispatched on its name, and each name and its
/// short alias stand for their command: `back`/`b`, `forward`/`f`,
/// `reload`/`r`, `quit`/`q`/`exit`, `tab-next`/`gt`, `tab-prev`/`gT`,
/// `tab-close`/`d`, `tab-undo`/`u`, `hint`, `bookmarks`, `yank`.
pub proof fn law_command_names(raw: Seq<char>)
    ensures
        ({
            let c = command_name(raw);
            let r = parse_command_spec(raw);
            &&& (c == "back"@ || c == "b"@) ==> r == CommandView::Back
            &&& (c == "forward"@ || c == "f"@) ==> r == CommandView::Forward
            &&& (c == "reload"@ || c == "r"@) ==> r == CommandView::Reload
            &&& (c == "quit"@ || c == "q"@ || c == "exit"@) ==> r == CommandView::Quit
            &&& (c == "tab-next"@ || c == "gt"@) ==> r == CommandView::TabNext
            &&& (c == "tab-prev"@ || c == "gT"@) ==> r == CommandView::TabPrev
            &&& (c == "tab-close"@ || c == "d"@) ==> r == CommandView::TabClose
            &&& (c == "tab-undo"@ || c == "u"@) ==> r == CommandView::TabUndo
            &&& c == "hint"@ ==> r == CommandView::Hint
            &&& c == "bookmarks"@ ==> r == CommandView::Bookmarks
            &&& c == "yank"@ ==> r == CommandView::Yank
        }),
{
    let c = command_name(raw);
    reveal_strlit("open");
    reveal_strlit("o");
    reveal_strlit("back");
    reveal_strlit("b");
    reveal_strlit("forward");
    reveal_strlit("f");
    reveal_strlit("reload");
    reveal_strlit("r");
    reveal_strlit("quit");
    reveal_strlit("q");
    reveal_strlit("exit");
    reveal_strlit("scroll");
    reveal_strlit("scroll-to-perc");
    reveal_strlit("G");
    reveal_strlit("tab-next");
    reveal_strlit("gt");
    reveal_strlit("tab-prev");
    reveal_strlit("gT");
    reveal_strlit("tab-close");
    reveal_strlit("d");
    reveal_strlit("tab-undo");
    reveal_strlit("u");
    reveal_strlit("hint");
    reveal_strlit("bookmark-add");
    reveal_strlit("bookmarks");
    reveal_strlit("yank");
    reveal_strlit("zoom");
    reveal_strlit("set-cmd-text");
    if c == "back"@ {
        assert(c.len() == 4);
        assert(c[0] == 'b' && "open"@[0] == 'o');
        assert(c != "open"@);
        assert(c != "o"@);
    }
    if c == "b"@ {
        assert(c.len() == 1);
        assert(c != "open"@);
        assert(c[0] == 'b' && "o"@[0] == 'o');
        assert(c != "o"@);
        assert(c != "back"@);
    }
    if c == "forward"@ {
        assert(c.len() == 7);
        assert(c != "open"@);
        assert(c != "o"@);
        assert(c != "back"@);
        assert(c != "b"@);
    }
    if c == "f"@ {
        assert(c.len() == 1);
        assert(c != "open"@);
        assert(c[0] == 'f' && "o"@[0] == 'o');
        assert(c != "o"@);
        assert(c != "back"@);
        assert(c[0] == 'f' && "b"@[0] == 'b');
        assert(c != "b"@);
        assert(c != "forward"@);
    }
    if c == "reload"@ {
        assert(c.len() == 6);
        assert(c != "open"@);
        assert(c != "o"@);
        assert(c != "back"@);
        assert(c != "b"@);
        assert(c != "forward"@);
        assert(c != "f"@);
    }
    if c == "r"@ {
        assert(c.len() == 1);
        assert(c != "open"@);
        assert(c[0] == 'r' && "o"@[0] == 'o');
        assert(c != "o"@);
        assert(c != "back"@);
        assert(c[0] == 'r' && "b"@[0] == 'b');
        assert(c != "b"@);
        assert(c != "forward"@);
        assert(c[0] == 'r' && "f"@[0] == 'f');
        assert(c != "f"@);
        assert(c != "reload"@);
    }
    if c == "quit"@ {
        assert(c.len() == 4);
        assert(c[0] == 'q' && "open"@[0] == 'o');
        assert(c != "open"@);
        assert(c != "o"@);
        assert(c[0] == 'q' && "back"@[0] == 'b');
        assert(c != "back"@);
        assert(c != "b"@);
        assert(c != "forward"@);
        assert(c != "f"@);
        assert(c != "reload"@);
        assert(c != "r"@);
    }
    if c == "q"@ {
        assert(c.len() == 1);
        assert(c != "open"@);
        assert(c[0] == 'q' && "o"@[0] == 'o');
        assert(c != "o"@);
        assert(c != "back"@);
        assert(c[0] == 'q' && "b"@[0] == 'b');
        assert(c != "b"@);
        assert(c != "forward"@);
        assert(c[0] == 'q' && "f"@[0] == 'f');
        assert(c != "f"@);
        assert(c != "reload"@);
        assert(c[0] == 'q' && "r"@[0] == 'r');
        assert(c != "r"@);
        assert(c != "quit"@);
    }
    if c == "exit"@ {
        assert(c.len() == 4);
        assert(c[0] == 'e' && "open"@[0] == 'o');
        assert(c != "open"@);
        assert(c != "o"@);
        assert(c[0] == 'e' && "back"@[0] == 'b');
        assert(c != "back"@);
        assert(c != "b"@);
        assert(c != "forward"@);
        assert(c != "f"@);
        assert(c != "reload"@);
        assert(c != "r"@);
        assert(c[0] == 'e' && "quit"@[0] == 'q');
        assert(c != "quit"@);
        assert(c != "q"@);
    }
    if c == "tab-next"@ {
        assert(c.len() == 8);
        assert(c != "open"@);
        assert(c != "o"@);
        assert(c != "back"@);
        assert(c != "b"@);
        assert(c != "forward"@);
        assert(c != "f"@);
        assert(c != "reload"@);
        assert(c != "r"@);
        assert(c != "quit"@);
        assert(c != "q"@);
        assert(c != "exit"@);
        assert(c != "scroll"@);
        assert(c != "scroll-to-perc"@);
        assert(c != "G"@);
    }
    if c == "gt"@ {
        assert(c.len() == 2);
        assert(c != "open"@);
        assert(c != "o"@);
        assert(c != "back"@);
        assert(c != "b"@);
        assert(c != "forward"@);
        assert(c != "f"@);
        assert(c != "reload"@);
        assert(c != "r"@);
        assert(c != "quit"@);
        assert(c != "q"@);
        assert(c != "exit"@);
        assert(c != "scroll"@);
        assert(c != "scroll-to-perc"@);
        assert(c != "G"@);
        assert(c != "tab-next"@);
    }
    if c == "tab-prev"@ {
        assert(c.len() == 8);
        assert(c != "open"@);
        assert(c != "o"@);
        assert(c != "back"@);
        assert(c != "b"@);
        assert(c != "forward"@);
        assert(c != "f"@);
        assert(c != "reload"@);
        assert(c != "r"@);
        assert(c != "quit"@);
        assert(c != "q"@);
        assert(c != "exit"@);
        assert(c != "scroll"@);
        assert(c != "scroll-to-perc"@);
        assert(c != "G"@);
        assert(c[4] == 'p' && "tab-next"@[4] == 'n');
        assert(c != "tab-next"@);
        assert(c != "gt"@);
    }
    if c == "gT"@ {
        assert(c.len() == 2);
        assert(c != "open"@);
        assert(c != "o"@);
        assert(c != "back"@);
        assert(c != "b"@);
        assert(c != "forward"@);
        assert(c != "f"@);
        assert(c != "reload"@);
        assert(c != "r"@);
        assert(c != "quit"@);
        assert(c != "q"@);
        assert(c != "exit"@);
        assert(c != "scroll"@);
        assert(c != "scroll-to-perc"@);
        assert(c != "G"@);
        assert(c != "tab-next"@);
        assert(c[1] == 'T' && "gt"@[1] == 't');
        assert(c != "gt"@);
        assert(c != "tab-prev"@);
    }
    if c == "tab-close"@ {
        assert(c.len() == 9);
        assert(c != "open"@);
        assert(c != "o"@);
        assert(c != "back"@);
        assert(c != "b"@);
        assert(c != "forward"@);
        assert(c != "f"@);
        assert(c != "reload"@);
        assert(c != "r"@);
        assert(c != "quit"@);
        assert(c != "q"@);
        assert(c != "exit"@);
        assert(c != "scroll"@);
        assert(c != "scroll-to-perc"@);
        assert(c != "G"@);
        assert(c != "tab-next"@);
        assert(c != "gt"@);
        assert(c != "tab-prev"@);
        assert(c != "gT"@);
    }
    if c == "d"@ {
        assert(c.len() == 1);
        assert(c != "open"@);
        assert(c[0] == 'd' && "o"@[0] == 'o');
        assert(c != "o"@);
        assert(c != "back"@);
        assert(c[0] == 'd' && "b"@[0] == 'b');
        assert(c != "b"@);
        assert(c != "forward"@);
        assert(c[0] == 'd' && "f"@[0] == 'f');
        assert(c != "f"@);
        assert(c != "reload"@);
        assert(c[0] == 'd' && "r"@[0] == 'r');
        assert(c != "r"@);
        assert(c != "quit"@);
        assert(c[0] == 'd' && "q"@[0] == 'q');
        assert(c != "q"@);
        assert(c != "exit"@);
        assert(c != "scroll"@);
        assert(c != "scroll-to-perc"@);
        assert(c[0] == 'd' && "G"@[0] == 'G');
        assert(c != "G"@);
        assert(c != "tab-next"@);
        assert(c != "gt"@);
        assert(c != "tab-prev"@);
        assert(c != "gT"@);
        assert(c != "tab-close"@);
    }
    if c == "tab-undo"@ {
        assert(c.len() == 8);
        assert(c != "open"@);
        assert(c != "o"@);
        assert(c != "back"@);
        assert(c != "b"@);
        assert(c != "forward"@);
        assert(c != "f"@);
        assert(c != "reload"@);
        assert(c != "r"@);
        assert(c != "quit"@);
        assert(c != "q"@);
        assert(c != "exit"@);
        assert(c != "scroll"@);
        assert(c != "scroll-to-perc"@);
        assert(c != "G"@);
        assert(c[4] == 'u' && "tab-next"@[4] == 'n');
        assert(c != "tab-next"@);
        assert(c != "gt"@);
        assert(c[4] == 'u' && "tab-prev"@[4] == 'p');
        assert(c != "tab-prev"@);
        assert(c != "gT"@);
        assert(c != "tab-close"@);
        assert(c != "d"@);
    }
    if c == "u"@ {
        assert(c.len() == 1);
        assert(c != "open"@);
        assert(c[0] == 'u' && "o"@[0] == 'o');
        assert(c != "o"@);
        assert(c != "back"@);
        assert(c[0] == 'u' && "b"@[0] == 'b');
        assert(c != "b"@);
        assert(c != "forward"@);
        assert(c[0] == 'u' && "f"@[0] == 'f');
        assert(c != "f"@);
        assert(c != "reload"@);
        assert(c[0] == 'u' && "r"@[0] == 'r');
        assert(c != "r"@);
        assert(c != "quit"@);
        assert(c[0] == 'u' && "q"@[0] == 'q');
        assert(c != "q"@);
        assert(c != "exit"@);
        assert(c != "scroll"@);
        assert(c != "scroll-to-perc"@);
        assert(c[0] == 'u' && "G"@[0] == 'G');
        assert(c != "G"@);
        assert(c != "tab-next"@);
        assert(c != "gt"@);
        assert(c != "tab-prev"@);
        assert(c != "gT"@);
        assert(c != "tab-close"@);
        assert(c[0] == 'u' && "d"@[0] == 'd');
        assert(c != "d"@);
        assert(c != "tab-undo"@);
    }
    if c == "hint"@ {
        assert(c.len() == 4);
        assert(c[0] == 'h' && "open"@[0] == 'o');
        assert(c != "open"@);
        assert(c != "o"@);
        assert(c[0] == 'h' && "back"@[0] == 'b');
        assert(c != "back"@);
        assert(c != "b"@);
        assert(c != "forward"@);
        assert(c != "f"@);
        assert(c != "reload"@);
        assert(c != "r"@);
        assert(c[0] == 'h' && "quit"@[0] == 'q');
        assert(c != "quit"@);
        assert(c != "q"@);
        assert(c[0] == 'h' && "exit"@[0] == 'e');
        assert(c != "exit"@);
        assert(c != "scroll"@);
        assert(c != "scroll-to-perc"@);
        assert(c != "G"@);
        assert(c != "tab-next"@);
        assert(c != "gt"@);
        assert(c != "tab-prev"@);
        assert(c != "gT"@);
        assert(c != "tab-close"@);
        assert(c != "d"@);
        assert(c != "tab-undo"@);
        assert(c != "u"@);
    }
    if c == "bookmarks"@ {
        assert(c.len() == 9);
        assert(c != "open"@);
        assert(c != "o"@);
        assert(c != "back"@);
        assert(c != "b"@);
        assert(c != "forward"@);
        assert(c != "f"@);
        assert(c != "reload"@);
        assert(c != "r"@);
        assert(c != "quit"@);
        assert(c != "q"@);
        assert(c != "exit"@);
        assert(c != "scroll"@);
        assert(c != "scroll-to-perc"@);
        assert(c != "G"@);
        assert(c != "tab-next"@);
        assert(c != "gt"@);
        assert(c != "tab-prev"@);
        assert(c != "gT"@);
        assert(c[0] == 'b' && "tab-close"@[0] == 't');
        assert(c != "tab-close"@);
        assert(c != "d"@);
        assert(c != "tab-undo"@);
        assert(c != "u"@);
        assert(c != "hint"@);
        assert(c != "bookmark-add"@);
    }
    if c == "yank"@ {
        assert(c.len() == 4);
        assert(c[0] == 'y' && "open"@[0] == 'o');
        assert(c != "open"@);
        assert(c != "o"@);
        assert(c[0] == 'y' && "back"@[0] == 'b');
        assert(c != "back"@);
        assert(c != "b"@);
        assert(c != "forward"@);
        assert(c != "f"@);
        assert(c != "reload"@);
        assert(c != "r"@);
        assert(c[0] == 'y' && "quit"@[0] == 'q');
        assert(c != "quit"@);
        assert(c != "q"@);
        assert(c[0] == 'y' && "exit"@[0] == 'e');
        assert(c != "exit"@);
        assert(c != "scroll"@);
        assert(c != "scroll-to-perc"@);
        assert(c != "G"@);
        assert(c != "tab-next"@);
        assert(c != "gt"@);
        assert(c != "tab-prev"@);
        assert(c != "gT"@);
        assert(c != "tab-close"@);
        assert(c != "d"@);
        assert(c != "tab-undo"@);
        assert(c != "u"@);
        assert(c[0] == 'y' && "hint"@[0] == 'h');
        assert(c != "hint"@);
        assert(c != "bookmark-add"@);
        assert(c != "bookmarks"@);
    }
}

/// The command line `open URL` (or `o URL`) opens the URL in the current
/// tab, and `open -t URL` in a new tab; the URL is the rest of the line.
pub proof fn law_command_open(raw: Seq<char>)
    ensures
        ({
            let c = command_name(raw);
            let a = command_args(raw);
            (c == "open"@ || c == "o"@) ==> parse_command_spec(raw) == if a.len() >= 3 && a[0] == '-'
                && a[1] == 't' && a[2] == ' ' {
                CommandView::Open { url: a.skip(3), tab: true }
            } else {
                CommandView::Open { url: a, tab: false }
            }
        }),
{
    reveal_strlit("open");
    reveal_strlit("o");
    reveal_strlit("-t ");
    let a = command_args(raw);
    assert("-t "@.len() == 3);
    if a.len() >= 3 && a[0] == '-' && a[1] == 't' && a[2] == ' ' {
        assert(a.subrange(0, 3) =~= "-t "@);
        assert("-t "@.is_prefix_of(a));
    }
    if "-t "@.is_prefix_of(a) {
        assert(a.subrange(0, 3) == "-t "@);
        assert(a.subrange(0, 3)[0] == '-' && a.subrange(0, 3)[1] == 't' && a.subrange(0, 3)[2] == ' ');
    }
}

/// A binding token is dispatched on its first word: `tab-next`,
/// `tab-prev`, `tab-close`, `tab-undo`, `reload`, `back`, `forward`,
/// `hint`, `yank` and `quit` stand for their commands, and `scroll` with a
/// direction moves down or up by 200 or left or right by 100.
pub proof fn law_token_names(token: Seq<char>)
    ensures
        ({
            let w = nth_word(token, 0);
            let d = nth_word(token, 1);
            let r = parse_command_token_spec(token);
            &&& w == Some("tab-next"@) ==> r == CommandView::TabNext
            &&& w == Some("tab-prev"@) ==> r == CommandView::TabPrev
            &&& w == Some("tab-close"@) ==> r == CommandView::TabClose
            &&& w == Some("tab-undo"@) ==> r == CommandView::TabUndo
            &&& w == Some("reload"@) ==> r == CommandView::Reload
            &&& w == Some("back"@) ==> r == CommandView::Back
            &&& w == Some("forward"@) ==> r == CommandView::Forward
            &&& w == Some("hint"@) ==> r == CommandView::Hint
            &&& w == Some("yank"@) ==> r == CommandView::Yank
            &&& w == Some("quit"@) ==> r == CommandView::Quit
            &&& (w == Some("scroll"@) && d == Some("down"@)) ==> r == CommandView::Scroll { dx: 0, dy: 200 }
            &&& (w == Some("scroll"@) && d == Some("up"@)) ==> r == CommandView::Scroll { dx: 0, dy: -200i32 }
            &&& (w == Some("scroll"@) && d == Some("left"@)) ==> r == CommandView::Scroll { dx: -100i32, dy: 0 }
            &&& (w == Some("scroll"@) && d == Some("right"@)) ==> r == CommandView::Scroll { dx: 100, dy: 0 }
        }),
{
    let w = nth_word(token, 0);
    let d = nth_word(token, 1);
    let name = match w {
        Some(x) => x,
        None => Seq::<char>::empty(),
    };
    let dir = match d {
        Some(x) => x,
        None => Seq::<char>::empty(),
    };
    reveal_strlit("scroll");
    reveal_strlit("scroll-to-perc");
    reveal_strlit("tab-next");
    reveal_strlit("tab-prev");
    reveal_strlit("tab-close");
    reveal_strlit("tab-undo");
    reveal_strlit("reload");
    reveal_strlit("back");
    reveal_strlit("forward");
    reveal_strlit("hint");
    reveal_strlit("set-cmd-text");
    reveal_strlit("yank");
    reveal_strlit("quit");
    reveal_strlit("zoom");
    reveal_strlit("down");
    reveal_strlit("up");
    reveal_strlit("left");
    reveal_strlit("right");
    if name == "tab-next"@ {
        assert(name.len() == 8);
        assert(name != "scroll"@);
        assert(name != "scroll-to-perc"@);
    }
    if name == "tab-prev"@ {
        assert(name.len() == 8);
        assert(name != "scroll"@);
        assert(name != "scroll-to-perc"@);
        assert(name[4] == 'p' && "tab-next"@[4] == 'n');
        assert(name != "tab-next"@);
    }
    if name == "tab-close"@ {
        assert(name.len() == 9);
        assert(name != "scroll"@);
        assert(name != "scroll-to-perc"@);
        assert(name != "tab-next"@);
        assert(name != "tab-prev"@);
    }
    if name == "tab-undo"@ {
        assert(name.len() == 8);
        assert(name != "scroll"@);
        assert(name != "scroll-to-perc"@);
        assert(name[4] == 'u' && "tab-next"@[4] == 'n');
        assert(name != "tab-next"@);
        assert(name[4] == 'u' && "tab-prev"@[4] == 'p');
        assert(name != "tab-prev"@);
        assert(name != "tab-close"@);
    }
    if name == "reload"@ {
        assert(name.len() == 6);
        assert(name[0] == 'r' && "scroll"@[0] == 's');
        assert(name != "scroll"@);
        assert(name != "scroll-to-perc"@);
        assert(name != "tab-next"@);
        assert(name != "tab-prev"@);
        assert(name != "tab-close"@);
        assert(name != "tab-undo"@);
    }
    if name == "back"@ {
        assert(name.len() == 4);
        assert(name != "scroll"@);
        assert(name != "scroll-to-perc"@);
        assert(name != "tab-next"@);
        assert(name != "tab-prev"@);
        assert(name != "tab-close"@);
        assert(name != "tab-undo"@);
        assert(name != "reload"@);
    }
    if name == "forward"@ {
        assert(name.len() == 7);
        assert(name != "scroll"@);
        assert(name != "scroll-to-perc"@);
        assert(name != "tab-next"@);
        assert(name != "tab-prev"@);
        assert(name != "tab-close"@);
        assert(name != "tab-undo"@);
        assert(name != "reload"@);
        assert(name != "back"@);
    }
    if name == "hint"@ {
        assert(name.len() == 4);
        assert(name != "scroll"@);
        assert(name != "scroll-to-perc"@);
        assert(name != "tab-next"@);
        assert(name != "tab-prev"@);
        assert(name != "tab-close"@);
        assert(name != "tab-undo"@);
        assert(name != "reload"@);
        assert(name[0] == 'h' && "back"@[0] == 'b');
        assert(name != "back"@);
        assert(name != "forward"@);
    }
    if name == "yank"@ {
        assert(name.len() == 4);
        assert(name != "scroll"@);
        assert(name != "scroll-to-perc"@);
        assert(name != "tab-next"@);
        assert(name != "tab-prev"@);
        assert(name != "tab-close"@);
        assert(name != "tab-undo"@);
        assert(name != "reload"@);
        assert(name[0] == 'y' && "back"@[0] == 'b');
        assert(name != "back"@);
        assert(name != "forward"@);
        assert(name[0] == 'y' && "hint"@[0] == 'h');
        assert(name != "hint"@);
        assert(name != "set-cmd-text"@);
    }
    if name == "quit"@ {
        assert(name.len() == 4);
        assert(name != "scroll"@);
        assert(name != "scroll-to-perc"@);
        assert(name != "tab-next"@);
        assert(name != "tab-prev"@);
        assert(name != "tab-close"@);
        assert(name != "tab-undo"@);
        assert(name != "reload"@);
        assert(name[0] == 'q' && "back"@[0] == 'b');
        assert(name != "back"@);
        assert(name != "forward"@);
        assert(name[0] == 'q' && "hint"@[0] == 'h');
        assert(name != "hint"@);
        assert(name != "set-cmd-text"@);
        assert(name[0] == 'q' && "yank"@[0] == 'y');
        assert(name != "yank"@);
    }
    if dir == "down"@ {
        assert(dir.len() == 4);
        assert(dir != "up"@);
        assert(dir[0] == 'd' && "left"@[0] == 'l');
        assert(dir != "left"@);
        assert(dir != "right"@);
    }
    if dir == "up"@ {
        assert(dir.len() == 2);
        assert(dir != "down"@);
        assert(dir != "left"@);
        assert(dir != "right"@);
    }
    if dir == "left"@ {
        assert(dir.len() == 4);
        assert(dir[0] == 'l' && "down"@[0] == 'd');
        assert(dir != "down"@);
        assert(dir != "up"@);
        assert(dir != "right"@);
    }
    if dir == "right"@ {
        assert(dir.len() == 5);
        assert(dir != "down"@);
        assert(dir != "up"@);
        assert(dir != "left"@);
    }
}


proof fn lemma_first_binding_at(bs: Seq<KeyBindingView>, keys: Seq<char>, i: int)
    requires
        0 <= i < bs.len(),
        bs[i].key == keys,
        forall|j: int| 0 <= j < i ==> (#[trigger] bs[j]).key != keys,
    ensures
        first_binding(bs, keys) == Some(bs[i].command),
    decreases i,
{
    if i > 0 {
        assert forall|j: int| 0 <= j < i - 1 implies (#[trigger] bs.drop_first()[j]).key != keys by {
            assert(bs.drop_first()[j] == bs[j + 1]);
        }
        assert(bs.drop_first()[i - 1] == bs[i]);
        lemma_first_binding_at(bs.drop_first(), keys, i - 1);
    }
}

/// Looking up keys in the bindings: the first binding whose key is exactly
/// the keys gives its command; failing that, keys that begin some binding's
/// key wait for more; keys that begin none are unbound.
pub proof fn law_keymap_lookup(bs: Seq<KeyBindingView>, keys: Seq<char>)
    ensures
        forall|i: int|
            0 <= i < bs.len() && (#[trigger] bs[i]).key == keys && (forall|j: int|
                0 <= j < i ==> (#[trigger] bs[j]).key != keys) ==> lookup_outcome(bs, keys)
                == OutcomeView::Command(parse_command_token_spec(bs[i].command)),
        (forall|i: int| 0 <= i < bs.len() ==> (#[trigger] bs[i]).key != keys) && (exists|i: int|
            0 <= i < bs.len() && keys.is_prefix_of(#[trigger] bs[i].key)) ==> lookup_outcome(bs, keys)
            == OutcomeView::Pending(keys),
        (forall|i: int| 0 <= i < bs.len() ==> !keys.is_prefix_of(#[trigger] bs[i].key)) ==> lookup_outcome(
            bs,
            keys,
        ) == OutcomeView::Unbound(keys),
{
    assert forall|i: int|
        0 <= i < bs.len() && (#[trigger] bs[i]).key == keys && (forall|j: int|
            0 <= j < i ==> (#[trigger] bs[j]).key != keys) implies lookup_outcome(bs, keys)
        == OutcomeView::Command(parse_command_token_spec(bs[i].command)) by {
        lemma_first_binding_at(bs, keys, i);
    }
    if forall|i: int| 0 <= i < bs.len() ==> (#[trigger] bs[i]).key != keys {
        if first_binding(bs, keys) is Some {
            lemma_first_binding_some(bs, keys);
        }
    }
    if forall|i: int| 0 <= i < bs.len() ==> !keys.is_prefix_of(#[trigger] bs[i].key) {
        if first_binding(bs, keys) is Some {
            lemma_first_binding_some(bs, keys);
            let i = choose|i: int| 0 <= i < bs.len() && bs[i].key == keys;
            assert(keys.is_prefix_of(bs[i].key));
        }
    }
}

proof fn lemma_first_binding_some(bs: Seq<KeyBindingView>, keys: Seq<char>)
    requires
        first_binding(bs, keys) is Some,
    ensures
        exists|i: int| 0 <= i < bs.len() && bs[i].key == keys,
    decreases bs.len(),
{
    if bs[0].key != keys {
        lemma_first_binding_some(bs.drop_first(), keys);
        let i = choose|i: int| 0 <= i < bs.drop_first().len() && bs.drop_first()[i].key == keys;
        assert(bs[i + 1] == bs.drop_first()[i]);
    }
}


/// The commands with arguments take them from the rest of the line:
/// `scroll-to-perc N` (or `G N`) scrolls to N percent (100 when N is not a
/// number), `bookmark-add URL PARENT` takes its first two words,
/// `set-cmd-text T` and `zoom Z` the whole rest; an empty name is an empty
/// prompt, and any other name is unknown, reported by itself.
pub proof fn law_command_args(raw: Seq<char>)
    ensures
        ({
            let c = command_name(raw);
            let a = command_args(raw);
            let r = parse_command_spec(raw);
            let ws = words(a);
            &&& (c == "scroll-to-perc"@ || c == "G"@) ==> r == CommandView::ScrollToPerc {
                perc: match parse_u32_spec(a) {
                    Some(v) => v,
                    None => 100,
                },
            }
            &&& c == "bookmark-add"@ ==> r == CommandView::BookmarkAdd {
                url: if ws.len() > 0 { Some(ws[0]) } else { None },
                parent: if ws.len() > 1 { Some(ws[1]) } else { None },
            }
            &&& c == "set-cmd-text"@ ==> r == CommandView::SetCmdText { text: a }
            &&& c == "zoom"@ ==> r == CommandView::Zoom { text: a, negate: false }
            &&& c.len() == 0 ==> r == CommandView::SetCmdText { text: Seq::empty() }
            &&& (c.len() > 0 && c != "open"@ && c != "o"@ && c != "back"@ && c != "b"@ && c != "forward"@ && c != "f"@ && c != "reload"@ && c != "r"@ && c != "quit"@ && c != "q"@ && c != "exit"@ && c != "scroll"@ && c != "scroll-to-perc"@ && c != "G"@ && c != "tab-next"@ && c != "gt"@ && c != "tab-prev"@ && c != "gT"@ && c != "tab-close"@ && c != "d"@ && c != "tab-undo"@ && c != "u"@ && c != "hint"@ && c != "bookmark-add"@ && c != "bookmarks"@ && c != "yank"@ && c != "zoom"@ && c != "set-cmd-text"@) ==> r == CommandView::Unknown { raw: c }
        }),
{
    let c = command_name(raw);
    reveal_strlit("open");
    reveal_strlit("o");
    reveal_strlit("back");
    reveal_strlit("b");
    reveal_strlit("forward");
    reveal_strlit("f");
    reveal_strlit("reload");
    reveal_strlit("r");
    reveal_strlit("quit");
    reveal_strlit("q");
    reveal_strlit("exit");
    reveal_strlit("scroll");
    reveal_strlit("scroll-to-perc");
    reveal_strlit("G");
    reveal_strlit("tab-next");
    reveal_strlit("gt");
    reveal_strlit("tab-prev");
    reveal_strlit("gT");
    reveal_strlit("tab-close");
    reveal_strlit("d");
    reveal_strlit("tab-undo");
    reveal_strlit("u");
    reveal_strlit("hint");
    reveal_strlit("bookmark-add");
    reveal_strlit("bookmarks");
    reveal_strlit("yank");
    reveal_strlit("zoom");
    reveal_strlit("set-cmd-text");
    if c == "scroll-to-perc"@ {
        assert(c.len() == 14);
        assert(c != "open"@);
        assert(c != "o"@);
        assert(c != "back"@);
        assert(c != "b"@);
        assert(c != "forward"@);
        assert(c != "f"@);
        assert(c != "reload"@);
        assert(c != "r"@);
        assert(c != "quit"@);
        assert(c != "q"@);
        assert(c != "exit"@);
        assert(c != "scroll"@);
    }
    if c == "G"@ {
        assert(c.len() == 1);
        assert(c != "open"@);
        assert(c[0] == 'G' && "o"@[0] == 'o');
        assert(c != "o"@);
        assert(c != "back"@);
        assert(c[0] == 'G' && "b"@[0] == 'b');
        assert(c != "b"@);
        assert(c != "forward"@);
        assert(c[0] == 'G' && "f"@[0] == 'f');
        assert(c != "f"@);
        assert(c != "reload"@);
        assert(c[0] == 'G' && "r"@[0] == 'r');
        assert(c != "r"@);
        assert(c != "quit"@);
        assert(c[0] == 'G' && "q"@[0] == 'q');
        assert(c != "q"@);
        assert(c != "exit"@);
        assert(c != "scroll"@);
        assert(c != "scroll-to-perc"@);
    }
    if c == "bookmark-add"@ {
        assert(c.len() == 12);
        assert(c != "open"@);
        assert(c != "o"@);
        assert(c != "back"@);
        assert(c != "b"@);
        assert(c != "forward"@);
        assert(c != "f"@);
        assert(c != "reload"@);
        assert(c != "r"@);
        assert(c != "quit"@);
        assert(c != "q"@);
        assert(c != "exit"@);
        assert(c != "scroll"@);
        assert(c != "scroll-to-perc"@);
        assert(c != "G"@);
        assert(c != "tab-next"@);
        assert(c != "gt"@);
        assert(c != "tab-prev"@);
        assert(c != "gT"@);
        assert(c != "tab-close"@);
        assert(c != "d"@);
        assert(c != "tab-undo"@);
        assert(c != "u"@);
        assert(c != "hint"@);
    }
    if c == "zoom"@ {
        assert(c.len() == 4);
        assert(c[0] == 'z' && "open"@[0] == 'o');
        assert(c != "open"@);
        assert(c != "o"@);
        assert(c[0] == 'z' && "back"@[0] == 'b');
        assert(c != "back"@);
        assert(c != "b"@);
        assert(c != "forward"@);
        assert(c != "f"@);
        assert(c != "reload"@);
        assert(c != "r"@);
        assert(c[0] == 'z' && "quit"@[0] == 'q');
        assert(c != "quit"@);
        assert(c != "q"@);
        assert(c[0] == 'z' && "exit"@[0] == 'e');
        assert(c != "exit"@);
        assert(c != "scroll"@);
        assert(c != "scroll-to-perc"@);
        assert(c != "G"@);
        assert(c != "tab-next"@);
        assert(c != "gt"@);
        assert(c != "tab-prev"@);
        assert(c != "gT"@);
        assert(c != "tab-close"@);
        assert(c != "d"@);
        assert(c != "tab-undo"@);
        assert(c != "u"@);
        assert(c[0] == 'z' && "hint"@[0] == 'h');
        assert(c != "hint"@);
        assert(c != "bookmark-add"@);
        assert(c != "bookmarks"@);
        assert(c[0] == 'z' && "yank"@[0] == 'y');
        assert(c != "yank"@);
    }
    if c == "set-cmd-text"@ {
        assert(c.len() == 12);
        assert(c != "open"@);
        assert(c != "o"@);
        assert(c != "back"@);
        assert(c != "b"@);
        assert(c != "forward"@);
        assert(c != "f"@);
        assert(c != "reload"@);
        assert(c != "r"@);
        assert(c != "quit"@);
        assert(c != "q"@);
        assert(c != "exit"@);
        assert(c != "scroll"@);
        assert(c != "scroll-to-perc"@);
        assert(c != "G"@);
        assert(c != "tab-next"@);
        assert(c != "gt"@);
        assert(c != "tab-prev"@);
        assert(c != "gT"@);
        assert(c != "tab-close"@);
        assert(c != "d"@);
        assert(c != "tab-undo"@);
        assert(c != "u"@);
        assert(c != "hint"@);
        assert(c[0] == 's' && "bookmark-add"@[0] == 'b');
        assert(c != "bookmark-add"@);
        assert(c != "bookmarks"@);
        assert(c != "yank"@);
        assert(c != "zoom"@);
    }
    if c.len() == 0 {
        assert(c != "open"@);
        assert(c != "o"@);
        assert(c != "back"@);
        assert(c != "b"@);
        assert(c != "forward"@);
        assert(c != "f"@);
        assert(c != "reload"@);
        assert(c != "r"@);
        assert(c != "quit"@);
        assert(c != "q"@);
        assert(c != "exit"@);
        assert(c != "scroll"@);
        assert(c != "scroll-to-perc"@);
        assert(c != "G"@);
        assert(c != "tab-next"@);
        assert(c != "gt"@);
        assert(c != "tab-prev"@);
        assert(c != "gT"@);
        assert(c != "tab-close"@);
        assert(c != "d"@);
        assert(c != "tab-undo"@);
        assert(c != "u"@);
        assert(c != "hint"@);
        assert(c != "bookmark-add"@);
        assert(c != "bookmarks"@);
        assert(c != "yank"@);
        assert(c != "zoom"@);
        assert(c != "set-cmd-text"@);
    }
}

} // verus!
