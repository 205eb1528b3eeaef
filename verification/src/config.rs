//! Configuration: output mode, qutebrowser-style key bindings and general
//! settings.

use vstd::prelude::*;
use crate::text::{chars_of, push_chars, string_of};

verus! {

/// How the rendered page is displayed in the terminal.
#[derive(Debug, Clone, Copy, PartialEq, Eq, Structural)]
pub enum OutputMode {
    /// iTerm2/kitty inline-image protocol.
    Kitty,
    /// DEC sixel graphics.
    Sixel,
    /// ANSI half-block truecolor cells.
    Blocks,
    /// Readable text, no image.
    Text,
}

impl Default for OutputMode {
    fn default() -> (res: Self)
        ensures
            res == OutputMode::Kitty,
    {
        OutputMode::Kitty
    }
}

/// A single key binding: a key sequence such as "j" or "gg" and the
/// qutebrowser-style command it runs.
#[derive(Debug, Clone)]
pub struct KeyBinding {
    pub key: String,
    pub command: String,
}

pub struct KeyBindingView {
    pub key: Seq<char>,
    pub command: Seq<char>,
}

impl View for KeyBinding {
    type V = KeyBindingView;

    open spec fn view(&self) -> KeyBindingView {
        KeyBindingView { key: self.key@, command: self.command@ }
    }
}

/// Views of a sequence of bindings.
pub open spec fn binding_views(bs: Seq<KeyBinding>) -> Seq<KeyBindingView> {
    bs.map_values(|b: KeyBinding| b@)
}

impl KeyBinding {
    /// A copy with the same key and command.
    pub fn duplicate(&self) -> (res: KeyBinding)
        ensures
            res@ == self@,
    {
        KeyBinding { key: self.key.clone(), command: self.command.clone() }
    }
}

/// A copy of a list of bindings.
pub fn duplicate_bindings(bs: &Vec<KeyBinding>) -> (res: Vec<KeyBinding>)
    ensures
        binding_views(res@) == binding_views(bs@),
{
    let mut out: Vec<KeyBinding> = Vec::new();
    let mut i: usize = 0;
    while i < bs.len()
        invariant
            i <= bs@.len(),
            binding_views(out@) == binding_views(bs@.take(i as int)),
        decreases bs.len() - i,
    {
        let ghost before = out@;
        out.push(bs[i].duplicate());
        assert(bs@.take(i + 1) == bs@.take(i as int).push(bs@[i as int]));
        assert(binding_views(out@) =~= binding_views(before).push(bs@[i as int]@));
        assert(binding_views(bs@.take(i + 1)) =~= binding_views(bs@.take(i as int)).push(bs@[i as int]@));
        i = i + 1;
    }
    assert(bs@.take(bs@.len() as int) == bs@);
    out
}

/// The bindings of one mode ("normal", "command", ...).
#[derive(Debug, Clone)]
pub struct ModeBindings {
    pub mode: String,
    pub bindings: Vec<KeyBinding>,
}

pub struct ModeBindingsView {
    pub mode: Seq<char>,
    pub bindings: Seq<KeyBindingView>,
}

impl View for ModeBindings {
    type V = ModeBindingsView;

    open spec fn view(&self) -> ModeBindingsView {
        ModeBindingsView { mode: self.mode@, bindings: binding_views(self.bindings@) }
    }
}

/// The bindings of the first entry for `mode`, if there is one.
pub open spec fn lookup_mode(es: Seq<ModeBindingsView>, mode: Seq<char>) -> Option<Seq<KeyBindingView>>
    decreases es.len(),
{
    if es.len() == 0 {
        None
    } else if es[0].mode == mode {
        Some(es[0].bindings)
    } else {
        lookup_mode(es.drop_first(), mode)
    }
}

/// `es` with the bindings of `mode` replaced, or a new entry for `mode` at
/// the end when there was none.
pub open spec fn insert_mode(es: Seq<ModeBindingsView>, mode: Seq<char>, bs: Seq<KeyBindingView>) -> Seq<ModeBindingsView>
    decreases es.len(),
{
    if es.len() == 0 {
        seq![ModeBindingsView { mode, bindings: bs }]
    } else if es[0].mode == mode {
        seq![ModeBindingsView { mode, bindings: bs }] + es.drop_first()
    } else {
        seq![es[0]] + insert_mode(es.drop_first(), mode, bs)
    }
}

/// Key bindings keyed by mode name: a map from mode to its list of bindings.
#[derive(Debug, Clone)]
pub struct Keybindings {
    entries: Vec<ModeBindings>,
}

impl View for Keybindings {
    type V = Seq<ModeBindingsView>;

    closed spec fn view(&self) -> Seq<ModeBindingsView> {
        self.entries@.map_values(|e: ModeBindings| e@)
    }
}

/// No mode has two entries.
pub open spec fn modes_distinct(es: Seq<ModeBindingsView>) -> bool {
    forall|i: int, j: int| 0 <= i < j < es.len() ==> #[trigger] es[i].mode != #[trigger] es[j].mode
}

proof fn lemma_lookup_absent(es: Seq<ModeBindingsView>, mode: Seq<char>, i: int)
    requires
        lookup_mode(es, mode) is None,
        0 <= i < es.len(),
    ensures
        es[i].mode != mode,
    decreases es.len(),
{
    if i > 0 {
        lemma_lookup_absent(es.drop_first(), mode, i - 1);
        assert(es.drop_first()[i - 1] == es[i]);
    }
}

/// The bindings that `kb` holds for `mode`.
pub open spec fn bindings_for(kb: Seq<ModeBindingsView>, mode: Seq<char>) -> Option<Seq<KeyBindingView>> {
    lookup_mode(kb, mode)
}

/// The index of the first entry for `mode`.
fn position_in(es: &Vec<ModeBindings>, mode: &[char]) -> (res: Option<usize>)
    ensures
        ({
            let v = es@.map_values(|e: ModeBindings| e@);
            match res {
                Some(i) => i < v.len() && v[i as int].mode == mode@ && lookup_mode(v, mode@) == Some(
                    v[i as int].bindings,
                ) && forall|j: int| 0 <= j < i ==> #[trigger] v[j].mode != mode@,
                None => lookup_mode(v, mode@) is None,
            }
        }),
{
    let ghost v = es@.map_values(|e: ModeBindings| e@);
    let mut i: usize = 0;
    assert(v.skip(0) == v);
    while i < es.len()
        invariant
            i <= v.len(),
            v == es@.map_values(|e: ModeBindings| e@),
            lookup_mode(v, mode@) == lookup_mode(v.skip(i as int), mode@),
            forall|j: int| 0 <= j < i ==> #[trigger] v[j].mode != mode@,
        decreases es.len() - i,
    {
        let m = chars_of(es[i].mode.as_str());
        assert(v.skip(i as int)[0] == v[i as int]);
        if crate::text::eq_chars(m.as_slice(), mode) {
            return Some(i);
        }
        assert(v.skip(i as int).drop_first() == v.skip(i + 1));
        i = i + 1;
    }
    None
}

impl Keybindings {
    /// A map with no modes.
    pub fn new() -> (res: Keybindings)
        ensures
            res@ == Seq::<ModeBindingsView>::empty(),
            modes_distinct(res@),
    {
        let k = Keybindings { entries: Vec::new() };
        assert(k@ =~= Seq::<ModeBindingsView>::empty());
        k
    }

    /// The (mode, bindings) entries, in order.
    pub fn entries(&self) -> (res: &Vec<ModeBindings>)
        ensures
            res@.map_values(|e: ModeBindings| e@) == self@,
    {
        &self.entries
    }

    /// Whether no mode has bindings.
    pub fn is_empty(&self) -> (res: bool)
        ensures
            res == (self@.len() == 0),
    {
        self.entries.len() == 0
    }

    fn position(&self, mode: &[char]) -> (res: Option<usize>)
        ensures
            match res {
                Some(i) => i < self@.len() && self@[i as int].mode == mode@ && lookup_mode(self@, mode@)
                    == Some(self@[i as int].bindings) && forall|j: int|
                    0 <= j < i ==> #[trigger] self@[j].mode != mode@,
                None => lookup_mode(self@, mode@) is None,
            },
    {
        position_in(&self.entries, mode)
    }

    /// The bindings of `mode` (`BTreeMap::get`).
    pub fn get(&self, mode: &str) -> (res: Option<&Vec<KeyBinding>>)
        ensures
            match res {
                Some(bs) => lookup_mode(self@, mode@) == Some(binding_views(bs@)),
                None => lookup_mode(self@, mode@) is None,
            },
    {
        let m = chars_of(mode);
        match self.position(m.as_slice()) {
            Some(i) => Some(&self.entries[i].bindings),
            None => None,
        }
    }

    /// Whether `mode` has bindings (`BTreeMap::contains_key`).
    pub fn contains_key(&self, mode: &str) -> (res: bool)
        ensures
            res == (lookup_mode(self@, mode@) is Some),
    {
        let m = chars_of(mode);
        self.position(m.as_slice()).is_some()
    }

    /// Sets the bindings of `mode`, replacing any it had (`BTreeMap::insert`).
    pub fn insert(&mut self, mode: String, bindings: Vec<KeyBinding>)
        ensures
            final(self)@ == insert_mode(old(self)@, mode@, binding_views(bindings@)),
            modes_distinct(old(self)@) ==> modes_distinct(final(self)@),
    {
        let m = chars_of(mode.as_str());
        let ghost bv = binding_views(bindings@);
        let ghost before = self@;
        match self.position(m.as_slice()) {
            Some(i) => {
                proof {
                    lemma_insert_mode_at(before, mode@, bv, i as int);
                }
                self.entries.set(i, ModeBindings { mode, bindings });
                assert(self@ =~= before.update(
                    i as int,
                    ModeBindingsView { mode: m@, bindings: bv },
                ));
            },
            None => {
                proof {
                    lemma_insert_mode_absent(before, mode@, bv);
                    assert forall|j: int| 0 <= j < before.len() implies before[j].mode != m@ by {
                        lemma_lookup_absent(before, m@, j);
                    }
                }
                self.entries.push(ModeBindings { mode, bindings });
                assert(self@ =~= before.push(
                    ModeBindingsView { mode: m@, bindings: bv },
                ));
            },
        }
    }
}

/// Reading a mode right after setting its bindings gives those bindings;
/// every other mode reads as before.
pub proof fn law_keybindings_read_after_insert(
    es: Seq<ModeBindingsView>,
    mode: Seq<char>,
    bs: Seq<KeyBindingView>,
    other: Seq<char>,
)
    ensures
        lookup_mode(insert_mode(es, mode, bs), mode) == Some(bs),
        other != mode ==> lookup_mode(insert_mode(es, mode, bs), other) == lookup_mode(es, other),
    decreases es.len(),
{
    let r = insert_mode(es, mode, bs);
    let e = ModeBindingsView { mode, bindings: bs };
    if es.len() == 0 {
        assert(r == seq![e]);
        assert(r.drop_first() =~= Seq::<ModeBindingsView>::empty());
        assert(lookup_mode(r.drop_first(), other) is None);
        assert(other != mode ==> lookup_mode(r, other) == lookup_mode(es, other));
    } else if es[0].mode == mode {
        assert(r == seq![e] + es.drop_first());
        assert(r.drop_first() =~= es.drop_first());
        assert(r[0] == e);
        assert(other != mode ==> lookup_mode(r, other) == lookup_mode(es, other));
    } else {
        law_keybindings_read_after_insert(es.drop_first(), mode, bs, other);
        assert(r == seq![es[0]] + insert_mode(es.drop_first(), mode, bs));
        assert(r.drop_first() =~= insert_mode(es.drop_first(), mode, bs));
        assert(r[0] == es[0]);
    }
}

proof fn lemma_insert_mode_at(es: Seq<ModeBindingsView>, mode: Seq<char>, bs: Seq<KeyBindingView>, i: int)
    requires
        0 <= i < es.len(),
        es[i].mode == mode,
        lookup_mode(es, mode) == Some(es[i].bindings),
        forall|j: int| 0 <= j < i ==> es[j].mode != mode,
    ensures
        insert_mode(es, mode, bs) == es.update(i, ModeBindingsView { mode, bindings: bs }),
    decreases es.len(),
{
    if i == 0 {
        assert(insert_mode(es, mode, bs) =~= es.update(i, ModeBindingsView { mode, bindings: bs }));
    } else {
        assert forall|j: int| 0 <= j < i - 1 implies es.drop_first()[j].mode != mode by {
            assert(es.drop_first()[j] == es[j + 1]);
        }
        lemma_insert_mode_at(es.drop_first(), mode, bs, i - 1);
        assert(insert_mode(es, mode, bs) =~= es.update(i, ModeBindingsView { mode, bindings: bs }));
    }
}

proof fn lemma_insert_mode_absent(es: Seq<ModeBindingsView>, mode: Seq<char>, bs: Seq<KeyBindingView>)
    requires
        lookup_mode(es, mode) is None,
    ensures
        insert_mode(es, mode, bs) == es.push(ModeBindingsView { mode, bindings: bs }),
    decreases es.len(),
{
    if es.len() > 0 {
        lemma_insert_mode_absent(es.drop_first(), mode, bs);
        assert(insert_mode(es, mode, bs) =~= es.push(ModeBindingsView { mode, bindings: bs }));
    }
}


/// A binding view from its key and command.
pub open spec fn kbv(key: Seq<char>, command: Seq<char>) -> KeyBindingView {
    KeyBindingView { key, command }
}

/// The default bindings of the "normal" mode, in order.
pub open spec fn default_normal_bindings() -> Seq<KeyBindingView> {
    seq![
        kbv("j"@, "scroll down"@),
        kbv("k"@, "scroll up"@),
        kbv("h"@, "scroll left"@),
        kbv("l"@, "scroll right"@),
        kbv("gg"@, "scroll-to-perc 0"@),
        kbv("G"@, "scroll-to-perc 100"@),
        kbv("gt"@, "tab-next"@),
        kbv("gT"@, "tab-prev"@),
        kbv("d"@, "tab-close"@),
        kbv("u"@, "tab-undo"@),
        kbv("r"@, "reload"@),
        kbv("H"@, "back"@),
        kbv("L"@, "forward"@),
        kbv("f"@, "hint"@),
        kbv(":"@, "set-cmd-text :"@),
        kbv("o"@, "set-cmd-text :open "@),
        kbv("O"@, "set-cmd-text :open -t "@),
        kbv("b"@, "set-cmd-text :bookmark-add "@),
        kbv("B"@, "set-cmd-text :bookmarks "@),
        kbv("yy"@, "yank"@),
        kbv("zz"@, "zoom 1"@),
        kbv("+"@, "zoom +0.1"@),
        kbv("-"@, "zoom -0.1"@),
        kbv("q"@, "quit"@),
    ]
}

/// The default key bindings: the "normal" mode only.
pub open spec fn default_keybindings_spec() -> Seq<ModeBindingsView> {
    seq![ModeBindingsView { mode: "normal"@, bindings: default_normal_bindings() }]
}

fn b(key: &str, command: &str) -> (res: KeyBinding)
    ensures
        res@ == kbv(key@, command@),
{
    KeyBinding { key: key.to_string(), command: command.to_string() }
}

/// Default qutebrowser-inspired keybindings.
pub fn default_keybindings() -> (res: Keybindings)
    ensures
        res@ == default_keybindings_spec(),
{
    let mut v: Vec<KeyBinding> = Vec::new();
    v.push(b("j", "scroll down"));
    v.push(b("k", "scroll up"));
    v.push(b("h", "scroll left"));
    v.push(b("l", "scroll right"));
    v.push(b("gg", "scroll-to-perc 0"));
    v.push(b("G", "scroll-to-perc 100"));
    v.push(b("gt", "tab-next"));
    v.push(b("gT", "tab-prev"));
    v.push(b("d", "tab-close"));
    v.push(b("u", "tab-undo"));
    v.push(b("r", "reload"));
    v.push(b("H", "back"));
    v.push(b("L", "forward"));
    v.push(b("f", "hint"));
    v.push(b(":", "set-cmd-text :"));
    v.push(b("o", "set-cmd-text :open "));
    v.push(b("O", "set-cmd-text :open -t "));
    v.push(b("b", "set-cmd-text :bookmark-add "));
    v.push(b("B", "set-cmd-text :bookmarks "));
    v.push(b("yy", "yank"));
    v.push(b("zz", "zoom 1"));
    v.push(b("+", "zoom +0.1"));
    v.push(b("-", "zoom -0.1"));
    v.push(b("q", "quit"));
    assert(binding_views(v@) =~= default_normal_bindings());
    let mut m = Keybindings::new();
    m.insert("normal".to_string(), v);
    m
}

/// `PathBuf::join` of a relative path: a separator is added unless `base`
/// is empty or already ends with one.
pub open spec fn join_path(base: Seq<char>, rel: Seq<char>) -> Seq<char> {
    if base.len() == 0 {
        rel
    } else if base.last() == '/' {
        base + rel
    } else {
        base + seq!['/'] + rel
    }
}

/// The bookmark vault directory for a given `$HOME` (absent when unset).
pub open spec fn vault_dir_spec(home: Option<Seq<char>>) -> Seq<char> {
    match home {
        Some(h) => join_path(h, ".local/share/serverbrowser/vault"@),
        None => ".serverbrowser/vault"@,
    }
}

/// The default vault directory given the value of `$HOME`.
pub fn default_vault_dir(home: Option<&str>) -> (res: String)
    ensures
        res@ == vault_dir_spec(match home {
            Some(h) => Some(h@),
            None => None,
        }),
{
    match home {
        Some(h) => {
            let hc = chars_of(h);
            let rel = ".local/share/serverbrowser/vault";
            let mut out = string_of(hc.as_slice());
            if hc.len() == 0 {
                rel.to_string()
            } else if hc[hc.len() - 1] == '/' {
                out.append(rel);
                out
            } else {
                push_chars(&mut out, &['/']);
                out.append(rel);
                out
            }
        },
        None => ".serverbrowser/vault".to_string(),
    }
}

#[derive(Debug, Clone)]
pub struct Config {
    /// Default start URL (or "about:blank").
    pub start_page: String,
    /// Terminal output mode.
    pub output_mode: OutputMode,
    /// Viewport size of the headless render, in CSS pixels.
    pub viewport_width: u32,
    pub viewport_height: u32,
    /// Maximum render tab count.
    pub max_tabs: usize,
    /// Key bindings, keyed by mode ("normal", "command").
    pub keybindings: Keybindings,
    /// Path to the bookmark/mindmap vault (a directory of Markdown nodes).
    pub vault_dir: String,
    /// Homepage for the mindmap root node.
    pub url_prefixes: Vec<String>,
}

/// The settings that every default configuration has, whatever its vault.
pub open spec fn is_default_config(c: Config, vault_dir: Seq<char>) -> bool {
    &&& c.start_page@ == "about:blank"@
    &&& c.output_mode == OutputMode::Kitty
    &&& c.viewport_width == 1280
    &&& c.viewport_height == 800
    &&& c.max_tabs == 16
    &&& c.keybindings@ == default_keybindings_spec()
    &&& c.vault_dir@ == vault_dir
    &&& c.url_prefixes@.len() == 0
}

impl Config {
    /// The default configuration for a given `$HOME` (absent when unset).
    pub fn for_home(home: Option<&str>) -> (res: Config)
        ensures
            is_default_config(res, vault_dir_spec(match home {
                Some(h) => Some(h@),
                None => None,
            })),
    {
        Config {
            start_page: "about:blank".to_string(),
            output_mode: OutputMode::Kitty,
            viewport_width: 1280,
            viewport_height: 800,
            max_tabs: 16,
            keybindings: default_keybindings(),
            vault_dir: default_vault_dir(home),
            url_prefixes: Vec::new(),
        }
    }

    /// After loading: a configuration without any keybinding map gets the
    /// default bindings; anything else is kept.
    pub fn fill_missing_keybindings(&mut self)
        ensures
            final(self).keybindings@ == (if old(self).keybindings@.len() == 0 {
                default_keybindings_spec()
            } else {
                old(self).keybindings@
            }),
            final(self).start_page == old(self).start_page,
            final(self).output_mode == old(self).output_mode,
            final(self).viewport_width == old(self).viewport_width,
            final(self).viewport_height == old(self).viewport_height,
            final(self).max_tabs == old(self).max_tabs,
            final(self).vault_dir == old(self).vault_dir,
            final(self).url_prefixes == old(self).url_prefixes,
    {
        if self.keybindings.is_empty() {
            self.keybindings = default_keybindings();
        }
    }
}

impl Default for Config {
    /// The default configuration when `$HOME` is not known.
    fn default() -> (res: Self)
        ensures
            is_default_config(res, vault_dir_spec(None)),
    {
        Config::for_home(None)
    }
}

} // verus!
