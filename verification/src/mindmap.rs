//! Obsidian-like node mindmap backing the bookmark manager.
//!
//! Each node is a Markdown file in a "vault" directory: a small YAML
//! frontmatter (title, url, tags) and a Markdown body whose `[[wikilink]]`
//! lines are the node's outgoing edges.

use vstd::prelude::*;
use crate::text::{
    chars_of, eq_chars, find_char, find_char_from, lemma_find_char, lines, lines_of, push_char,
    split_on, split_on_char, str_less, str_lt, string_of, strip_all_prefix, strip_all_prefix_str,
    strip_prefix_str, strip_suffix_str, subslice, trim, trim_chars, views,
};

verus! {

/// A single node (bookmark) in the mindmap.
#[derive(Debug, Clone, PartialEq)]
pub struct Node {
    /// Node id, used as the Markdown filename (slugified title by default).
    pub id: String,
    /// Display title.
    pub title: String,
    /// The bookmark URL (absent for pure note nodes).
    pub url: Option<String>,
    /// Tags (e.g. `rust`, `docs`).
    pub tags: Vec<String>,
    /// Outgoing edges to other node ids (`[[wikilinks]]`).
    pub links: Vec<String>,
    /// Free-form body (Markdown).
    pub body: String,
    /// Creation and modification timestamps (unix seconds).
    pub created: u64,
    pub updated: u64,
}

pub struct NodeView {
    pub id: Seq<char>,
    pub title: Seq<char>,
    pub url: Option<Seq<char>>,
    pub tags: Seq<Seq<char>>,
    pub links: Seq<Seq<char>>,
    pub body: Seq<char>,
    pub created: u64,
    pub updated: u64,
}

/// The views of a sequence of strings.
pub open spec fn string_views(v: Seq<String>) -> Seq<Seq<char>> {
    v.map_values(|s: String| s@)
}

/// The view of an optional string.
pub open spec fn opt_string_view(o: Option<String>) -> Option<Seq<char>> {
    match o {
        Some(s) => Some(s@),
        None => None,
    }
}

impl View for Node {
    type V = NodeView;

    open spec fn view(&self) -> NodeView {
        NodeView {
            id: self.id@,
            title: self.title@,
            url: opt_string_view(self.url),
            tags: string_views(self.tags@),
            links: string_views(self.links@),
            body: self.body@,
            created: self.created,
            updated: self.updated,
        }
    }
}

/// `SystemTime::elapsed` of the Unix epoch, in whole seconds (0 when the
/// clock is before 1970).
/// Nothing is claimed of the value: it is whatever the system clock reads.
#[verifier::external_body]
pub(crate) fn now_secs() -> u64 {
    std::time::UNIX_EPOCH.elapsed().map(|d| d.as_secs()).unwrap_or(0)
}

/// `char::is_alphanumeric` (Unicode `Alphabetic` or `Numeric`).
pub uninterp spec fn char_is_alphanumeric(c: char) -> bool;

/// ASCII letters and digits.
pub open spec fn is_ascii_alnum(c: char) -> bool {
    ('a' <= c <= 'z') || ('A' <= c <= 'Z') || ('0' <= c <= '9')
}

/// `char::is_alphanumeric`. On ASCII characters it holds exactly of the
/// letters and digits, as std documents; beyond ASCII the Unicode tables
/// decide and the contract only names the result.
#[verifier::external_body]
fn is_alphanumeric(c: char) -> (res: bool)
    ensures
        res == char_is_alphanumeric(c),
        (c as u32) < 128 ==> res == is_ascii_alnum(c),
{
    c.is_alphanumeric()
}

/// Whether `slugify` keeps a character: ASCII letters and digits, and the
/// characters beyond ASCII that `char::is_alphanumeric` accepts.
pub open spec fn slug_kept(c: char) -> bool {
    if (c as u32) < 128 {
        is_ascii_alnum(c)
    } else {
        char_is_alphanumeric(c)
    }
}

/// `char::to_ascii_lowercase`.
pub open spec fn ascii_lower(c: char) -> char {
    if 'A' <= c <= 'Z' {
        ((c as u32) + 32) as char
    } else {
        c
    }
}

/// Every character is ASCII.
pub open spec fn all_ascii(s: Seq<char>) -> bool {
    forall|i: int| 0 <= i < s.len() ==> (#[trigger] s[i] as u32) < 128
}

/// Every character is one that `slugify` keeps.
pub open spec fn all_kept(s: Seq<char>) -> bool {
    forall|i: int| 0 <= i < s.len() ==> slug_kept(#[trigger] s[i])
}

/// `str::to_ascii_lowercase`.
pub open spec fn ascii_lowercase(s: Seq<char>) -> Seq<char> {
    s.map_values(|c: char| ascii_lower(c))
}

/// `str::to_lowercase` of a run: ASCII lowercasing on ASCII text, else the
/// named Unicode result.
pub open spec fn lower_run(r: Seq<char>) -> Seq<char> {
    if all_ascii(r) {
        ascii_lowercase(r)
    } else {
        lowercase(r)
    }
}

/// The maximal runs of kept characters of `t`, in order, and whether `t`
/// ends inside one.
pub open spec fn runs_fold(t: Seq<char>) -> (Seq<Seq<char>>, bool)
    decreases t.len(),
{
    if t.len() == 0 {
        (Seq::empty(), false)
    } else {
        let (rs, inside) = runs_fold(t.drop_last());
        let c = t.last();
        if slug_kept(c) {
            if inside {
                (rs.update(rs.len() - 1, rs.last().push(c)), true)
            } else {
                (rs.push(seq![c]), true)
            }
        } else {
            (rs, false)
        }
    }
}

/// The runs of alphanumeric characters of a title.
pub open spec fn slug_runs(t: Seq<char>) -> Seq<Seq<char>> {
    runs_fold(t).0
}

/// Each run lowercased.
pub open spec fn lowered(rs: Seq<Seq<char>>) -> Seq<Seq<char>> {
    rs.map_values(|r: Seq<char>| lower_run(r))
}

/// The id that `slugify` gives a title: its runs of alphanumeric characters,
/// each lowercased, joined by `-`; "node" when there are none.
pub open spec fn slugify_spec(t: Seq<char>) -> Seq<char> {
    let rs = slug_runs(t);
    if rs.len() == 0 {
        "node"@
    } else {
        join_spec(lowered(rs), "-"@)
    }
}

proof fn lemma_join_push(xs: Seq<Seq<char>>, x: Seq<char>, sep: Seq<char>)
    ensures
        join_spec(xs.push(x), sep) == if xs.len() == 0 {
            x
        } else {
            join_spec(xs, sep) + sep + x
        },
{
    assert(xs.push(x).drop_last() == xs);
    assert(xs.push(x).last() == x);
    if xs.len() == 0 {
        assert(xs.push(x)[0] == x);
    }
}

proof fn lemma_lowered_push(rs: Seq<Seq<char>>, r: Seq<char>)
    ensures
        lowered(rs.push(r)) == lowered(rs).push(lower_run(r)),
{
    assert(lowered(rs.push(r)) =~= lowered(rs).push(lower_run(r)));
}

/// Appends the lowercased run `cur` to the slug `out`, after a `-` when
/// `out` already holds a run.
fn flush_run(out: &mut String, cur: &Vec<char>, any: bool)
    ensures
        final(out)@ == old(out)@ + (if any { "-"@ } else { Seq::empty() }) + lower_run(cur@),
{
    let run = string_of(cur.as_slice());
    let low = to_lowercase(run.as_str());
    let ghost before = out@;
    if any {
        out.append("-");
    }
    out.append(low.as_str());
    assert(out@ =~= before + (if any { "-"@ } else { Seq::empty() }) + lower_run(cur@));
}

/// Slugify a title into an id: the runs of alphanumeric characters, each
/// lowercased, joined by `-`; "node" when there are none.
pub fn slugify(title: &str) -> (res: String)
    ensures
        res@ == slugify_spec(title@),
{
    let tc = chars_of(title);
    let mut out = String::new();
    let mut cur: Vec<char> = Vec::new();
    let mut any = false;
    let mut i: usize = 0;
    assert(tc@.take(0) == Seq::<char>::empty());
    while i < tc.len()
        invariant
            i <= tc@.len(),
            ({
                let (rs, inside) = runs_fold(tc@.take(i as int));
                &&& inside == (cur@.len() > 0)
                &&& inside ==> rs.len() > 0 && cur@ == rs.last() && out@ == join_spec(
                    lowered(rs.drop_last()),
                    "-"@,
                ) && any == (rs.len() > 1)
                &&& !inside ==> out@ == join_spec(lowered(rs), "-"@) && any == (rs.len() > 0)
            }),
        decreases tc.len() - i,
    {
        let c = tc[i];
        let ghost rs = runs_fold(tc@.take(i as int)).0;
        let ghost inside = runs_fold(tc@.take(i as int)).1;
        assert(tc@.take(i + 1).drop_last() == tc@.take(i as int));
        assert(tc@.take(i + 1).last() == c);
        if is_alphanumeric(c) {
            cur.push(c);
            proof {
                if inside {
                    let nrs = rs.update(rs.len() - 1, rs.last().push(c));
                    assert(nrs.drop_last() =~= rs.drop_last());
                    assert(nrs.last() == rs.last().push(c));
                    assert(runs_fold(tc@.take(i + 1)) == (nrs, true));
                } else {
                    let nrs = rs.push(seq![c]);
                    assert(nrs.drop_last() =~= rs);
                    assert(cur@ =~= seq![c]);
                    assert(runs_fold(tc@.take(i + 1)) == (nrs, true));
                }
            }
        } else if cur.len() > 0 {
            let ghost before = out@;
            flush_run(&mut out, &cur, any);
            proof {
                lemma_lowered_push(rs.drop_last(), rs.last());
                assert(rs.drop_last().push(rs.last()) =~= rs);
                lemma_join_push(lowered(rs.drop_last()), lower_run(rs.last()), "-"@);
                if !any {
                    assert(out@ =~= before + lower_run(rs.last()));
                }
            }
            cur = Vec::new();
            any = true;
        }
        i = i + 1;
    }
    assert(tc@.take(tc@.len() as int) == tc@);
    let ghost rs = runs_fold(tc@).0;
    if cur.len() > 0 {
        let ghost before = out@;
        flush_run(&mut out, &cur, any);
        proof {
            lemma_lowered_push(rs.drop_last(), rs.last());
            assert(rs.drop_last().push(rs.last()) =~= rs);
            lemma_join_push(lowered(rs.drop_last()), lower_run(rs.last()), "-"@);
            if !any {
                assert(out@ =~= before + lower_run(rs.last()));
            }
        }
        any = true;
    }
    if !any {
        "node".to_string()
    } else {
        out
    }
}

/// The shape of a slug: not empty, no `-` at either end, never two `-` in
/// a row, every other character one that `slugify` keeps.
pub open spec fn is_slug(s: Seq<char>) -> bool {
    &&& s.len() > 0
    &&& s[0] != '-'
    &&& s.last() != '-'
    &&& slug_chars(s)
}

/// A character of a slug other than `-`: one that `slugify` keeps.
pub open spec fn slug_char(c: char) -> bool {
    slug_kept(c)
}

/// Every character is `-` or a slug character, and no two `-` are
/// neighbours.
pub open spec fn slug_chars(s: Seq<char>) -> bool {
    &&& forall|i: int| 0 <= i < s.len() ==> (#[trigger] s[i] == '-' || slug_char(s[i]))
    &&& forall|i: int| 0 <= i < s.len() - 1 ==> !(#[trigger] s[i] == '-' && s[i + 1] == '-')
}

/// A run as `slugify` leaves it: not empty, of slug characters.
pub open spec fn slug_piece(r: Seq<char>) -> bool {
    &&& r.len() > 0
    &&& forall|j: int| 0 <= j < r.len() ==> slug_char(#[trigger] r[j])
}

/// A lowercased run that a second `slugify` keeps as it is: a slug piece
/// that lowercasing leaves unchanged.
pub open spec fn stable_piece(r: Seq<char>) -> bool {
    slug_piece(r) && lower_run(r) == r
}

/// Every lowercased run of the title `t` is a slug piece.
pub open spec fn runs_lower_to_pieces(t: Seq<char>) -> bool {
    forall|i: int| 0 <= i < slug_runs(t).len() ==> slug_piece(#[trigger] lowered(slug_runs(t))[i])
}

/// Every lowercased run of the title `t` is a stable piece.
pub open spec fn runs_lower_stably(t: Seq<char>) -> bool {
    forall|i: int| 0 <= i < slug_runs(t).len() ==> stable_piece(#[trigger] lowered(slug_runs(t))[i])
}

proof fn lemma_runs_fold(t: Seq<char>)
    ensures
        forall|i: int| 0 <= i < runs_fold(t).0.len() ==> (#[trigger] runs_fold(t).0[i]).len() > 0,
        forall|i: int| 0 <= i < runs_fold(t).0.len() ==> all_kept(#[trigger] runs_fold(t).0[i]),
        all_ascii(t) ==> forall|i: int| 0 <= i < runs_fold(t).0.len() ==> all_ascii(#[trigger] runs_fold(t).0[i]),
        runs_fold(t).1 ==> runs_fold(t).0.len() > 0,
    decreases t.len(),
{
    if t.len() > 0 {
        let p = t.drop_last();
        lemma_runs_fold(p);
        assert(all_ascii(t) ==> all_ascii(p)) by {
            if all_ascii(t) {
                assert forall|i: int| 0 <= i < p.len() implies (#[trigger] p[i] as u32) < 128 by {
                    assert(p[i] == t[i]);
                }
            }
        }
        assert(all_ascii(t) ==> (t.last() as u32) < 128) by {
            if all_ascii(t) {
                assert(t[t.len() - 1] == t.last());
            }
        }
        let rs = runs_fold(p).0;
        let inside = runs_fold(p).1;
        let c = t.last();
        if slug_kept(c) {
            if inside {
                let nrs = rs.update(rs.len() - 1, rs.last().push(c));
                assert forall|i: int| 0 <= i < nrs.len() implies all_kept(#[trigger] nrs[i]) by {
                    if i == nrs.len() - 1 {
                        assert forall|j: int| 0 <= j < nrs[i].len() implies slug_kept(#[trigger] nrs[i][j]) by {
                            if j < rs.last().len() {
                                assert(nrs[i][j] == rs[rs.len() - 1][j]);
                            }
                        }
                    }
                }
                assert(all_ascii(t) ==> forall|i: int| 0 <= i < nrs.len() ==> all_ascii(#[trigger] nrs[i])) by {
                    if all_ascii(t) {
                        assert forall|i: int| 0 <= i < nrs.len() implies all_ascii(#[trigger] nrs[i]) by {
                            if i == nrs.len() - 1 {
                                assert forall|j: int| 0 <= j < nrs[i].len() implies (#[trigger] nrs[i][j] as u32) < 128 by {
                                    if j < rs.last().len() {
                                        assert(nrs[i][j] == rs[rs.len() - 1][j]);
                                    }
                                }
                            }
                        }
                    }
                }
            } else {
                let nrs = rs.push(seq![c]);
                assert forall|i: int| 0 <= i < nrs.len() implies all_kept(#[trigger] nrs[i]) by {
                    if i < rs.len() {
                        assert(nrs[i] == rs[i]);
                    }
                }
                assert(all_ascii(t) ==> forall|i: int| 0 <= i < nrs.len() ==> all_ascii(#[trigger] nrs[i])) by {
                    if all_ascii(t) {
                        assert forall|i: int| 0 <= i < nrs.len() implies all_ascii(#[trigger] nrs[i]) by {
                            if i < rs.len() {
                                assert(nrs[i] == rs[i]);
                            }
                        }
                    }
                }
            }
        }
    }
}

proof fn lemma_lowered_pieces(rs: Seq<Seq<char>>)
    requires
        forall|i: int| 0 <= i < rs.len() ==> (#[trigger] rs[i]).len() > 0,
        forall|i: int| 0 <= i < rs.len() ==> all_kept(#[trigger] rs[i]),
        forall|i: int| 0 <= i < rs.len() ==> all_ascii(#[trigger] rs[i]),
    ensures
        forall|i: int| 0 <= i < rs.len() ==> stable_piece(#[trigger] lowered(rs)[i]),
{
    assert forall|i: int| 0 <= i < rs.len() implies stable_piece(#[trigger] lowered(rs)[i]) by {
        let r = rs[i];
        assert(all_ascii(r));
        assert(all_kept(r));
        let x = ascii_lowercase(r);
        assert(lowered(rs)[i] == x);
        assert forall|j: int| 0 <= j < r.len() implies slug_char(#[trigger] x[j]) && (x[j] as u32) < 128 by {
            assert(slug_kept(r[j]));
            assert((r[j] as u32) < 128);
        }
        assert(all_ascii(x));
        assert(ascii_lowercase(x) =~= x);
    }
}

/// The lowercased runs of an ASCII title are stable pieces.
pub proof fn law_ascii_titles_lower_stably(t: Seq<char>)
    requires
        all_ascii(t),
    ensures
        runs_lower_stably(t),
        runs_lower_to_pieces(t),
{
    lemma_runs_fold(t);
    lemma_lowered_pieces(slug_runs(t));
}

proof fn lemma_join_slug(xs: Seq<Seq<char>>)
    requires
        xs.len() > 0,
        forall|i: int| 0 <= i < xs.len() ==> slug_piece(#[trigger] xs[i]),
    ensures
        is_slug(join_spec(xs, "-"@)),
        join_spec(xs, "-"@)[0] == xs[0][0],
    decreases xs.len(),
{
    reveal_strlit("-");
    assert(slug_piece(xs[0]));
    assert(slug_piece(xs[xs.len() - 1]));
    if xs.len() == 1 {
        let x = xs[0];
        assert(slug_char(x[0]));
        assert(slug_char(x[x.len() - 1]));
    } else {
        let p = xs.drop_last();
        assert forall|i: int| 0 <= i < p.len() implies slug_piece(#[trigger] p[i]) by {
            assert(p[i] == xs[i]);
        }
        lemma_join_slug(p);
        let a = join_spec(p, "-"@);
        let x = xs.last();
        let r = a + "-"@ + x;
        assert(join_spec(xs, "-"@) == r);
        assert(slug_char(x[0]));
        assert(slug_char(x[x.len() - 1]));
        assert forall|i: int| 0 <= i < r.len() implies (#[trigger] r[i] == '-' || slug_char(r[i])) by {
            if i < a.len() {
                assert(r[i] == a[i]);
            } else if i > a.len() {
                assert(r[i] == x[i - a.len() - 1]);
            }
        }
        assert forall|i: int| 0 <= i < r.len() - 1 implies !(#[trigger] r[i] == '-' && r[i + 1] == '-') by {
            if i + 1 < a.len() {
                assert(r[i] == a[i] && r[i + 1] == a[i + 1]);
            } else if i + 1 == a.len() {
                assert(r[i] == a[a.len() - 1]);
            } else if i == a.len() {
                assert(r[i + 1] == x[0]);
            } else {
                assert(r[i] == x[i - a.len() - 1]);
            }
        }
        assert(r[0] == a[0]);
        assert(r.last() == x[x.len() - 1]);
    }
}

/// What `slugify` makes of a title has the shape of a slug, whenever the
/// title's runs lowercase to runs of kept characters (as every ASCII title's
/// do, see [`law_ascii_titles_lower_stably`]).
pub proof fn law_slugify_shape(t: Seq<char>)
    requires
        runs_lower_to_pieces(t),
    ensures
        is_slug(slugify_spec(t)),
{
    let rs = slug_runs(t);
    if rs.len() == 0 {
        reveal_strlit("node");
        let n = "node"@;
        assert(n =~= seq!['n', 'o', 'd', 'e']);
        assert forall|i: int| 0 <= i < n.len() implies (#[trigger] n[i] == '-' || slug_char(n[i])) by {
            assert(n[i] == 'n' || n[i] == 'o' || n[i] == 'd' || n[i] == 'e');
        }
    } else {
        assert forall|i: int| 0 <= i < lowered(rs).len() implies slug_piece(#[trigger] lowered(rs)[i]) by {}
        lemma_join_slug(lowered(rs));
    }
}

proof fn lemma_runs_append_piece(a: Seq<char>, x: Seq<char>)
    requires
        slug_piece(x),
        !runs_fold(a).1,
    ensures
        runs_fold(a + x) == (runs_fold(a).0.push(x), true),
    decreases x.len(),
{
    let rs = runs_fold(a).0;
    let c = x.last();
    assert(slug_char(x[x.len() - 1]));
    let xp = x.drop_last();
    assert((a + x).drop_last() == a + xp);
    assert((a + x).last() == c);
    if xp.len() == 0 {
        assert(a + xp == a);
        assert(x =~= seq![c]);
    } else {
        assert forall|j: int| 0 <= j < xp.len() implies slug_char(#[trigger] xp[j]) by {
            assert(xp[j] == x[j]);
        }
        lemma_runs_append_piece(a, xp);
        assert(xp.push(c) =~= x);
        assert(rs.push(xp).update(rs.len() as int, xp.push(c)) =~= rs.push(x));
    }
}

proof fn lemma_runs_join(xs: Seq<Seq<char>>)
    requires
        xs.len() > 0,
        forall|i: int| 0 <= i < xs.len() ==> slug_piece(#[trigger] xs[i]),
    ensures
        runs_fold(join_spec(xs, "-"@)) == (xs, true),
    decreases xs.len(),
{
    reveal_strlit("-");
    assert(slug_piece(xs[xs.len() - 1]));
    if xs.len() == 1 {
        let e = Seq::<char>::empty();
        assert(e + xs[0] == xs[0]);
        lemma_runs_append_piece(e, xs[0]);
        assert(Seq::<Seq<char>>::empty().push(xs[0]) =~= xs);
    } else {
        let p = xs.drop_last();
        assert forall|i: int| 0 <= i < p.len() implies slug_piece(#[trigger] p[i]) by {
            assert(p[i] == xs[i]);
        }
        lemma_runs_join(p);
        let a = join_spec(p, "-"@);
        let ad = a + "-"@;
        assert(ad.drop_last() == a);
        assert(ad.last() == '-');
        assert(!slug_kept('-'));
        assert(runs_fold(ad) == (p, false));
        lemma_runs_append_piece(ad, xs.last());
        assert(join_spec(xs, "-"@) == ad + xs.last());
        assert(p.push(xs.last()) =~= xs);
    }
}

proof fn lemma_lowered_fixed(xs: Seq<Seq<char>>)
    requires
        forall|i: int| 0 <= i < xs.len() ==> stable_piece(#[trigger] xs[i]),
    ensures
        lowered(xs) == xs,
{
    assert forall|i: int| 0 <= i < xs.len() implies #[trigger] lowered(xs)[i] == xs[i] by {
        assert(stable_piece(xs[i]));
    }
    assert(lowered(xs) =~= xs);
}

/// Slugifying an id that `slugify` made gives it back unchanged, so a slug
/// is a stable node id, whenever the title's runs lowercase to runs that a
/// second pass keeps as they are (as every ASCII title's do, see
/// [`law_ascii_titles_lower_stably`]).
pub proof fn law_slugify_idempotent(t: Seq<char>)
    requires
        runs_lower_stably(t),
    ensures
        slugify_spec(slugify_spec(t)) == slugify_spec(t),
{
    let rs = slug_runs(t);
    let xs = if rs.len() == 0 {
        reveal_strlit("node");
        let n = "node"@;
        assert(n =~= seq!['n', 'o', 'd', 'e']);
        assert forall|j: int| 0 <= j < n.len() implies slug_char(#[trigger] n[j]) && (n[j] as u32) < 128 by {
            assert(n[j] == 'n' || n[j] == 'o' || n[j] == 'd' || n[j] == 'e');
        }
        assert(all_ascii(n));
        assert(ascii_lowercase(n) =~= n);
        assert(stable_piece(n));
        assert(join_spec(seq![n], "-"@) == n);
        seq![n]
    } else {
        assert forall|i: int| 0 <= i < lowered(rs).len() implies stable_piece(#[trigger] lowered(rs)[i]) by {}
        lowered(rs)
    };
    assert forall|i: int| 0 <= i < xs.len() implies slug_piece(#[trigger] xs[i]) by {
        assert(stable_piece(xs[i]));
    }
    assert(join_spec(xs, "-"@) == slugify_spec(t));
    lemma_runs_join(xs);
    lemma_lowered_fixed(xs);
}

/// The escape of one character.
pub open spec fn yaml_escape_char(c: char) -> Seq<char> {
    if c == '\\' {
        seq!['\\', '\\']
    } else if c == '"' {
        seq!['\\', '"']
    } else {
        seq![c]
    }
}

/// `s` with `\` and `"` escaped by a backslash.
pub open spec fn yaml_escape_spec(s: Seq<char>) -> Seq<char>
    decreases s.len(),
{
    if s.len() == 0 {
        Seq::empty()
    } else {
        yaml_escape_spec(s.drop_last()) + yaml_escape_char(s.last())
    }
}

/// Appends `s` with `\` and `"` escaped (`s.replace('\\', "\\\\").replace('"', "\\\"")`).
fn push_yaml_escaped(out: &mut String, s: &str)
    ensures
        final(out)@ == old(out)@ + yaml_escape_spec(s@),
{
    let sc = chars_of(s);
    let mut i: usize = 0;
    assert(sc@.take(0) == Seq::<char>::empty());
    while i < sc.len()
        invariant
            i <= sc@.len(),
            out@ == old(out)@ + yaml_escape_spec(sc@.take(i as int)),
        decreases sc.len() - i,
    {
        let c = sc[i];
        assert(sc@.take(i + 1).drop_last() == sc@.take(i as int));
        if c == '\\' {
            push_char(out, '\\');
            push_char(out, '\\');
        } else if c == '"' {
            push_char(out, '\\');
            push_char(out, '"');
        } else {
            push_char(out, c);
        }
        i = i + 1;
    }
    assert(sc@.take(sc@.len() as int) == sc@);
}

/// `s` with the escapes `\\` and `\"` of a double-quoted value undone; any
/// other backslash stays as it is.
pub open spec fn yaml_unescape(s: Seq<char>) -> Seq<char>
    decreases s.len(),
{
    if s.len() == 0 {
        Seq::empty()
    } else if s.len() >= 2 && s[0] == '\\' && (s[1] == '\\' || s[1] == '"') {
        seq![s[1]] + yaml_unescape(s.skip(2))
    } else {
        seq![s[0]] + yaml_unescape(s.drop_first())
    }
}

proof fn lemma_yaml_escape_front(s: Seq<char>)
    requires
        s.len() > 0,
    ensures
        yaml_escape_spec(s) == yaml_escape_char(s[0]) + yaml_escape_spec(s.drop_first()),
    decreases s.len(),
{
    if s.len() == 1 {
        assert(s.drop_last() =~= Seq::<char>::empty());
        assert(s.drop_first() =~= Seq::<char>::empty());
        assert(yaml_escape_spec(s.drop_last()) == Seq::<char>::empty());
        assert(s.last() == s[0]);
        assert(yaml_escape_spec(s) =~= yaml_escape_char(s[0]));
        assert(yaml_escape_char(s[0]) + Seq::<char>::empty() =~= yaml_escape_char(s[0]));
    } else {
        let p = s.drop_last();
        lemma_yaml_escape_front(p);
        assert(p[0] == s[0]);
        assert(p.drop_first() == s.drop_first().drop_last());
        assert(s.drop_first().last() == s.last());
        assert(yaml_escape_spec(s.drop_first()) == yaml_escape_spec(p.drop_first()) + yaml_escape_char(s.last()));
        assert(yaml_escape_spec(s) == yaml_escape_spec(p) + yaml_escape_char(s.last()));
        assert(yaml_escape_spec(s) =~= yaml_escape_char(s[0]) + yaml_escape_spec(s.drop_first()));
    }
}

/// Undoing the escapes gives back the escaped text.
pub proof fn lemma_yaml_unescape_escape(s: Seq<char>)
    ensures
        yaml_unescape(yaml_escape_spec(s)) == s,
    decreases s.len(),
{
    if s.len() > 0 {
        lemma_yaml_escape_front(s);
        lemma_yaml_unescape_escape(s.drop_first());
        let r = yaml_escape_spec(s.drop_first());
        let e = yaml_escape_spec(s);
        let c = s[0];
        if c == '\\' || c == '"' {
            assert(e.skip(2) =~= r);
            assert(e[0] == '\\' && e[1] == c);
        } else {
            assert(e.drop_first() =~= r);
            assert(e[0] == c);
        }
        assert(s =~= seq![c] + s.drop_first());
    } else {
        assert(yaml_escape_spec(s) == Seq::<char>::empty());
    }
}

/// `s` with the escapes of a double-quoted value undone.
fn yaml_unescape_chars(s: &[char]) -> (res: Vec<char>)
    ensures
        res@ == yaml_unescape(s@),
{
    let n = s.len();
    let mut out: Vec<char> = Vec::new();
    let mut i: usize = 0;
    assert(s@.skip(0) == s@);
    while i < n
        invariant
            i <= n,
            n == s@.len(),
            yaml_unescape(s@) == out@ + yaml_unescape(s@.skip(i as int)),
        decreases n - i,
    {
        let ghost rest = s@.skip(i as int);
        let ghost before = out@;
        if i + 1 < n && s[i] == '\\' && (s[i + 1] == '\\' || s[i + 1] == '"') {
            out.push(s[i + 1]);
            assert(rest.skip(2) == s@.skip(i + 2));
            assert(rest[1] == s@[i + 1]);
            i = i + 2;
        } else {
            out.push(s[i]);
            assert(rest.drop_first() == s@.skip(i + 1));
            i = i + 1;
        }
    }
    assert(s@.skip(n as int) =~= Seq::<char>::empty());
    assert(out@ + Seq::<char>::empty() =~= out@);
    out
}

/// A value of the frontmatter: surrounding quotes (double or single)
/// removed, and in a double-quoted value its escapes undone; `None` when it
/// is empty.
pub open spec fn unquote_spec(s: Seq<char>) -> Option<Seq<char>> {
    let t = trim(s);
    if t.len() >= 2 && t[0] == '"' && t.last() == '"' {
        Some(yaml_unescape(t.subrange(1, t.len() - 1)))
    } else if t.len() >= 2 && t[0] == '\'' && t.last() == '\'' {
        Some(t.subrange(1, t.len() - 1))
    } else if t.len() == 0 {
        None
    } else {
        Some(t)
    }
}

pub fn unquote(s: &[char]) -> (res: Option<Vec<char>>)
    ensures
        match res {
            Some(r) => unquote_spec(s@) == Some(r@),
            None => unquote_spec(s@) is None,
        },
{
    let t = trim_chars(s);
    let n = t.len();
    if n >= 2 && t[0] == '"' && t[n - 1] == '"' {
        let inner = subslice(t.as_slice(), 1, n - 1);
        Some(yaml_unescape_chars(inner.as_slice()))
    } else if n >= 2 && t[0] == '\'' && t[n - 1] == '\'' {
        Some(subslice(t.as_slice(), 1, n - 1))
    } else if n == 0 {
        None
    } else {
        Some(t)
    }
}

/// The link id of a `[[id]]` or `[[id|alias]]` line (list bullets `- `
/// allowed in front).
pub open spec fn wikilink_spec(line: Seq<char>) -> Option<Seq<char>> {
    let t = trim(strip_all_prefix(trim(line), "- "@));
    if "[["@.is_prefix_of(t) {
        let rest = t.skip(2);
        if "]]"@.is_suffix_of(rest) {
            let inner = rest.take(rest.len() - 2);
            let id = trim(inner.take(find_char(inner, '|') as int));
            if id.len() > 0 {
                Some(id)
            } else {
                None
            }
        } else {
            None
        }
    } else {
        None
    }
}

pub fn parse_wikilink_line(line: &[char]) -> (res: Option<Vec<char>>)
    ensures
        match res {
            Some(r) => wikilink_spec(line@) == Some(r@),
            None => wikilink_spec(line@) is None,
        },
{
    proof {
        reveal_strlit("[[");
        reveal_strlit("]]");
    }
    let t0 = trim_chars(line);
    let t1 = strip_all_prefix_str(t0.as_slice(), "- ");
    let t = trim_chars(t1.as_slice());
    match strip_prefix_str(t.as_slice(), "[[") {
        Some(rest) => {
            match strip_suffix_str(rest.as_slice(), "]]") {
                Some(inner) => {
                    let bar = find_char_from(inner.as_slice(), 0, '|');
                    assert(inner@.skip(0) == inner@);
                    proof {
                        lemma_find_char(inner@, '|');
                    }
                    let head = subslice(inner.as_slice(), 0, bar);
                    let id = trim_chars(head.as_slice());
                    if id.len() > 0 {
                        Some(id)
                    } else {
                        None
                    }
                },
                None => None,
            }
        },
        None => None,
    }
}


/// `xs` joined with `sep` between neighbours (`[T]::join`).
pub open spec fn join_spec(xs: Seq<Seq<char>>, sep: Seq<char>) -> Seq<char>
    decreases xs.len(),
{
    if xs.len() == 0 {
        Seq::empty()
    } else if xs.len() == 1 {
        xs[0]
    } else {
        join_spec(xs.drop_last(), sep) + sep + xs.last()
    }
}

/// One `- [[id]]` line per link.
pub open spec fn link_lines(ls: Seq<Seq<char>>) -> Seq<char>
    decreases ls.len(),
{
    if ls.len() == 0 {
        Seq::empty()
    } else {
        link_lines(ls.drop_last()) + "- [["@ + ls.last() + "]]\n"@
    }
}

/// The Markdown file of a node: frontmatter (title, url when present, tags
/// when there are any), the body when it is not empty, then one wikilink
/// line per link.
pub open spec fn markdown_spec(n: NodeView) -> Seq<char> {
    "---\n"@ + "title: \""@ + yaml_escape_spec(n.title) + "\"\n"@ + (match n.url {
        Some(u) => "url: \""@ + yaml_escape_spec(u) + "\"\n"@,
        None => Seq::empty(),
    }) + (if n.tags.len() > 0 {
        "tags: "@ + join_spec(n.tags, ", "@) + "\n"@
    } else {
        Seq::empty()
    }) + "---\n\n"@ + (if n.body.len() > 0 {
        n.body + "\n\n"@
    } else {
        Seq::empty()
    }) + link_lines(n.links)
}

/// The state of the frontmatter reader after some lines.
pub struct MdState {
    pub title: Seq<char>,
    pub url: Option<Seq<char>>,
    pub tags: Seq<Seq<char>>,
    pub links: Seq<Seq<char>>,
    pub body: Seq<char>,
    pub in_frontmatter: bool,
    pub in_body: bool,
}

/// The values of a `tags:` line: the comma-separated pieces, unquoted, empty
/// ones dropped.
pub open spec fn tag_values(pieces: Seq<Seq<char>>) -> Seq<Seq<char>>
    decreases pieces.len(),
{
    if pieces.len() == 0 {
        Seq::empty()
    } else {
        let prev = tag_values(pieces.drop_last());
        match unquote_spec(trim(pieces.last())) {
            Some(v) => prev.push(v),
            None => prev,
        }
    }
}

pub open spec fn md_start(id: Seq<char>) -> MdState {
    MdState {
        title: id,
        url: None,
        tags: Seq::empty(),
        links: Seq::empty(),
        body: Seq::empty(),
        in_frontmatter: false,
        in_body: false,
    }
}

/// How the reader takes one line.
pub open spec fn md_step(id: Seq<char>, st: MdState, line: Seq<char>) -> MdState {
    let t = trim(line);
    if t == "---"@ {
        if !st.in_frontmatter && st.body.len() == 0 && st.url is None && st.title == id {
            MdState { in_frontmatter: true, ..st }
        } else if st.in_frontmatter {
            MdState { in_frontmatter: false, in_body: true, ..st }
        } else {
            st
        }
    } else if st.in_frontmatter {
        if "title:"@.is_prefix_of(t) {
            MdState {
                title: match unquote_spec(trim(t.skip("title:"@.len() as int))) {
                    Some(v) => v,
                    None => id,
                },
                ..st
            }
        } else if "url:"@.is_prefix_of(t) {
            MdState { url: unquote_spec(trim(t.skip("url:"@.len() as int))), ..st }
        } else if "tags:"@.is_prefix_of(t) {
            MdState { tags: tag_values(split_on(trim(t.skip("tags:"@.len() as int)), ',')), ..st }
        } else {
            st
        }
    } else {
        match wikilink_spec(t) {
            Some(l) => MdState { links: st.links.push(l), ..st },
            None => if st.in_body {
                MdState { body: st.body + line + seq!['\n'], ..st }
            } else {
                st
            },
        }
    }
}

/// The reader's state after the lines `ls`, starting from `st`.
pub open spec fn md_fold_from(id: Seq<char>, st: MdState, ls: Seq<Seq<char>>) -> MdState
    decreases ls.len(),
{
    if ls.len() == 0 {
        st
    } else {
        md_step(id, md_fold_from(id, st, ls.drop_last()), ls.last())
    }
}

/// The reader's state after the lines `ls` of a file.
pub open spec fn md_fold(id: Seq<char>, ls: Seq<Seq<char>>) -> MdState {
    md_fold_from(id, md_start(id), ls)
}

/// The node that `from_markdown` reads from a file.
pub open spec fn from_markdown_spec(id: Seq<char>, text: Seq<char>, created: u64, updated: u64) -> NodeView {
    let st = md_fold(id, lines(text));
    NodeView {
        id,
        title: st.title,
        url: st.url,
        tags: st.tags,
        links: st.links,
        body: trim(st.body),
        created,
        updated,
    }
}

struct MdReader {
    title: Vec<char>,
    url: Option<Vec<char>>,
    tags: Vec<Vec<char>>,
    links: Vec<Vec<char>>,
    body: Vec<char>,
    in_frontmatter: bool,
    in_body: bool,
}

impl View for MdReader {
    type V = MdState;

    closed spec fn view(&self) -> MdState {
        MdState {
            title: self.title@,
            url: match self.url {
                Some(u) => Some(u@),
                None => None,
            },
            tags: views(self.tags@),
            links: views(self.links@),
            body: self.body@,
            in_frontmatter: self.in_frontmatter,
            in_body: self.in_body,
        }
    }
}

fn tag_values_of(pieces: &Vec<Vec<char>>) -> (res: Vec<Vec<char>>)
    ensures
        views(res@) == tag_values(views(pieces@)),
{
    let mut out: Vec<Vec<char>> = Vec::new();
    let mut i: usize = 0;
    assert(views(pieces@).take(0) == Seq::<Seq<char>>::empty());
    assert(views(out@) =~= Seq::<Seq<char>>::empty());
    while i < pieces.len()
        invariant
            i <= pieces@.len(),
            views(out@) == tag_values(views(pieces@).take(i as int)),
        decreases pieces.len() - i,
    {
        assert(views(pieces@).take(i + 1).drop_last() == views(pieces@).take(i as int));
        assert(views(pieces@).take(i + 1).last() == pieces@[i as int]@);
        let p = trim_chars(pieces[i].as_slice());
        match unquote(p.as_slice()) {
            Some(v) => {
                let ghost before = out@;
                out.push(v);
                proof {
                    crate::text::lemma_views_push(before, v);
                }
            },
            None => {},
        }
        i = i + 1;
    }
    assert(views(pieces@).take(pieces@.len() as int) == views(pieces@));
    out
}

fn append_line(body: &mut Vec<char>, line: &[char])
    ensures
        final(body)@ == old(body)@ + line@ + seq!['\n'],
{
    let mut k: usize = 0;
    while k < line.len()
        invariant
            k <= line@.len(),
            body@ == old(body)@ + line@.take(k as int),
        decreases line.len() - k,
    {
        body.push(line[k]);
        k = k + 1;
        assert(line@.take(k as int) == line@.take(k - 1).push(line@[k - 1]));
    }
    assert(line@.take(line@.len() as int) == line@);
    body.push('\n');
    assert(body@ =~= old(body)@ + line@ + seq!['\n']);
}

fn md_step_exec(id: &[char], st: &mut MdReader, line: &[char])
    ensures
        final(st)@ == md_step(id@, old(st)@, line@),
{
    let ghost st0 = st@;
    let t = trim_chars(line);
    if crate::text::eq_str(t.as_slice(), "---") {
        if !st.in_frontmatter && st.body.len() == 0 && st.url.is_none() && eq_chars(
            st.title.as_slice(),
            id,
        ) {
            st.in_frontmatter = true;
        } else if st.in_frontmatter {
            st.in_frontmatter = false;
            st.in_body = true;
        }
        return ;
    }
    if st.in_frontmatter {
        match strip_prefix_str(t.as_slice(), "title:") {
            Some(rest) => {
                let r = trim_chars(rest.as_slice());
                st.title = match unquote(r.as_slice()) {
                    Some(v) => v,
                    None => subslice(id, 0, id.len()),
                };
                assert(id@.subrange(0, id@.len() as int) == id@);
                return ;
            },
            None => {},
        }
        match strip_prefix_str(t.as_slice(), "url:") {
            Some(rest) => {
                let r = trim_chars(rest.as_slice());
                st.url = unquote(r.as_slice());
                return ;
            },
            None => {},
        }
        match strip_prefix_str(t.as_slice(), "tags:") {
            Some(rest) => {
                let r = trim_chars(rest.as_slice());
                let pieces = split_on_char(r.as_slice(), ',');
                st.tags = tag_values_of(&pieces);
                return ;
            },
            None => {},
        }
        return ;
    }
    match parse_wikilink_line(t.as_slice()) {
        Some(l) => {
            let ghost before = st.links@;
            st.links.push(l);
            proof {
                crate::text::lemma_views_push(before, l);
            }
            assert(st@.links == st0.links.push(l@));
            assert(st@ == md_step(id@, st0, line@));
        },
        None => {
            if st.in_body {
                append_line(&mut st.body, line);
                assert(st@ == md_step(id@, st0, line@));
            }
        },
    }
}

/// Strings holding the texts `vs`.
fn strings_of(vs: &Vec<Vec<char>>) -> (res: Vec<String>)
    ensures
        string_views(res@) == views(vs@),
{
    let mut out: Vec<String> = Vec::new();
    let mut i: usize = 0;
    while i < vs.len()
        invariant
            i <= vs@.len(),
            string_views(out@) == views(vs@.take(i as int)),
        decreases vs.len() - i,
    {
        let ghost before = out@;
        out.push(string_of(vs[i].as_slice()));
        assert(vs@.take(i + 1) == vs@.take(i as int).push(vs@[i as int]));
        assert(string_views(out@) =~= string_views(before).push(vs@[i as int]@));
        assert(views(vs@.take(i + 1)) =~= views(vs@.take(i as int)).push(vs@[i as int]@));
        i = i + 1;
    }
    assert(vs@.take(vs@.len() as int) == vs@);
    out
}

impl Node {
    /// Read a node from the text of its Markdown file `<id>.md`.
    pub fn from_markdown(id: &str, text: &str, created: u64, updated: u64) -> (res: Node)
        ensures
            res@ == from_markdown_spec(id@, text@, created, updated),
    {
        let idc = chars_of(id);
        let tc = chars_of(text);
        let ls = lines_of(tc.as_slice());
        let mut st = MdReader {
            title: subslice(idc.as_slice(), 0, idc.len()),
            url: None,
            tags: Vec::new(),
            links: Vec::new(),
            body: Vec::new(),
            in_frontmatter: false,
            in_body: false,
        };
        assert(idc@.subrange(0, idc@.len() as int) == idc@);
        assert(views(st.tags@) =~= Seq::<Seq<char>>::empty());
        assert(views(st.links@) =~= Seq::<Seq<char>>::empty());
        assert(st@ =~= md_start(id@));
        let mut i: usize = 0;
        assert(views(ls@).take(0) == Seq::<Seq<char>>::empty());
        while i < ls.len()
            invariant
                i <= ls@.len(),
                idc@ == id@,
                st@ == md_fold(id@, views(ls@).take(i as int)),
            decreases ls.len() - i,
        {
            assert(views(ls@).take(i + 1).drop_last() == views(ls@).take(i as int));
            assert(views(ls@).take(i + 1).last() == ls@[i as int]@);
            md_step_exec(idc.as_slice(), &mut st, ls[i].as_slice());
            i = i + 1;
        }
        assert(views(ls@).take(ls@.len() as int) == views(ls@));
        let body = trim_chars(st.body.as_slice());
        Node {
            id: id.to_string(),
            title: string_of(st.title.as_slice()),
            url: match &st.url {
                Some(u) => Some(string_of(u.as_slice())),
                None => None,
            },
            tags: strings_of(&st.tags),
            links: strings_of(&st.links),
            body: string_of(body.as_slice()),
            created,
            updated,
        }
    }

    /// The Markdown file of this node.
    pub fn to_markdown(&self) -> (res: String)
        ensures
            res@ == markdown_spec(self@),
    {
        let mut s = String::new();
        s.append("---\n");
        s.append("title: \"");
        push_yaml_escaped(&mut s, self.title.as_str());
        s.append("\"\n");
        let ghost a = s@;
        match &self.url {
            Some(u) => {
                s.append("url: \"");
                push_yaml_escaped(&mut s, u.as_str());
                s.append("\"\n");
            },
            None => {},
        }
        let ghost b = s@;
        if self.tags.len() > 0 {
            s.append("tags: ");
            let mut i: usize = 0;
            let ghost tv = string_views(self.tags@);
            while i < self.tags.len()
                invariant
                    0 <= i <= self.tags@.len(),
                    self.tags@.len() > 0,
                    tv == string_views(self.tags@),
                    i > 0 ==> s@ == b + "tags: "@ + join_spec(tv.take(i as int), ", "@),
                    i == 0 ==> s@ == b + "tags: "@,
                decreases self.tags.len() - i,
            {
                assert(tv.take(i + 1).drop_last() == tv.take(i as int));
                assert(tv.take(i + 1).last() == self.tags@[i as int]@);
                if i > 0 {
                    s.append(", ");
                }
                s.append(self.tags[i].as_str());
                assert(i == 0 ==> tv.take(1) == seq![tv[0]]);
                i = i + 1;
            }
            assert(tv.take(self.tags@.len() as int) == tv);
            s.append("\n");
        }
        let ghost c = s@;
        s.append("---\n\n");
        if !self.body.as_str().is_empty() {
            s.append(self.body.as_str());
            s.append("\n\n");
        }
        let ghost d = s@;
        let mut j: usize = 0;
        let ghost lv = string_views(self.links@);
        assert(lv.take(0) == Seq::<Seq<char>>::empty());
        while j < self.links.len()
            invariant
                j <= self.links@.len(),
                lv == string_views(self.links@),
                s@ == d + link_lines(lv.take(j as int)),
            decreases self.links.len() - j,
        {
            assert(lv.take(j + 1).drop_last() == lv.take(j as int));
            assert(lv.take(j + 1).last() == self.links@[j as int]@);
            s.append("- [[");
            s.append(self.links[j].as_str());
            s.append("]]\n");
            j = j + 1;
        }
        assert(lv.take(self.links@.len() as int) == lv);
        s
    }
}


/// `s` without any element equal to `x` (`Vec::retain(|l| l != x)`).
pub open spec fn remove_all(s: Seq<Seq<char>>, x: Seq<char>) -> Seq<Seq<char>>
    decreases s.len(),
{
    if s.len() == 0 {
        Seq::empty()
    } else if s.last() == x {
        remove_all(s.drop_last(), x)
    } else {
        remove_all(s.drop_last(), x).push(s.last())
    }
}

/// The fields other than links and the update time are the same.
pub open spec fn same_but_links(a: NodeView, b: NodeView) -> bool {
    &&& a.id == b.id
    &&& a.title == b.title
    &&& a.url == b.url
    &&& a.tags == b.tags
    &&& a.body == b.body
    &&& a.created == b.created
}

/// The links after linking to `x`: unchanged when `x` is there, else `x`
/// appended.
pub open spec fn link_spec(ls: Seq<Seq<char>>, x: Seq<char>) -> Seq<Seq<char>> {
    if ls.contains(x) {
        ls
    } else {
        ls.push(x)
    }
}

/// Linking twice is linking once, and afterwards the link is there.
pub proof fn law_link_idempotent(ls: Seq<Seq<char>>, x: Seq<char>)
    ensures
        link_spec(link_spec(ls, x), x) == link_spec(ls, x),
        link_spec(ls, x).contains(x),
{
    if !ls.contains(x) {
        assert(ls.push(x)[ls.len() as int] == x);
    }
}

/// Unlinking removes the link whatever linking did before, and removes
/// nothing else.
pub proof fn law_unlink_after_link(ls: Seq<Seq<char>>, x: Seq<char>, y: Seq<char>)
    ensures
        remove_all(link_spec(ls, x), x) == remove_all(ls, x),
        !remove_all(ls, x).contains(x),
        y != x ==> (remove_all(ls, x).contains(y) <==> ls.contains(y)),
    decreases ls.len(),
{
    if !ls.contains(x) {
        assert(ls.push(x).drop_last() == ls);
    }
    lemma_remove_all(ls, x, y);
}

proof fn lemma_remove_all(ls: Seq<Seq<char>>, x: Seq<char>, y: Seq<char>)
    ensures
        !remove_all(ls, x).contains(x),
        y != x ==> (remove_all(ls, x).contains(y) <==> ls.contains(y)),
    decreases ls.len(),
{
    if ls.len() > 0 {
        lemma_remove_all(ls.drop_last(), x, y);
        let r = remove_all(ls.drop_last(), x);
        if ls.last() != x {
            assert(r.push(ls.last())[r.len() as int] == ls.last());
            if r.push(ls.last()).contains(x) {
                let i = choose|i: int| 0 <= i < r.len() + 1 && r.push(ls.last())[i] == x;
                assert(i < r.len() ==> r[i] == x);
            }
            if y != x {
                if ls.contains(y) {
                    let i = choose|i: int| 0 <= i < ls.len() && ls[i] == y;
                    if i < ls.len() - 1 {
                        assert(ls.drop_last()[i] == y);
                        assert(ls.drop_last().contains(y));
                        let k = choose|k: int| 0 <= k < r.len() && r[k] == y;
                        assert(r.push(ls.last())[k] == y);
                    } else {
                        assert(ls.last() == y);
                        assert(r.push(ls.last())[r.len() as int] == y);
                    }
                }
                if r.push(ls.last()).contains(y) {
                    let i = choose|i: int| 0 <= i < r.len() + 1 && r.push(ls.last())[i] == y;
                    if i < r.len() {
                        assert(r[i] == y);
                        let j = choose|j: int| 0 <= j < ls.drop_last().len() && ls.drop_last()[j] == y;
                        assert(ls[j] == y);
                    } else {
                        assert(ls[ls.len() - 1] == y);
                    }
                }
            }
        } else {
            if y != x {
                if ls.contains(y) {
                    let i = choose|i: int| 0 <= i < ls.len() && ls[i] == y;
                    assert(ls.drop_last()[i] == y);
                }
                if ls.drop_last().contains(y) {
                    let j = choose|j: int| 0 <= j < ls.drop_last().len() && ls.drop_last()[j] == y;
                    assert(ls[j] == y);
                }
            }
        }
    }
}

impl Node {
    /// A fresh node for a bookmark made at time `now`: id from the slugified
    /// title, no tags, links or body, both timestamps `now`.
    pub fn new_at(title: &str, url: Option<String>, now: u64) -> (res: Self)
        ensures
            res@.id == slugify_spec(title@),
            res@.title == title@,
            res@.url == opt_string_view(url),
            res@.tags.len() == 0,
            res@.links.len() == 0,
            res@.body.len() == 0,
            res.created == now,
            res.updated == now,
    {
        let id = slugify(title);
        let n = Node {
            id,
            title: title.to_string(),
            url,
            tags: Vec::new(),
            links: Vec::new(),
            body: String::new(),
            created: now,
            updated: now,
        };
        assert(n@.tags.len() == 0);
        n
    }

    /// A fresh node for a bookmark, made at the current time (see
    /// [`Node::new_at`]).
    pub fn new(title: &str, url: Option<String>) -> (res: Self)
        ensures
            res@.id == slugify_spec(title@),
            res@.title == title@,
            res@.url == opt_string_view(url),
            res@.tags.len() == 0,
            res@.links.len() == 0,
            res@.body.len() == 0,
            res.created == res.updated,
    {
        Node::new_at(title, url, now_secs())
    }

    /// Add an outgoing edge to `other_id` unless it is already there, at
    /// time `now`: the update time becomes `now`.
    pub fn link_at(&mut self, other_id: &str, now: u64)
        ensures
            final(self)@.links == link_spec(old(self)@.links, other_id@),
            same_but_links(final(self)@, old(self)@),
            final(self).updated == now,
    {
        let oc = chars_of(other_id);
        let mut found = false;
        let mut i: usize = 0;
        while i < self.links.len()
            invariant
                i <= self.links@.len(),
                oc@ == other_id@,
                found == exists|k: int| 0 <= k < i && #[trigger] self.links@[k]@ == other_id@,
            decreases self.links.len() - i,
        {
            let lc = chars_of(self.links[i].as_str());
            if eq_chars(lc.as_slice(), oc.as_slice()) {
                found = true;
            }
            i = i + 1;
        }
        proof {
            let lv = string_views(self.links@);
            if found {
                let k = choose|k: int| 0 <= k < self.links@.len() && #[trigger] self.links@[k]@ == other_id@;
                assert(lv[k] == other_id@);
            } else {
                assert forall|k: int| 0 <= k < lv.len() implies lv[k] != other_id@ by {
                    assert(lv[k] == self.links@[k]@);
                }
            }
        }
        if !found {
            let ghost before = self.links@;
            self.links.push(other_id.to_string());
            assert(string_views(self.links@) =~= string_views(before).push(other_id@));
        }
        self.updated = now;
    }

    /// Add an outgoing edge to `other_id` unless it is already there, at the
    /// current time (see [`Node::link_at`]).
    pub fn link(&mut self, other_id: &str)
        ensures
            final(self)@.links == link_spec(old(self)@.links, other_id@),
            same_but_links(final(self)@, old(self)@),
    {
        let now = now_secs();
        self.link_at(other_id, now);
    }

    /// Remove every outgoing edge to `other_id`, at time `now`: the update
    /// time becomes `now`.
    pub fn unlink_at(&mut self, other_id: &str, now: u64)
        ensures
            final(self)@.links == remove_all(old(self)@.links, other_id@),
            same_but_links(final(self)@, old(self)@),
            final(self).updated == now,
    {
        let oc = chars_of(other_id);
        let mut kept: Vec<String> = Vec::new();
        let mut i: usize = 0;
        let ghost lv = string_views(self.links@);
        assert(lv.take(0) == Seq::<Seq<char>>::empty());
        assert(string_views(kept@) =~= Seq::<Seq<char>>::empty());
        while i < self.links.len()
            invariant
                i <= self.links@.len(),
                oc@ == other_id@,
                lv == string_views(self.links@),
                string_views(kept@) == remove_all(lv.take(i as int), other_id@),
            decreases self.links.len() - i,
        {
            assert(lv.take(i + 1).drop_last() == lv.take(i as int));
            assert(lv.take(i + 1).last() == self.links@[i as int]@);
            let lc = chars_of(self.links[i].as_str());
            if !eq_chars(lc.as_slice(), oc.as_slice()) {
                let ghost before = kept@;
                kept.push(self.links[i].clone());
                assert(string_views(kept@) =~= string_views(before).push(lv[i as int]));
            }
            i = i + 1;
        }
        assert(lv.take(lv.len() as int) == lv);
        self.links = kept;
        self.updated = now;
    }

    /// Remove every outgoing edge to `other_id`, at the current time (see
    /// [`Node::unlink_at`]).
    pub fn unlink(&mut self, other_id: &str)
        ensures
            final(self)@.links == remove_all(old(self)@.links, other_id@),
            same_but_links(final(self)@, old(self)@),
    {
        let now = now_secs();
        self.unlink_at(other_id, now);
    }

    /// A copy with the same fields.
    pub fn duplicate(&self) -> (res: Node)
        ensures
            res@ == self@,
    {
        let mut tags: Vec<String> = Vec::new();
        let mut i: usize = 0;
        while i < self.tags.len()
            invariant
                i <= self.tags@.len(),
                string_views(tags@) == string_views(self.tags@.take(i as int)),
            decreases self.tags.len() - i,
        {
            let ghost before = tags@;
            tags.push(self.tags[i].clone());
            assert(self.tags@.take(i + 1) == self.tags@.take(i as int).push(self.tags@[i as int]));
            assert(string_views(tags@) =~= string_views(before).push(self.tags@[i as int]@));
            assert(string_views(self.tags@.take(i + 1)) =~= string_views(self.tags@.take(i as int)).push(self.tags@[i as int]@));
            i = i + 1;
        }
        assert(self.tags@.take(self.tags@.len() as int) == self.tags@);
        let mut links: Vec<String> = Vec::new();
        let mut j: usize = 0;
        while j < self.links.len()
            invariant
                j <= self.links@.len(),
                string_views(links@) == string_views(self.links@.take(j as int)),
            decreases self.links.len() - j,
        {
            let ghost before = links@;
            links.push(self.links[j].clone());
            assert(self.links@.take(j + 1) == self.links@.take(j as int).push(self.links@[j as int]));
            assert(string_views(links@) =~= string_views(before).push(self.links@[j as int]@));
            assert(string_views(self.links@.take(j + 1)) =~= string_views(self.links@.take(j as int)).push(self.links@[j as int]@));
            j = j + 1;
        }
        assert(self.links@.take(self.links@.len() as int) == self.links@);
        Node {
            id: self.id.clone(),
            title: self.title.clone(),
            url: match &self.url {
                Some(u) => Some(u.clone()),
                None => None,
            },
            tags,
            links,
            body: self.body.clone(),
            created: self.created,
            updated: self.updated,
        }
    }
}


/// An entry of the node map: key and node.
pub type EntryView = (Seq<char>, NodeView);

/// Keys strictly ascending in [`str_lt`] order (so no key twice).
pub open spec fn keys_sorted(m: Seq<EntryView>) -> bool {
    forall|i: int, j: int| 0 <= i < j < m.len() ==> str_lt(#[trigger] m[i].0, #[trigger] m[j].0)
}

/// The node under key `k`.
pub open spec fn map_get(m: Seq<EntryView>, k: Seq<char>) -> Option<NodeView>
    decreases m.len(),
{
    if m.len() == 0 {
        None
    } else if m[0].0 == k {
        Some(m[0].1)
    } else {
        map_get(m.drop_first(), k)
    }
}

/// `m` with the node under `k` set to `v`, keeping keys in order.
pub open spec fn map_insert(m: Seq<EntryView>, k: Seq<char>, v: NodeView) -> Seq<EntryView>
    decreases m.len(),
{
    if m.len() == 0 {
        seq![(k, v)]
    } else if m[0].0 == k {
        seq![(k, v)] + m.drop_first()
    } else if str_lt(k, m[0].0) {
        seq![(k, v)] + m
    } else {
        seq![m[0]] + map_insert(m.drop_first(), k, v)
    }
}

/// The views of the entries of a node map.
pub open spec fn entry_views(es: Seq<(String, Node)>) -> Seq<EntryView> {
    es.map_values(|e: (String, Node)| (e.0@, e.1@))
}

/// Nodes keyed by id, kept in ascending key order (as a `BTreeMap` would).
#[derive(Debug)]
pub struct NodeMap {
    entries: Vec<(String, Node)>,
}

impl View for NodeMap {
    type V = Seq<EntryView>;

    closed spec fn view(&self) -> Seq<EntryView> {
        entry_views(self.entries@)
    }
}

proof fn lemma_insert_at(m: Seq<EntryView>, k: Seq<char>, v: NodeView, p: int)
    requires
        keys_sorted(m),
        0 <= p <= m.len(),
        forall|i: int| 0 <= i < p ==> str_lt(#[trigger] m[i].0, k),
        p < m.len() ==> !str_lt(m[p].0, k),
    ensures
        p < m.len() && m[p].0 == k ==> map_insert(m, k, v) == m.update(p, (k, v)),
        !(p < m.len() && m[p].0 == k) ==> map_insert(m, k, v) == m.insert(p, (k, v)),
        keys_sorted(map_insert(m, k, v)),
    decreases m.len(),
{
    if p == 0 {
        if m.len() > 0 && m[0].0 == k {
            assert(map_insert(m, k, v) =~= m.update(p, (k, v)));
        } else {
            if m.len() > 0 {
                crate::text::lemma_str_lt_total(k, m[0].0);
            }
            assert(map_insert(m, k, v) =~= m.insert(p, (k, v)));
        }
        let r = map_insert(m, k, v);
        assert forall|i: int, j: int| 0 <= i < j < r.len() implies str_lt(#[trigger] r[i].0, #[trigger] r[j].0) by {
            if i == 0 && !(m.len() > 0 && m[0].0 == k) {
                if j > 1 {
                    crate::text::lemma_str_lt_transitive(k, m[0].0, m[j - 1].0);
                }
            }
        }
    } else {
        let t = m.drop_first();
        assert forall|i: int, j: int| 0 <= i < j < t.len() implies str_lt(#[trigger] t[i].0, #[trigger] t[j].0) by {
            assert(t[i] == m[i + 1]);
            assert(t[j] == m[j + 1]);
        }
        assert forall|i: int| 0 <= i < p - 1 implies str_lt(#[trigger] t[i].0, k) by {
            assert(t[i] == m[i + 1]);
        }
        lemma_insert_at(t, k, v, p - 1);
        crate::text::lemma_str_lt_irreflexive(k);
        assert(m[0].0 != k);
        crate::text::lemma_str_lt_asymmetric(m[0].0, k);
        if p < m.len() && m[p].0 == k {
            assert(map_insert(m, k, v) =~= m.update(p, (k, v)));
        } else {
            assert(map_insert(m, k, v) =~= m.insert(p, (k, v)));
        }
        let r = map_insert(m, k, v);
        let rt = map_insert(t, k, v);
        assert(r == seq![m[0]] + rt);
        assert forall|i: int, j: int| 0 <= i < j < r.len() implies str_lt(#[trigger] r[i].0, #[trigger] r[j].0) by {
            if i == 0 {
                assert(r[j] == rt[j - 1]);
                if rt[j - 1].0 == k {
                } else {
                    assert(exists|jj: int| 1 <= jj < m.len() && m[jj] == rt[j - 1]) by {
                        if p < m.len() && m[p].0 == k {
                            assert(rt == t.update(p - 1, (k, v)));
                            assert(t[j - 1] == m[j]);
                        } else {
                            assert(rt == t.insert(p - 1, (k, v)));
                            if j - 1 < p - 1 {
                                assert(t[j - 1] == m[j]);
                            } else {
                                assert(rt[j - 1] == t[j - 2]);
                                assert(t[j - 2] == m[j - 1]);
                            }
                        }
                    }
                }
            } else {
                assert(r[i] == rt[i - 1]);
                assert(r[j] == rt[j - 1]);
            }
        }
    }
}

proof fn lemma_map_get_at(m: Seq<EntryView>, k: Seq<char>, p: int)
    requires
        keys_sorted(m),
        0 <= p <= m.len(),
        forall|i: int| 0 <= i < p ==> m[i].0 != k,
    ensures
        map_get(m, k) == map_get(m.skip(p), k),
    decreases p,
{
    if p > 0 {
        assert(m.skip(1) == m.drop_first());
        let t = m.drop_first();
        assert forall|i: int, j: int| 0 <= i < j < t.len() implies str_lt(#[trigger] t[i].0, #[trigger] t[j].0) by {
            assert(t[i] == m[i + 1]);
            assert(t[j] == m[j + 1]);
        }
        assert forall|i: int| 0 <= i < p - 1 implies t[i].0 != k by {
            assert(t[i] == m[i + 1]);
        }
        lemma_map_get_at(t, k, p - 1);
        assert(t.skip(p - 1) == m.skip(p));
    } else {
        assert(m.skip(0) == m);
    }
}

impl NodeMap {
    #[verifier::type_invariant]
    spec fn ordered(&self) -> bool {
        keys_sorted(entry_views(self.entries@))
    }

    /// An empty map.
    pub fn new() -> (res: NodeMap)
        ensures
            res@ == Seq::<EntryView>::empty(),
    {
        let m = NodeMap { entries: Vec::new() };
        assert(m@ =~= Seq::<EntryView>::empty());
        m
    }

    /// The (key, node) entries in ascending key order.
    pub fn entries(&self) -> (res: &Vec<(String, Node)>)
        ensures
            entry_views(res@) == self@,
            keys_sorted(self@),
    {
        proof {
            use_type_invariant(self);
        }
        &self.entries
    }

    pub fn len(&self) -> (res: usize)
        ensures
            res == self@.len(),
    {
        self.entries.len()
    }

    pub fn is_empty(&self) -> (res: bool)
        ensures
            res == (self@.len() == 0),
    {
        self.entries.len() == 0
    }

    /// Remove every entry.
    pub fn clear(&mut self)
        ensures
            final(self)@ == Seq::<EntryView>::empty(),
    {
        self.entries = Vec::new();
        assert(self@ =~= Seq::<EntryView>::empty());
    }

    /// Index of the first entry whose key is not below `k`.
    fn lower_bound(&self, k: &[char]) -> (res: usize)
        ensures
            res <= self@.len(),
            forall|i: int| 0 <= i < res ==> str_lt(#[trigger] self@[i].0, k@),
            res < self@.len() ==> !str_lt(self@[res as int].0, k@),
    {
        let mut i: usize = 0;
        while i < self.entries.len()
            invariant
                i <= self@.len(),
                self@ == entry_views(self.entries@),
                forall|j: int| 0 <= j < i ==> str_lt(#[trigger] self@[j].0, k@),
            decreases self.entries.len() - i,
        {
            let kc = chars_of(self.entries[i].0.as_str());
            if !str_less(kc.as_slice(), k) {
                return i;
            }
            i = i + 1;
        }
        i
    }

    /// Position of the entry with key `k`, if any.
    fn position(&self, k: &[char]) -> (res: Option<usize>)
        ensures
            match res {
                Some(i) => i < self@.len() && self@[i as int].0 == k@ && map_get(self@, k@) == Some(
                    self@[i as int].1,
                ),
                None => map_get(self@, k@) is None,
            },
    {
        proof {
            use_type_invariant(self);
        }
        let p = self.lower_bound(k);
        proof {
            assert forall|i: int| 0 <= i < p implies self@[i].0 != k@ by {
                crate::text::lemma_str_lt_irreflexive(k@);
            }
            lemma_map_get_at(self@, k@, p as int);
        }
        if p < self.entries.len() {
            let kc = chars_of(self.entries[p].0.as_str());
            if eq_chars(kc.as_slice(), k) {
                assert(self@.skip(p as int)[0] == self@[p as int]);
                return Some(p);
            }
            proof {
                assert forall|i: int| p <= i < self@.len() implies self@[i].0 != k@ by {
                    if i > p {
                        crate::text::lemma_str_lt_total(self@[p as int].0, k@);
                        crate::text::lemma_str_lt_transitive(k@, self@[p as int].0, self@[i].0);
                        crate::text::lemma_str_lt_irreflexive(k@);
                    }
                }
                lemma_map_get_absent(self@.skip(p as int), k@);
            }
        } else {
            proof {
                lemma_map_get_absent(self@.skip(p as int), k@);
            }
        }
        None
    }

    /// The node under `key` (`BTreeMap::get`).
    pub fn get(&self, key: &str) -> (res: Option<&Node>)
        ensures
            match res {
                Some(n) => map_get(self@, key@) == Some(n@),
                None => map_get(self@, key@) is None,
            },
    {
        let kc = chars_of(key);
        match self.position(kc.as_slice()) {
            Some(i) => Some(&self.entries[i].1),
            None => None,
        }
    }

    /// Whether a node is stored under `key`.
    pub fn contains_key(&self, key: &str) -> (res: bool)
        ensures
            res == (map_get(self@, key@) is Some),
    {
        let kc = chars_of(key);
        self.position(kc.as_slice()).is_some()
    }

    /// Store `node` under `key`, replacing any node stored there
    /// (`BTreeMap::insert`).
    pub fn insert(&mut self, key: String, node: Node)
        ensures
            final(self)@ == map_insert(old(self)@, key@, node@),
    {
        proof {
            use_type_invariant(&*self);
        }
        let kc = chars_of(key.as_str());
        let p = self.lower_bound(kc.as_slice());
        let ghost m = self@;
        proof {
            lemma_insert_at(m, key@, node@, p as int);
        }
        let same = if p < self.entries.len() {
            let pc = chars_of(self.entries[p].0.as_str());
            eq_chars(pc.as_slice(), kc.as_slice())
        } else {
            false
        };
        let ghost kv = key@;
        let ghost nv = node@;
        let mut es: Vec<(String, Node)> = Vec::new();
        std::mem::swap(&mut es, &mut self.entries);
        if same {
            es.set(p, (key, node));
            assert(entry_views(es@) =~= m.update(p as int, (kv, nv)));
        } else {
            es.insert(p, (key, node));
            assert(entry_views(es@) =~= m.insert(p as int, (kv, nv)));
        }
        self.entries = es;
    }
}

/// Reading a key right after storing a node under it gives that node;
/// every other key reads as before; keys stay in ascending order.
pub proof fn law_node_map_read_after_insert(m: Seq<EntryView>, k: Seq<char>, v: NodeView, other: Seq<char>)
    requires
        keys_sorted(m),
    ensures
        map_get(map_insert(m, k, v), k) == Some(v),
        other != k ==> map_get(map_insert(m, k, v), other) == map_get(m, other),
        keys_sorted(map_insert(m, k, v)),
    decreases m.len(),
{
    let r = map_insert(m, k, v);
    let p = choose_lower_bound(m, k);
    lemma_choose_lower_bound(m, k);
    lemma_insert_at(m, k, v, p);
    if m.len() == 0 {
        assert(r.drop_first() =~= Seq::<EntryView>::empty());
        assert(map_get(r.drop_first(), other) is None);
    } else if m[0].0 == k {
        assert(r.drop_first() =~= m.drop_first());
    } else if str_lt(k, m[0].0) {
        assert(r.drop_first() =~= m);
    } else {
        let t = m.drop_first();
        assert forall|i: int, j: int| 0 <= i < j < t.len() implies str_lt(#[trigger] t[i].0, #[trigger] t[j].0) by {
            assert(t[i] == m[i + 1]);
            assert(t[j] == m[j + 1]);
        }
        law_node_map_read_after_insert(t, k, v, other);
        assert(r.drop_first() =~= map_insert(t, k, v));
    }
}

/// The position of the first key not below `k`.
spec fn choose_lower_bound(m: Seq<EntryView>, k: Seq<char>) -> int
    decreases m.len(),
{
    if m.len() == 0 {
        0
    } else if str_lt(m[0].0, k) {
        1 + choose_lower_bound(m.drop_first(), k)
    } else {
        0
    }
}

proof fn lemma_choose_lower_bound(m: Seq<EntryView>, k: Seq<char>)
    ensures
        0 <= choose_lower_bound(m, k) <= m.len(),
        forall|i: int| 0 <= i < choose_lower_bound(m, k) ==> str_lt(#[trigger] m[i].0, k),
        choose_lower_bound(m, k) < m.len() ==> !str_lt(m[choose_lower_bound(m, k)].0, k),
    decreases m.len(),
{
    if m.len() > 0 && str_lt(m[0].0, k) {
        lemma_choose_lower_bound(m.drop_first(), k);
        assert forall|i: int| 0 <= i < choose_lower_bound(m, k) implies str_lt(#[trigger] m[i].0, k) by {
            if i > 0 {
                assert(m[i] == m.drop_first()[i - 1]);
            }
        }
    }
}

proof fn lemma_map_get_absent(m: Seq<EntryView>, k: Seq<char>)
    requires
        forall|i: int| 0 <= i < m.len() ==> m[i].0 != k,
    ensures
        map_get(m, k) is None,
    decreases m.len(),
{
    if m.len() > 0 {
        assert forall|i: int| 0 <= i < m.drop_first().len() implies m.drop_first()[i].0 != k by {
            assert(m.drop_first()[i] == m[i + 1]);
        }
        lemma_map_get_absent(m.drop_first(), k);
    }
}


/// `str::to_lowercase` (Unicode lowercase mapping).
pub uninterp spec fn lowercase(s: Seq<char>) -> Seq<char>;

/// `str::to_lowercase`. Its result is named, not spelled out: the Unicode
/// case tables decide it, and it depends on the text alone. On ASCII text it
/// is ASCII lowercasing (`A`-`Z` to `a`-`z`, everything else unchanged).
#[verifier::external_body]
fn to_lowercase(s: &str) -> (res: String)
    ensures
        res@ == lowercase(s@),
        all_ascii(s@) ==> res@ == ascii_lowercase(s@),
{
    s.to_lowercase()
}

/// Whether a node answers to an already lowercased needle by title, id or
/// url, compared case-insensitively.
pub open spec fn node_matches(n: NodeView, needle_lower: Seq<char>) -> bool {
    ||| lowercase(n.title) == needle_lower
    ||| lowercase(n.id) == needle_lower
    ||| match n.url {
        Some(u) => lowercase(u) == needle_lower,
        None => false,
    }
}

/// The first node, in key order, that answers to the lowercased needle.
pub open spec fn first_match(m: Seq<EntryView>, needle_lower: Seq<char>) -> Option<NodeView>
    decreases m.len(),
{
    if m.len() == 0 {
        None
    } else if node_matches(m[0].1, needle_lower) {
        Some(m[0].1)
    } else {
        first_match(m.drop_first(), needle_lower)
    }
}

/// What `find` looks up: the node under the exact key, else the first node
/// whose title, id or url equals the needle ignoring case.
pub open spec fn find_spec(m: Seq<EntryView>, needle: Seq<char>) -> Option<NodeView> {
    match map_get(m, needle) {
        Some(n) => Some(n),
        None => first_match(m, lowercase(needle)),
    }
}

proof fn lemma_first_match(m: Seq<EntryView>, nl: Seq<char>)
    ensures
        match first_match(m, nl) {
            Some(v) => exists|i: int|
                0 <= i < m.len() && m[i].1 == v && node_matches(v, nl) && forall|j: int|
                    0 <= j < i ==> !node_matches(#[trigger] m[j].1, nl),
            None => forall|j: int| 0 <= j < m.len() ==> !node_matches(#[trigger] m[j].1, nl),
        },
    decreases m.len(),
{
    if m.len() > 0 && !node_matches(m[0].1, nl) {
        let t = m.drop_first();
        lemma_first_match(t, nl);
        match first_match(t, nl) {
            Some(v) => {
                let i = choose|i: int|
                    0 <= i < t.len() && t[i].1 == v && node_matches(v, nl) && forall|j: int|
                        0 <= j < i ==> !node_matches(#[trigger] t[j].1, nl);
                assert(m[i + 1] == t[i]);
                assert forall|j: int| 0 <= j < i + 1 implies !node_matches(#[trigger] m[j].1, nl) by {
                    if j > 0 {
                        assert(m[j] == t[j - 1]);
                    }
                }
            },
            None => {
                assert forall|j: int| 0 <= j < m.len() implies !node_matches(#[trigger] m[j].1, nl) by {
                    if j > 0 {
                        assert(m[j] == t[j - 1]);
                    }
                }
            },
        }
    }
}

/// `find` finds every node by its title, id or url in any case: whenever
/// some node's title, id or url lowercases to what the needle lowercases
/// to, `find` answers with a node.
pub proof fn law_find_by_name(m: Seq<EntryView>, needle: Seq<char>, i: int)
    requires
        0 <= i < m.len(),
        lowercase(m[i].1.title) == lowercase(needle) || lowercase(m[i].1.id) == lowercase(needle)
            || (m[i].1.url matches Some(u) && lowercase(u) == lowercase(needle)),
    ensures
        find_spec(m, needle) is Some,
{
    let nl = lowercase(needle);
    lemma_first_match(m, nl);
    assert(node_matches(m[i].1, nl));
}

/// What `find` answers with is the node under the needle as a key, or a
/// node whose title, id or url lowercases to what the needle lowercases to.
pub proof fn law_find_answers_match(m: Seq<EntryView>, needle: Seq<char>)
    ensures
        find_spec(m, needle) matches Some(v) ==> map_get(m, needle) == Some(v) || (exists|i: int|
            0 <= i < m.len() && m[i].1 == v) && (lowercase(v.title) == lowercase(needle) || lowercase(v.id)
            == lowercase(needle) || (v.url matches Some(u) && lowercase(u) == lowercase(needle))),
{
    let nl = lowercase(needle);
    lemma_first_match(m, nl);
}

/// When no node has the needle as its key, `find` answers with the matching
/// node of least key, and with nothing only when no node matches.
pub proof fn law_find_least_key(m: Seq<EntryView>, needle: Seq<char>)
    requires
        keys_sorted(m),
        map_get(m, needle) is None,
    ensures
        match find_spec(m, needle) {
            Some(v) => exists|i: int|
                0 <= i < m.len() && m[i].1 == v && node_matches(v, lowercase(needle)) && forall|j: int|
                    0 <= j < m.len() && str_lt(#[trigger] m[j].0, m[i].0) ==> !node_matches(
                        m[j].1,
                        lowercase(needle),
                    ),
            None => forall|j: int|
                0 <= j < m.len() ==> !node_matches(#[trigger] m[j].1, lowercase(needle)),
        },
{
    let nl = lowercase(needle);
    lemma_first_match(m, nl);
    match first_match(m, nl) {
        Some(v) => {
            let i = choose|i: int|
                0 <= i < m.len() && m[i].1 == v && node_matches(v, nl) && forall|j: int|
                    0 <= j < i ==> !node_matches(#[trigger] m[j].1, nl);
            assert forall|j: int| 0 <= j < m.len() && str_lt(#[trigger] m[j].0, m[i].0) implies !node_matches(m[j].1, nl) by {
                crate::text::lemma_str_lt_irreflexive(m[i].0);
                if j > i {
                    crate::text::lemma_str_lt_asymmetric(m[i].0, m[j].0);
                }
            }
        },
        None => {},
    }
}

/// Whether a node answers to an already lowercased parent name by its
/// title or id, compared case-insensitively.
pub open spec fn names_node(n: NodeView, name_lower: Seq<char>) -> bool {
    lowercase(n.title) == name_lower || lowercase(n.id) == name_lower
}

/// The key of the first node, in key order, whose title or id is the
/// lowercased name.
pub open spec fn first_named_key(m: Seq<EntryView>, name_lower: Seq<char>) -> Option<Seq<char>>
    decreases m.len(),
{
    if m.len() == 0 {
        None
    } else if names_node(m[0].1, name_lower) {
        Some(m[0].0)
    } else {
        first_named_key(m.drop_first(), name_lower)
    }
}

/// The key of the node that a parent name stands for: the name itself when
/// it is a key, else the first node whose title or id is the name ignoring
/// case.
pub open spec fn parent_key_spec(m: Seq<EntryView>, name: Seq<char>) -> Option<Seq<char>> {
    match map_get(m, name) {
        Some(_) => Some(name),
        None => first_named_key(m, lowercase(name)),
    }
}

proof fn lemma_first_named_key(m: Seq<EntryView>, nl: Seq<char>)
    ensures
        first_named_key(m, nl) is Some ==> exists|i: int|
            0 <= i < m.len() && m[i].0 == first_named_key(m, nl)->0,
    decreases m.len(),
{
    if m.len() > 0 && !names_node(m[0].1, nl) {
        let t = m.drop_first();
        lemma_first_named_key(t, nl);
        if first_named_key(t, nl) is Some {
            let i = choose|i: int| 0 <= i < t.len() && t[i].0 == first_named_key(t, nl)->0;
            assert(m[i + 1] == t[i]);
        }
    }
}

proof fn lemma_map_get_index(m: Seq<EntryView>, i: int)
    requires
        keys_sorted(m),
        0 <= i < m.len(),
    ensures
        map_get(m, m[i].0) == Some(m[i].1),
{
    assert forall|j: int| 0 <= j < i implies m[j].0 != m[i].0 by {
        crate::text::lemma_str_lt_irreflexive(m[i].0);
    }
    lemma_map_get_at(m, m[i].0, i);
    assert(m.skip(i)[0] == m[i]);
}

/// A parent name that stands for a key stands for a stored node.
proof fn lemma_parent_key(m: Seq<EntryView>, name: Seq<char>)
    requires
        keys_sorted(m),
    ensures
        parent_key_spec(m, name) is Some ==> map_get(m, parent_key_spec(m, name)->0) is Some,
{
    if map_get(m, name) is None {
        let nl = lowercase(name);
        lemma_first_named_key(m, nl);
        if first_named_key(m, nl) is Some {
            let i = choose|i: int| 0 <= i < m.len() && m[i].0 == first_named_key(m, nl)->0;
            lemma_map_get_index(m, i);
        }
    }
}

/// An undirected edge between `a` and `b`, its ends in ascending order.
pub open spec fn edge_of(a: Seq<char>, b: Seq<char>) -> (Seq<char>, Seq<char>) {
    if str_lt(a, b) {
        (a, b)
    } else {
        (b, a)
    }
}

/// An edge lists its smaller end first.
pub proof fn law_edge_ends_ordered(a: Seq<char>, b: Seq<char>)
    ensures
        !str_lt(edge_of(a, b).1, edge_of(a, b).0),
        edge_of(a, b) == edge_of(b, a),
{
    crate::text::lemma_str_lt_asymmetric(a, b);
    crate::text::lemma_str_lt_total(a, b);
    crate::text::lemma_str_lt_irreflexive(a);
}

/// Lexicographic order of edges.
pub open spec fn pair_lt(p: (Seq<char>, Seq<char>), q: (Seq<char>, Seq<char>)) -> bool {
    str_lt(p.0, q.0) || (p.0 == q.0 && str_lt(p.1, q.1))
}

/// Edges strictly ascending (so none twice).
pub open spec fn pairs_sorted(v: Seq<(Seq<char>, Seq<char>)>) -> bool {
    forall|i: int, j: int| 0 <= i < j < v.len() ==> pair_lt(#[trigger] v[i], #[trigger] v[j])
}

/// Whether `e` is the edge of some link of some node.
pub open spec fn is_edge(m: Seq<EntryView>, e: (Seq<char>, Seq<char>)) -> bool {
    exists|i: int, j: int|
        0 <= i < m.len() && 0 <= j < m[i].1.links.len() && e == edge_of(
            m[i].1.id,
            #[trigger] m[i].1.links[j],
        )
}

/// Storing a node puts its entry somewhere in the map.
proof fn lemma_map_insert_holds(m: Seq<EntryView>, k: Seq<char>, v: NodeView) -> (i: int)
    ensures
        0 <= i < map_insert(m, k, v).len(),
        map_insert(m, k, v)[i] == (k, v),
    decreases m.len(),
{
    if m.len() == 0 || m[0].0 == k || str_lt(k, m[0].0) {
        0
    } else {
        let j = lemma_map_insert_holds(m.drop_first(), k, v);
        assert(map_insert(m, k, v) == seq![m[0]] + map_insert(m.drop_first(), k, v));
        j + 1
    }
}

/// Links are undirected edges: once a node that links `p` is stored (as a
/// new bookmark under the parent `p` is), the edges include the one between
/// its id and `p`.
pub proof fn law_stored_link_is_edge(m: Seq<EntryView>, n: NodeView, p: Seq<char>)
    requires
        n.links.contains(p),
    ensures
        is_edge(map_insert(m, n.id, n), edge_of(n.id, p)),
{
    let r = map_insert(m, n.id, n);
    let i = lemma_map_insert_holds(m, n.id, n);
    let j = choose|j: int| 0 <= j < n.links.len() && n.links[j] == p;
    assert(r[i].1 == n);
    assert(edge_of(n.id, p) == edge_of(r[i].1.id, r[i].1.links[j]));
}

proof fn lemma_pair_lt_order(p: (Seq<char>, Seq<char>), q: (Seq<char>, Seq<char>))
    ensures
        !pair_lt(p, p),
        pair_lt(p, q) ==> !pair_lt(q, p),
{
    crate::text::lemma_str_lt_irreflexive(p.0);
    crate::text::lemma_str_lt_irreflexive(p.1);
    crate::text::lemma_str_lt_asymmetric(p.0, q.0);
    crate::text::lemma_str_lt_asymmetric(p.1, q.1);
}

/// Two strictly ascending lists of edges with the same edges are the same
/// list.
proof fn lemma_sorted_pairs_unique(a: Seq<(Seq<char>, Seq<char>)>, b: Seq<(Seq<char>, Seq<char>)>)
    requires
        pairs_sorted(a),
        pairs_sorted(b),
        forall|x: (Seq<char>, Seq<char>)| a.contains(x) <==> b.contains(x),
    ensures
        a == b,
    decreases a.len() + b.len(),
{
    if a.len() == 0 || b.len() == 0 {
        if a.len() > 0 {
            assert(a.contains(a[0]));
        }
        if b.len() > 0 {
            assert(b.contains(b[0]));
        }
        assert(a =~= b);
    } else {
        assert(a.contains(a[0]));
        assert(b.contains(b[0]));
        let j = choose|j: int| 0 <= j < b.len() && b[j] == a[0];
        let i = choose|i: int| 0 <= i < a.len() && a[i] == b[0];
        if a[0] != b[0] {
            assert(j > 0 && i > 0);
            assert(pair_lt(b[0], b[j]));
            assert(pair_lt(a[0], a[i]));
            lemma_pair_lt_order(a[0], b[0]);
        }
        let a1 = a.drop_first();
        let b1 = b.drop_first();
        assert forall|x: (Seq<char>, Seq<char>)| a1.contains(x) <==> b1.contains(x) by {
            if a1.contains(x) {
                let k = choose|k: int| 0 <= k < a1.len() && a1[k] == x;
                assert(a[k + 1] == x);
                assert(pair_lt(a[0], a[k + 1]));
                lemma_pair_lt_order(a[0], a[0]);
                assert(a.contains(x));
                let l = choose|l: int| 0 <= l < b.len() && b[l] == x;
                assert(l != 0);
                assert(b1[l - 1] == x);
            }
            if b1.contains(x) {
                let k = choose|k: int| 0 <= k < b1.len() && b1[k] == x;
                assert(b[k + 1] == x);
                assert(pair_lt(b[0], b[k + 1]));
                lemma_pair_lt_order(b[0], b[0]);
                assert(b.contains(x));
                let l = choose|l: int| 0 <= l < a.len() && a[l] == x;
                assert(l != 0);
                assert(a1[l - 1] == x);
            }
        }
        assert forall|u: int, v: int| 0 <= u < v < a1.len() implies pair_lt(#[trigger] a1[u], #[trigger] a1[v]) by {
            assert(a1[u] == a[u + 1] && a1[v] == a[v + 1]);
        }
        assert forall|u: int, v: int| 0 <= u < v < b1.len() implies pair_lt(#[trigger] b1[u], #[trigger] b1[v]) by {
            assert(b1[u] == b[u + 1] && b1[v] == b[v + 1]);
        }
        lemma_sorted_pairs_unique(a1, b1);
        assert(a =~= seq![a[0]] + a1);
        assert(b =~= seq![b[0]] + b1);
    }
}

/// The edges of the map `m`: each once, in ascending order.
pub open spec fn edge_list(m: Seq<EntryView>) -> Seq<(Seq<char>, Seq<char>)> {
    choose|v: Seq<(Seq<char>, Seq<char>)>|
        pairs_sorted(v) && forall|e: (Seq<char>, Seq<char>)| v.contains(e) <==> is_edge(m, e)
}

pub open spec fn pair_views(v: Seq<(String, String)>) -> Seq<(Seq<char>, Seq<char>)> {
    v.map_values(|p: (String, String)| (p.0@, p.1@))
}

/// Link `b` of entry `a` gives the edge `e`.
pub open spec fn edge_at(m: Seq<EntryView>, e: (Seq<char>, Seq<char>), a: int, b: int) -> bool {
    0 <= a < m.len() && 0 <= b < m[a].1.links.len() && e == edge_of(m[a].1.id, m[a].1.links[b])
}

/// Position (a, b) comes before (i, j).
pub open spec fn before_pos(a: int, b: int, i: int, j: int) -> bool {
    a < i || (a == i && b < j)
}

/// `e` is the edge of a link before position (i, j).
pub open spec fn edge_before(m: Seq<EntryView>, e: (Seq<char>, Seq<char>), i: int, j: int) -> bool {
    exists|a: int, b: int| #[trigger] edge_at(m, e, a, b) && before_pos(a, b, i, j)
}

/// Add `e` to a strictly ascending list of edges unless it is there.
fn insert_edge(out: &mut Vec<(String, String)>, e: (String, String))
    requires
        pairs_sorted(pair_views(old(out)@)),
    ensures
        pairs_sorted(pair_views(final(out)@)),
        forall|f: (Seq<char>, Seq<char>)| #[trigger]
            pair_views(final(out)@).contains(f) <==> (pair_views(old(out)@).contains(f) || f == (
                e.0@,
                e.1@,
            )),
{
    let ghost v = pair_views(out@);
    let ghost ev = (e.0@, e.1@);
    let e0 = chars_of(e.0.as_str());
    let e1 = chars_of(e.1.as_str());
    let mut k: usize = 0;
    while k < out.len()
        invariant
            k <= v.len(),
            v == pair_views(out@),
            e0@ == ev.0,
            e1@ == ev.1,
            forall|i: int| 0 <= i < k ==> pair_lt(#[trigger] v[i], ev),
        ensures
            k <= v.len(),
            forall|i: int| 0 <= i < k ==> pair_lt(#[trigger] v[i], ev),
            k < v.len() ==> !pair_lt(v[k as int], ev),
        decreases out.len() - k,
    {
        let a0 = chars_of(out[k].0.as_str());
        let a1 = chars_of(out[k].1.as_str());
        assert(v[k as int] == (a0@, a1@));
        let lt = str_less(a0.as_slice(), e0.as_slice()) || (eq_chars(a0.as_slice(), e0.as_slice())
            && str_less(a1.as_slice(), e1.as_slice()));
        if !lt {
            break;
        }
        k = k + 1;
    }
    proof {
        crate::text::lemma_str_lt_irreflexive(ev.0);
        crate::text::lemma_str_lt_irreflexive(ev.1);
    }
    if k < out.len() {
        let a0 = chars_of(out[k].0.as_str());
        let a1 = chars_of(out[k].1.as_str());
        assert(v[k as int] == (a0@, a1@));
        if eq_chars(a0.as_slice(), e0.as_slice()) && eq_chars(a1.as_slice(), e1.as_slice()) {
            assert(v[k as int] == ev);
            return ;
        }
        assert(v[k as int] != ev);
    }
    proof {
        lemma_pair_lt_facts(v, ev, k as int);
    }
    out.insert(k, e);
    assert(pair_views(out@) =~= v.insert(k as int, ev));
    proof {
        let w = v.insert(k as int, ev);
        assert forall|f: (Seq<char>, Seq<char>)| #[trigger] w.contains(f) <==> (v.contains(f) || f == ev) by {
            if w.contains(f) {
                let x = choose|x: int| 0 <= x < w.len() && w[x] == f;
                if x < k {
                    assert(v[x] == f);
                } else if x > k {
                    assert(v[x - 1] == f);
                }
            }
            if v.contains(f) {
                let x = choose|x: int| 0 <= x < v.len() && v[x] == f;
                if x < k {
                    assert(w[x] == f);
                } else {
                    assert(w[x + 1] == f);
                }
            }
            if f == ev {
                assert(w[k as int] == f);
            }
        }
    }
}

proof fn lemma_pair_lt_transitive(p: (Seq<char>, Seq<char>), q: (Seq<char>, Seq<char>), r: (Seq<char>, Seq<char>))
    ensures
        pair_lt(p, q) && pair_lt(q, r) ==> pair_lt(p, r),
{
    crate::text::lemma_str_lt_transitive(p.0, q.0, r.0);
    crate::text::lemma_str_lt_transitive(p.1, q.1, r.1);
}

proof fn lemma_pair_lt_total(p: (Seq<char>, Seq<char>), q: (Seq<char>, Seq<char>))
    ensures
        p != q ==> pair_lt(p, q) || pair_lt(q, p),
{
    crate::text::lemma_str_lt_total(p.0, q.0);
    crate::text::lemma_str_lt_total(p.1, q.1);
}

proof fn lemma_pair_lt_facts(v: Seq<(Seq<char>, Seq<char>)>, ev: (Seq<char>, Seq<char>), k: int)
    requires
        pairs_sorted(v),
        0 <= k <= v.len(),
        forall|i: int| 0 <= i < k ==> pair_lt(#[trigger] v[i], ev),
        k < v.len() ==> !pair_lt(v[k], ev) && v[k] != ev,
    ensures
        pairs_sorted(v.insert(k, ev)),
{
    let w = v.insert(k, ev);
    if k < v.len() {
        lemma_pair_lt_total(v[k], ev);
    }
    assert forall|i: int, j: int| 0 <= i < j < w.len() implies pair_lt(#[trigger] w[i], #[trigger] w[j]) by {
        if i < k && j == k {
        } else if i < k && j > k {
            assert(w[j] == v[j - 1]);
        } else if i == k && j > k {
            assert(w[j] == v[j - 1]);
            if j - 1 > k {
                lemma_pair_lt_transitive(ev, v[k], v[j - 1]);
            }
        } else if i > k {
            assert(w[i] == v[i - 1]);
            assert(w[j] == v[j - 1]);
        } else {
            assert(w[i] == v[i]);
            assert(w[j] == v[j]);
        }
    }
}

/// Index of the last `c` in `s`, or -1 when there is none.
pub open spec fn rfind_char(s: Seq<char>, c: char) -> int
    decreases s.len(),
{
    if s.len() == 0 {
        -1
    } else if s.last() == c {
        s.len() - 1
    } else {
        rfind_char(s.drop_last(), c)
    }
}

/// The node id of a vault file name: its stem when its extension is `md`
/// (`Path::file_stem` / `Path::extension`: the extension follows the last
/// `.`, and a name whose only `.` is its first character has none).
pub open spec fn node_id_for_file_spec(name: Seq<char>) -> Option<Seq<char>> {
    let i = rfind_char(name, '.');
    if i > 0 && name.skip(i + 1) == "md"@ {
        Some(name.take(i))
    } else {
        None
    }
}

/// The node id stored in the vault file `name`, if it is a Markdown file.
pub fn node_id_for_file(name: &str) -> (res: Option<String>)
    ensures
        opt_string_view(res) == node_id_for_file_spec(name@),
{
    let nc = chars_of(name);
    let mut j: usize = nc.len();
    assert(nc@.take(nc@.len() as int) == nc@);
    while j > 0 && nc[j - 1] != '.'
        invariant
            j <= nc@.len(),
            rfind_char(nc@, '.') == rfind_char(nc@.take(j as int), '.'),
        decreases j,
    {
        assert(nc@.take(j - 1) == nc@.take(j as int).drop_last());
        j = j - 1;
    }
    if j <= 1 {
        return None;
    }
    let ext = subslice(nc.as_slice(), j, nc.len());
    assert(ext@ == nc@.skip(j as int));
    if crate::text::eq_str(ext.as_slice(), "md") {
        Some(string_of(subslice(nc.as_slice(), 0, j - 1).as_slice()))
    } else {
        None
    }
}

/// The file name of the node `id` in the vault: `<id>.md`.
pub fn node_file_name(id: &str) -> (res: String)
    ensures
        res@ == id@ + ".md"@,
{
    let mut s = id.to_string();
    s.append(".md");
    s
}

/// The nodes that the links `ls` lead to, skipping dangling links.
pub open spec fn linked_nodes(m: Seq<EntryView>, ls: Seq<Seq<char>>) -> Seq<NodeView>
    decreases ls.len(),
{
    if ls.len() == 0 {
        Seq::empty()
    } else {
        let prev = linked_nodes(m, ls.drop_last());
        match map_get(m, ls.last()) {
            Some(n) => prev.push(n),
            None => prev,
        }
    }
}

/// The children of the node under `id`: the nodes its links lead to.
pub open spec fn children_spec(m: Seq<EntryView>, id: Seq<char>) -> Seq<NodeView> {
    match map_get(m, id) {
        Some(n) => linked_nodes(m, n.links),
        None => Seq::empty(),
    }
}

pub open spec fn node_ref_views(v: Seq<&Node>) -> Seq<NodeView> {
    v.map_values(|r: &Node| r@)
}

/// A Markdown file read from the vault: its id (file stem), text and
/// modification time.
#[derive(Debug, Clone)]
pub struct VaultFile {
    pub stem: String,
    pub text: String,
    pub modified: u64,
}

/// The map after storing, in order, the node read from each file under its
/// stem; both timestamps are the file's modification time.
pub open spec fn vault_fold(files: Seq<VaultFile>) -> Seq<EntryView>
    decreases files.len(),
{
    if files.len() == 0 {
        Seq::empty()
    } else {
        let f = files.last();
        map_insert(
            vault_fold(files.drop_last()),
            f.stem@,
            from_markdown_spec(f.stem@, f.text@, f.modified, f.modified),
        )
    }
}

/// A new bookmark ready to be written: the new node and, when it was linked
/// under an existing parent, the parent's key and the parent with its
/// back-link.
#[derive(Debug)]
pub struct BookmarkPlan {
    pub node: Node,
    pub parent: Option<(String, Node)>,
}

/// The whole graph: nodes keyed by id, plus the vault directory they live in.
#[derive(Debug)]
pub struct Mindmap {
    pub nodes: NodeMap,
    /// The vault directory.
    pub root: String,
}

impl Default for Mindmap {
    fn default() -> (res: Self)
        ensures
            res.nodes@.len() == 0,
            res.root@ == Seq::<char>::empty(),
    {
        Mindmap { nodes: NodeMap::new(), root: String::new() }
    }
}

impl Mindmap {
    /// An empty mindmap over the vault directory `root`.
    pub fn with_root(root: String) -> (res: Self)
        ensures
            res.nodes@.len() == 0,
            res.root@ == root@,
    {
        Mindmap { nodes: NodeMap::new(), root }
    }

    /// The vault directory.
    pub fn root(&self) -> (res: &str)
        ensures
            res@ == self.root@,
    {
        self.root.as_str()
    }

    /// Replace the nodes by those read from the vault's Markdown files.
    pub fn load_files(&mut self, files: &Vec<VaultFile>)
        ensures
            final(self).nodes@ == vault_fold(files@),
            final(self).root@ == old(self).root@,
    {
        self.nodes.clear();
        let mut i: usize = 0;
        assert(files@.take(0) == Seq::<VaultFile>::empty());
        while i < files.len()
            invariant
                i <= files@.len(),
                self.nodes@ == vault_fold(files@.take(i as int)),
                self.root@ == old(self).root@,
            decreases files.len() - i,
        {
            let f = &files[i];
            assert(files@.take(i + 1).drop_last() == files@.take(i as int));
            assert(files@.take(i + 1).last() == *f);
            let node = Node::from_markdown(f.stem.as_str(), f.text.as_str(), f.modified, f.modified);
            self.nodes.insert(f.stem.clone(), node);
            i = i + 1;
        }
        assert(files@.take(files@.len() as int) == files@);
    }

    /// Store `node` under its id (the map side of saving a node file).
    pub fn store_node(&mut self, node: &Node)
        ensures
            final(self).nodes@ == map_insert(old(self).nodes@, node@.id, node@),
            final(self).root@ == old(self).root@,
    {
        self.nodes.insert(node.id.clone(), node.duplicate());
    }

    /// Prepare a bookmark: a new node for `title`/`url`. A `parent` names a
    /// node by its key, else by its title or id ignoring case; the new node
    /// links to that node's key, and that node gets the back-link, in the
    /// map and in the plan (so it can be written out). A parent that names
    /// no node is linked as given.
    pub fn plan_bookmark(&mut self, title: &str, url: &str, parent: Option<&str>) -> (res: BookmarkPlan)
        ensures
            res.node@.id == slugify_spec(title@),
            res.node@.title == title@,
            res.node@.url == Some(url@),
            res.node@.tags.len() == 0,
            res.node@.body.len() == 0,
            res.node@.links == match parent {
                Some(p) => match parent_key_spec(old(self).nodes@, p@) {
                    Some(k) => seq![k],
                    None => seq![p@],
                },
                None => Seq::empty(),
            },
            match parent {
                Some(p) => match parent_key_spec(old(self).nodes@, p@) {
                    Some(k) => {
                        &&& res.parent is Some
                        &&& (res.parent->0).0@ == k
                        &&& map_get(old(self).nodes@, k) is Some
                        &&& same_but_links((res.parent->0).1@, map_get(old(self).nodes@, k)->0)
                        &&& (res.parent->0).1@.links == link_spec(
                            (map_get(old(self).nodes@, k)->0).links,
                            res.node@.id,
                        )
                        &&& final(self).nodes@ == map_insert(old(self).nodes@, k, (res.parent->0).1@)
                    },
                    None => res.parent is None && final(self).nodes@ == old(self).nodes@,
                },
                None => res.parent is None && final(self).nodes@ == old(self).nodes@,
            },
            final(self).root@ == old(self).root@,
    {
        let mut node = Node::new(title, Some(url.to_string()));
        let mut parent_entry: Option<(String, Node)> = None;
        match parent {
            Some(p) => {
                proof {
                    use_type_invariant(&self.nodes);
                    lemma_parent_key(self.nodes@, p@);
                }
                match self.parent_key(p) {
                    Some(k) => {
                        match self.nodes.get(k.as_str()) {
                            Some(pn) => {
                                node.link(k.as_str());
                                assert(node@.links =~= seq![k@]);
                                let mut pn2 = pn.duplicate();
                                pn2.link(node.id.as_str());
                                self.nodes.insert(k.clone(), pn2.duplicate());
                                parent_entry = Some((k, pn2));
                            },
                            None => {},
                        }
                    },
                    None => {
                        node.link(p);
                        assert(node@.links =~= seq![p@]);
                    },
                }
            },
            None => {},
        }
        BookmarkPlan { node, parent: parent_entry }
    }

    /// The key of the node that the parent name `name` stands for.
    fn parent_key(&self, name: &str) -> (res: Option<String>)
        ensures
            opt_string_view(res) == parent_key_spec(self.nodes@, name@),
    {
        if self.nodes.contains_key(name) {
            return Some(name.to_string());
        }
        let lower = to_lowercase(name);
        let lc = chars_of(lower.as_str());
        let es = self.nodes.entries();
        let ghost m = self.nodes@;
        let mut i: usize = 0;
        assert(m.skip(0) == m);
        while i < es.len()
            invariant
                i <= m.len(),
                m == entry_views(es@),
                lc@ == lowercase(name@),
                m == self.nodes@,
                map_get(m, name@) is None,
                first_named_key(m, lc@) == first_named_key(m.skip(i as int), lc@),
            decreases es.len() - i,
        {
            let n = &es[i].1;
            assert(m.skip(i as int)[0] == m[i as int]);
            assert(m.skip(i as int).drop_first() == m.skip(i + 1));
            let t = to_lowercase(n.title.as_str());
            let d = to_lowercase(n.id.as_str());
            let hit = eq_chars(chars_of(t.as_str()).as_slice(), lc.as_slice()) || eq_chars(
                chars_of(d.as_str()).as_slice(),
                lc.as_slice(),
            );
            assert(m[i as int].1 == n@);
            assert(m[i as int].0 == es[i as int].0@);
            if hit {
                assert(names_node(n@, lc@));
                return Some(es[i].0.clone());
            }
            i = i + 1;
        }
        None
    }

    /// Find a node by id, else by title, id or url ignoring case.
    pub fn find(&self, needle: &str) -> (res: Option<&Node>)
        ensures
            match res {
                Some(n) => find_spec(self.nodes@, needle@) == Some(n@),
                None => find_spec(self.nodes@, needle@) is None,
            },
    {
        match self.nodes.get(needle) {
            Some(n) => {
                return Some(n);
            },
            None => {},
        }
        let lower = to_lowercase(needle);
        let lc = chars_of(lower.as_str());
        let es = self.nodes.entries();
        let ghost m = self.nodes@;
        let mut i: usize = 0;
        assert(m.skip(0) == m);
        while i < es.len()
            invariant
                i <= m.len(),
                m == entry_views(es@),
                lc@ == lowercase(needle@),
                m == self.nodes@,
                map_get(m, needle@) is None,
                first_match(m, lc@) == first_match(m.skip(i as int), lc@),
            decreases es.len() - i,
        {
            let n = &es[i].1;
            assert(m.skip(i as int)[0] == m[i as int]);
            assert(m.skip(i as int).drop_first() == m.skip(i + 1));
            let t = to_lowercase(n.title.as_str());
            let d = to_lowercase(n.id.as_str());
            let mut hit = eq_chars(chars_of(t.as_str()).as_slice(), lc.as_slice()) || eq_chars(
                chars_of(d.as_str()).as_slice(),
                lc.as_slice(),
            );
            if !hit {
                match &n.url {
                    Some(u) => {
                        let ul = to_lowercase(u.as_str());
                        hit = eq_chars(chars_of(ul.as_str()).as_slice(), lc.as_slice());
                    },
                    None => {},
                }
            }
            assert(m[i as int].1 == n@);
            if hit {
                assert(node_matches(n@, lc@));
                return Some(n);
            }
            i = i + 1;
        }
        None
    }

    /// All edges (id, id), each once, ends and list in ascending order.
    pub fn edges(&self) -> (res: Vec<(String, String)>)
        ensures
            pairs_sorted(pair_views(res@)),
            forall|e: (Seq<char>, Seq<char>)| pair_views(res@).contains(e) <==> is_edge(self.nodes@, e),
            pair_views(res@) == edge_list(self.nodes@),
    {
        let es = self.nodes.entries();
        let ghost m = self.nodes@;
        let mut out: Vec<(String, String)> = Vec::new();
        let mut i: usize = 0;
        assert(pair_views(out@) =~= Seq::<(Seq<char>, Seq<char>)>::empty());
        while i < es.len()
            invariant
                i <= m.len(),
                m == entry_views(es@),
                m == self.nodes@,
                pairs_sorted(pair_views(out@)),
                forall|e: (Seq<char>, Seq<char>)| #[trigger]
                    pair_views(out@).contains(e) <==> edge_before(m, e, i as int, 0),
            decreases es.len() - i,
        {
            let n = &es[i].1;
            assert(m[i as int].1 == n@);
            let idc = chars_of(n.id.as_str());
            let mut j: usize = 0;
            assert forall|e: (Seq<char>, Seq<char>)| edge_before(m, e, i as int, 0) == edge_before(m, e, i as int, 0) by {}
            while j < n.links.len()
                invariant
                    i < m.len(),
                    j <= n.links@.len(),
                    m[i as int].1 == n@,
                    idc@ == n@.id,
                    pairs_sorted(pair_views(out@)),
                    forall|e: (Seq<char>, Seq<char>)| #[trigger]
                        pair_views(out@).contains(e) <==> edge_before(m, e, i as int, j as int),
                decreases n.links.len() - j,
            {
                let lc = chars_of(n.links[j].as_str());
                assert(n@.links[j as int] == lc@);
                let e = if str_less(idc.as_slice(), lc.as_slice()) {
                    (n.id.clone(), n.links[j].clone())
                } else {
                    (n.links[j].clone(), n.id.clone())
                };
                assert((e.0@, e.1@) == edge_of(n@.id, n@.links[j as int]));
                let ghost before = pair_views(out@);
                insert_edge(&mut out, e);
                assert forall|f: (Seq<char>, Seq<char>)| #[trigger]
                    pair_views(out@).contains(f) <==> edge_before(m, f, i as int, j + 1) by {
                    if f == edge_of(n@.id, n@.links[j as int]) {
                        assert(edge_at(m, f, i as int, j as int));
                    }
                    if edge_before(m, f, i as int, j + 1) && !edge_before(m, f, i as int, j as int) {
                        let (a, b) = choose|a: int, b: int| edge_at(m, f, a, b) && before_pos(a, b, i as int, j + 1);
                        assert(a == i && b == j);
                    }
                }
                j = j + 1;
            }
            assert forall|f: (Seq<char>, Seq<char>)|
                edge_before(m, f, i as int, j as int) == edge_before(m, f, i + 1, 0) by {
                if edge_before(m, f, i + 1, 0) {
                    let (a, b) = choose|a: int, b: int| edge_at(m, f, a, b) && before_pos(a, b, i + 1, 0);
                    assert(edge_at(m, f, a, b) && before_pos(a, b, i as int, j as int));
                }
                if edge_before(m, f, i as int, j as int) {
                    let (a, b) = choose|a: int, b: int| edge_at(m, f, a, b) && before_pos(a, b, i as int, j as int);
                    assert(edge_at(m, f, a, b) && before_pos(a, b, i + 1, 0));
                }
            }
            i = i + 1;
        }
        assert forall|f: (Seq<char>, Seq<char>)| edge_before(m, f, m.len() as int, 0) == is_edge(m, f) by {
            if is_edge(m, f) {
                let (a, b) = choose|a: int, b: int|
                    0 <= a < m.len() && 0 <= b < m[a].1.links.len() && f == edge_of(m[a].1.id, #[trigger] m[a].1.links[b]);
                assert(edge_at(m, f, a, b) && before_pos(a, b, m.len() as int, 0));
            }
        }
        proof {
            let v = pair_views(out@);
            assert(pairs_sorted(v) && forall|e: (Seq<char>, Seq<char>)| v.contains(e) <==> is_edge(m, e));
            let w = edge_list(m);
            lemma_sorted_pairs_unique(v, w);
        }
        out
    }

    /// Children (outgoing links) of a node.
    pub fn children(&self, id: &str) -> (res: Vec<&Node>)
        ensures
            node_ref_views(res@) == children_spec(self.nodes@, id@),
    {
        let mut out: Vec<&Node> = Vec::new();
        assert(node_ref_views(out@) =~= Seq::<NodeView>::empty());
        match self.nodes.get(id) {
            Some(n) => {
                let ghost lv = string_views(n.links@);
                let mut j: usize = 0;
                assert(lv.take(0) == Seq::<Seq<char>>::empty());
                while j < n.links.len()
                    invariant
                        j <= n.links@.len(),
                        lv == string_views(n.links@),
                        node_ref_views(out@) == linked_nodes(self.nodes@, lv.take(j as int)),
                    decreases n.links.len() - j,
                {
                    assert(lv.take(j + 1).drop_last() == lv.take(j as int));
                    assert(lv.take(j + 1).last() == n.links@[j as int]@);
                    match self.nodes.get(n.links[j].as_str()) {
                        Some(c) => {
                            let ghost before = out@;
                            out.push(c);
                            assert(node_ref_views(out@) =~= node_ref_views(before).push(c@));
                        },
                        None => {},
                    }
                    j = j + 1;
                }
                assert(lv.take(lv.len() as int) == lv);
            },
            None => {},
        }
        out
    }
}

} // verus!
