//! Reading back a written node: `from_markdown` after `to_markdown` gives
//! the node again, for nodes whose texts the file format can hold.

use vstd::prelude::*;
use crate::mindmap::{
    keys_sorted, law_node_map_read_after_insert, map_get, vault_fold, EntryView, VaultFile,
    lemma_yaml_unescape_escape, yaml_escape_char, yaml_unescape, from_markdown_spec, join_spec, link_lines, markdown_spec, md_fold_from, md_start,
    md_step, tag_values, unquote_spec, wikilink_spec, yaml_escape_spec, MdState, NodeView,
};
use crate::text::{
    find_char, is_ws, lemma_find_char, lines, split_on, strip_cr, trim, trim_end, trim_start,
};

verus! {

proof fn lemma_find_char_append(a: Seq<char>, b: Seq<char>, c: char)
    ensures
        find_char(a, c) < a.len() ==> find_char(a + b, c) == find_char(a, c),
        find_char(a, c) == a.len() ==> find_char(a + b, c) == a.len() + find_char(b, c),
    decreases a.len(),
{
    lemma_find_char(a, c);
    if a.len() == 0 {
        assert(a + b == b);
    } else {
        assert((a + b)[0] == a[0]);
        if a[0] != c {
            lemma_find_char_append(a.drop_first(), b, c);
            assert((a + b).drop_first() == a.drop_first() + b);
        }
    }
}

/// The concatenation of `l + "\n"` over the lines `ls`.
pub open spec fn unlines(ls: Seq<Seq<char>>) -> Seq<char>
    decreases ls.len(),
{
    if ls.len() == 0 {
        Seq::empty()
    } else {
        unlines(ls.drop_last()) + ls.last() + seq!['\n']
    }
}

/// A line that the file format can hold: no newline, no trailing `\r`.
pub open spec fn plain_line(l: Seq<char>) -> bool {
    !l.contains('\n') && (l.len() == 0 || l.last() != '\r')
}

proof fn lemma_lines_append(a: Seq<char>, b: Seq<char>)
    requires
        a.len() == 0 || a.last() == '\n',
    ensures
        lines(a + b) == lines(a) + lines(b),
    decreases a.len(),
{
    if a.len() == 0 {
        assert(a + b == b);
        assert(lines(a) == Seq::<Seq<char>>::empty());
        assert(Seq::<Seq<char>>::empty() + lines(b) == lines(b));
    } else {
        lemma_find_char(a, '\n');
        assert(a[a.len() - 1] == '\n');
        assert(find_char(a, '\n') < a.len());
        lemma_find_char_append(a, b, '\n');
        let i = find_char(a, '\n') as int;
        assert((a + b).take(i) == a.take(i));
        assert((a + b).skip(i + 1) == a.skip(i + 1) + b);
        let r = a.skip(i + 1);
        assert(r.len() == 0 || r.last() == '\n');
        lemma_lines_append(r, b);
        assert(lines(a + b) == seq![strip_cr(a.take(i))] + lines(r + b));
        assert(lines(a) == seq![strip_cr(a.take(i))] + lines(r));
        assert(seq![strip_cr(a.take(i))] + (lines(r) + lines(b)) == (seq![strip_cr(a.take(i))] + lines(r))
            + lines(b));
    }
}

proof fn lemma_lines_one(l: Seq<char>)
    requires
        plain_line(l),
    ensures
        lines(l + seq!['\n']) == seq![l],
{
    let s = l + seq!['\n'];
    lemma_find_char_append(l, seq!['\n'], '\n');
    lemma_find_char(l, '\n');
    if find_char(l, '\n') < l.len() {
        assert(l.contains('\n'));
    }
    assert(find_char(seq!['\n'], '\n') == 0);
    assert(s.take(l.len() as int) == l);
    assert(s.skip(l.len() + 1 as int) =~= Seq::<char>::empty());
    assert(lines(Seq::<char>::empty()) == Seq::<Seq<char>>::empty());
    assert(seq![l] + Seq::<Seq<char>>::empty() == seq![l]);
}

proof fn lemma_lines_unlines(ls: Seq<Seq<char>>)
    requires
        forall|i: int| 0 <= i < ls.len() ==> plain_line(#[trigger] ls[i]),
    ensures
        lines(unlines(ls)) == ls,
    decreases ls.len(),
{
    if ls.len() > 0 {
        let p = ls.drop_last();
        assert forall|i: int| 0 <= i < p.len() implies plain_line(#[trigger] p[i]) by {
            assert(p[i] == ls[i]);
        }
        lemma_lines_unlines(p);
        let a = unlines(p);
        let l = ls.last();
        assert(plain_line(ls[ls.len() - 1]));
        assert(a.len() == 0 || a.last() == '\n') by {
            if p.len() > 0 {
                assert(a == unlines(p.drop_last()) + p.last() + seq!['\n']);
            } else {
                assert(a == Seq::<char>::empty());
            }
        }
        assert(unlines(ls) == a + (l + seq!['\n']));
        lemma_lines_append(a, l + seq!['\n']);
        lemma_lines_one(l);
        assert(p + seq![l] == ls);
    } else {
        assert(unlines(ls) == Seq::<char>::empty());
    }
}

proof fn lemma_unlines_append(a: Seq<Seq<char>>, b: Seq<Seq<char>>)
    ensures
        unlines(a + b) == unlines(a) + unlines(b),
    decreases b.len(),
{
    if b.len() == 0 {
        assert(a + b == a);
        assert(unlines(a) + Seq::<char>::empty() == unlines(a));
    } else {
        lemma_unlines_append(a, b.drop_last());
        assert((a + b).drop_last() == a + b.drop_last());
        assert((a + b).last() == b.last());
    }
}

proof fn lemma_split_append(a: Seq<char>, b: Seq<char>, c: char)
    ensures
        split_on(a + seq![c] + b, c) == split_on(a, c) + split_on(b, c),
    decreases a.len(),
{
    let s = a + seq![c] + b;
    lemma_find_char(a, c);
    lemma_find_char_append(a, seq![c] + b, c);
    assert(s == a + (seq![c] + b));
    if find_char(a, c) < a.len() {
        let i = find_char(a, c) as int;
        let r = a.skip(i + 1);
        assert(s.take(i) == a.take(i));
        assert(s.skip(i + 1) == r + seq![c] + b);
        lemma_split_append(r, b, c);
        assert(split_on(a, c) == seq![a.take(i)] + split_on(r, c));
        assert(seq![a.take(i)] + (split_on(r, c) + split_on(b, c)) == (seq![a.take(i)] + split_on(r, c))
            + split_on(b, c));
    } else {
        assert(find_char(seq![c] + b, c) == 0);
        assert(s.take(a.len() as int) == a);
        assert(s.skip(a.len() + 1 as int) == b);
        assert(split_on(a, c) == seq![a]);
    }
}

proof fn lemma_split_none(a: Seq<char>, c: char)
    requires
        !a.contains(c),
    ensures
        split_on(a, c) == seq![a],
{
    lemma_find_char(a, c);
    if find_char(a, c) < a.len() {
        assert(a.contains(c));
    }
}

proof fn lemma_trim_noop(s: Seq<char>)
    requires
        s.len() > 0,
        !is_ws(s[0]),
        !is_ws(s.last()),
    ensures
        trim(s) == s,
{
    assert(trim_start(s) == s);
    assert(trim_end(s) == s);
}

proof fn lemma_trim_start_prefix_ws(w: Seq<char>, s: Seq<char>)
    requires
        forall|i: int| 0 <= i < w.len() ==> is_ws(#[trigger] w[i]),
        s.len() > 0,
        !is_ws(s[0]),
    ensures
        trim_start(w + s) == s,
    decreases w.len(),
{
    if w.len() > 0 {
        assert((w + s)[0] == w[0]);
        assert((w + s).drop_first() == w.drop_first() + s);
        lemma_trim_start_prefix_ws(w.drop_first(), s);
    } else {
        assert(w + s == s);
    }
}


proof fn lemma_no_char_concat(a: Seq<char>, b: Seq<char>, c: char)
    requires
        !a.contains(c),
        !b.contains(c),
    ensures
        !(a + b).contains(c),
{
    if (a + b).contains(c) {
        let i = choose|i: int| 0 <= i < (a + b).len() && (a + b)[i] == c;
        if i < a.len() {
            assert(a[i] == c);
        } else {
            assert(b[i - a.len()] == c);
        }
    }
}

/// The lines of the wikilink list.
pub open spec fn link_line_list(ls: Seq<Seq<char>>) -> Seq<Seq<char>>
    decreases ls.len(),
{
    if ls.len() == 0 {
        Seq::empty()
    } else {
        link_line_list(ls.drop_last()).push("- [["@ + ls.last() + "]]"@)
    }
}

/// The lines of the Markdown file of a node.
pub open spec fn md_lines(n: NodeView) -> Seq<Seq<char>> {
    seq!["---"@, "title: \""@ + yaml_escape_spec(n.title) + "\""@] + (match n.url {
        Some(u) => seq!["url: \""@ + yaml_escape_spec(u) + "\""@],
        None => Seq::empty(),
    }) + (if n.tags.len() > 0 {
        seq!["tags: "@ + join_spec(n.tags, ", "@)]
    } else {
        Seq::empty()
    }) + seq!["---"@, Seq::empty()] + body_line_list(n.body) + link_line_list(n.links)
}

/// The lines of the body and the blank line after it (none for an empty
/// body).
pub open spec fn body_line_list(b: Seq<char>) -> Seq<Seq<char>> {
    if b.len() > 0 {
        split_on(b, '\n').push(Seq::empty())
    } else {
        Seq::empty()
    }
}

proof fn lemma_unlines_split(s: Seq<char>)
    ensures
        unlines(split_on(s, '\n')) == s + seq!['\n'],
    decreases s.len(),
{
    lemma_find_char(s, '\n');
    let i = find_char(s, '\n');
    if i < s.len() {
        let r = s.skip(i + 1 as int);
        lemma_unlines_split(r);
        let h = seq![s.take(i as int)];
        assert(split_on(s, '\n') == h + split_on(r, '\n'));
        lemma_unlines_append(h, split_on(r, '\n'));
        assert(h.drop_last() == Seq::<Seq<char>>::empty());
        assert(unlines(Seq::<Seq<char>>::empty()) == Seq::<char>::empty());
        assert(h.last() == s.take(i as int));
        assert(unlines(h) == Seq::<char>::empty() + s.take(i as int) + seq!['\n']);
        assert(s =~= s.take(i as int) + seq!['\n'] + r);
    } else {
        let h = seq![s];
        assert(h.drop_last() == Seq::<Seq<char>>::empty());
        assert(unlines(Seq::<Seq<char>>::empty()) == Seq::<char>::empty());
        assert(h.last() == s);
        assert(unlines(h) == Seq::<char>::empty() + s + seq!['\n']);
    }
}

proof fn lemma_split_pieces(s: Seq<char>, c: char)
    ensures
        forall|i: int| 0 <= i < split_on(s, c).len() ==> !(#[trigger] split_on(s, c)[i]).contains(c),
    decreases s.len(),
{
    lemma_find_char(s, c);
    let i = find_char(s, c);
    if i < s.len() {
        let r = s.skip(i + 1 as int);
        lemma_split_pieces(r, c);
        let h = s.take(i as int);
        assert(!h.contains(c)) by {
            if h.contains(c) {
                let k = choose|k: int| 0 <= k < h.len() && h[k] == c;
                assert(s[k] == c);
            }
        }
        assert forall|j: int| 0 <= j < split_on(s, c).len() implies !(#[trigger] split_on(s, c)[j]).contains(c) by {
            if j > 0 {
                assert(split_on(s, c)[j] == split_on(r, c)[j - 1]);
            }
        }
    } else {
        assert(!s.contains(c)) by {
            if s.contains(c) {
                let k = choose|k: int| 0 <= k < s.len() && s[k] == c;
            }
        }
    }
}

proof fn lemma_link_lines(ls: Seq<Seq<char>>)
    ensures
        link_lines(ls) == unlines(link_line_list(ls)),
    decreases ls.len(),
{
    if ls.len() > 0 {
        lemma_link_lines(ls.drop_last());
        reveal_strlit("]]\n");
        reveal_strlit("]]");
        assert("]]\n"@ =~= "]]"@ + seq!['\n']);
        let l = link_line_list(ls);
        assert(l.drop_last() == link_line_list(ls.drop_last()));
        assert(link_lines(ls) =~= unlines(link_line_list(ls)));
    }
}

proof fn lemma_md_lines(n: NodeView)
    ensures
        markdown_spec(n) == unlines(md_lines(n)),
{
    reveal_strlit("---\n");
    reveal_strlit("---");
    reveal_strlit("\"\n");
    reveal_strlit("\"");
    reveal_strlit("---\n\n");
    reveal_strlit("\n\n");
    reveal_strlit("\n");
    let a = seq!["---"@, "title: \""@ + yaml_escape_spec(n.title) + "\""@];
    let u: Seq<Seq<char>> = match n.url {
        Some(u) => seq!["url: \""@ + yaml_escape_spec(u) + "\""@],
        None => Seq::empty(),
    };
    let t: Seq<Seq<char>> = if n.tags.len() > 0 {
        seq!["tags: "@ + join_spec(n.tags, ", "@)]
    } else {
        Seq::empty()
    };
    let d = seq!["---"@, Seq::<char>::empty()];
    let b = body_line_list(n.body);
    let l = link_line_list(n.links);
    lemma_unlines_append(a, u);
    lemma_unlines_append(a + u, t);
    lemma_unlines_append(a + u + t, d);
    lemma_unlines_append(a + u + t + d, b);
    lemma_unlines_append(a + u + t + d + b, l);
    lemma_link_lines(n.links);
    let dash1 = seq!["---"@];
    assert(dash1.drop_last() == Seq::<Seq<char>>::empty());
    assert(unlines(Seq::<Seq<char>>::empty()) == Seq::<char>::empty());
    assert(unlines(dash1) == Seq::<char>::empty() + "---"@ + seq!['\n']);
    assert("---\n"@ =~= "---"@ + seq!['\n']);
    assert("\"\n"@ =~= "\""@ + seq!['\n']);
    assert("---\n\n"@ =~= "---"@ + seq!['\n'] + seq!['\n']);
    assert("\n\n"@ =~= seq!['\n'] + seq!['\n']);
    assert(unlines(a) =~= "---\n"@ + "title: \""@ + yaml_escape_spec(n.title) + "\"\n"@) by {
        assert(a.drop_last() == dash1);
    }
    assert(unlines(u) =~= match n.url {
        Some(uu) => "url: \""@ + yaml_escape_spec(uu) + "\"\n"@,
        None => Seq::<char>::empty(),
    }) by {
        if u.len() > 0 {
            assert(u.drop_last() == Seq::<Seq<char>>::empty());
        }
    }
    assert(unlines(t) =~= if n.tags.len() > 0 {
        "tags: "@ + join_spec(n.tags, ", "@) + "\n"@
    } else {
        Seq::<char>::empty()
    }) by {
        if t.len() > 0 {
            assert(t.drop_last() == Seq::<Seq<char>>::empty());
        }
    }
    assert(unlines(d) =~= "---\n\n"@) by {
        assert(d.drop_last() == dash1);
    }
    assert(unlines(b) =~= if n.body.len() > 0 {
        n.body + "\n\n"@
    } else {
        Seq::<char>::empty()
    }) by {
        if n.body.len() > 0 {
            lemma_unlines_split(n.body);
            assert(b.drop_last() == split_on(n.body, '\n'));
        }
    }
    assert(md_lines(n) == a + u + t + d + b + l);
    assert(markdown_spec(n) =~= unlines(a) + unlines(u) + unlines(t) + unlines(d) + unlines(b) + unlines(l));
}


/// A title or url that the file keeps as it is: one line.
pub open spec fn md_text_ok(s: Seq<char>) -> bool {
    !s.contains('\n')
}

/// A tag that the `tags:` line keeps: not empty, no whitespace at its ends,
/// no `,` or newline, not wrapped in quotes.
pub open spec fn md_tag_ok(s: Seq<char>) -> bool {
    &&& s.len() > 0
    &&& !is_ws(s[0])
    &&& !is_ws(s.last())
    &&& !s.contains(',')
    &&& !s.contains('\n')
    &&& !(s.len() >= 2 && s[0] == '"' && s.last() == '"')
    &&& !(s.len() >= 2 && s[0] == '\'' && s.last() == '\'')
}

/// A link that a `- [[id]]` line keeps: not empty, no whitespace at its
/// ends, no `|` or newline.
pub open spec fn md_link_ok(s: Seq<char>) -> bool {
    &&& s.len() > 0
    &&& !is_ws(s[0])
    &&& !is_ws(s.last())
    &&& !s.contains('|')
    &&& !s.contains('\n')
}

/// A body line that reads back as it is: no trailing `\r`, and, trimmed,
/// neither `---` nor a wikilink line.
pub open spec fn body_line_ok(l: Seq<char>) -> bool {
    &&& (l.len() == 0 || l.last() != '\r')
    &&& trim(l) != "---"@
    &&& wikilink_spec(trim(l)) is None
}

/// A body that reads back as it is: empty, or without whitespace at its
/// ends and made of lines that read back as they are.
pub open spec fn md_body_ok(s: Seq<char>) -> bool {
    s.len() == 0 || {
        &&& !is_ws(s[0])
        &&& !is_ws(s.last())
        &&& forall|i: int| 0 <= i < split_on(s, '\n').len() ==> body_line_ok(#[trigger] split_on(s, '\n')[i])
    }
}

/// A node whose every text the Markdown file holds unchanged.
pub open spec fn markdown_roundtrips(n: NodeView) -> bool {
    &&& md_text_ok(n.title)
    &&& (n.url matches Some(u) ==> md_text_ok(u))
    &&& forall|i: int| 0 <= i < n.tags.len() ==> md_tag_ok(#[trigger] n.tags[i])
    &&& forall|i: int| 0 <= i < n.links.len() ==> md_link_ok(#[trigger] n.links[i])
    &&& md_body_ok(n.body)
}

proof fn lemma_yaml_escape_no_newline(s: Seq<char>)
    requires
        !s.contains('\n'),
    ensures
        !yaml_escape_spec(s).contains('\n'),
    decreases s.len(),
{
    if s.len() > 0 {
        let p = s.drop_last();
        if p.contains('\n') {
            let i = choose|i: int| 0 <= i < p.len() && p[i] == '\n';
            assert(s[i] == '\n');
        }
        lemma_yaml_escape_no_newline(p);
        assert(s[s.len() - 1] != '\n');
        let e = yaml_escape_char(s.last());
        assert(!e.contains('\n')) by {
            if e.contains('\n') {
                let i = choose|i: int| 0 <= i < e.len() && e[i] == '\n';
            }
        }
        lemma_no_char_concat(yaml_escape_spec(p), e, '\n');
    }
}

proof fn lemma_fold_append(id: Seq<char>, st: MdState, a: Seq<Seq<char>>, b: Seq<Seq<char>>)
    ensures
        md_fold_from(id, st, a + b) == md_fold_from(id, md_fold_from(id, st, a), b),
    decreases b.len(),
{
    if b.len() == 0 {
        assert(a + b == a);
    } else {
        lemma_fold_append(id, st, a, b.drop_last());
        assert((a + b).drop_last() == a + b.drop_last());
        assert((a + b).last() == b.last());
    }
}

proof fn lemma_fold_one(id: Seq<char>, st: MdState, l: Seq<char>)
    ensures
        md_fold_from(id, st, seq![l]) == md_step(id, st, l),
{
    assert(seq![l].drop_last() == Seq::<Seq<char>>::empty());
    assert(md_fold_from(id, st, Seq::<Seq<char>>::empty()) == st);
    assert(seq![l].last() == l);
}

proof fn lemma_trim_end_suffix_ws(s: Seq<char>, w: Seq<char>)
    requires
        forall|i: int| 0 <= i < w.len() ==> is_ws(#[trigger] w[i]),
        s.len() > 0,
        !is_ws(s.last()),
    ensures
        trim_end(s + w) == s,
    decreases w.len(),
{
    if w.len() > 0 {
        assert((s + w).last() == w.last());
        assert(is_ws(w[w.len() - 1]));
        assert((s + w).drop_last() == s + w.drop_last());
        lemma_trim_end_suffix_ws(s, w.drop_last());
    } else {
        assert(s + w == s);
    }
}

proof fn lemma_unquote_quoted(t: Seq<char>)
    ensures
        unquote_spec(seq!['"'] + t + seq!['"']) == Some(yaml_unescape(t)),
{
    let x = seq!['"'] + t + seq!['"'];
    assert(x[0] == '"');
    assert(x.last() == '"');
    lemma_trim_noop(x);
    assert(x.subrange(1, x.len() - 1) =~= t);
}

/// The value after a `key:` prefix and a space, in double quotes.
proof fn lemma_quoted_field(key: Seq<char>, t: Seq<char>)
    requires
        key.len() > 0,
    ensures
        unquote_spec(trim((key + seq![' ', '"'] + t + seq!['"']).skip(key.len() as int))) == Some(
            yaml_unescape(t),
        ),
{
    let line = key + seq![' ', '"'] + t + seq!['"'];
    let rest = line.skip(key.len() as int);
    assert(rest =~= seq![' '] + (seq!['"'] + t + seq!['"']));
    let q = seq!['"'] + t + seq!['"'];
    assert(is_ws(' '));
    lemma_trim_start_prefix_ws(seq![' '], q);
    assert(q.last() == '"');
    assert(trim_end(q) == q);
    lemma_unquote_quoted(t);
}


proof fn lemma_step_open(id: Seq<char>)
    ensures
        md_step(id, md_start(id), "---"@) == (MdState { in_frontmatter: true, ..md_start(id) }),
{
    reveal_strlit("---");
    lemma_trim_noop("---"@);
}

proof fn lemma_step_close(id: Seq<char>, st: MdState)
    requires
        st.in_frontmatter,
    ensures
        md_step(id, st, "---"@) == (MdState { in_frontmatter: false, in_body: true, ..st }),
{
    reveal_strlit("---");
    lemma_trim_noop("---"@);
}

proof fn lemma_step_title(id: Seq<char>, st: MdState, t: Seq<char>)
    requires
        st.in_frontmatter,
        md_text_ok(t),
    ensures
        md_step(id, st, "title: \""@ + yaml_escape_spec(t) + "\""@) == (MdState { title: t, ..st }),
{
    reveal_strlit("title: \"");
    reveal_strlit("\"");
    reveal_strlit("title:");
    reveal_strlit("---");
    let e = yaml_escape_spec(t);
    lemma_yaml_unescape_escape(t);
    let key = "title:"@;
    let line = "title: \""@ + e + "\""@;
    assert(line =~= key + seq![' ', '"'] + e + seq!['"']);
    assert(line[0] == 't');
    assert(line.last() == '"');
    lemma_trim_noop(line);
    assert(line != "---"@);
    assert(line.subrange(0, key.len() as int) =~= key);
    assert(key.is_prefix_of(line));
    lemma_quoted_field(key, e);
}

proof fn lemma_step_url(id: Seq<char>, st: MdState, u: Seq<char>)
    requires
        st.in_frontmatter,
        md_text_ok(u),
    ensures
        md_step(id, st, "url: \""@ + yaml_escape_spec(u) + "\""@) == (MdState { url: Some(u), ..st }),
{
    reveal_strlit("url: \"");
    reveal_strlit("\"");
    reveal_strlit("title:");
    reveal_strlit("url:");
    reveal_strlit("---");
    let e = yaml_escape_spec(u);
    lemma_yaml_unescape_escape(u);
    let key = "url:"@;
    let line = "url: \""@ + e + "\""@;
    assert(line =~= key + seq![' ', '"'] + e + seq!['"']);
    assert(line[0] == 'u');
    assert(line.last() == '"');
    lemma_trim_noop(line);
    assert(line != "---"@);
    assert(!"title:"@.is_prefix_of(line)) by {
        if "title:"@.is_prefix_of(line) {
            assert(line.subrange(0, 6)[0] == 't');
        }
    }
    assert(line.subrange(0, key.len() as int) =~= key);
    assert(key.is_prefix_of(line));
    lemma_quoted_field(key, e);
}

/// The comma-separated pieces of the `tags:` value: the first tag, then
/// each further tag after a space.
pub open spec fn tag_pieces(xs: Seq<Seq<char>>) -> Seq<Seq<char>>
    decreases xs.len(),
{
    if xs.len() <= 1 {
        xs
    } else {
        tag_pieces(xs.drop_last()).push(seq![' '] + xs.last())
    }
}

proof fn lemma_join_ends(xs: Seq<Seq<char>>)
    requires
        xs.len() > 0,
        forall|i: int| 0 <= i < xs.len() ==> md_tag_ok(#[trigger] xs[i]),
    ensures
        join_spec(xs, ", "@).len() > 0,
        join_spec(xs, ", "@)[0] == xs[0][0],
        join_spec(xs, ", "@).last() == xs.last().last(),
        !join_spec(xs, ", "@).contains('\n'),
        split_on(join_spec(xs, ", "@), ',') == tag_pieces(xs),
    decreases xs.len(),
{
    reveal_strlit(", ");
    assert(md_tag_ok(xs[0]));
    assert(md_tag_ok(xs[xs.len() - 1]));
    if xs.len() == 1 {
        lemma_split_none(xs[0], ',');
        assert(seq![xs[0]] == xs);
    } else {
        let p = xs.drop_last();
        assert forall|i: int| 0 <= i < p.len() implies md_tag_ok(#[trigger] p[i]) by {
            assert(p[i] == xs[i]);
        }
        lemma_join_ends(p);
        let j = join_spec(p, ", "@);
        let l = xs.last();
        assert(join_spec(xs, ", "@) == j + ", "@ + l);
        assert(", "@ =~= seq![',', ' ']);
        assert(j + ", "@ + l =~= j + seq![','] + (seq![' '] + l));
        lemma_split_append(j, seq![' '] + l, ',');
        assert(!(seq![' '] + l).contains(',')) by {
            lemma_no_char_concat(seq![' '], l, ',');
        }
        lemma_split_none(seq![' '] + l, ',');
        lemma_no_char_concat(j, ", "@, '\n');
        lemma_no_char_concat(j + ", "@, l, '\n');
        assert((j + ", "@ + l)[0] == j[0]);
    }
}

proof fn lemma_tag_values(xs: Seq<Seq<char>>)
    requires
        forall|i: int| 0 <= i < xs.len() ==> md_tag_ok(#[trigger] xs[i]),
    ensures
        tag_values(tag_pieces(xs)) == xs,
    decreases xs.len(),
{
    if xs.len() > 0 {
        let p = xs.drop_last();
        assert forall|i: int| 0 <= i < p.len() implies md_tag_ok(#[trigger] p[i]) by {
            assert(p[i] == xs[i]);
        }
        let l = xs.last();
        assert(md_tag_ok(xs[xs.len() - 1]));
        lemma_trim_noop(l);
        assert(unquote_spec(l) == Some(l));
        if xs.len() == 1 {
            assert(tag_pieces(xs) == xs);
            assert(xs.drop_last() == Seq::<Seq<char>>::empty());
            assert(tag_values(Seq::<Seq<char>>::empty()) == Seq::<Seq<char>>::empty());
            assert(Seq::<Seq<char>>::empty().push(l) =~= xs);
        } else {
            lemma_tag_values(p);
            let q = tag_pieces(xs);
            assert(q.drop_last() == tag_pieces(p));
            assert(q.last() == seq![' '] + l);
            assert(is_ws(' '));
            lemma_trim_start_prefix_ws(seq![' '], l);
            assert(trim(seq![' '] + l) == l);
            assert(p.push(l) == xs);
        }
    }
}

proof fn lemma_step_tags(id: Seq<char>, st: MdState, xs: Seq<Seq<char>>)
    requires
        st.in_frontmatter,
        xs.len() > 0,
        forall|i: int| 0 <= i < xs.len() ==> md_tag_ok(#[trigger] xs[i]),
    ensures
        md_step(id, st, "tags: "@ + join_spec(xs, ", "@)) == (MdState { tags: xs, ..st }),
{
    reveal_strlit("tags: ");
    reveal_strlit("tags:");
    reveal_strlit("title:");
    reveal_strlit("url:");
    reveal_strlit("---");
    lemma_join_ends(xs);
    lemma_tag_values(xs);
    let j = join_spec(xs, ", "@);
    let key = "tags:"@;
    let line = "tags: "@ + j;
    assert(line =~= key + (seq![' '] + j));
    assert(line[0] == 't');
    assert(line[1] == 'a');
    assert(line.last() == j.last());
    assert(md_tag_ok(xs[xs.len() - 1]));
    lemma_trim_noop(line);
    assert(line != "---"@);
    assert(!"title:"@.is_prefix_of(line)) by {
        if "title:"@.is_prefix_of(line) {
            assert(line.subrange(0, 6)[1] == 'i');
        }
    }
    assert(!"url:"@.is_prefix_of(line)) by {
        if "url:"@.is_prefix_of(line) {
            assert(line.subrange(0, 4)[0] == 'u');
        }
    }
    assert(line.subrange(0, key.len() as int) =~= key);
    assert(key.is_prefix_of(line));
    assert(line.skip(key.len() as int) =~= seq![' '] + j);
    assert(md_tag_ok(xs[0]));
    assert(j[0] == xs[0][0]);
    lemma_trim_start_prefix_ws(seq![' '], j);
    assert(trim_end(j) == j);
}


proof fn lemma_wikilink_empty()
    ensures
        wikilink_spec(Seq::<char>::empty()) is None,
{
    reveal_strlit("[[");
    reveal_strlit("- ");
    let e = Seq::<char>::empty();
    assert(trim(e) == e);
    assert(crate::text::strip_all_prefix(e, "- "@) == e);
}

proof fn lemma_step_blank(id: Seq<char>, st: MdState)
    requires
        !st.in_frontmatter,
        st.in_body,
    ensures
        md_step(id, st, Seq::<char>::empty()) == (MdState { body: st.body + seq!['\n'], ..st }),
{
    reveal_strlit("---");
    let e = Seq::<char>::empty();
    assert(trim(e) == e);
    assert(e != "---"@);
    lemma_wikilink_empty();
    assert(st.body + e + seq!['\n'] == st.body + seq!['\n']);
}

proof fn lemma_step_body_line(id: Seq<char>, st: MdState, l: Seq<char>)
    requires
        !st.in_frontmatter,
        st.in_body,
        body_line_ok(l),
    ensures
        md_step(id, st, l) == (MdState { body: st.body + l + seq!['\n'], ..st }),
{
}

proof fn lemma_fold_body(id: Seq<char>, st: MdState, ls: Seq<Seq<char>>)
    requires
        !st.in_frontmatter,
        st.in_body,
        forall|i: int| 0 <= i < ls.len() ==> body_line_ok(#[trigger] ls[i]),
    ensures
        md_fold_from(id, st, ls) == (MdState { body: st.body + unlines(ls), ..st }),
    decreases ls.len(),
{
    if ls.len() == 0 {
        assert(st.body + unlines(ls) =~= st.body);
    } else {
        let p = ls.drop_last();
        assert forall|i: int| 0 <= i < p.len() implies body_line_ok(#[trigger] p[i]) by {
            assert(p[i] == ls[i]);
        }
        lemma_fold_body(id, st, p);
        assert(body_line_ok(ls[ls.len() - 1]));
        lemma_step_body_line(id, MdState { body: st.body + unlines(p), ..st }, ls.last());
        assert(st.body + unlines(p) + ls.last() + seq!['\n'] =~= st.body + unlines(ls));
    }
}

proof fn lemma_wikilink_line(l: Seq<char>)
    requires
        md_link_ok(l),
    ensures
        wikilink_spec("- [["@ + l + "]]"@) == Some(l),
{
    reveal_strlit("- [[");
    reveal_strlit("[[");
    reveal_strlit("]]");
    reveal_strlit("- ");
    let line = "- [["@ + l + "]]"@;
    assert(line.last() == ']');
    assert(line[0] == '-');
    lemma_trim_noop(line);
    let x = seq!['[', '['] + l + seq![']', ']'];
    assert(line =~= "- "@ + x);
    assert("- "@.is_prefix_of(line)) by {
        assert(line.subrange(0, 2) =~= "- "@);
    }
    assert(line.skip(2) =~= x);
    assert(!"- "@.is_prefix_of(x)) by {
        if "- "@.is_prefix_of(x) {
            assert(x.subrange(0, 2)[0] == '-');
        }
    }
    assert(crate::text::strip_all_prefix(x, "- "@) == x);
    assert(crate::text::strip_all_prefix(line, "- "@) == x);
    assert(x[0] == '[');
    assert(x.last() == ']');
    lemma_trim_noop(x);
    assert("[["@.is_prefix_of(x)) by {
        assert(x.subrange(0, 2) =~= "[["@);
    }
    let rest = x.skip(2);
    assert(rest =~= l + seq![']', ']']);
    assert("]]"@.is_suffix_of(rest)) by {
        assert(rest.subrange(rest.len() - 2, rest.len() as int) =~= "]]"@);
    }
    let inner = rest.take(rest.len() - 2);
    assert(inner =~= l);
    lemma_find_char(l, '|');
    if find_char(l, '|') < l.len() {
        assert(l.contains('|'));
    }
    assert(l.take(l.len() as int) == l);
    lemma_trim_noop(l);
}

proof fn lemma_step_link(id: Seq<char>, st: MdState, l: Seq<char>)
    requires
        !st.in_frontmatter,
        md_link_ok(l),
    ensures
        md_step(id, st, "- [["@ + l + "]]"@) == (MdState { links: st.links.push(l), ..st }),
{
    reveal_strlit("- [[");
    reveal_strlit("]]");
    reveal_strlit("---");
    let line = "- [["@ + l + "]]"@;
    assert(line.last() == ']');
    assert(line[0] == '-');
    assert(line[1] == ' ');
    lemma_trim_noop(line);
    assert(line != "---"@) by {
        if line == "---"@ {
            assert("---"@[1] == '-');
        }
    }
    lemma_wikilink_line(l);
}

proof fn lemma_fold_links(id: Seq<char>, st: MdState, ls: Seq<Seq<char>>)
    requires
        !st.in_frontmatter,
        forall|i: int| 0 <= i < ls.len() ==> md_link_ok(#[trigger] ls[i]),
    ensures
        md_fold_from(id, st, link_line_list(ls)) == (MdState { links: st.links + ls, ..st }),
    decreases ls.len(),
{
    if ls.len() == 0 {
        assert(st.links + ls =~= st.links);
        assert(link_line_list(ls) == Seq::<Seq<char>>::empty());
    } else {
        let p = ls.drop_last();
        assert forall|i: int| 0 <= i < p.len() implies md_link_ok(#[trigger] p[i]) by {
            assert(p[i] == ls[i]);
        }
        lemma_fold_links(id, st, p);
        let q = link_line_list(ls);
        assert(q.drop_last() == link_line_list(p));
        assert(md_link_ok(ls[ls.len() - 1]));
        lemma_step_link(id, MdState { links: st.links + p, ..st }, ls.last());
        assert((st.links + p).push(ls.last()) =~= st.links + ls);
    }
}


proof fn lemma_unlines_ends(ls: Seq<Seq<char>>)
    ensures
        unlines(ls).len() == 0 || unlines(ls).last() == '\n',
{
}

proof fn lemma_lines_of_unlines_concat(a: Seq<Seq<char>>, b: Seq<Seq<char>>)
    requires
        lines(unlines(a)) == a,
        lines(unlines(b)) == b,
    ensures
        lines(unlines(a + b)) == a + b,
{
    lemma_unlines_append(a, b);
    lemma_unlines_ends(a);
    lemma_lines_append(unlines(a), unlines(b));
}

proof fn lemma_plain_two(x: Seq<char>, y: Seq<char>)
    requires
        plain_line(x),
        plain_line(y),
    ensures
        lines(unlines(seq![x, y])) == seq![x, y],
{
    let ls = seq![x, y];
    assert forall|i: int| 0 <= i < ls.len() implies plain_line(#[trigger] ls[i]) by {}
    lemma_lines_unlines(ls);
}

proof fn lemma_plain_one(x: Seq<char>)
    requires
        plain_line(x),
    ensures
        lines(unlines(seq![x])) == seq![x],
{
    let ls = seq![x];
    assert forall|i: int| 0 <= i < ls.len() implies plain_line(#[trigger] ls[i]) by {}
    lemma_lines_unlines(ls);
}

proof fn lemma_plain_none()
    ensures
        lines(unlines(Seq::<Seq<char>>::empty())) == Seq::<Seq<char>>::empty(),
{
    assert(unlines(Seq::<Seq<char>>::empty()) == Seq::<char>::empty());
}

proof fn lemma_quoted_line_plain(key: Seq<char>, t: Seq<char>)
    requires
        !key.contains('\n'),
        md_text_ok(t),
    ensures
        plain_line(key + yaml_escape_spec(t) + "\""@),
{
    reveal_strlit("\"");
    let e = yaml_escape_spec(t);
    lemma_yaml_escape_no_newline(t);
    assert(!"\""@.contains('\n')) by {
        if "\""@.contains('\n') {
            let i = choose|i: int| 0 <= i < 1 && "\""@[i] == '\n';
        }
    }
    lemma_no_char_concat(key, e, '\n');
    lemma_no_char_concat(key + e, "\""@, '\n');
    assert((key + e + "\""@).last() == '"');
}

proof fn lemma_link_lines_plain(ls: Seq<Seq<char>>)
    requires
        forall|i: int| 0 <= i < ls.len() ==> md_link_ok(#[trigger] ls[i]),
    ensures
        lines(unlines(link_line_list(ls))) == link_line_list(ls),
    decreases ls.len(),
{
    let q = link_line_list(ls);
    if ls.len() > 0 {
        let p = ls.drop_last();
        assert forall|i: int| 0 <= i < p.len() implies md_link_ok(#[trigger] p[i]) by {
            assert(p[i] == ls[i]);
        }
        lemma_link_lines_plain(p);
        let l = ls.last();
        assert(md_link_ok(ls[ls.len() - 1]));
        reveal_strlit("- [[");
        reveal_strlit("]]");
        let line = "- [["@ + l + "]]"@;
        assert(!"- [["@.contains('\n')) by {
            if "- [["@.contains('\n') {
                let i = choose|i: int| 0 <= i < 4 && "- [["@[i] == '\n';
            }
        }
        assert(!"]]"@.contains('\n')) by {
            if "]]"@.contains('\n') {
                let i = choose|i: int| 0 <= i < 2 && "]]"@[i] == '\n';
            }
        }
        lemma_no_char_concat("- [["@, l, '\n');
        lemma_no_char_concat("- [["@ + l, "]]"@, '\n');
        assert(line.last() == ']');
        lemma_plain_one(line);
        assert(q == link_line_list(p) + seq![line]);
        lemma_lines_of_unlines_concat(link_line_list(p), seq![line]);
    } else {
        lemma_plain_none();
    }
}

proof fn lemma_no_newline_lit(s: Seq<char>)
    requires
        forall|i: int| 0 <= i < s.len() ==> s[i] != '\n',
    ensures
        !s.contains('\n'),
{
}

/// The header group of lines: the opening `---` and the title line.
pub open spec fn md_head(n: NodeView) -> Seq<Seq<char>> {
    seq!["---"@, "title: \""@ + yaml_escape_spec(n.title) + "\""@]
}

pub open spec fn md_url_lines(n: NodeView) -> Seq<Seq<char>> {
    match n.url {
        Some(uu) => seq!["url: \""@ + yaml_escape_spec(uu) + "\""@],
        None => Seq::empty(),
    }
}

pub open spec fn md_tag_lines(n: NodeView) -> Seq<Seq<char>> {
    if n.tags.len() > 0 {
        seq!["tags: "@ + join_spec(n.tags, ", "@)]
    } else {
        Seq::empty()
    }
}

pub open spec fn md_close_lines() -> Seq<Seq<char>> {
    seq!["---"@, Seq::<char>::empty()]
}

pub open spec fn md_body_lines(n: NodeView) -> Seq<Seq<char>> {
    body_line_list(n.body)
}

proof fn lemma_md_lines_groups(n: NodeView)
    ensures
        md_lines(n) == md_head(n) + md_url_lines(n) + md_tag_lines(n) + md_close_lines() + md_body_lines(n)
            + link_line_list(n.links),
{
}

proof fn lemma_file_lines(n: NodeView)
    requires
        markdown_roundtrips(n),
    ensures
        lines(markdown_spec(n)) == md_lines(n),
{
    reveal_strlit("---");
    reveal_strlit("title: \"");
    reveal_strlit("url: \"");
    reveal_strlit("tags: ");
    let a = md_head(n);
    let u = md_url_lines(n);
    let t = md_tag_lines(n);
    let d = md_close_lines();
    let b = md_body_lines(n);
    let l = link_line_list(n.links);
    lemma_md_lines_groups(n);
    lemma_md_lines(n);
    let dash = "---"@;
    assert(plain_line(dash)) by {
        lemma_no_newline_lit(dash);
    }
    assert(plain_line(Seq::<char>::empty()));
    lemma_no_newline_lit("title: \""@);
    lemma_quoted_line_plain("title: \""@, n.title);
    lemma_plain_two(dash, "title: \""@ + yaml_escape_spec(n.title) + "\""@);
    match n.url {
        Some(uu) => {
            lemma_no_newline_lit("url: \""@);
            lemma_quoted_line_plain("url: \""@, uu);
            lemma_plain_one("url: \""@ + yaml_escape_spec(uu) + "\""@);
        },
        None => {
            lemma_plain_none();
        },
    }
    if n.tags.len() > 0 {
        lemma_join_ends(n.tags);
        let j = join_spec(n.tags, ", "@);
        lemma_no_newline_lit("tags: "@);
        lemma_no_char_concat("tags: "@, j, '\n');
        assert(md_tag_ok(n.tags[n.tags.len() - 1]));
        assert(("tags: "@ + j).last() == j.last());
        assert(is_ws('\r'));
        lemma_plain_one("tags: "@ + j);
    } else {
        lemma_plain_none();
    }
    lemma_plain_two(dash, Seq::<char>::empty());
    if n.body.len() > 0 {
        let pieces = split_on(n.body, '\n');
        lemma_split_pieces(n.body, '\n');
        assert forall|i: int| 0 <= i < b.len() implies plain_line(#[trigger] b[i]) by {
            if i < pieces.len() {
                assert(b[i] == pieces[i]);
                assert(body_line_ok(pieces[i]));
            } else {
                assert(b[i] == Seq::<char>::empty());
            }
        }
        lemma_lines_unlines(b);
    } else {
        lemma_plain_none();
    }
    lemma_link_lines_plain(n.links);
    lemma_lines_of_unlines_concat(a, u);
    lemma_lines_of_unlines_concat(a + u, t);
    lemma_lines_of_unlines_concat(a + u + t, d);
    lemma_lines_of_unlines_concat(a + u + t + d, b);
    lemma_lines_of_unlines_concat(a + u + t + d + b, l);
}

/// The reader's state after the frontmatter lines.
pub open spec fn md_after_frontmatter(n: NodeView) -> MdState {
    MdState { title: n.title, url: n.url, tags: n.tags, in_frontmatter: true, ..md_start(n.id) }
}

proof fn lemma_fold_frontmatter(n: NodeView)
    requires
        markdown_roundtrips(n),
    ensures
        md_fold_from(n.id, md_start(n.id), md_head(n) + md_url_lines(n) + md_tag_lines(n))
            == md_after_frontmatter(n),
{
    reveal_strlit("---");
    let id = n.id;
    let s0 = md_start(id);
    let a = md_head(n);
    let u = md_url_lines(n);
    let t = md_tag_lines(n);
    let dash = "---"@;
    lemma_fold_append(id, s0, a + u, t);
    lemma_fold_append(id, s0, a, u);
    let s_open = MdState { in_frontmatter: true, ..s0 };
    lemma_step_open(id);
    let title_line = "title: \""@ + yaml_escape_spec(n.title) + "\""@;
    lemma_fold_append(id, s0, seq![dash], seq![title_line]);
    assert(seq![dash] + seq![title_line] == a);
    lemma_fold_one(id, s0, dash);
    lemma_fold_one(id, s_open, title_line);
    lemma_step_title(id, s_open, n.title);
    let sa = MdState { title: n.title, ..s_open };
    assert(md_fold_from(id, s0, a) == sa);
    let su = MdState { url: n.url, ..sa };
    match n.url {
        Some(uu) => {
            lemma_fold_one(id, sa, "url: \""@ + yaml_escape_spec(uu) + "\""@);
            lemma_step_url(id, sa, uu);
        },
        None => {},
    }
    assert(md_fold_from(id, sa, u) == su);
    if n.tags.len() > 0 {
        lemma_fold_one(id, su, "tags: "@ + join_spec(n.tags, ", "@));
        lemma_step_tags(id, su, n.tags);
    } else {
        assert(su.tags =~= n.tags);
    }
}

/// The body as the reader collects it: a newline for the blank line after
/// the frontmatter, then each body line and the blank line after the body.
pub open spec fn md_collected_body(n: NodeView) -> Seq<char> {
    if n.body.len() > 0 {
        seq!['\n'] + n.body + seq!['\n'] + seq!['\n']
    } else {
        seq!['\n']
    }
}

proof fn lemma_fold_rest(n: NodeView)
    requires
        markdown_roundtrips(n),
    ensures
        md_fold_from(n.id, md_after_frontmatter(n), md_close_lines() + md_body_lines(n))
            == (MdState {
            body: md_collected_body(n),
            in_frontmatter: false,
            in_body: true,
            ..md_after_frontmatter(n)
        }),
{
    reveal_strlit("---");
    let id = n.id;
    let st = md_after_frontmatter(n);
    let d = md_close_lines();
    let b = md_body_lines(n);
    let dash = "---"@;
    lemma_fold_append(id, st, d, b);
    let s_closed = MdState { in_frontmatter: false, in_body: true, ..st };
    lemma_step_close(id, st);
    lemma_fold_append(id, st, seq![dash], seq![Seq::<char>::empty()]);
    assert(seq![dash] + seq![Seq::<char>::empty()] == d);
    lemma_fold_one(id, st, dash);
    lemma_fold_one(id, s_closed, Seq::<char>::empty());
    lemma_step_blank(id, s_closed);
    let sd = MdState { body: seq!['\n'], ..s_closed };
    assert(s_closed.body + seq!['\n'] =~= seq!['\n']);
    assert(md_fold_from(id, st, d) == sd);
    if n.body.len() > 0 {
        let pieces = split_on(n.body, '\n');
        lemma_wikilink_empty();
        assert(trim(Seq::<char>::empty()) =~= Seq::<char>::empty());
        assert(body_line_ok(Seq::<char>::empty()));
        assert forall|i: int| 0 <= i < b.len() implies body_line_ok(#[trigger] b[i]) by {
            if i < pieces.len() {
                assert(b[i] == pieces[i]);
            }
        }
        lemma_fold_body(id, sd, b);
        lemma_unlines_split(n.body);
        assert(b.drop_last() == pieces);
        assert(b.last() == Seq::<char>::empty());
        assert(unlines(b) == unlines(pieces) + Seq::<char>::empty() + seq!['\n']);
        assert(sd.body + unlines(b) =~= md_collected_body(n));
    } else {
        assert(b == Seq::<Seq<char>>::empty());
    }
}

proof fn lemma_collected_body_trim(n: NodeView)
    requires
        markdown_roundtrips(n),
    ensures
        trim(md_collected_body(n)) == n.body,
{
    let c = md_collected_body(n);
    assert(is_ws('\n'));
    if n.body.len() > 0 {
        lemma_trim_start_prefix_ws(seq!['\n'], n.body + seq!['\n', '\n']);
        assert(c =~= seq!['\n'] + (n.body + seq!['\n', '\n']));
        lemma_trim_end_suffix_ws(n.body, seq!['\n', '\n']);
    } else {
        assert(seq!['\n'].drop_first() =~= Seq::<char>::empty());
        assert(trim_start(c) == trim_start(Seq::<char>::empty()));
        assert(trim(c) =~= n.body);
    }
}

/// Reading back the Markdown file of a node gives the node again, provided
/// its texts are ones the format holds unchanged (see
/// [`markdown_roundtrips`]): a title or url on one line,
/// tags without commas, spaces at their ends or wrapping quotes, links
/// without `|` or spaces at their ends, and a body without spaces at its
/// ends none of whose lines is a `---` or wikilink line.
pub proof fn law_markdown_roundtrip(n: NodeView)
    requires
        markdown_roundtrips(n),
    ensures
        from_markdown_spec(n.id, markdown_spec(n), n.created, n.updated) == n,
{
    let id = n.id;
    let s0 = md_start(id);
    let f = md_head(n) + md_url_lines(n) + md_tag_lines(n);
    let r = md_close_lines() + md_body_lines(n);
    let l = link_line_list(n.links);
    lemma_file_lines(n);
    lemma_md_lines_groups(n);
    assert(md_lines(n) == f + r + l);
    lemma_fold_append(id, s0, f + r, l);
    lemma_fold_append(id, s0, f, r);
    lemma_fold_frontmatter(n);
    lemma_fold_rest(n);
    let sb = MdState {
        body: md_collected_body(n),
        in_frontmatter: false,
        in_body: true,
        ..md_after_frontmatter(n)
    };
    lemma_fold_links(id, sb, n.links);
    assert(sb.links + n.links =~= n.links);
    lemma_collected_body_trim(n);
}


proof fn lemma_vault_fold_sorted(files: Seq<VaultFile>)
    ensures
        keys_sorted(vault_fold(files)),
    decreases files.len(),
{
    if files.len() > 0 {
        let f = files.last();
        lemma_vault_fold_sorted(files.drop_last());
        law_node_map_read_after_insert(
            vault_fold(files.drop_last()),
            f.stem@,
            from_markdown_spec(f.stem@, f.text@, f.modified, f.modified),
            f.stem@,
        );
    }
}

/// A node saved to its file reads back from the vault: when the vault's
/// files (each stem once) include the file `<id>.md` holding the node's
/// Markdown, loading them gives the node under its id, with the file's
/// time as both timestamps.
pub proof fn law_saved_node_reads_back(files: Seq<VaultFile>, i: int, n: NodeView)
    requires
        0 <= i < files.len(),
        files[i].stem@ == n.id,
        files[i].text@ == markdown_spec(n),
        markdown_roundtrips(n),
        forall|j: int| 0 <= j < files.len() && j != i ==> (#[trigger] files[j]).stem@ != n.id,
    ensures
        map_get(vault_fold(files), n.id) == Some(
            NodeView { created: files[i].modified, updated: files[i].modified, ..n },
        ),
    decreases files.len(),
{
    let p = files.drop_last();
    let f = files.last();
    lemma_vault_fold_sorted(p);
    let v = from_markdown_spec(f.stem@, f.text@, f.modified, f.modified);
    law_node_map_read_after_insert(vault_fold(p), f.stem@, v, n.id);
    if i == files.len() - 1 {
        let m = NodeView { created: f.modified, updated: f.modified, ..n };
        assert(markdown_spec(m) == markdown_spec(n));
        law_markdown_roundtrip(m);
    } else {
        assert(f == files[files.len() - 1]);
        assert forall|j: int| 0 <= j < p.len() && j != i implies (#[trigger] p[j]).stem@ != n.id by {
            assert(p[j] == files[j]);
        }
        assert(p[i] == files[i]);
        law_saved_node_reads_back(p, i, n);
    }
}


/// Loading a vault's files gives a node under exactly the stems of those
/// files.
pub proof fn law_vault_keys(files: Seq<VaultFile>, k: Seq<char>)
    ensures
        map_get(vault_fold(files), k) is Some <==> exists|i: int| 0 <= i < files.len() && (#[trigger] files[i]).stem@ == k,
    decreases files.len(),
{
    if files.len() > 0 {
        let p = files.drop_last();
        let f = files.last();
        lemma_vault_fold_sorted(p);
        law_vault_keys(p, k);
        let v = from_markdown_spec(f.stem@, f.text@, f.modified, f.modified);
        law_node_map_read_after_insert(vault_fold(p), f.stem@, v, k);
        if exists|i: int| 0 <= i < p.len() && (#[trigger] p[i]).stem@ == k {
            let i = choose|i: int| 0 <= i < p.len() && (#[trigger] p[i]).stem@ == k;
            assert(files[i] == p[i]);
        }
        if exists|i: int| 0 <= i < files.len() && (#[trigger] files[i]).stem@ == k {
            let i = choose|i: int| 0 <= i < files.len() && (#[trigger] files[i]).stem@ == k;
            if i < files.len() - 1 {
                assert(p[i] == files[i]);
            }
        }
        assert(files[files.len() - 1] == f);
    } else {
        assert(vault_fold(files) == Seq::<EntryView>::empty());
    }
}


proof fn lemma_lines_one_cr(l: Seq<char>)
    requires
        !l.contains('\n'),
    ensures
        lines(l + seq!['\n']) == seq![strip_cr(l)],
{
    let s = l + seq!['\n'];
    lemma_find_char_append(l, seq!['\n'], '\n');
    lemma_find_char(l, '\n');
    if find_char(l, '\n') < l.len() {
        assert(l.contains('\n'));
    }
    assert(find_char(seq!['\n'], '\n') == 0);
    assert(s.take(l.len() as int) == l);
    assert(s.skip(l.len() + 1 as int) =~= Seq::<char>::empty());
    assert(lines(Seq::<char>::empty()) == Seq::<Seq<char>>::empty());
    assert(seq![strip_cr(l)] + Seq::<Seq<char>>::empty() == seq![strip_cr(l)]);
}

proof fn lemma_join_no_newline(xs: Seq<Seq<char>>)
    requires
        forall|i: int| 0 <= i < xs.len() ==> !(#[trigger] xs[i]).contains('\n'),
    ensures
        !join_spec(xs, ", "@).contains('\n'),
    decreases xs.len(),
{
    reveal_strlit(", ");
    if xs.len() == 1 {
        assert(!xs[0].contains('\n'));
    } else if xs.len() > 1 {
        let p = xs.drop_last();
        assert forall|i: int| 0 <= i < p.len() implies !(#[trigger] p[i]).contains('\n') by {
            assert(p[i] == xs[i]);
        }
        lemma_join_no_newline(p);
        assert(!", "@.contains('\n')) by {
            if ", "@.contains('\n') {
                let i = choose|i: int| 0 <= i < 2 && ", "@[i] == '\n';
            }
        }
        assert(!xs[xs.len() - 1].contains('\n'));
        lemma_no_char_concat(join_spec(p, ", "@), ", "@, '\n');
        lemma_no_char_concat(join_spec(p, ", "@) + ", "@, xs.last(), '\n');
    }
}

proof fn lemma_trim_end_keeps(x: Seq<char>, j: int)
    requires
        0 <= j < x.len(),
        !is_ws(x[j]),
    ensures
        trim_end(x).len() > j,
        trim_end(x).len() <= x.len(),
        trim_end(x) == x.take(trim_end(x).len() as int),
    decreases x.len(),
{
    if is_ws(x.last()) {
        assert(j < x.len() - 1);
        assert(x.drop_last()[j] == x[j]);
        lemma_trim_end_keeps(x.drop_last(), j);
        let k = trim_end(x).len() as int;
        assert(x.drop_last().take(k) =~= x.take(k));
    } else {
        assert(x.take(x.len() as int) == x);
    }
}

/// Reading a `tags:` line (whatever its tags) in the frontmatter changes
/// only the tags.
proof fn lemma_step_any_tags(id: Seq<char>, st: MdState, xs: Seq<Seq<char>>)
    requires
        st.in_frontmatter,
    ensures
        ({
            let s2 = md_step(id, st, strip_cr("tags: "@ + join_spec(xs, ", "@)));
            s2.title == st.title && s2.url == st.url && s2.in_frontmatter && s2.body == st.body
                && s2.in_body == st.in_body
        }),
{
    reveal_strlit("tags: ");
    reveal_strlit("tags:");
    reveal_strlit("title:");
    reveal_strlit("url:");
    reveal_strlit("---");
    let line = "tags: "@ + join_spec(xs, ", "@);
    let l = strip_cr(line);
    assert(line[0] == 't' && line[1] == 'a' && line[2] == 'g' && line[3] == 's' && line[4] == ':' && line[5] == ' ');
    assert(l.len() >= 5);
    assert(l[0] == 't' && l[1] == 'a' && l[2] == 'g' && l[3] == 's' && l[4] == ':');
    assert(trim_start(l) == l);
    lemma_trim_end_keeps(l, 4);
    let t = trim(l);
    assert(t == trim_end(l));
    assert(t == l.take(t.len() as int));
    assert(t.len() > 4);
    assert(t[0] == l[0] && t[1] == l[1] && t[2] == l[2] && t[3] == l[3] && t[4] == l[4]);
    assert(t != "---"@) by {
        if t == "---"@ {
            assert("---"@[0] == '-');
        }
    }
    assert(!"title:"@.is_prefix_of(t)) by {
        if "title:"@.is_prefix_of(t) {
            assert(t.subrange(0, 6)[1] == 'i');
        }
    }
    assert(!"url:"@.is_prefix_of(t)) by {
        if "url:"@.is_prefix_of(t) {
            assert(t.subrange(0, 4)[0] == 'u');
        }
    }
    assert(t.subrange(0, 5) =~= "tags:"@);
    assert("tags:"@.is_prefix_of(t));
}

/// Outside the frontmatter, once the body has begun, no line changes the
/// title or the url.
proof fn lemma_fold_after(id: Seq<char>, st: MdState, ls: Seq<Seq<char>>)
    requires
        !st.in_frontmatter,
        st.body.len() > 0,
    ensures
        md_fold_from(id, st, ls).title == st.title,
        md_fold_from(id, st, ls).url == st.url,
        !md_fold_from(id, st, ls).in_frontmatter,
        md_fold_from(id, st, ls).body.len() > 0,
    decreases ls.len(),
{
    if ls.len() > 0 {
        lemma_fold_after(id, st, ls.drop_last());
        let s1 = md_fold_from(id, st, ls.drop_last());
        let l = ls.last();
        if !(trim(l) == "---"@) && wikilink_spec(trim(l)) is None && s1.in_body {
            assert((s1.body + l + seq!['\n']).len() > 0);
        }
    }
}

proof fn lemma_fold_head(n: NodeView)
    requires
        md_text_ok(n.title),
        n.url matches Some(u) ==> md_text_ok(u),
    ensures
        md_fold_from(n.id, md_start(n.id), md_head(n) + md_url_lines(n))
            == (MdState { title: n.title, url: n.url, in_frontmatter: true, ..md_start(n.id) }),
{
    reveal_strlit("---");
    let id = n.id;
    let s0 = md_start(id);
    let a = md_head(n);
    let u = md_url_lines(n);
    let dash = "---"@;
    lemma_fold_append(id, s0, a, u);
    let s_open = MdState { in_frontmatter: true, ..s0 };
    lemma_step_open(id);
    let title_line = "title: \""@ + yaml_escape_spec(n.title) + "\""@;
    lemma_fold_append(id, s0, seq![dash], seq![title_line]);
    assert(seq![dash] + seq![title_line] == a);
    lemma_fold_one(id, s0, dash);
    lemma_fold_one(id, s_open, title_line);
    lemma_step_title(id, s_open, n.title);
    let sa = MdState { title: n.title, ..s_open };
    match n.url {
        Some(uu) => {
            lemma_fold_one(id, sa, "url: \""@ + yaml_escape_spec(uu) + "\""@);
            lemma_step_url(id, sa, uu);
        },
        None => {},
    }
}

/// The tag line as the reader sees it: its trailing `\r`, if any, dropped.
pub open spec fn md_tag_seen(n: NodeView) -> Seq<Seq<char>> {
    if n.tags.len() > 0 {
        seq![strip_cr("tags: "@ + join_spec(n.tags, ", "@))]
    } else {
        Seq::empty()
    }
}

#[verifier::rlimit(40)]
proof fn lemma_title_url_lines(n: NodeView)
    requires
        md_text_ok(n.title),
        n.url matches Some(u) ==> md_text_ok(u),
        forall|i: int| 0 <= i < n.tags.len() ==> !(#[trigger] n.tags[i]).contains('\n'),
    ensures
        lines(markdown_spec(n)) == md_head(n) + md_url_lines(n) + md_tag_seen(n) + md_close_lines()
            + lines(unlines(md_body_lines(n) + link_line_list(n.links))),
{
    reveal_strlit("---");
    reveal_strlit("title: \"");
    reveal_strlit("url: \"");
    reveal_strlit("tags: ");
    let id = n.id;
    let h = md_head(n) + md_url_lines(n);
    let t = md_tag_lines(n);
    let c = md_close_lines();
    let r = md_body_lines(n) + link_line_list(n.links);
    lemma_md_lines(n);
    lemma_md_lines_groups(n);
    assert(md_lines(n) == h + t + c + r);
    lemma_unlines_append(h, t);
    lemma_unlines_append(h + t, c);
    lemma_unlines_append(h + t + c, r);
    let text = markdown_spec(n);
    assert(text == unlines(h) + unlines(t) + unlines(c) + unlines(r));
    // the lines of the file
    let dash = "---"@;
    assert(plain_line(dash)) by {
        lemma_no_newline_lit(dash);
    }
    lemma_no_newline_lit("title: \""@);
    lemma_quoted_line_plain("title: \""@, n.title);
    let title_line = "title: \""@ + yaml_escape_spec(n.title) + "\""@;
    let u = md_url_lines(n);
    match n.url {
        Some(uu) => {
            lemma_no_newline_lit("url: \""@);
            lemma_quoted_line_plain("url: \""@, uu);
        },
        None => {},
    }
    assert forall|i: int| 0 <= i < h.len() implies plain_line(#[trigger] h[i]) by {
        if i == 0 {
            assert(h[i] == dash);
        } else if i == 1 {
            assert(h[i] == title_line);
        } else {
            assert(h[i] == u[0]);
        }
    }
    lemma_lines_unlines(h);
    assert(plain_line(Seq::<char>::empty()));
    lemma_plain_two(dash, Seq::<char>::empty());
    let tl: Seq<Seq<char>> = if n.tags.len() > 0 {
        seq![strip_cr("tags: "@ + join_spec(n.tags, ", "@))]
    } else {
        Seq::empty()
    };
    if n.tags.len() > 0 {
        let line = "tags: "@ + join_spec(n.tags, ", "@);
        lemma_join_no_newline(n.tags);
        lemma_no_newline_lit("tags: "@);
        lemma_no_char_concat("tags: "@, join_spec(n.tags, ", "@), '\n');
        assert(t == seq![line]);
        assert(t.drop_last() =~= Seq::<Seq<char>>::empty());
        assert(t.last() == line);
        assert(unlines(Seq::<Seq<char>>::empty()) == Seq::<char>::empty());
        assert(unlines(t) == Seq::<char>::empty() + line + seq!['\n']);
        assert(Seq::<char>::empty() + line + seq!['\n'] == line + seq!['\n']);
        lemma_lines_one_cr(line);
    } else {
        assert(unlines(t) == Seq::<char>::empty());
        assert(lines(Seq::<char>::empty()) == Seq::<Seq<char>>::empty());
    }
    assert(lines(unlines(t)) == tl);
    lemma_unlines_ends(h);
    lemma_unlines_ends(t);
    lemma_unlines_ends(c);
    let rest = unlines(r);
    assert((unlines(t) + unlines(c)).len() == 0 || (unlines(t) + unlines(c)).last() == '\n');
    lemma_lines_append(unlines(c), rest);
    lemma_lines_append(unlines(t), unlines(c) + rest);
    lemma_lines_append(unlines(h), unlines(t) + (unlines(c) + rest));
    assert(text == unlines(h) + (unlines(t) + (unlines(c) + rest)));
    let ls = lines(text);
    assert(ls == h + (tl + (c + lines(rest))));
    assert(h + (tl + (c + lines(rest))) =~= h + tl + c + lines(rest));
}

/// The title and url of a node come back from its Markdown file unchanged,
/// escapes undone, whatever its body and links, provided they and the tags
/// are on one line each.
#[verifier::rlimit(40)]
pub proof fn law_title_url_read_back(n: NodeView)
    requires
        md_text_ok(n.title),
        n.url matches Some(u) ==> md_text_ok(u),
        forall|i: int| 0 <= i < n.tags.len() ==> !(#[trigger] n.tags[i]).contains('\n'),
    ensures
        from_markdown_spec(n.id, markdown_spec(n), n.created, n.updated).title == n.title,
        from_markdown_spec(n.id, markdown_spec(n), n.created, n.updated).url == n.url,
{
    reveal_strlit("---");
    let id = n.id;
    let h = md_head(n) + md_url_lines(n);
    let tl = md_tag_seen(n);
    let c = md_close_lines();
    let rest = unlines(md_body_lines(n) + link_line_list(n.links));
    let dash = "---"@;
    lemma_title_url_lines(n);
    let s0 = md_start(id);
    lemma_fold_head(n);
    let sh = MdState { title: n.title, url: n.url, in_frontmatter: true, ..s0 };
    lemma_fold_append(id, s0, h + tl + c, lines(rest));
    lemma_fold_append(id, s0, h + tl, c);
    lemma_fold_append(id, s0, h, tl);
    let st = md_fold_from(id, sh, tl);
    if n.tags.len() > 0 {
        lemma_fold_one(id, sh, tl[0]);
        assert(tl == seq![tl[0]]);
        lemma_step_any_tags(id, sh, n.tags);
    } else {
        assert(st == sh);
    }
    assert(st.title == n.title && st.url == n.url && st.in_frontmatter && st.body == sh.body);
    lemma_fold_append(id, st, seq![dash], seq![Seq::<char>::empty()]);
    assert(seq![dash] + seq![Seq::<char>::empty()] == c);
    lemma_fold_one(id, st, dash);
    lemma_step_close(id, st);
    let sc = MdState { in_frontmatter: false, in_body: true, ..st };
    lemma_fold_one(id, sc, Seq::<char>::empty());
    lemma_step_blank(id, sc);
    let sb = MdState { body: sc.body + seq!['\n'], ..sc };
    assert(md_fold_from(id, st, c) == sb);
    assert(md_fold_from(id, s0, h + tl + c) == sb);
    lemma_fold_after(id, sb, lines(rest));
}

} // verus!
