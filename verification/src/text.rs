//! Character-level text helpers shared by the parsers and encoders.
//!
//! Text is modelled as `Seq<char>` (the view of `String` and `&str`); the
//! executable helpers work on `&[char]` and return `Vec<char>`.

use vstd::prelude::*;

verus! {

broadcast use vstd::string::group_string_axioms;

/// `String::push`: appends one character.
#[verifier::external_body]
pub(crate) fn push_char(s: &mut String, c: char)
    ensures
        final(s)@ == old(s)@.push(c),
{
    s.push(c);
}

/// The characters of `s`, in order.
pub fn chars_of(s: &str) -> (res: Vec<char>)
    ensures
        res@ == s@,
{
    let mut v: Vec<char> = Vec::new();
    for c in it: s.chars()
        invariant
            it.seq() == s@,
            v@ == it.seq().take(it.index() as int),
    {
        v.push(c);
    }
    v
}

/// Appends the characters `cs` to `s`.
pub fn push_chars(s: &mut String, cs: &[char])
    ensures
        final(s)@ == old(s)@ + cs@,
{
    let mut i: usize = 0;
    while i < cs.len()
        invariant
            i <= cs.len(),
            s@ == old(s)@ + cs@.take(i as int),
        decreases cs.len() - i,
    {
        push_char(s, cs[i]);
        i = i + 1;
        assert(cs@.take(i as int) == cs@.take(i - 1).push(cs@[i - 1]));
    }
    assert(cs@.take(cs.len() as int) == cs@);
}

/// A string holding exactly the characters `cs`.
pub fn string_of(cs: &[char]) -> (res: String)
    ensures
        res@ == cs@,
{
    let mut s = String::new();
    push_chars(&mut s, cs);
    s
}

/// The characters `s[lo..hi]`.
pub fn subslice(s: &[char], lo: usize, hi: usize) -> (res: Vec<char>)
    requires
        lo <= hi <= s@.len(),
    ensures
        res@ == s@.subrange(lo as int, hi as int),
{
    let mut v: Vec<char> = Vec::new();
    let mut i: usize = lo;
    while i < hi
        invariant
            lo <= i <= hi,
            hi <= s@.len(),
            v@ == s@.subrange(lo as int, i as int),
        decreases hi - i,
    {
        v.push(s[i]);
        i = i + 1;
        assert(s@.subrange(lo as int, i as int) == s@.subrange(lo as int, i - 1).push(s@[i - 1]));
    }
    v
}

/// Character equality of two texts.
pub fn eq_chars(a: &[char], b: &[char]) -> (res: bool)
    ensures
        res == (a@ == b@),
{
    if a.len() != b.len() {
        return false;
    }
    let mut i: usize = 0;
    while i < a.len()
        invariant
            a@.len() == b@.len(),
            i <= a@.len(),
            forall|k: int| 0 <= k < i ==> a@[k] == b@[k],
        decreases a.len() - i,
    {
        if a[i] != b[i] {
            return false;
        }
        i = i + 1;
    }
    assert(a@ =~= b@);
    true
}

/// Whether the text `a` equals the literal `lit`.
pub fn eq_str(a: &[char], lit: &str) -> (res: bool)
    ensures
        res == (a@ == lit@),
{
    let l = chars_of(lit);
    eq_chars(a, l.as_slice())
}

/// Unicode `White_Space`, as `char::is_whitespace` documents it.
pub open spec fn is_ws(c: char) -> bool {
    let u = c as u32;
    ||| 9 <= u <= 13
    ||| u == 32
    ||| u == 0x85
    ||| u == 0xa0
    ||| u == 0x1680
    ||| 0x2000 <= u <= 0x200a
    ||| u == 0x2028
    ||| u == 0x2029
    ||| u == 0x202f
    ||| u == 0x205f
    ||| u == 0x3000
}

/// `char::is_whitespace`.
pub fn is_whitespace(c: char) -> (res: bool)
    ensures
        res == is_ws(c),
{
    let u = c as u32;
    (9 <= u && u <= 13) || u == 32 || u == 0x85 || u == 0xa0 || u == 0x1680 || (0x2000 <= u
        && u <= 0x200a) || u == 0x2028 || u == 0x2029 || u == 0x202f || u == 0x205f || u == 0x3000
}

/// Leading whitespace removed (`str::trim_start`).
pub open spec fn trim_start(s: Seq<char>) -> Seq<char>
    decreases s.len(),
{
    if s.len() > 0 && is_ws(s[0]) {
        trim_start(s.drop_first())
    } else {
        s
    }
}

/// Trailing whitespace removed (`str::trim_end`).
pub open spec fn trim_end(s: Seq<char>) -> Seq<char>
    decreases s.len(),
{
    if s.len() > 0 && is_ws(s.last()) {
        trim_end(s.drop_last())
    } else {
        s
    }
}

/// Whitespace removed at both ends (`str::trim`).
pub open spec fn trim(s: Seq<char>) -> Seq<char> {
    trim_end(trim_start(s))
}

pub fn trim_start_chars(s: &[char]) -> (res: Vec<char>)
    ensures
        res@ == trim_start(s@),
{
    let mut i: usize = 0;
    assert(s@.subrange(0, s@.len() as int) == s@);
    while i < s.len() && is_whitespace(s[i])
        invariant
            i <= s@.len(),
            trim_start(s@) == trim_start(s@.subrange(i as int, s@.len() as int)),
        decreases s.len() - i,
    {
        assert(s@.subrange(i + 1, s@.len() as int) == s@.subrange(i as int, s@.len() as int).drop_first());
        i = i + 1;
    }
    subslice(s, i, s.len())
}

pub fn trim_end_chars(s: &[char]) -> (res: Vec<char>)
    ensures
        res@ == trim_end(s@),
{
    let mut j: usize = s.len();
    assert(s@.subrange(0, s@.len() as int) == s@);
    while j > 0 && is_whitespace(s[j - 1])
        invariant
            j <= s@.len(),
            trim_end(s@) == trim_end(s@.subrange(0, j as int)),
        decreases j,
    {
        assert(s@.subrange(0, j - 1) == s@.subrange(0, j as int).drop_last());
        j = j - 1;
    }
    subslice(s, 0, j)
}

pub fn trim_chars(s: &[char]) -> (res: Vec<char>)
    ensures
        res@ == trim(s@),
{
    let t = trim_start_chars(s);
    trim_end_chars(t.as_slice())
}

/// `s` with `p` removed from its front, if `s` starts with `p`.
pub fn strip_prefix(s: &[char], p: &[char]) -> (res: Option<Vec<char>>)
    ensures
        match res {
            Some(r) => p@.is_prefix_of(s@) && r@ == s@.skip(p@.len() as int),
            None => !p@.is_prefix_of(s@),
        },
{
    if p.len() > s.len() {
        return None;
    }
    let head = subslice(s, 0, p.len());
    if eq_chars(head.as_slice(), p) {
        Some(subslice(s, p.len(), s.len()))
    } else {
        None
    }
}

/// `strip_prefix` with a literal pattern.
pub fn strip_prefix_str(s: &[char], p: &str) -> (res: Option<Vec<char>>)
    ensures
        match res {
            Some(r) => p@.is_prefix_of(s@) && r@ == s@.skip(p@.len() as int),
            None => !p@.is_prefix_of(s@),
        },
{
    let pc = chars_of(p);
    strip_prefix(s, pc.as_slice())
}

/// `s` with `p` removed from its end, if `s` ends with `p`.
pub fn strip_suffix_str(s: &[char], p: &str) -> (res: Option<Vec<char>>)
    ensures
        match res {
            Some(r) => p@.is_suffix_of(s@) && r@ == s@.take(s@.len() - p@.len()),
            None => !p@.is_suffix_of(s@),
        },
{
    let pc = chars_of(p);
    if pc.len() > s.len() {
        return None;
    }
    let cut = s.len() - pc.len();
    let tail = subslice(s, cut, s.len());
    if eq_chars(tail.as_slice(), pc.as_slice()) {
        Some(subslice(s, 0, cut))
    } else {
        None
    }
}


pub proof fn lemma_trim_start(s: Seq<char>)
    ensures
        trim_start(s).len() <= s.len(),
        trim_start(s).len() > 0 ==> !is_ws(trim_start(s)[0]),
        trim_start(s) == s.skip(s.len() - trim_start(s).len()),
    decreases s.len(),
{
    if s.len() > 0 && is_ws(s[0]) {
        lemma_trim_start(s.drop_first());
        assert(s.drop_first().skip(s.drop_first().len() - trim_start(s).len()) == s.skip(
            s.len() - trim_start(s).len(),
        ));
    } else {
        assert(s.skip(0) == s);
    }
}

/// Length of the run of non-whitespace characters at the front of `s`.
pub open spec fn word_len(s: Seq<char>) -> nat
    decreases s.len(),
{
    if s.len() > 0 && !is_ws(s[0]) {
        1 + word_len(s.drop_first())
    } else {
        0
    }
}

pub proof fn lemma_word_len(s: Seq<char>)
    ensures
        word_len(s) <= s.len(),
        s.len() > 0 && !is_ws(s[0]) ==> word_len(s) >= 1,
        word_len(s) < s.len() ==> is_ws(s[word_len(s) as int]),
        forall|k: int| 0 <= k < word_len(s) ==> !is_ws(#[trigger] s[k]),
    decreases s.len(),
{
    if s.len() > 0 && !is_ws(s[0]) {
        lemma_word_len(s.drop_first());
        assert forall|k: int| 0 <= k < word_len(s) implies !is_ws(#[trigger] s[k]) by {
            if k > 0 {
                assert(s[k] == s.drop_first()[k - 1]);
            }
        }
    }
}

/// The whitespace-separated words of `s` (`str::split_whitespace`).
pub open spec fn words(s: Seq<char>) -> Seq<Seq<char>>
    decreases s.len(),
{
    let t = trim_start(s);
    if t.len() == 0 {
        seq![]
    } else {
        let n = word_len(t);
        proof {
            lemma_trim_start(s);
            lemma_word_len(t);
        }
        seq![t.take(n as int)] + words(t.skip(n as int))
    }
}

/// The views of a sequence of character vectors.
pub open spec fn views(v: Seq<Vec<char>>) -> Seq<Seq<char>> {
    v.map_values(|x: Vec<char>| x@)
}

pub proof fn lemma_views_push(v: Seq<Vec<char>>, x: Vec<char>)
    ensures
        views(v.push(x)) == views(v).push(x@),
{
    assert(views(v.push(x)) =~= views(v).push(x@));
}

pub fn split_whitespace(s: &[char]) -> (res: Vec<Vec<char>>)
    ensures
        views(res@) == words(s@),
{
    let mut res: Vec<Vec<char>> = Vec::new();
    let mut i: usize = 0;
    let len = s.len();
    assert(s@.skip(0) == s@);
    assert(views(res@) =~= Seq::<Seq<char>>::empty());
    loop
        invariant
            len == s@.len(),
            i <= len,
            words(s@) == views(res@) + words(s@.skip(i as int)),
        decreases len - i,
    {
        let mut j: usize = i;
        while j < len && is_whitespace(s[j])
            invariant
                len == s@.len(),
                i <= j <= len,
                trim_start(s@.skip(i as int)) == trim_start(s@.skip(j as int)),
            decreases len - j,
        {
            assert(s@.skip(j + 1) == s@.skip(j as int).drop_first());
            j = j + 1;
        }
        assert(trim_start(s@.skip(j as int)) == s@.skip(j as int));
        if j == len {
            assert(words(s@.skip(i as int)) == Seq::<Seq<char>>::empty());
            assert(views(res@) + Seq::<Seq<char>>::empty() == views(res@));
            return res;
        }
        let mut k: usize = j;
        while k < len && !is_whitespace(s[k])
            invariant
                len == s@.len(),
                j <= k <= len,
                word_len(s@.skip(j as int)) == (k - j) + word_len(s@.skip(k as int)),
            decreases len - k,
        {
            assert(s@.skip(k + 1) == s@.skip(k as int).drop_first());
            k = k + 1;
        }
        let t = Ghost(s@.skip(j as int));
        assert(word_len(t@) == k - j);
        assert(t@.take((k - j) as int) == s@.subrange(j as int, k as int));
        assert(t@.skip((k - j) as int) == s@.skip(k as int));
        let w = subslice(s, j, k);
        let ghost old_res = res@;
        res.push(w);
        proof {
            lemma_views_push(old_res, w);
            assert(words(s@.skip(i as int)) == seq![t@.take((k - j) as int)] + words(s@.skip(k as int)));
            assert(views(res@) + words(s@.skip(k as int)) == views(old_res) + words(s@.skip(i as int)));
        }
        i = k;
    }
}

/// Index of the first `c` in `s`, or `s.len()` when there is none.
pub open spec fn find_char(s: Seq<char>, c: char) -> nat
    decreases s.len(),
{
    if s.len() == 0 {
        0
    } else if s[0] == c {
        0
    } else {
        1 + find_char(s.drop_first(), c)
    }
}

pub proof fn lemma_find_char(s: Seq<char>, c: char)
    ensures
        find_char(s, c) <= s.len(),
        find_char(s, c) < s.len() ==> s[find_char(s, c) as int] == c,
        forall|k: int| 0 <= k < find_char(s, c) ==> #[trigger] s[k] != c,
    decreases s.len(),
{
    if s.len() > 0 && s[0] != c {
        lemma_find_char(s.drop_first(), c);
        assert forall|k: int| 0 <= k < find_char(s, c) implies #[trigger] s[k] != c by {
            if k > 0 {
                assert(s[k] == s.drop_first()[k - 1]);
            }
        }
    }
}

/// Index of the first `c` in `s` at or after `from`, or `s.len()`.
pub fn find_char_from(s: &[char], from: usize, c: char) -> (res: usize)
    requires
        from <= s@.len(),
    ensures
        res == from + find_char(s@.skip(from as int), c),
{
    let mut i: usize = from;
    assert(s@.skip(from as int).skip(0) == s@.skip(from as int));
    while i < s.len() && s[i] != c
        invariant
            from <= i <= s@.len(),
            find_char(s@.skip(from as int), c) == (i - from) + find_char(s@.skip(i as int), c),
        decreases s.len() - i,
    {
        assert(s@.skip(i + 1) == s@.skip(i as int).drop_first());
        i = i + 1;
    }
    i
}

/// The pieces of `s` between occurrences of `c` (`str::split` with a char).
pub open spec fn split_on(s: Seq<char>, c: char) -> Seq<Seq<char>>
    decreases s.len(),
{
    let i = find_char(s, c);
    if i < s.len() {
        proof {
            lemma_find_char(s, c);
        }
        seq![s.take(i as int)] + split_on(s.skip(i + 1 as int), c)
    } else {
        seq![s]
    }
}

pub fn split_on_char(s: &[char], c: char) -> (res: Vec<Vec<char>>)
    ensures
        views(res@) == split_on(s@, c),
{
    let mut res: Vec<Vec<char>> = Vec::new();
    let mut i: usize = 0;
    let len = s.len();
    assert(s@.skip(0) == s@);
    assert(views(res@) =~= Seq::<Seq<char>>::empty());
    loop
        invariant
            len == s@.len(),
            i <= len,
            split_on(s@, c) == views(res@) + split_on(s@.skip(i as int), c),
        decreases len - i,
    {
        let j = find_char_from(s, i, c);
        proof {
            lemma_find_char(s@.skip(i as int), c);
        }
        let piece = subslice(s, i, j);
        let ghost old_res = res@;
        assert(s@.skip(i as int).take((j - i) as int) == s@.subrange(i as int, j as int));
        res.push(piece);
        proof {
            lemma_views_push(old_res, piece);
        }
        if j == len {
            assert(split_on(s@.skip(i as int), c) == seq![s@.subrange(i as int, j as int)]);
            assert(views(res@) == views(old_res) + seq![s@.subrange(i as int, j as int)]);
            return res;
        }
        assert(s@.skip(i as int).skip(j - i + 1) == s@.skip(j + 1));
        assert(views(res@) + split_on(s@.skip(j + 1), c) == views(old_res) + split_on(
            s@.skip(i as int),
            c,
        ));
        i = j + 1;
    }
}


/// A line with one trailing carriage return removed.
pub open spec fn strip_cr(l: Seq<char>) -> Seq<char> {
    if l.len() > 0 && l.last() == '\r' {
        l.drop_last()
    } else {
        l
    }
}

/// The lines of `s` (`str::lines`): split at `\n`, a `\r` before the `\n`
/// dropped, no empty line after a final `\n`.
pub open spec fn lines(s: Seq<char>) -> Seq<Seq<char>>
    decreases s.len(),
{
    if s.len() == 0 {
        seq![]
    } else {
        let i = find_char(s, '\n');
        if i < s.len() {
            proof {
                lemma_find_char(s, '\n');
            }
            seq![strip_cr(s.take(i as int))] + lines(s.skip(i + 1 as int))
        } else {
            seq![s]
        }
    }
}

pub fn lines_of(s: &[char]) -> (res: Vec<Vec<char>>)
    ensures
        views(res@) == lines(s@),
{
    let mut res: Vec<Vec<char>> = Vec::new();
    let mut i: usize = 0;
    let len = s.len();
    assert(s@.skip(0) == s@);
    assert(views(res@) =~= Seq::<Seq<char>>::empty());
    loop
        invariant
            len == s@.len(),
            i <= len,
            lines(s@) == views(res@) + lines(s@.skip(i as int)),
        decreases len - i,
    {
        if i == len {
            assert(lines(s@.skip(i as int)) == Seq::<Seq<char>>::empty());
            assert(views(res@) + Seq::<Seq<char>>::empty() == views(res@));
            return res;
        }
        let j = find_char_from(s, i, '\n');
        proof {
            lemma_find_char(s@.skip(i as int), '\n');
        }
        let ghost old_res = res@;
        if j == len {
            let piece = subslice(s, i, len);
            assert(s@.skip(i as int) == s@.subrange(i as int, len as int));
            res.push(piece);
            proof {
                lemma_views_push(old_res, piece);
            }
            assert(views(res@) == views(old_res) + seq![s@.subrange(i as int, j as int)]);
            return res;
        }
        let end: usize = if j > i && s[j - 1] == '\r' { j - 1 } else { j };
        let piece = subslice(s, i, end);
        assert(s@.skip(i as int).take((j - i) as int) == s@.subrange(i as int, j as int));
        assert(strip_cr(s@.subrange(i as int, j as int)) == s@.subrange(i as int, end as int));
        res.push(piece);
        proof {
            lemma_views_push(old_res, piece);
        }
        assert(s@.skip(i as int).skip(j - i + 1) == s@.skip(j + 1));
        assert(views(res@) + lines(s@.skip(j + 1)) == views(old_res) + lines(s@.skip(i as int)));
        i = j + 1;
    }
}

/// `s` with every leading repetition of `p` removed (`str::trim_start_matches`).
pub open spec fn strip_all_prefix(s: Seq<char>, p: Seq<char>) -> Seq<char>
    decreases s.len(),
{
    if p.len() > 0 && p.is_prefix_of(s) {
        strip_all_prefix(s.skip(p.len() as int), p)
    } else {
        s
    }
}

pub fn strip_all_prefix_str(s: &[char], p: &str) -> (res: Vec<char>)
    ensures
        res@ == strip_all_prefix(s@, p@),
{
    let pc = chars_of(p);
    let mut cur = subslice(s, 0, s.len());
    assert(s@.subrange(0, s@.len() as int) == s@);
    if pc.len() == 0 {
        return cur;
    }
    loop
        invariant
            pc@ == p@,
            pc@.len() > 0,
            strip_all_prefix(s@, p@) == strip_all_prefix(cur@, p@),
        decreases cur@.len(),
    {
        match strip_prefix(cur.as_slice(), pc.as_slice()) {
            Some(rest) => {
                cur = rest;
            },
            None => {
                return cur;
            },
        }
    }
}

/// `s` with every trailing `c` removed (`str::trim_end_matches` with a char).
pub open spec fn strip_all_suffix_char(s: Seq<char>, c: char) -> Seq<char>
    decreases s.len(),
{
    if s.len() > 0 && s.last() == c {
        strip_all_suffix_char(s.drop_last(), c)
    } else {
        s
    }
}

pub fn strip_all_suffix_char_of(s: &[char], c: char) -> (res: Vec<char>)
    ensures
        res@ == strip_all_suffix_char(s@, c),
{
    let mut j: usize = s.len();
    assert(s@.subrange(0, s@.len() as int) == s@);
    while j > 0 && s[j - 1] == c
        invariant
            j <= s@.len(),
            strip_all_suffix_char(s@, c) == strip_all_suffix_char(s@.subrange(0, j as int), c),
        decreases j,
    {
        assert(s@.subrange(0, j - 1) == s@.subrange(0, j as int).drop_last());
        j = j - 1;
    }
    subslice(s, 0, j)
}

/// `s` with every leading `c` removed (`str::trim_start_matches` with a char).
pub open spec fn strip_all_prefix_char(s: Seq<char>, c: char) -> Seq<char>
    decreases s.len(),
{
    if s.len() > 0 && s[0] == c {
        strip_all_prefix_char(s.drop_first(), c)
    } else {
        s
    }
}

pub fn strip_all_prefix_char_of(s: &[char], c: char) -> (res: Vec<char>)
    ensures
        res@ == strip_all_prefix_char(s@, c),
{
    let mut i: usize = 0;
    assert(s@.subrange(0, s@.len() as int) == s@);
    while i < s.len() && s[i] == c
        invariant
            i <= s@.len(),
            strip_all_prefix_char(s@, c) == strip_all_prefix_char(
                s@.subrange(i as int, s@.len() as int),
                c,
            ),
        decreases s.len() - i,
    {
        assert(s@.subrange(i + 1, s@.len() as int) == s@.subrange(i as int, s@.len() as int).drop_first());
        i = i + 1;
    }
    subslice(s, i, s.len())
}


pub open spec fn is_digit(c: char) -> bool {
    '0' <= c <= '9'
}

pub open spec fn all_digits(s: Seq<char>) -> bool {
    forall|i: int| 0 <= i < s.len() ==> is_digit(#[trigger] s[i])
}

/// The number that the decimal digits `s` denote.
pub open spec fn digits_value(s: Seq<char>) -> nat
    decreases s.len(),
{
    if s.len() == 0 {
        0
    } else {
        digits_value(s.drop_last()) * 10 + ((s.last() as int - '0' as int) as nat)
    }
}

/// `u32::from_str`: an optional `+`, then one or more decimal digits, no
/// overflow.
pub open spec fn parse_u32_spec(s: Seq<char>) -> Option<u32> {
    let d = if s.len() > 0 && s[0] == '+' {
        s.drop_first()
    } else {
        s
    };
    if d.len() > 0 && all_digits(d) && digits_value(d) <= u32::MAX {
        Some(digits_value(d) as u32)
    } else {
        None
    }
}

/// `i32::from_str`: an optional `+` or `-`, then one or more decimal digits,
/// no overflow.
pub open spec fn parse_i32_spec(s: Seq<char>) -> Option<i32> {
    let signed = s.len() > 0 && (s[0] == '+' || s[0] == '-');
    let d = if signed {
        s.drop_first()
    } else {
        s
    };
    let v: int = if s.len() > 0 && s[0] == '-' {
        -digits_value(d)
    } else {
        digits_value(d) as int
    };
    if d.len() > 0 && all_digits(d) && i32::MIN <= v <= i32::MAX {
        Some(v as i32)
    } else {
        None
    }
}

pub proof fn lemma_digits_value_prefix(s: Seq<char>, k: int)
    requires
        0 <= k <= s.len(),
    ensures
        digits_value(s.take(k)) <= digits_value(s),
    decreases s.len(),
{
    if k < s.len() {
        lemma_digits_value_prefix(s.drop_last(), k);
        assert(s.drop_last().take(k) == s.take(k));
    } else {
        assert(s.take(k) == s);
    }
}

/// Value of the all-digit text `d`, or `None` when it exceeds `bound`.
fn digits_upto(d: &[char], bound: u64) -> (res: Option<u64>)
    requires
        all_digits(d@),
        bound <= u32::MAX + 1,
    ensures
        match res {
            Some(v) => v == digits_value(d@) && v <= bound,
            None => digits_value(d@) > bound,
        },
{
    let mut acc: u64 = 0;
    let mut i: usize = 0;
    assert(d@.take(0) == Seq::<char>::empty());
    while i < d.len()
        invariant
            i <= d@.len(),
            all_digits(d@),
            bound <= u32::MAX + 1,
            acc == digits_value(d@.take(i as int)),
            acc <= bound,
        decreases d.len() - i,
    {
        let dv = (d[i] as u32 - '0' as u32) as u64;
        assert(is_digit(d@[i as int]));
        assert(d@.take(i + 1).drop_last() == d@.take(i as int));
        acc = acc * 10 + dv;
        i = i + 1;
        if acc > bound {
            proof {
                lemma_digits_value_prefix(d@, i as int);
            }
            return None;
        }
    }
    assert(d@.take(d@.len() as int) == d@);
    Some(acc)
}

fn all_digit_chars(d: &[char]) -> (res: bool)
    ensures
        res == all_digits(d@),
{
    let mut i: usize = 0;
    while i < d.len()
        invariant
            i <= d@.len(),
            forall|k: int| 0 <= k < i ==> is_digit(#[trigger] d@[k]),
        decreases d.len() - i,
    {
        if !('0' <= d[i] && d[i] <= '9') {
            assert(!is_digit(d@[i as int]));
            return false;
        }
        i = i + 1;
    }
    true
}

/// `s.parse::<u32>().ok()`.
pub fn parse_u32(s: &[char]) -> (res: Option<u32>)
    ensures
        res == parse_u32_spec(s@),
{
    let d = if s.len() > 0 && s[0] == '+' {
        subslice(s, 1, s.len())
    } else {
        subslice(s, 0, s.len())
    };
    assert(s@.subrange(0, s@.len() as int) == s@);
    assert(s@.len() > 0 ==> s@.subrange(1, s@.len() as int) == s@.drop_first());
    assert(d@ == (if s@.len() > 0 && s@[0] == '+' { s@.drop_first() } else { s@ }));
    if d.len() == 0 {
        return None;
    }
    if !all_digit_chars(d.as_slice()) {
        return None;
    }
    match digits_upto(d.as_slice(), 0xffff_ffff) {
        Some(v) => Some(v as u32),
        None => None,
    }
}

/// `s.parse::<i32>().ok()`.
pub fn parse_i32(s: &[char]) -> (res: Option<i32>)
    ensures
        res == parse_i32_spec(s@),
{
    let neg = s.len() > 0 && s[0] == '-';
    let d = if s.len() > 0 && (s[0] == '+' || s[0] == '-') {
        subslice(s, 1, s.len())
    } else {
        subslice(s, 0, s.len())
    };
    assert(s@.subrange(0, s@.len() as int) == s@);
    assert(s@.len() > 0 ==> s@.subrange(1, s@.len() as int) == s@.drop_first());
    assert(d@ == (if s@.len() > 0 && (s@[0] == '+' || s@[0] == '-') { s@.drop_first() } else { s@ }));
    if d.len() == 0 {
        return None;
    }
    if !all_digit_chars(d.as_slice()) {
        return None;
    }
    let bound: u64 = if neg { 0x8000_0000 } else { 0x7fff_ffff };
    match digits_upto(d.as_slice(), bound) {
        Some(v) => {
            if neg {
                if v == 0x8000_0000 {
                    Some(i32::MIN)
                } else {
                    Some(-(v as i32))
                }
            } else {
                Some(v as i32)
            }
        },
        None => None,
    }
}

/// Decimal digit character for `d < 10`.
pub open spec fn digit_char(d: nat) -> char {
    (d + 48) as char
}

/// Decimal representation of `n` without leading zeros (`Display` for integers).
pub open spec fn dec(n: nat) -> Seq<char>
    decreases n,
{
    if n < 10 {
        seq![digit_char(n)]
    } else {
        dec(n / 10).push(digit_char(n % 10))
    }
}

/// Appends the decimal representation of `n`.
pub fn push_decimal(s: &mut String, n: u64)
    ensures
        final(s)@ == old(s)@ + dec(n as nat),
    decreases n,
{
    if n >= 10 {
        push_decimal(s, n / 10);
    }
    let d = (n % 10) as u8;
    let c = (48u8 + d) as char;
    push_char(s, c);
    assert(digit_char((n % 10) as nat) == c);
}


/// Lexicographic order of texts by code point. This is the order of `String`
/// (`Ord` on the UTF-8 bytes), since UTF-8 keeps code point order.
pub open spec fn str_lt(a: Seq<char>, b: Seq<char>) -> bool
    decreases a.len(),
{
    if a.len() == 0 {
        b.len() > 0
    } else if b.len() == 0 {
        false
    } else if a[0] != b[0] {
        a[0] < b[0]
    } else {
        str_lt(a.drop_first(), b.drop_first())
    }
}

pub proof fn lemma_str_lt_irreflexive(a: Seq<char>)
    ensures
        !str_lt(a, a),
    decreases a.len(),
{
    if a.len() > 0 {
        lemma_str_lt_irreflexive(a.drop_first());
    }
}

pub proof fn lemma_str_lt_asymmetric(a: Seq<char>, b: Seq<char>)
    ensures
        str_lt(a, b) ==> !str_lt(b, a),
    decreases a.len(),
{
    if a.len() > 0 && b.len() > 0 && a[0] == b[0] {
        lemma_str_lt_asymmetric(a.drop_first(), b.drop_first());
    }
}

pub proof fn lemma_str_lt_transitive(a: Seq<char>, b: Seq<char>, c: Seq<char>)
    ensures
        str_lt(a, b) && str_lt(b, c) ==> str_lt(a, c),
    decreases a.len(),
{
    if a.len() > 0 && b.len() > 0 && c.len() > 0 && a[0] == b[0] && b[0] == c[0] {
        lemma_str_lt_transitive(a.drop_first(), b.drop_first(), c.drop_first());
    }
}

pub proof fn lemma_str_lt_total(a: Seq<char>, b: Seq<char>)
    ensures
        a != b ==> str_lt(a, b) || str_lt(b, a),
    decreases a.len(),
{
    if a.len() > 0 && b.len() > 0 && a[0] == b[0] {
        lemma_str_lt_total(a.drop_first(), b.drop_first());
        if a.drop_first() == b.drop_first() {
            assert forall|k: int| 0 <= k < a.len() implies a[k] == b[k] by {
                if k > 0 {
                    assert(a[k] == a.drop_first()[k - 1]);
                    assert(b[k] == b.drop_first()[k - 1]);
                }
            }
            assert(a =~= b);
        }
    } else if a.len() == 0 && b.len() == 0 {
        assert(a =~= b);
    }
}

/// Whether `a` comes before `b` in [`str_lt`] order.
pub fn str_less(a: &[char], b: &[char]) -> (res: bool)
    ensures
        res == str_lt(a@, b@),
{
    let mut i: usize = 0;
    assert(a@.skip(0) == a@);
    assert(b@.skip(0) == b@);
    loop
        invariant
            i <= a@.len(),
            i <= b@.len(),
            str_lt(a@, b@) == str_lt(a@.skip(i as int), b@.skip(i as int)),
        decreases a@.len() - i,
    {
        if i == a.len() {
            return i < b.len();
        }
        if i == b.len() {
            return false;
        }
        assert(a@.skip(i as int)[0] == a@[i as int]);
        assert(b@.skip(i as int)[0] == b@[i as int]);
        if a[i] != b[i] {
            return a[i] < b[i];
        }
        assert(a@.skip(i as int).drop_first() == a@.skip(i + 1));
        assert(b@.skip(i as int).drop_first() == b@.skip(i + 1));
        i = i + 1;
    }
}


/// Whitespace in front does not change what `trim_start` leaves.
pub proof fn lemma_trim_start_ws_prefix(w: Seq<char>, x: Seq<char>)
    requires
        forall|i: int| 0 <= i < w.len() ==> is_ws(#[trigger] w[i]),
    ensures
        trim_start(w + x) == trim_start(x),
    decreases w.len(),
{
    if w.len() > 0 {
        assert((w + x)[0] == w[0]);
        assert((w + x).drop_first() == w.drop_first() + x);
        assert forall|i: int| 0 <= i < w.drop_first().len() implies is_ws(#[trigger] w.drop_first()[i]) by {
            assert(w.drop_first()[i] == w[i + 1]);
        }
        lemma_trim_start_ws_prefix(w.drop_first(), x);
    } else {
        assert(w + x == x);
    }
}

/// Whitespace at the end does not change what `trim_end` leaves.
pub proof fn lemma_trim_end_ws_suffix(x: Seq<char>, w: Seq<char>)
    requires
        forall|i: int| 0 <= i < w.len() ==> is_ws(#[trigger] w[i]),
    ensures
        trim_end(x + w) == trim_end(x),
    decreases w.len(),
{
    if w.len() > 0 {
        assert((x + w).last() == w.last());
        assert(is_ws(w[w.len() - 1]));
        assert((x + w).drop_last() == x + w.drop_last());
        assert forall|i: int| 0 <= i < w.drop_last().len() implies is_ws(#[trigger] w.drop_last()[i]) by {
            assert(w.drop_last()[i] == w[i]);
        }
        lemma_trim_end_ws_suffix(x, w.drop_last());
    } else {
        assert(x + w == x);
    }
}

/// `trim_end` of a text with one more character in front.
pub proof fn lemma_trim_end_cons(c: char, x: Seq<char>)
    ensures
        trim_end(seq![c] + x) == if !is_ws(c) || trim_end(x).len() > 0 {
            seq![c] + trim_end(x)
        } else {
            Seq::<char>::empty()
        },
    decreases x.len(),
{
    let y = seq![c] + x;
    if x.len() == 0 {
        assert(y =~= seq![c]);
        assert(y.last() == c);
        assert(y.drop_last() =~= Seq::<char>::empty());
        assert(trim_end(Seq::<char>::empty()) == Seq::<char>::empty());
        assert(trim_end(x) == x);
        assert(seq![c] + x =~= seq![c]);
    } else {
        assert(y.last() == x.last());
        assert(y.drop_last() == seq![c] + x.drop_last());
        if is_ws(x.last()) {
            lemma_trim_end_cons(c, x.drop_last());
            assert(trim_end(y) == trim_end(y.drop_last()));
            assert(trim_end(x) == trim_end(x.drop_last()));
        } else {
            assert(trim_end(y) == y);
            assert(trim_end(x) == x);
        }
    }
}

proof fn lemma_trim_end_last(x: Seq<char>)
    ensures
        trim_end(x).len() > 0 ==> !is_ws(trim_end(x).last()),
    decreases x.len(),
{
    if x.len() > 0 && is_ws(x.last()) {
        lemma_trim_end_last(x.drop_last());
    }
}

/// Trimming the end twice is trimming it once.
pub proof fn lemma_trim_end_idempotent(x: Seq<char>)
    ensures
        trim_end(trim_end(x)) == trim_end(x),
{
    lemma_trim_end_last(x);
}

/// Trimming the two ends can be done in either order.
pub proof fn lemma_trim_commute(s: Seq<char>)
    ensures
        trim_start(trim_end(s)) == trim_end(trim_start(s)),
    decreases s.len(),
{
    if s.len() > 0 {
        let c = s[0];
        let x = s.drop_first();
        assert(s == seq![c] + x);
        lemma_trim_end_cons(c, x);
        if is_ws(c) {
            lemma_trim_commute(x);
            if trim_end(x).len() > 0 {
                let t = seq![c] + trim_end(x);
                assert(t[0] == c);
                assert(t.drop_first() == trim_end(x));
            }
        } else {
            let t = seq![c] + trim_end(x);
            assert(t[0] == c);
        }
    }
}

} // verus!
