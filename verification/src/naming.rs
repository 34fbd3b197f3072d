//! Naming a project after the file that was dropped.
//!
//! The file's stem is the first choice, so dropping coffee-machine.xmi offers a project called
//! coffee-machine rather than asking a question; characters outside the name shape become
//! hyphens, runs of them collapse to one, and the result is trimmed to 64 characters.

use vstd::prelude::*;
use crate::detect::last_index_of;
use crate::text::{ascii_alnum, chars_of, is_ascii_alnum, string_of, text};

verus! {

/// A path separator, of either platform.
pub open spec fn is_separator(c: char) -> bool {
    c == '/' || c == '\\'
}

/// The position of the last path separator.
pub open spec fn last_separator(s: Seq<char>) -> Option<int>
    decreases s.len(),
{
    if s.len() == 0 {
        None
    } else if is_separator(s.last()) {
        Some(s.len() - 1)
    } else {
        last_separator(s.drop_last())
    }
}

/// The file's own name: what follows the last path separator.
pub open spec fn base_name(s: Seq<char>) -> Seq<char> {
    match last_separator(s) {
        Some(i) => s.subrange(i + 1, s.len() as int),
        None => s,
    }
}

/// The stem: what precedes the last dot, when that is not empty; otherwise the whole name.
pub open spec fn stem(base: Seq<char>) -> Seq<char> {
    match last_index_of(base, '.') {
        Some(i) => if i > 0 {
            base.subrange(0, i)
        } else {
            base
        },
        None => base,
    }
}

/// A character a project name may carry as it is: an ASCII letter or digit, a dot or an
/// underscore. Everything else becomes a hyphen.
pub open spec fn keeps(c: char) -> bool {
    is_ascii_alnum(c) || c == '.' || c == '_'
}

pub open spec fn name_char(c: char) -> char {
    if keeps(c) {
        c
    } else {
        '-'
    }
}

/// The mapped characters, with each run of hyphens collapsed to one.
pub open spec fn collapsed(s: Seq<char>) -> Seq<char>
    decreases s.len(),
{
    if s.len() == 0 {
        Seq::empty()
    } else {
        let r = collapsed(s.drop_last());
        let m = name_char(s.last());
        if m == '-' && r.len() > 0 && r.last() == '-' {
            r
        } else {
            r.push(m)
        }
    }
}

/// Without its leading hyphens.
pub open spec fn trim_leading(s: Seq<char>) -> Seq<char>
    decreases s.len(),
{
    if s.len() > 0 && s[0] == '-' {
        trim_leading(s.drop_first())
    } else {
        s
    }
}

/// Without its trailing hyphens.
pub open spec fn trim_trailing(s: Seq<char>) -> Seq<char>
    decreases s.len(),
{
    if s.len() > 0 && s.last() == '-' {
        trim_trailing(s.drop_last())
    } else {
        s
    }
}

pub open spec fn has_alnum(s: Seq<char>) -> bool {
    exists|i: int| 0 <= i < s.len() && is_ascii_alnum(#[trigger] s[i])
}

/// The project name a dropped file's name offers.
pub open spec fn spec_derived_name(file_name: Seq<char>) -> Seq<char> {
    let trimmed = trim_trailing(trim_leading(collapsed(stem(base_name(file_name)))));
    let name = if trimmed.len() > 64 {
        trim_trailing(trimmed.take(64))
    } else {
        trimmed
    };
    if name.len() == 0 || !has_alnum(name) {
        "model"@
    } else {
        name
    }
}

/// The shape every derived project name has.
pub open spec fn is_name_shaped(s: Seq<char>) -> bool {
    &&& 1 <= s.len() <= 64
    &&& forall|i: int| 0 <= i < s.len() ==> keeps(#[trigger] s[i]) || s[i] == '-'
    &&& s[0] != '-'
    &&& s.last() != '-'
    &&& forall|i: int| 0 <= i < s.len() - 1 ==> !(#[trigger] s[i] == '-' && s[i + 1] == '-')
    &&& has_alnum(s)
}


/// Where the file's own name starts: just after the last path separator.
fn base_start(cs: &Vec<char>) -> (r: usize)
    ensures
        r <= cs@.len(),
        base_name(cs@) == cs@.subrange(r as int, cs@.len() as int),
{
    let mut i = cs.len();
    proof {
        assert(cs@.take(i as int) =~= cs@);
    }
    while i > 0
        invariant
            i <= cs@.len(),
            last_separator(cs@) == last_separator(cs@.take(i as int)),
        decreases i,
    {
        proof {
            assert(cs@.take(i as int).drop_last() =~= cs@.take(i - 1));
        }
        if cs[i - 1] == '/' || cs[i - 1] == '\\' {
            return i;
        }
        i = i - 1;
    }
    proof {
        assert(cs@.subrange(0, cs@.len() as int) =~= cs@);
    }
    0
}

/// Where the stem of `cs[from..]` ends.
fn stem_end(cs: &Vec<char>, from: usize) -> (r: usize)
    requires
        from <= cs@.len(),
    ensures
        from <= r <= cs@.len(),
        stem(cs@.subrange(from as int, cs@.len() as int)) == cs@.subrange(from as int, r as int),
{
    let ghost base = cs@.subrange(from as int, cs@.len() as int);
    let mut i = cs.len();
    proof {
        assert(base.take((i - from) as int) =~= base);
    }
    while i > from
        invariant
            from <= i <= cs@.len(),
            base == cs@.subrange(from as int, cs@.len() as int),
            last_index_of(base, '.') == last_index_of(base.take(i - from), '.'),
        decreases i,
    {
        proof {
            assert(base.take(i - from).drop_last() =~= base.take(i - 1 - from));
        }
        if cs[i - 1] == '.' {
            proof {
                assert(last_index_of(base, '.') == Some(i - 1 - from));
                assert(base.subrange(0, i - 1 - from) =~= cs@.subrange(from as int, i - 1));
            }
            if i - 1 > from {
                return i - 1;
            }
            return cs.len();
        }
        i = i - 1;
    }
    cs.len()
}

/// The mapped, collapsed characters of `cs[from..to]`.
fn collapse_range(cs: &Vec<char>, from: usize, to: usize) -> (r: Vec<char>)
    requires
        from <= to <= cs@.len(),
    ensures
        r@ == collapsed(cs@.subrange(from as int, to as int)),
{
    let mut out: Vec<char> = Vec::new();
    let mut last_hyphen = false;
    let mut i = from;
    proof {
        assert(cs@.subrange(from as int, from as int) =~= Seq::<char>::empty());
    }
    while i < to
        invariant
            from <= i <= to <= cs@.len(),
            out@ == collapsed(cs@.subrange(from as int, i as int)),
            last_hyphen == (out@.len() > 0 && out@.last() == '-'),
        decreases to - i,
    {
        let ch = cs[i];
        let mapped = if ascii_alnum(ch) || ch == '.' || ch == '_' {
            ch
        } else {
            '-'
        };
        proof {
            assert(cs@.subrange(from as int, i + 1).drop_last() =~= cs@.subrange(from as int, i as int));
        }
        if mapped == '-' && last_hyphen {
        } else {
            out.push(mapped);
            last_hyphen = mapped == '-';
        }
        i = i + 1;
    }
    out
}

proof fn lemma_trim_leading_step(s: Seq<char>, i: int)
    requires
        0 <= i < s.len(),
        s[i] == '-',
    ensures
        trim_leading(s.subrange(i, s.len() as int)) == trim_leading(s.subrange(i + 1, s.len() as int)),
{
    assert(s.subrange(i, s.len() as int).drop_first() =~= s.subrange(i + 1, s.len() as int));
}

proof fn lemma_trim_trailing_step(s: Seq<char>, lo: int, j: int)
    requires
        0 <= lo < j <= s.len(),
        s[j - 1] == '-',
    ensures
        trim_trailing(s.subrange(lo, j)) == trim_trailing(s.subrange(lo, j - 1)),
{
    assert(s.subrange(lo, j).drop_last() =~= s.subrange(lo, j - 1));
}

/// The range of `v[lo..hi]` without its trailing hyphens.
fn trailing_end(v: &Vec<char>, lo: usize, hi: usize) -> (r: usize)
    requires
        lo <= hi <= v@.len(),
    ensures
        lo <= r <= hi,
        trim_trailing(v@.subrange(lo as int, hi as int)) == v@.subrange(lo as int, r as int),
        r > lo ==> v@[r - 1] != '-',
{
    let mut j = hi;
    while j > lo && v[j - 1] == '-'
        invariant
            lo <= j <= hi <= v@.len(),
            trim_trailing(v@.subrange(lo as int, hi as int)) == trim_trailing(v@.subrange(lo as int, j as int)),
        decreases j,
    {
        proof {
            lemma_trim_trailing_step(v@, lo as int, j as int);
        }
        j = j - 1;
    }
    proof {
        if j > lo {
            assert(v@.subrange(lo as int, j as int).last() == v@[j - 1]);
        }
    }
    j
}

/// A project name derived from a dropped file's name, as the front door offers it: the file's
/// stem with every character outside the name shape turned into a hyphen, runs of hyphens
/// collapsed, hyphens trimmed from both ends and the whole cut to 64 characters; "model" when
/// that leaves nothing with a letter or digit in it, so a drop never fails on naming.
pub fn derived_project_name(file_name: &str) -> (r: String)
    ensures
        r@ == spec_derived_name(file_name@),
        is_name_shaped(r@),
{
    proof {
        lemma_derived_name_is_shaped(file_name@);
    }
    let cs = chars_of(file_name);
    let start = base_start(&cs);
    let end = stem_end(&cs, start);
    let collapsed_chars = collapse_range(&cs, start, end);
    let ghost c = collapsed_chars@;
    let mut lo: usize = 0;
    proof {
        assert(c.subrange(0, c.len() as int) =~= c);
    }
    while lo < collapsed_chars.len() && collapsed_chars[lo] == '-'
        invariant
            lo <= c.len(),
            c == collapsed_chars@,
            trim_leading(c) == trim_leading(c.subrange(lo as int, c.len() as int)),
        decreases c.len() - lo,
    {
        proof {
            lemma_trim_leading_step(c, lo as int);
        }
        lo = lo + 1;
    }
    proof {
        if lo < c.len() {
            assert(c.subrange(lo as int, c.len() as int)[0] == c[lo as int]);
        }
        assert(trim_leading(c) == c.subrange(lo as int, c.len() as int));
        assert(c.subrange(lo as int, c.len() as int).subrange(0, (c.len() - lo) as int) =~= c.subrange(lo as int, c.len() as int));
    }
    let hi = trailing_end(&collapsed_chars, lo, collapsed_chars.len());
    let ghost trimmed = c.subrange(lo as int, hi as int);
    proof {
        assert(trim_trailing(trim_leading(c)) == trimmed) by {
            assert(c.subrange(lo as int, c.len() as int) =~= c.subrange(lo as int, c.len() as int));
        }
    }
    let name_end = if hi - lo > 64 {
        let e = trailing_end(&collapsed_chars, lo, lo + 64);
        proof {
            assert(trimmed.take(64) =~= c.subrange(lo as int, lo + 64));
        }
        e
    } else {
        hi
    };
    let ghost name = c.subrange(lo as int, name_end as int);
    let mut found = false;
    let mut k = lo;
    while k < name_end && !found
        invariant
            lo <= k <= name_end <= c.len(),
            c == collapsed_chars@,
            name == c.subrange(lo as int, name_end as int),
            found ==> has_alnum(name),
            !found ==> forall|m: int| 0 <= m < k - lo ==> !is_ascii_alnum(#[trigger] name[m]),
        decreases name_end - k + (if found { 0int } else { 1int }),
    {
        if ascii_alnum(collapsed_chars[k]) {
            found = true;
            proof {
                assert(name[k - lo] == c[k as int]);
            }
        } else {
            k = k + 1;
        }
    }
    if name_end == lo || !found {
        return text("model");
    }
    string_of(&collapsed_chars, lo, name_end)
}


/// Only name characters, and no two hyphens in a row.
pub open spec fn is_clean(s: Seq<char>) -> bool {
    &&& forall|i: int| 0 <= i < s.len() ==> keeps(#[trigger] s[i]) || s[i] == '-'
    &&& forall|i: int| 0 <= i < s.len() - 1 ==> !(#[trigger] s[i] == '-' && s[i + 1] == '-')
}

proof fn lemma_collapsed_clean(s: Seq<char>)
    ensures
        is_clean(collapsed(s)),
    decreases s.len(),
{
    if s.len() > 0 {
        lemma_collapsed_clean(s.drop_last());
        let r = collapsed(s.drop_last());
        let m = name_char(s.last());
        if !(m == '-' && r.len() > 0 && r.last() == '-') {
            let t = r.push(m);
            assert forall|i: int| 0 <= i < t.len() - 1 implies !(#[trigger] t[i] == '-' && t[i + 1] == '-') by {
                if i < r.len() - 1 {
                    assert(t[i] == r[i] && t[i + 1] == r[i + 1]);
                }
            }
        }
    }
}

proof fn lemma_clean_subrange(s: Seq<char>, a: int, b: int)
    requires
        is_clean(s),
        0 <= a <= b <= s.len(),
    ensures
        is_clean(s.subrange(a, b)),
{
    let t = s.subrange(a, b);
    assert forall|i: int| 0 <= i < t.len() implies keeps(#[trigger] t[i]) || t[i] == '-' by {
        assert(t[i] == s[a + i]);
    }
    assert forall|i: int| 0 <= i < t.len() - 1 implies !(#[trigger] t[i] == '-' && t[i + 1] == '-') by {
        assert(t[i] == s[a + i] && t[i + 1] == s[a + i + 1]);
    }
}

proof fn lemma_trim_leading_suffix(s: Seq<char>)
    ensures
        trim_leading(s).len() <= s.len(),
        trim_leading(s) == s.subrange(s.len() - trim_leading(s).len(), s.len() as int),
        trim_leading(s).len() > 0 ==> trim_leading(s)[0] != '-',
    decreases s.len(),
{
    if s.len() > 0 && s[0] == '-' {
        lemma_trim_leading_suffix(s.drop_first());
        let t = trim_leading(s.drop_first());
        assert(s.drop_first().subrange(s.drop_first().len() - t.len(), s.drop_first().len() as int) =~= s.subrange(s.len() - t.len(), s.len() as int));
    } else {
        assert(s.subrange(0, s.len() as int) =~= s);
    }
}

proof fn lemma_trim_trailing_prefix(s: Seq<char>)
    ensures
        trim_trailing(s).len() <= s.len(),
        trim_trailing(s) == s.take(trim_trailing(s).len() as int),
        trim_trailing(s).len() > 0 ==> trim_trailing(s).last() != '-',
    decreases s.len(),
{
    if s.len() > 0 && s.last() == '-' {
        lemma_trim_trailing_prefix(s.drop_last());
        let t = trim_trailing(s.drop_last());
        assert(s.drop_last().take(t.len() as int) =~= s.take(t.len() as int));
    } else {
        assert(s.take(s.len() as int) =~= s);
    }
}

/// Every name the front door derives has the project-name shape: one to 64 characters, only
/// ASCII letters, digits, dots, underscores and single hyphens, no hyphen at either end, and at
/// least one letter or digit.
pub proof fn lemma_derived_name_is_shaped(file_name: Seq<char>)
    ensures
        is_name_shaped(spec_derived_name(file_name)),
{
    let c = collapsed(stem(base_name(file_name)));
    lemma_collapsed_clean(c.subrange(0, 0));
    lemma_collapsed_clean(stem(base_name(file_name)));
    lemma_trim_leading_suffix(c);
    let l = trim_leading(c);
    lemma_clean_subrange(c, c.len() - l.len(), c.len() as int);
    lemma_trim_trailing_prefix(l);
    let trimmed = trim_trailing(l);
    lemma_clean_subrange(l, 0, trimmed.len() as int);
    let name = if trimmed.len() > 64 {
        trim_trailing(trimmed.take(64))
    } else {
        trimmed
    };
    if trimmed.len() > 64 {
        lemma_clean_subrange(trimmed, 0, 64);
        lemma_trim_trailing_prefix(trimmed.take(64));
        let t = trim_trailing(trimmed.take(64));
        lemma_clean_subrange(trimmed.take(64), 0, t.len() as int);
        if t.len() > 0 {
            assert(t[0] == trimmed[0]);
            assert(trimmed[0] == l[0]);
        }
    } else if trimmed.len() > 0 {
        assert(trimmed[0] == l[0]);
    }
    if name.len() == 0 || !has_alnum(name) {
        reveal_strlit("model");
        let m = "model"@;
        assert(is_ascii_alnum(m[0]));
        assert(has_alnum(m));
    }
}

proof fn lemma_no_separator(s: Seq<char>)
    requires
        forall|i: int| 0 <= i < s.len() ==> !is_separator(#[trigger] s[i]),
    ensures
        last_separator(s) is None,
    decreases s.len(),
{
    if s.len() > 0 {
        assert forall|i: int| 0 <= i < s.drop_last().len() implies !is_separator(#[trigger] s.drop_last()[i]) by {
            assert(s.drop_last()[i] == s[i]);
        }
        lemma_no_separator(s.drop_last());
    }
}

proof fn lemma_last_dot(st: Seq<char>, ext: Seq<char>)
    requires
        forall|i: int| 0 <= i < ext.len() ==> #[trigger] ext[i] != '.',
    ensures
        last_index_of(st + seq!['.'] + ext, '.') == Some(st.len() as int),
    decreases ext.len(),
{
    let whole = st + seq!['.'] + ext;
    if ext.len() == 0 {
        assert(whole.last() == '.');
    } else {
        assert(whole.last() == ext.last());
        assert forall|i: int| 0 <= i < ext.drop_last().len() implies #[trigger] ext.drop_last()[i] != '.' by {
            assert(ext.drop_last()[i] == ext[i]);
        }
        lemma_last_dot(st, ext.drop_last());
        assert(whole.drop_last() =~= st + seq!['.'] + ext.drop_last());
    }
}

proof fn lemma_collapsed_kept(s: Seq<char>)
    requires
        forall|i: int| 0 <= i < s.len() ==> keeps(#[trigger] s[i]),
    ensures
        collapsed(s) == s,
    decreases s.len(),
{
    if s.len() > 0 {
        assert forall|i: int| 0 <= i < s.drop_last().len() implies keeps(#[trigger] s.drop_last()[i]) by {
            assert(s.drop_last()[i] == s[i]);
        }
        lemma_collapsed_kept(s.drop_last());
        assert(keeps(s.last()));
        assert(s.drop_last().push(s.last()) =~= s);
    }
}

/// A file whose stem is already a project name keeps it: when the name has no path, its stem
/// (before the last dot) is at most 64 characters, all ASCII letters, digits, dots and
/// underscores with at least one letter or digit, the project is named exactly that stem.
/// Every letter and digit is kept as it is.
pub proof fn lemma_shaped_stem_is_kept(st: Seq<char>, ext: Seq<char>)
    requires
        1 <= st.len() <= 64,
        forall|i: int| 0 <= i < st.len() ==> ('A' <= #[trigger] st[i] <= 'Z') || ('a' <= st[i] <= 'z') || ('0' <= st[i] <= '9')
            || st[i] == '.' || st[i] == '_',
        exists|i: int| 0 <= i < st.len() && (('A' <= #[trigger] st[i] <= 'Z') || ('a' <= st[i] <= 'z') || ('0' <= st[i] <= '9')),
        forall|i: int| 0 <= i < ext.len() ==> #[trigger] ext[i] != '.' && ext[i] != '/' && ext[i] != '\\',
    ensures
        spec_derived_name(st + seq!['.'] + ext) == st,
{
    let whole = st + seq!['.'] + ext;
    assert forall|i: int| 0 <= i < st.len() implies keeps(#[trigger] st[i]) by {}
    assert forall|i: int| 0 <= i < whole.len() implies !is_separator(#[trigger] whole[i]) by {
        if i < st.len() {
            assert(whole[i] == st[i]);
        } else if i > st.len() {
            assert(whole[i] == ext[i - st.len() - 1]);
        }
    }
    lemma_no_separator(whole);
    assert(base_name(whole) == whole);
    lemma_last_dot(st, ext);
    assert(whole.subrange(0, st.len() as int) =~= st);
    assert(stem(whole) == st);
    lemma_collapsed_kept(st);
    assert(st[0] != '-');
    assert(trim_leading(st) == st);
    assert(st.last() != '-');
    assert(trim_trailing(st) == st);
    let k = choose|i: int| 0 <= i < st.len() && (('A' <= #[trigger] st[i] <= 'Z') || ('a' <= st[i] <= 'z') || ('0' <= st[i] <= '9'));
    assert(is_ascii_alnum(st[k]));
    assert(has_alnum(st));
}

/// A character a stem may keep in a project name, spelled out: an ASCII letter or digit, a dot
/// or an underscore.
pub open spec fn name_shape() -> spec_fn(char) -> bool {
    |c: char| ('A' <= c && c <= 'Z') || ('a' <= c && c <= 'z') || ('0' <= c && c <= '9') || c == '.' || c == '_'
}

/// Anything but a hyphen.
pub open spec fn not_hyphen() -> spec_fn(char) -> bool {
    |c: char| c != '-'
}

proof fn lemma_collapsed_filter(s: Seq<char>)
    ensures
        collapsed(s).filter(not_hyphen()) == s.filter(name_shape()),
    decreases s.len(),
{
    reveal(Seq::filter);
    if s.len() > 0 {
        lemma_collapsed_filter(s.drop_last());
        let r = collapsed(s.drop_last());
        let c = s.last();
        assert(s.drop_last().push(c) =~= s);
        s.drop_last().lemma_filter_push(c, name_shape());
        if keeps(c) {
            assert(name_char(c) == c && c != '-');
            r.lemma_filter_push(c, not_hyphen());
        } else {
            assert(!name_shape()(c));
            r.lemma_filter_push('-', not_hyphen());
        }
    }
}

proof fn lemma_trim_leading_filter(s: Seq<char>)
    ensures
        trim_leading(s).filter(not_hyphen()) == s.filter(not_hyphen()),
    decreases s.len(),
{
    if s.len() > 0 && s[0] == '-' {
        lemma_trim_leading_filter(s.drop_first());
        assert(seq![s[0]] + s.drop_first() =~= s);
        s.drop_first().lemma_filter_prepend(s[0], not_hyphen());
        assert(Seq::<char>::empty() + s.drop_first().filter(not_hyphen()) =~= s.drop_first().filter(not_hyphen()));
    }
}

proof fn lemma_trim_trailing_filter(s: Seq<char>)
    ensures
        trim_trailing(s).filter(not_hyphen()) == s.filter(not_hyphen()),
    decreases s.len(),
{
    if s.len() > 0 && s.last() == '-' {
        lemma_trim_trailing_filter(s.drop_last());
        assert(s.drop_last().push(s.last()) =~= s);
        s.drop_last().lemma_filter_push(s.last(), not_hyphen());
    }
}

proof fn lemma_collapsed_keeps_alnum(s: Seq<char>, k: int)
    requires
        0 <= k < s.len(),
        is_ascii_alnum(s[k]),
    ensures
        exists|j: int| 0 <= j < collapsed(s).len() && collapsed(s)[j] == s[k],
    decreases s.len(),
{
    let r = collapsed(s.drop_last());
    if k == s.len() - 1 {
        assert(name_char(s[k]) == s[k] && s[k] != '-');
        assert(collapsed(s) == r.push(s[k]));
        assert(collapsed(s)[r.len() as int] == s[k]);
    } else {
        assert(s.drop_last()[k] == s[k]);
        lemma_collapsed_keeps_alnum(s.drop_last(), k);
        let j = choose|j: int| 0 <= j < r.len() && r[j] == s[k];
        assert(collapsed(s)[j] == s[k]);
    }
}

/// Every ASCII letter and digit of the file's stem is kept, as it is and in its order: when the
/// stem is at most 64 characters and has a letter or digit, the derived name with its hyphens
/// left out is exactly the stem's letters, digits, dots and underscores.
pub proof fn lemma_derived_name_keeps_stem_characters(file_name: Seq<char>)
    requires
        stem(base_name(file_name)).len() <= 64,
        exists|i: int|
            0 <= i < stem(base_name(file_name)).len() && (('A' <= #[trigger] stem(base_name(file_name))[i] <= 'Z')
                || ('a' <= stem(base_name(file_name))[i] <= 'z') || ('0' <= stem(base_name(file_name))[i] <= '9')),
    ensures
        spec_derived_name(file_name).filter(not_hyphen()) == stem(base_name(file_name)).filter(name_shape()),
{
    let st = stem(base_name(file_name));
    let c = collapsed(st);
    lemma_collapsed_filter(st);
    lemma_trim_leading_filter(c);
    lemma_trim_trailing_filter(trim_leading(c));
    let l = trim_leading(c);
    let trimmed = trim_trailing(l);
    lemma_collapsed_len(st);
    lemma_trim_leading_suffix(c);
    lemma_trim_trailing_prefix(l);
    let k = choose|i: int|
        0 <= i < st.len() && (('A' <= #[trigger] st[i] <= 'Z') || ('a' <= st[i] <= 'z') || ('0' <= st[i] <= '9'));
    assert(is_ascii_alnum(st[k]));
    lemma_collapsed_keeps_alnum(st, k);
    let j = choose|j: int| 0 <= j < c.len() && c[j] == st[k];
    // The letter at j survives both trims, which only take hyphens.
    lemma_trim_leading_keeps(c, j);
    let jl = j - (c.len() - l.len());
    lemma_trim_trailing_keeps(l, jl);
    assert(trimmed[jl] == st[k]);
    assert(has_alnum(trimmed));
}

proof fn lemma_collapsed_len(s: Seq<char>)
    ensures
        collapsed(s).len() <= s.len(),
    decreases s.len(),
{
    if s.len() > 0 {
        lemma_collapsed_len(s.drop_last());
    }
}

proof fn lemma_trim_leading_keeps(s: Seq<char>, j: int)
    requires
        0 <= j < s.len(),
        s[j] != '-',
    ensures
        trim_leading(s).len() > s.len() - 1 - j,
        trim_leading(s)[j - (s.len() - trim_leading(s).len())] == s[j],
    decreases s.len(),
{
    lemma_trim_leading_suffix(s);
    if s.len() > 0 && s[0] == '-' {
        assert(j > 0);
        assert(s.drop_first()[j - 1] == s[j]);
        lemma_trim_leading_keeps(s.drop_first(), j - 1);
    }
}

proof fn lemma_trim_trailing_keeps(s: Seq<char>, j: int)
    requires
        0 <= j < s.len(),
        s[j] != '-',
    ensures
        j < trim_trailing(s).len(),
        trim_trailing(s)[j] == s[j],
    decreases s.len(),
{
    lemma_trim_trailing_prefix(s);
    if s.len() > 0 && s.last() == '-' {
        assert(j < s.len() - 1);
        assert(s.drop_last()[j] == s[j]);
        lemma_trim_trailing_keeps(s.drop_last(), j);
    }
}

proof fn lemma_collapsed_append_kept(s: Seq<char>, t: Seq<char>)
    requires
        forall|i: int| 0 <= i < t.len() ==> keeps(#[trigger] t[i]),
    ensures
        collapsed(s + t) == collapsed(s) + t,
    decreases t.len(),
{
    if t.len() == 0 {
        assert(s + t =~= s);
        assert(collapsed(s) + t =~= collapsed(s));
    } else {
        assert forall|i: int| 0 <= i < t.drop_last().len() implies keeps(#[trigger] t.drop_last()[i]) by {
            assert(t.drop_last()[i] == t[i]);
        }
        lemma_collapsed_append_kept(s, t.drop_last());
        assert((s + t).drop_last() =~= s + t.drop_last());
        assert((s + t).last() == t.last());
        assert(keeps(t.last()));
        assert((collapsed(s) + t.drop_last()).push(t.last()) =~= collapsed(s) + t);
    }
}

proof fn lemma_collapsed_run(a: Seq<char>, run: Seq<char>)
    requires
        1 <= a.len(),
        forall|i: int| 0 <= i < a.len() ==> keeps(#[trigger] a[i]),
        1 <= run.len(),
        forall|i: int| 0 <= i < run.len() ==> !keeps(#[trigger] run[i]),
    ensures
        collapsed(a + run) == a.push('-'),
    decreases run.len(),
{
    assert((a + run).last() == run.last());
    assert(!keeps(run.last()));
    if run.len() == 1 {
        assert((a + run).drop_last() =~= a);
        lemma_collapsed_kept(a);
        assert(keeps(a.last()));
    } else {
        assert forall|i: int| 0 <= i < run.drop_last().len() implies !keeps(#[trigger] run.drop_last()[i]) by {
            assert(run.drop_last()[i] == run[i]);
        }
        lemma_collapsed_run(a, run.drop_last());
        assert((a + run).drop_last() =~= a + run.drop_last());
        assert(a.push('-').last() == '-');
    }
}

/// A run of characters outside the name shape between two parts of a stem becomes a single
/// hyphen: "Coffee Machine" names the project "Coffee-Machine", and so does
/// "Coffee  --  Machine".
pub proof fn lemma_separator_run_becomes_one_hyphen(a: Seq<char>, run: Seq<char>, b: Seq<char>, ext: Seq<char>)
    requires
        1 <= a.len(),
        1 <= b.len(),
        a.len() + 1 + b.len() <= 64,
        forall|i: int| 0 <= i < a.len() ==> name_shape()(#[trigger] a[i]),
        forall|i: int| 0 <= i < b.len() ==> name_shape()(#[trigger] b[i]),
        exists|i: int| 0 <= i < a.len() && (('A' <= #[trigger] a[i] <= 'Z') || ('a' <= a[i] <= 'z') || ('0' <= a[i] <= '9')),
        1 <= run.len(),
        forall|i: int| 0 <= i < run.len() ==> !name_shape()(#[trigger] run[i]) && run[i] != '/' && run[i] != '\\',
        forall|i: int| 0 <= i < ext.len() ==> #[trigger] ext[i] != '.' && ext[i] != '/' && ext[i] != '\\',
    ensures
        spec_derived_name(a + run + b + seq!['.'] + ext) == a + seq!['-'] + b,
{
    let st = a + run + b;
    let whole = st + seq!['.'] + ext;
    assert forall|i: int| 0 <= i < a.len() implies keeps(#[trigger] a[i]) by {
        assert(name_shape()(a[i]));
    }
    assert forall|i: int| 0 <= i < b.len() implies keeps(#[trigger] b[i]) by {
        assert(name_shape()(b[i]));
    }
    assert forall|i: int| 0 <= i < run.len() implies !keeps(#[trigger] run[i]) by {
        assert(!name_shape()(run[i]));
    }
    assert forall|i: int| 0 <= i < whole.len() implies !is_separator(#[trigger] whole[i]) by {
        if i < a.len() {
            assert(whole[i] == a[i]);
            assert(keeps(a[i]));
        } else if i < a.len() + run.len() {
            assert(whole[i] == run[i - a.len()]);
        } else if i < st.len() {
            assert(whole[i] == b[i - a.len() - run.len()]);
            assert(keeps(b[i - a.len() - run.len()]));
        } else if i > st.len() {
            assert(whole[i] == ext[i - st.len() - 1]);
        }
    }
    lemma_no_separator(whole);
    assert(base_name(whole) == whole);
    assert forall|i: int| 0 <= i < ext.len() implies #[trigger] ext[i] != '.' by {}
    lemma_last_dot(st, ext);
    assert(whole.subrange(0, st.len() as int) =~= st);
    assert(stem(whole) == st);
    lemma_collapsed_run(a, run);
    lemma_collapsed_append_kept(a + run, b);
    let n = a + seq!['-'] + b;
    assert(a.push('-') + b =~= n);
    assert(collapsed(st) == n);
    assert(n[0] == a[0] && keeps(a[0]));
    assert(trim_leading(n) == n);
    assert(n.last() == b.last() && keeps(b.last()));
    assert(trim_trailing(n) == n);
    let k = choose|i: int| 0 <= i < a.len() && (('A' <= #[trigger] a[i] <= 'Z') || ('a' <= a[i] <= 'z') || ('0' <= a[i] <= '9'));
    assert(n[k] == a[k]);
    assert(is_ascii_alnum(n[k]));
    assert(has_alnum(n));
}

} // verus!
