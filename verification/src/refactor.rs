//! Rewriting wikilinks when a note is renamed.
//!
//! A link to a note titled `old` is `[[old]]`, optionally followed, before the
//! closing `]]`, by a suffix that starts with `#` (a section or block anchor)
//! or `|` (an alias) and holds no `]`. Renaming replaces `old` by the new title
//! and keeps the suffix and a leading `!` as they were.
use vstd::prelude::*;
use crate::text::{
    chars_of, contains_sub, find_char, find_char_in, lemma_find_char_is, lemma_find_char_bounds, starts_with, starts_with_at,
    string_from_chars,
};

verus! {

/// `[[` followed by `title`.
pub open spec fn link_open(title: Seq<char>) -> Seq<char> {
    seq!['[', '['] + title
}

/// Where a link to `old` starts `s`: `Some(k)` with `k` the index of the first
/// `]` of the closing `]]`; `None` when `s` does not start with such a link.
pub open spec fn link_to_at(s: Seq<char>, old: Seq<char>) -> Option<int> {
    let j = old.len() as int + 2;
    if !starts_with(s, link_open(old)) {
        None
    } else {
        let k = j + find_char(s.skip(j), ']');
        if k + 1 < s.len() && s[k + 1] == ']' && (k == j || s[j] == '#' || s[j] == '|') {
            Some(k)
        } else {
            None
        }
    }
}

pub proof fn lemma_link_to_at_bounds(s: Seq<char>, old: Seq<char>)
    ensures
        link_to_at(s, old) matches Some(k) ==> {
            &&& old.len() as int + 2 <= k
            &&& k + 1 < s.len()
            &&& s[k] == ']'
            &&& s[k + 1] == ']'
            &&& forall|m: int| old.len() as int + 2 <= m < k ==> s[m] != ']'
        },
{
    if starts_with(s, link_open(old)) {
        let j = old.len() as int + 2;
        lemma_find_char_bounds(s.skip(j), ']');
        let k = j + find_char(s.skip(j), ']');
        if link_to_at(s, old) is Some {
            assert(s[k] == s.skip(j)[k - j]);
            assert forall|m: int| old.len() as int + 2 <= m < k implies s[m] != ']' by {
                assert(s[m] == s.skip(j)[m - j]);
            }
        }
    }
}

/// `s` with every link to `old` renamed to `new`, scanning from the left and
/// resuming after each rewritten link.
pub open spec fn rewrite_links(s: Seq<char>, old: Seq<char>, new: Seq<char>) -> Seq<char>
    decreases s.len(),
{
    if s.len() == 0 {
        seq![]
    } else {
        match link_to_at(s, old) {
            Some(k) => {
                proof {
                    lemma_link_to_at_bounds(s, old);
                }
                link_open(new) + s.subrange(old.len() as int + 2, k) + seq![']', ']'] + rewrite_links(
                    s.skip(k + 2),
                    old,
                    new,
                )
            },
            None => seq![s[0]] + rewrite_links(s.drop_first(), old, new),
        }
    }
}

/// Finds a link to `old` at position `i` of `v`; `open` is `[[` followed by `old`.
fn link_at(v: &Vec<char>, i: usize, open: &Vec<char>, old: Ghost<Seq<char>>) -> (r: Option<usize>)
    requires
        i < v.len(),
        open@ == link_open(old@),
    ensures
        match r {
            Some(k) => link_to_at(v@.skip(i as int), old@) == Some(k - i) && i < k && k + 1 < v.len(),
            None => link_to_at(v@.skip(i as int), old@) is None,
        },
{
    let ghost s = v@.skip(i as int);
    if !starts_with_at(v, i, open.as_slice()) {
        return None;
    }
    let j = i + open.len();
    assert(s.skip(old@.len() as int + 2) =~= v@.subrange(j as int, v@.len() as int));
    let k = find_char_in(v, ']', j, v.len());
    if k < v.len() && k + 1 < v.len() && v[k + 1] == ']' && (k == j || v[j] == '#' || v[j] == '|') {
        Some(k)
    } else {
        None
    }
}

/// Renames every wikilink to `old_title` in `content` so that it points to
/// `new_title`, keeping each link's anchor or alias suffix.
pub fn rewrite_wikilinks(content: &str, old_title: &str, new_title: &str) -> (r: String)
    ensures
        r@ == rewrite_links(content@, old_title@, new_title@),
{
    let s = chars_of(content);
    let old = chars_of(old_title);
    let new = chars_of(new_title);
    let mut open: Vec<char> = Vec::new();
    open.push('[');
    open.push('[');
    let mut m: usize = 0;
    while m < old.len()
        invariant
            m <= old.len(),
            open@ == seq!['[', '['] + old@.take(m as int),
        decreases old.len() - m,
    {
        open.push(old[m]);
        assert(old@.take(m + 1) =~= old@.take(m as int).push(old@[m as int]));
        m = m + 1;
    }
    assert(old@.take(old@.len() as int) =~= old@);
    let mut out: Vec<char> = Vec::new();
    let mut i: usize = 0;
    assert(s@.skip(0) =~= s@);
    while i < s.len()
        invariant
            i <= s.len(),
            open@ == link_open(old@),
            out@ + rewrite_links(s@.skip(i as int), old@, new@) == rewrite_links(
                s@,
                old@,
                new@,
            ),
        decreases s.len() - i,
    {
        let ghost rest = s@.skip(i as int);
        match link_at(&s, i, &open, Ghost(old@)) {
            Some(k) => {
                proof {
                    lemma_link_to_at_bounds(rest, old@);
                }
                let ghost before = out@;
                out.push('[');
                out.push('[');
                let mut t: usize = 0;
                while t < new.len()
                    invariant
                        t <= new.len(),
                        out@ == before + seq!['[', '['] + new@.take(t as int),
                    decreases new.len() - t,
                {
                    out.push(new[t]);
                    assert(new@.take(t + 1) =~= new@.take(t as int).push(new@[t as int]));
                    t = t + 1;
                }
                assert(new@.take(new@.len() as int) =~= new@);
                let j = i + open.len();
                let mut p = j;
                while p < k
                    invariant
                        j <= p <= k,
                        k < s.len(),
                        out@ == before + link_open(new@) + s@.subrange(j as int, p as int),
                    decreases k - p,
                {
                    out.push(s[p]);
                    assert(s@.subrange(j as int, p + 1) =~= s@.subrange(j as int, p as int).push(
                        s@[p as int],
                    ));
                    p = p + 1;
                }
                out.push(']');
                out.push(']');
                proof {
                    assert(rest.subrange(old@.len() as int + 2, k - i) =~= s@.subrange(j as int, k as int));
                    assert(rest.skip(k - i + 2) =~= s@.skip(k + 2));
                    assert(out@ =~= before + (link_open(new@) + rest.subrange(old@.len() as int + 2, k - i)
                        + seq![']', ']']));
                }
                i = k + 2;
            },
            None => {
                let ghost before = out@;
                out.push(s[i]);
                assert(rest.drop_first() =~= s@.skip(i + 1));
                assert(out@ =~= before + seq![rest[0]]);
                i = i + 1;
            },
        }
    }
    string_from_chars(out.as_slice())
}

} // verus!

verus! {

/// The new text of a note after the rename of `old_title` to `new_title`, or
/// `None` when the rename leaves the text as it was (the note is then not
/// written back).
pub fn refactor_note(content: &str, old_title: &str, new_title: &str) -> (r: Option<String>)
    ensures
        match r {
            Some(t) => t@ == rewrite_links(content@, old_title@, new_title@) && t@ != content@,
            None => rewrite_links(content@, old_title@, new_title@) == content@,
        },
{
    let t = rewrite_wikilinks(content, old_title, new_title);
    let c = content.to_owned();
    if t == c {
        None
    } else {
        Some(t)
    }
}

/// Renaming a note to the title it already has changes no text.
pub proof fn lemma_rename_to_same_title_is_identity(s: Seq<char>, t: Seq<char>)
    ensures
        rewrite_links(s, t, t) == s,
    decreases s.len(),
{
    if s.len() > 0 {
        match link_to_at(s, t) {
            Some(k) => {
                lemma_link_to_at_bounds(s, t);
                lemma_rename_to_same_title_is_identity(s.skip(k + 2), t);
                assert(s.take(t.len() as int + 2) == link_open(t));
                assert(link_open(t) + s.subrange(t.len() as int + 2, k) + seq![']', ']'] =~= s.take(
                    k + 2,
                ));
                assert(s.take(k + 2) + s.skip(k + 2) =~= s);
            },
            None => {
                lemma_rename_to_same_title_is_identity(s.drop_first(), t);
                assert(seq![s[0]] + s.drop_first() =~= s);
            },
        }
    }
}

/// A text in which `[[old` never occurs is left unchanged by a rename of `old`.
pub proof fn lemma_text_without_links_unchanged(s: Seq<char>, old: Seq<char>, new: Seq<char>)
    requires
        !contains_sub(s, link_open(old)),
    ensures
        rewrite_links(s, old, new) == s,
    decreases s.len(),
{
    if s.len() > 0 {
        assert(link_to_at(s, old) is None);
        lemma_text_without_links_unchanged(s.drop_first(), old, new);
        assert(seq![s[0]] + s.drop_first() =~= s);
    }
}

} // verus!

verus! {

/// Text before the first `[` is never touched by a rename, whatever follows
/// it (across line breaks too): `rewrite(a + b) == a + rewrite(b)` when `a`
/// holds no `[`.
pub proof fn lemma_rename_passes_bracket_free_prefix(
    a: Seq<char>,
    b: Seq<char>,
    old: Seq<char>,
    new: Seq<char>,
)
    requires
        forall|i: int| 0 <= i < a.len() ==> a[i] != '[',
    ensures
        rewrite_links(a + b, old, new) == a + rewrite_links(b, old, new),
    decreases a.len(),
{
    if a.len() > 0 {
        let s = a + b;
        assert(s[0] == a[0]);
        assert(!starts_with(s, link_open(old))) by {
            if starts_with(s, link_open(old)) {
                assert(s.take(link_open(old).len() as int)[0] == link_open(old)[0]);
            }
        }
        assert(s.drop_first() =~= a.drop_first() + b);
        lemma_rename_passes_bracket_free_prefix(a.drop_first(), b, old, new);
        assert(a =~= seq![a[0]] + a.drop_first());
    } else {
        assert(a + b =~= b);
    }
}

/// A link to `old` (`[[old`, an anchor or alias suffix without `]`, `]]`)
/// becomes the same link to `new`, and the rest of the text is renamed on.
pub proof fn lemma_rename_rewrites_link(
    suffix: Seq<char>,
    rest: Seq<char>,
    old: Seq<char>,
    new: Seq<char>,
)
    requires
        forall|i: int| 0 <= i < suffix.len() ==> suffix[i] != ']',
        suffix.len() == 0 || suffix[0] == '#' || suffix[0] == '|',
    ensures
        rewrite_links(link_open(old) + suffix + seq![']', ']'] + rest, old, new) == link_open(new)
            + suffix + seq![']', ']'] + rewrite_links(rest, old, new),
{
    let s = link_open(old) + suffix + seq![']', ']'] + rest;
    let j: int = old.len() as int + 2;
    assert(s.take(link_open(old).len() as int) =~= link_open(old));
    let t = s.skip(j);
    assert forall|m: int| 0 <= m < suffix.len() implies t[m] != ']' by {
        assert(t[m] == suffix[m]);
    }
    assert(t[suffix.len() as int] == ']');
    lemma_find_char_is(t, ']', suffix.len() as int);
    let k: int = j + suffix.len();
    assert(s[k + 1] == ']');
    if suffix.len() > 0 {
        assert(s[j] == suffix[0]);
    }
    assert(link_to_at(s, old) == Some(k));
    assert(s.subrange(j, k) =~= suffix);
    assert(s.skip(k + 2) =~= rest);
}

/// Links are renamed on every line: a link that follows any bracket-free
/// text, line breaks included, is renamed.
pub proof fn lemma_rename_reaches_every_line(
    before: Seq<char>,
    suffix: Seq<char>,
    rest: Seq<char>,
    old: Seq<char>,
    new: Seq<char>,
)
    requires
        forall|i: int| 0 <= i < before.len() ==> before[i] != '[',
        forall|i: int| 0 <= i < suffix.len() ==> suffix[i] != ']',
        suffix.len() == 0 || suffix[0] == '#' || suffix[0] == '|',
    ensures
        rewrite_links(before + link_open(old) + suffix + seq![']', ']'] + rest, old, new) == before
            + link_open(new) + suffix + seq![']', ']'] + rewrite_links(rest, old, new),
{
    let l = link_open(old) + suffix + seq![']', ']'] + rest;
    assert(before + link_open(old) + suffix + seq![']', ']'] + rest =~= before + l);
    lemma_rename_passes_bracket_free_prefix(before, l, old, new);
    lemma_rename_rewrites_link(suffix, rest, old, new);
    assert(before + (link_open(new) + suffix + seq![']', ']'] + rewrite_links(rest, old, new))
        =~= before + link_open(new) + suffix + seq![']', ']'] + rewrite_links(rest, old, new));
}

} // verus!
