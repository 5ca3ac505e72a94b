//! Extraction of wikilinks from note content.
//!
//! A wikilink is `[[inner]]` on one line, where `inner` holds no `[` or `]`.
//! `inner` is `target`, optionally followed by `#section` or `#^block`, then
//! optionally by `|alias`; every part is trimmed, and an empty alias, section
//! or block counts as absent. Links with an empty target are skipped, and so
//! are links on lines inside a fenced code block (between lines that start
//! with three backticks). A `!` just before `[[` marks a transclusion.
use vstd::prelude::*;
use crate::text::{
    lemma_trim_idempotent,
    chars_of, find_char, find_char_in, lines, next_line, starts_with,
    string_from_chars, sub_chars, trim, trim_bounds, trim_start, trim_start_index,
};

verus! {

/// One wikilink found in a note.
pub struct WikilinkMatch {
    pub target: String,
    pub alias: Option<String>,
    pub section_anchor: Option<String>,
    pub block_id: Option<String>,
    pub is_transclusion: bool,
    /// 1-based number of the line that holds the link.
    pub line_number: usize,
}

/// The mathematical content of a `WikilinkMatch`.
pub struct LinkSpec {
    pub target: Seq<char>,
    pub alias: Option<Seq<char>>,
    pub section_anchor: Option<Seq<char>>,
    pub block_id: Option<Seq<char>>,
    pub is_transclusion: bool,
    pub line_number: nat,
}

pub open spec fn opt_view(o: Option<String>) -> Option<Seq<char>> {
    match o {
        Some(s) => Some(s@),
        None => None,
    }
}

impl View for WikilinkMatch {
    type V = LinkSpec;

    open spec fn view(&self) -> LinkSpec {
        LinkSpec {
            target: self.target@,
            alias: opt_view(self.alias),
            section_anchor: opt_view(self.section_anchor),
            block_id: opt_view(self.block_id),
            is_transclusion: self.is_transclusion,
            line_number: self.line_number as nat,
        }
    }
}

pub open spec fn link_views(v: Seq<WikilinkMatch>) -> Seq<LinkSpec> {
    v.map_values(|m: WikilinkMatch| m@)
}

/// `trim(s)`, or `None` when that is empty.
pub open spec fn opt_nonempty(s: Seq<char>) -> Option<Seq<char>> {
    if trim(s).len() == 0 {
        None
    } else {
        Some(trim(s))
    }
}

/// The anchor part (after `#`) split into `(section, block)`.
pub open spec fn split_anchor(a: Seq<char>) -> (Option<Seq<char>>, Option<Seq<char>>) {
    let t = trim(a);
    if t.len() > 0 && t[0] == '^' {
        (None, opt_nonempty(t.drop_first()))
    } else {
        (opt_nonempty(t), None)
    }
}

/// The link whose text between `[[` and `]]` is `inner`, or `None` when its
/// target is empty.
pub open spec fn parse_link(inner: Seq<char>, transclusion: bool, line_no: nat) -> Option<LinkSpec> {
    let p = find_char(inner, '|');
    let head = inner.take(p);
    let alias = if p < inner.len() {
        opt_nonempty(inner.skip(p + 1))
    } else {
        None
    };
    let h = find_char(head, '#');
    let target = trim(head.take(h));
    let anchors = if h < head.len() {
        split_anchor(head.skip(h + 1))
    } else {
        (None, None)
    };
    if target.len() == 0 {
        None
    } else {
        Some(
            LinkSpec {
                target,
                alias,
                section_anchor: anchors.0,
                block_id: anchors.1,
                is_transclusion: transclusion,
                line_number: line_no,
            },
        )
    }
}

/// Index of the first `[` or `]` in `line` at or after `from`, or `line.len()`.
pub open spec fn find_bracket(line: Seq<char>, from: int) -> int
    decreases line.len() - from,
{
    if from < 0 || from >= line.len() {
        line.len() as int
    } else if line[from] == '[' || line[from] == ']' {
        from
    } else {
        find_bracket(line, from + 1)
    }
}

pub proof fn lemma_find_bracket(line: Seq<char>, from: int)
    requires
        0 <= from <= line.len(),
    ensures
        from <= find_bracket(line, from) <= line.len(),
        forall|m: int| from <= m < find_bracket(line, from) ==> line[m] != '[' && line[m] != ']',
        find_bracket(line, from) < line.len() ==> (line[find_bracket(line, from)] == '['
            || line[find_bracket(line, from)] == ']'),
    decreases line.len() - from,
{
    if from < line.len() && line[from] != '[' && line[from] != ']' {
        lemma_find_bracket(line, from + 1);
    }
}

/// The links of one line, scanning from position `i`.
pub open spec fn links_from(line: Seq<char>, i: int, line_no: nat) -> Seq<LinkSpec>
    decreases line.len() - i,
{
    if i < 0 || i + 1 >= line.len() {
        seq![]
    } else if line[i] == '[' && line[i + 1] == '[' {
        let k = find_bracket(line, i + 2);
        proof {
            lemma_find_bracket(line, i + 2);
        }
        if k + 1 < line.len() && line[k] == ']' && line[k + 1] == ']' {
            let rest = links_from(line, k + 2, line_no);
            match parse_link(line.subrange(i + 2, k), i > 0 && line[i - 1] == '!', line_no) {
                Some(l) => seq![l] + rest,
                None => rest,
            }
        } else {
            links_from(line, i + 1, line_no)
        }
    } else {
        links_from(line, i + 1, line_no)
    }
}

/// A line that opens or closes a fenced code block.
pub open spec fn is_fence(line: Seq<char>) -> bool {
    starts_with(trim_start(line), seq!['`', '`', '`'])
}

/// The links of the lines `ls`, the first of which has number `first_no`;
/// `in_fence` tells whether the first line lies inside a fenced block.
pub open spec fn links_in_lines(ls: Seq<Seq<char>>, first_no: nat, in_fence: bool) -> Seq<LinkSpec>
    decreases ls.len(),
{
    if ls.len() == 0 {
        seq![]
    } else if is_fence(ls[0]) {
        links_in_lines(ls.drop_first(), first_no + 1, !in_fence)
    } else if in_fence {
        links_in_lines(ls.drop_first(), first_no + 1, in_fence)
    } else {
        links_from(ls[0], 0, first_no) + links_in_lines(ls.drop_first(), first_no + 1, in_fence)
    }
}

/// All wikilinks of `content`, in order of appearance.
pub open spec fn wikilinks(content: Seq<char>) -> Seq<LinkSpec> {
    links_in_lines(lines(content), 1, false)
}

} // verus!

verus! {

/// The trimmed text of `v[lo..hi]`, or `None` when it is empty.
fn opt_part(v: &Vec<char>, lo: usize, hi: usize) -> (r: Option<String>)
    requires
        lo <= hi <= v.len(),
    ensures
        opt_view(r) == opt_nonempty(v@.subrange(lo as int, hi as int)),
{
    let (a, b) = trim_bounds(v, lo, hi);
    if a == b {
        None
    } else {
        let t = sub_chars(v, a, b);
        Some(string_from_chars(t.as_slice()))
    }
}

/// The link whose inner text is `v[a..b]`.
fn make_link(v: &Vec<char>, a: usize, b: usize, transclusion: bool, line_no: usize) -> (r: Option<
    WikilinkMatch,
>)
    requires
        a <= b <= v.len(),
    ensures
        match r {
            Some(m) => parse_link(v@.subrange(a as int, b as int), transclusion, line_no as nat)
                == Some(m@),
            None => parse_link(v@.subrange(a as int, b as int), transclusion, line_no as nat) is None,
        },
{
    let ghost inner = v@.subrange(a as int, b as int);
    let p = find_char_in(v, '|', a, b);
    let ghost head = inner.take(p - a);
    assert(head =~= v@.subrange(a as int, p as int));
    let alias = if p < b {
        assert(inner.skip(p - a + 1) =~= v@.subrange(p + 1, b as int));
        opt_part(v, p + 1, b)
    } else {
        None
    };
    let h = find_char_in(v, '#', a, p);
    assert(head.take(h - a) =~= v@.subrange(a as int, h as int));
    let (ta, tb) = trim_bounds(v, a, h);
    if ta == tb {
        return None;
    }
    let (section, block) = if h < p {
        assert(head.skip(h - a + 1) =~= v@.subrange(h + 1, p as int));
        let (xa, xb) = trim_bounds(v, h + 1, p);
        if xa < xb && v[xa] == '^' {
            assert(v@.subrange(xa as int, xb as int).drop_first() =~= v@.subrange(
                xa + 1,
                xb as int,
            ));
            (None, opt_part(v, xa + 1, xb))
        } else {
            (opt_part(v, xa, xb), None)
        }
    } else {
        (None, None)
    };
    let t = sub_chars(v, ta, tb);
    Some(
        WikilinkMatch {
            target: string_from_chars(t.as_slice()),
            alias,
            section_anchor: section,
            block_id: block,
            is_transclusion: transclusion,
            line_number: line_no,
        },
    )
}

/// Index of the first `[` or `]` in `v[from..hi]`, or `hi`.
fn find_bracket_in(v: &Vec<char>, from: usize, hi: usize, lo: Ghost<int>) -> (k: usize)
    requires
        lo@ <= from <= hi <= v.len(),
        0 <= lo@,
    ensures
        k as int - lo@ == find_bracket(v@.subrange(lo@, hi as int), from - lo@),
        from <= k <= hi,
{
    let ghost line = v@.subrange(lo@, hi as int);
    let mut k = from;
    while k < hi && v[k] != '[' && v[k] != ']'
        invariant
            from <= k <= hi <= v.len(),
            0 <= lo@ <= from,
            line == v@.subrange(lo@, hi as int),
            find_bracket(line, from - lo@) == find_bracket(line, k - lo@),
        decreases hi - k,
    {
        assert(line[k - lo@] == v@[k as int]);
        k = k + 1;
    }
    proof {
        if k < hi {
            assert(line[k - lo@] == v@[k as int]);
        }
    }
    k
}

} // verus!

verus! {

/// Whether `v[lo..hi]` is a fence line.
fn is_fence_line(v: &Vec<char>, lo: usize, hi: usize) -> (b: bool)
    requires
        lo <= hi <= v.len(),
    ensures
        b == is_fence(v@.subrange(lo as int, hi as int)),
{
    let a = trim_start_index(v, lo, hi);
    let ghost t = v@.subrange(a as int, hi as int);
    if hi - a >= 3 && v[a] == '`' && v[a + 1] == '`' && v[a + 2] == '`' {
        assert(t.take(3) =~= seq!['`', '`', '`']);
        true
    } else {
        proof {
            if t.len() >= 3 {
                assert(t.take(3)[0] == t[0]);
                assert(t.take(3)[1] == t[1]);
                assert(t.take(3)[2] == t[2]);
            }
        }
        false
    }
}

/// Appends the links of the line `v[ls..le]` to `out`.
fn line_links(v: &Vec<char>, ls: usize, le: usize, line_no: usize, out: &mut Vec<WikilinkMatch>)
    requires
        ls <= le <= v.len(),
    ensures
        link_views(final(out)@) == link_views(old(out)@) + links_from(
            v@.subrange(ls as int, le as int),
            0,
            line_no as nat,
        ),
{
    let ghost line = v@.subrange(ls as int, le as int);
    let ghost init = link_views(out@);
    let mut i = ls;
    assert(link_views(out@) + links_from(line, 0, line_no as nat) =~= init + links_from(
        line,
        0,
        line_no as nat,
    ));
    while i < le && i + 1 < le
        invariant
            ls <= i <= le <= v.len(),
            line == v@.subrange(ls as int, le as int),
            link_views(out@) + links_from(line, i - ls, line_no as nat) == init + links_from(
                line,
                0,
                line_no as nat,
            ),
        decreases le - i,
    {
        let ghost j = i - ls;
        if v[i] == '[' && v[i + 1] == '[' {
            assert(line[j] == v@[i as int] && line[j + 1] == v@[i + 1]);
            let k = find_bracket_in(v, i + 2, le, Ghost(ls as int));
            if k < le && k + 1 < le && v[k] == ']' && v[k + 1] == ']' {
                assert(line[k - ls] == v@[k as int] && line[k - ls + 1] == v@[k + 1]);
                let tr = i > ls && v[i - 1] == '!';
                proof {
                    if i > ls {
                        assert(line[j - 1] == v@[i - 1]);
                    }
                    assert(line.subrange(j + 2, k - ls) =~= v@.subrange(i + 2, k as int));
                }
                let ghost before = out@;
                match make_link(v, i + 2, k, tr, line_no) {
                    Some(m) => {
                        out.push(m);
                        assert(link_views(out@) =~= link_views(before).push(m@));
                        assert(link_views(out@) =~= link_views(before) + seq![m@]);
                    },
                    None => {},
                }
                i = k + 2;
            } else {
                proof {
                    if k < le {
                        assert(line[k - ls] == v@[k as int]);
                    }
                    if k + 1 < le {
                        assert(line[k - ls + 1] == v@[k + 1]);
                    }
                }
                i = i + 1;
            }
        } else {
            assert(line[j] == v@[i as int] && line[j + 1] == v@[i + 1]);
            i = i + 1;
        }
    }
    assert(links_from(line, i - ls, line_no as nat) =~= Seq::<LinkSpec>::empty());
}

/// All wikilinks of `content` in order, with the rules of this module.
pub fn extract_wikilinks(content: &str) -> (r: Vec<WikilinkMatch>)
    ensures
        link_views(r@) == wikilinks(content@),
{
    let v = chars_of(content);
    let mut out: Vec<WikilinkMatch> = Vec::new();
    let mut pos: usize = 0;
    let mut done: usize = 0;
    let mut in_fence = false;
    assert(v@.skip(0) =~= v@);
    assert(link_views(out@) =~= Seq::<LinkSpec>::empty());
    while pos < v.len()
        invariant
            pos <= v.len(),
            done <= pos,
            link_views(out@) + links_in_lines(lines(v@.skip(pos as int)), done as nat + 1, in_fence)
                == wikilinks(v@),
        decreases v.len() - pos,
    {
        let (end, next) = next_line(&v, pos);
        let ghost ls = lines(v@.skip(pos as int));
        let ghost line = v@.subrange(pos as int, end as int);
        assert(ls[0] == line);
        assert(ls.drop_first() =~= lines(v@.skip(next as int)));
        let fence = is_fence_line(&v, pos, end);
        if fence {
            in_fence = !in_fence;
        } else if !in_fence {
            let ghost before = link_views(out@);
            line_links(&v, pos, end, done + 1, &mut out);
            assert(link_views(out@) + links_in_lines(lines(v@.skip(next as int)), done as nat + 2, in_fence)
                =~= before + (links_from(line, 0, done as nat + 1) + links_in_lines(lines(v@.skip(next as int)), done as nat + 2, in_fence)));
        }
        pos = next;
        done = done + 1;
    }
    assert(v@.skip(pos as int) =~= Seq::<char>::empty());
    out
}

} // verus!

verus! {

/// A text that is present only when non-empty and trimmed.
pub open spec fn clean_part(o: Option<Seq<char>>) -> bool {
    o matches Some(x) ==> x.len() > 0 && trim(x) == x
}

/// A link whose target is non-empty and trimmed, and whose alias, section and
/// block, where present, are non-empty and trimmed.
pub open spec fn well_formed_link(l: LinkSpec) -> bool {
    &&& l.target.len() > 0
    &&& trim(l.target) == l.target
    &&& clean_part(l.alias)
    &&& clean_part(l.section_anchor)
    &&& clean_part(l.block_id)
}

proof fn lemma_opt_nonempty_clean(s: Seq<char>)
    ensures
        clean_part(opt_nonempty(s)),
{
    lemma_trim_idempotent(s);
}

proof fn lemma_parse_link_well_formed(inner: Seq<char>, tr: bool, n: nat)
    ensures
        parse_link(inner, tr, n) matches Some(l) ==> well_formed_link(l) && l.line_number == n,
{
    let p = find_char(inner, '|');
    let head = inner.take(p);
    let h = find_char(head, '#');
    lemma_trim_idempotent(head.take(h));
    lemma_opt_nonempty_clean(inner.skip(p + 1));
    let t = trim(head.skip(h + 1));
    lemma_opt_nonempty_clean(t);
    lemma_opt_nonempty_clean(t.drop_first());
}

proof fn lemma_links_from_props(line: Seq<char>, i: int, n: nat)
    ensures
        forall|m: int|
            0 <= m < links_from(line, i, n).len() ==> {
                &&& (#[trigger] links_from(line, i, n)[m]).line_number == n
                &&& well_formed_link(links_from(line, i, n)[m])
            },
    decreases line.len() - i,
{
    if i < 0 || i + 1 >= line.len() {
    } else if line[i] == '[' && line[i + 1] == '[' {
        let k = find_bracket(line, i + 2);
        lemma_find_bracket(line, i + 2);
        if k + 1 < line.len() && line[k] == ']' && line[k + 1] == ']' {
            lemma_links_from_props(line, k + 2, n);
            lemma_parse_link_well_formed(line.subrange(i + 2, k), i > 0 && line[i - 1] == '!', n);
        } else {
            lemma_links_from_props(line, i + 1, n);
        }
    } else {
        lemma_links_from_props(line, i + 1, n);
    }
}

proof fn lemma_links_in_lines_props(ls: Seq<Seq<char>>, first: nat, f: bool)
    ensures
        forall|m: int|
            0 <= m < links_in_lines(ls, first, f).len() ==> {
                &&& first <= (#[trigger] links_in_lines(ls, first, f)[m]).line_number < first
                    + ls.len()
                &&& well_formed_link(links_in_lines(ls, first, f)[m])
            },
        forall|a: int, b: int|
            0 <= a < b < links_in_lines(ls, first, f).len() ==> (#[trigger] links_in_lines(
                ls,
                first,
                f,
            )[a]).line_number <= (#[trigger] links_in_lines(ls, first, f)[b]).line_number,
    decreases ls.len(),
{
    if ls.len() > 0 {
        let rest = ls.drop_first();
        if is_fence(ls[0]) {
            lemma_links_in_lines_props(rest, first + 1, !f);
        } else if f {
            lemma_links_in_lines_props(rest, first + 1, f);
        } else {
            lemma_links_in_lines_props(rest, first + 1, f);
            lemma_links_from_props(ls[0], 0, first);
            let here = links_from(ls[0], 0, first);
            let tail = links_in_lines(rest, first + 1, f);
            assert(links_in_lines(ls, first, f) == here + tail);
            assert forall|m: int| 0 <= m < links_in_lines(ls, first, f).len() implies {
                &&& first <= (#[trigger] links_in_lines(ls, first, f)[m]).line_number < first
                    + ls.len()
                &&& well_formed_link(links_in_lines(ls, first, f)[m])
            } by {
                if m < here.len() {
                    assert(links_in_lines(ls, first, f)[m] == here[m]);
                } else {
                    assert(links_in_lines(ls, first, f)[m] == tail[m - here.len()]);
                }
            }
            assert forall|a: int, b: int|
                0 <= a < b < links_in_lines(ls, first, f).len() implies (#[trigger] links_in_lines(
                ls,
                first,
                f,
            )[a]).line_number <= (#[trigger] links_in_lines(ls, first, f)[b]).line_number by {
                if b < here.len() {
                    assert(links_in_lines(ls, first, f)[a] == here[a]);
                    assert(links_in_lines(ls, first, f)[b] == here[b]);
                } else if a < here.len() {
                    assert(links_in_lines(ls, first, f)[a] == here[a]);
                    assert(links_in_lines(ls, first, f)[b] == tail[b - here.len()]);
                } else {
                    assert(links_in_lines(ls, first, f)[a] == tail[a - here.len()]);
                    assert(links_in_lines(ls, first, f)[b] == tail[b - here.len()]);
                }
            }
        }
    }
}

/// Every wikilink found in a note has a non-empty, trimmed target; its alias,
/// section and block are absent or non-empty and trimmed; it carries the
/// number of a line of the note (counted from 1), and the links come in the
/// order of their lines.
pub proof fn lemma_wikilinks_well_formed(content: Seq<char>)
    ensures
        forall|m: int|
            0 <= m < wikilinks(content).len() ==> {
                &&& 1 <= (#[trigger] wikilinks(content)[m]).line_number <= lines(content).len()
                &&& well_formed_link(wikilinks(content)[m])
            },
        forall|a: int, b: int|
            0 <= a < b < wikilinks(content).len() ==> (#[trigger] wikilinks(content)[a]).line_number
                <= (#[trigger] wikilinks(content)[b]).line_number,
{
    lemma_links_in_lines_props(lines(content), 1, false);
}

} // verus!

verus! {

proof fn lemma_links_from_skip(line: Seq<char>, i: int, j: int, n: nat)
    requires
        0 <= i <= j,
        forall|m: int| i <= m < j && m < line.len() ==> line[m] != '[',
    ensures
        links_from(line, i, n) == links_from(line, j, n),
    decreases j - i,
{
    if i < j && i + 1 < line.len() {
        assert(line[i] != '[');
        lemma_links_from_skip(line, i + 1, j, n);
    }
}

/// The first link of a line `p + "[[" + x + "]]" + q`, where `p` holds no `[`
/// and `x` no bracket, is the link read from `x`, and it is a transclusion
/// exactly when the last character of `p` is `!`, wherever on the line the
/// link stands; the remaining links are those after its closing `]]`.
pub proof fn lemma_first_link_of_line(p: Seq<char>, x: Seq<char>, q: Seq<char>, n: nat)
    requires
        forall|m: int| 0 <= m < p.len() ==> p[m] != '[',
        forall|m: int| 0 <= m < x.len() ==> x[m] != '[' && x[m] != ']',
        parse_link(x, false, n) is Some,
    ensures
        ({
            let line = p + seq!['[', '['] + x + seq![']', ']'] + q;
            let tr = p.len() > 0 && p.last() == '!';
            &&& links_from(line, 0, n).len() >= 1
            &&& links_from(line, 0, n)[0].is_transclusion == tr
            &&& parse_link(x, tr, n) == Some(links_from(line, 0, n)[0])
            &&& links_from(line, 0, n).drop_first() == links_from(line, (p.len() + x.len() + 4) as int, n)
        }),
{
    let line = p + seq!['[', '['] + x + seq![']', ']'] + q;
    let tr = p.len() > 0 && p.last() == '!';
    let i0 = p.len() as int;
    let k = i0 + 2 + x.len();
    assert forall|m: int| 0 <= m < i0 && m < line.len() implies line[m] != '[' by {
        assert(line[m] == p[m]);
    }
    lemma_links_from_skip(line, 0, i0, n);
    assert(line[i0] == '[' && line[i0 + 1] == '[');
    assert(line[k] == ']' && line[k + 1] == ']');
    lemma_find_bracket(line, i0 + 2);
    let f = find_bracket(line, i0 + 2);
    if f < k {
        assert(line[f] == x[f - i0 - 2]);
    }
    assert(f == k);
    assert(line.subrange(i0 + 2, k) =~= x);
    if i0 > 0 {
        assert(line[i0 - 1] == p.last());
    }
    assert(parse_link(x, tr, n) is Some);
    let l = parse_link(x, tr, n)->0;
    assert(links_from(line, i0, n) == seq![l] + links_from(line, k + 2, n));
    assert((seq![l] + links_from(line, k + 2, n)).drop_first() =~= links_from(line, k + 2, n));
}

} // verus!
