//! Context snippets for backlinks and unlinked mentions.
use vstd::prelude::*;
use crate::notes::push_chars;
use crate::text::{
    chars_of, contains_chars, contains_sub, line_ranges, lines, lowercase, range_texts,
    string_from_chars, sub_chars, to_lowercase,
};

verus! {

/// Index of the first of `ls` whose lower-case form contains `t`, or `ls.len()`.
pub open spec fn first_mention(ls: Seq<Seq<char>>, t: Seq<char>) -> int
    decreases ls.len(),
{
    if ls.len() == 0 {
        0
    } else if contains_sub(lowercase(ls[0]), t) {
        0
    } else {
        1 + first_mention(ls.drop_first(), t)
    }
}

proof fn lemma_first_mention_is(ls: Seq<Seq<char>>, t: Seq<char>, i: int)
    requires
        0 <= i <= ls.len(),
        forall|k: int| 0 <= k < i ==> !contains_sub(lowercase(#[trigger] ls[k]), t),
        i == ls.len() || contains_sub(lowercase(ls[i]), t),
    ensures
        first_mention(ls, t) == i,
    decreases i,
{
    if i > 0 {
        assert(!contains_sub(lowercase(ls[0]), t));
        assert forall|k: int| 0 <= k < i - 1 implies !contains_sub(
            lowercase(#[trigger] ls.drop_first()[k]),
            t,
        ) by {
            assert(ls.drop_first()[k] == ls[k + 1]);
        }
        lemma_first_mention_is(ls.drop_first(), t, i - 1);
    }
}

/// `ls` joined with single spaces (as `[&str]::join(" ")`).
pub open spec fn join_with_space(ls: Seq<Seq<char>>) -> Seq<char>
    decreases ls.len(),
{
    if ls.len() == 0 {
        seq![]
    } else if ls.len() == 1 {
        ls[0]
    } else {
        ls[0] + seq![' '] + join_with_space(ls.drop_first())
    }
}

proof fn lemma_join_push(ls: Seq<Seq<char>>, x: Seq<char>)
    requires
        ls.len() >= 1,
    ensures
        join_with_space(ls.push(x)) == join_with_space(ls) + seq![' '] + x,
    decreases ls.len(),
{
    assert(ls.push(x)[0] == ls[0]);
    if ls.len() == 1 {
        assert(ls.push(x).drop_first() =~= seq![x]);
        assert(join_with_space(seq![x]) == x);
    } else {
        lemma_join_push(ls.drop_first(), x);
        assert(ls.push(x).drop_first() =~= ls.drop_first().push(x));
    }
}

/// The context of the first mention of `target` in `content`: the first line
/// whose lower-case form contains the lower-case `target`, with the line
/// before and the line after it where they exist, joined by spaces; empty
/// when no line mentions `target`.
pub open spec fn snippet_of(content: Seq<char>, target: Seq<char>) -> Seq<char> {
    let ls = lines(content);
    let i = first_mention(ls, lowercase(target));
    if i < ls.len() {
        let start = if i > 0 {
            i - 1
        } else {
            0
        };
        let end = if i + 2 < ls.len() {
            i + 2
        } else {
            ls.len() as int
        };
        join_with_space(ls.subrange(start, end))
    } else {
        seq![]
    }
}

/// The text of line `k` of `v` in lower case.
fn lower_line(v: &Vec<char>, rs: &Vec<(usize, usize)>, k: usize) -> (r: Vec<char>)
    requires
        k < rs@.len(),
        rs@[k as int].0 <= rs@[k as int].1 <= v@.len(),
    ensures
        r@ == lowercase(range_texts(v@, rs@)[k as int]),
{
    let line = sub_chars(v, rs[k].0, rs[k].1);
    let s = string_from_chars(line.as_slice());
    let low = to_lowercase(s.as_str());
    chars_of(low.as_str())
}

/// A one-to-three-line excerpt around the first mention of `target_title` in
/// `content`, compared without regard to case.
pub fn extract_snippet(content: &str, target_title: &str) -> (r: String)
    ensures
        r@ == snippet_of(content@, target_title@),
{
    let low_target = to_lowercase(target_title);
    let t = chars_of(low_target.as_str());
    let v = chars_of(content);
    let rs = line_ranges(&v);
    let ghost ls = lines(v@);
    let mut i: usize = 0;
    while i < rs.len()
        invariant
            i <= rs@.len(),
            v@ == content@,
            t@ == lowercase(target_title@),
            ls == lines(v@),
            range_texts(v@, rs@) == ls,
            forall|k: int| 0 <= k < rs@.len() ==> #[trigger] rs@[k].0 <= rs@[k].1 <= v@.len(),
            forall|k: int| 0 <= k < i ==> !contains_sub(lowercase(#[trigger] ls[k]), t@),
        decreases rs.len() - i,
    {
        let low = lower_line(&v, &rs, i);
        if contains_chars(&low, t.as_slice()) {
            proof {
                lemma_first_mention_is(ls, t@, i as int);
            }
            let start = if i > 0 {
                i - 1
            } else {
                0
            };
            let end = if rs.len() - i > 2 {
                i + 2
            } else {
                rs.len()
            };
            let mut out = sub_chars(&v, rs[start].0, rs[start].1);
            assert(ls.subrange(start as int, start + 1) =~= seq![ls[start as int]]);
            let mut m = start + 1;
            while m < end
                invariant
                    start < m <= end <= rs@.len(),
                    range_texts(v@, rs@) == ls,
                    forall|k: int| 0 <= k < rs@.len() ==> #[trigger] rs@[k].0 <= rs@[k].1 <= v@.len(),
                    out@ == join_with_space(ls.subrange(start as int, m as int)),
                decreases end - m,
            {
                let next = sub_chars(&v, rs[m].0, rs[m].1);
                proof {
                    lemma_join_push(ls.subrange(start as int, m as int), ls[m as int]);
                    assert(ls.subrange(start as int, m + 1) =~= ls.subrange(start as int, m as int).push(
                        ls[m as int],
                    ));
                }
                out.push(' ');
                push_chars(&mut out, next.as_slice());
                m = m + 1;
            }
            return string_from_chars(out.as_slice());
        }
        i = i + 1;
    }
    proof {
        lemma_first_mention_is(ls, t@, i as int);
    }
    string_from_chars(&[])
}

/// The snippet is the first mentioning line, preceded by the line before it
/// (when there is one) and followed by the line after it (when there is one),
/// joined by single spaces.
pub proof fn lemma_snippet_surrounds_first_mention(content: Seq<char>, target: Seq<char>, i: int)
    requires
        0 <= i < lines(content).len(),
        contains_sub(lowercase(lines(content)[i]), lowercase(target)),
        forall|k: int|
            0 <= k < i ==> !contains_sub(lowercase(#[trigger] lines(content)[k]), lowercase(target)),
    ensures
        snippet_of(content, target) == (if i > 0 {
            lines(content)[i - 1] + seq![' ']
        } else {
            Seq::<char>::empty()
        }) + lines(content)[i] + (if i + 1 < lines(content).len() {
            seq![' '] + lines(content)[i + 1]
        } else {
            Seq::<char>::empty()
        }),
{
    let ls = lines(content);
    let t = lowercase(target);
    lemma_first_mention_is(ls, t, i);
    let start = if i > 0 {
        i - 1
    } else {
        0
    };
    let end = if i + 2 < ls.len() {
        i + 2
    } else {
        ls.len() as int
    };
    let sub = ls.subrange(start, end);
    assert(snippet_of(content, target) == join_with_space(sub));
    let after = if i + 1 < ls.len() {
        seq![' '] + ls[i + 1]
    } else {
        Seq::<char>::empty()
    };
    let tail = if i + 1 < ls.len() {
        seq![ls[i], ls[i + 1]]
    } else {
        seq![ls[i]]
    };
    assert(join_with_space(tail) == ls[i] + after) by {
        if i + 1 < ls.len() {
            assert(tail.drop_first() =~= seq![ls[i + 1]]);
            assert(join_with_space(tail.drop_first()) == ls[i + 1]);
            assert(ls[i] + seq![' '] + ls[i + 1] =~= ls[i] + after);
        } else {
            assert(ls[i] =~= ls[i] + after);
        }
    }
    if i > 0 {
        assert(sub =~= seq![ls[i - 1]] + tail);
        assert(sub.drop_first() =~= tail);
        assert(join_with_space(sub) == ls[i - 1] + seq![' '] + join_with_space(tail));
        assert(ls[i - 1] + seq![' '] + (ls[i] + after) =~= (ls[i - 1] + seq![' ']) + ls[i] + after);
    } else {
        assert(sub =~= tail);
        assert(Seq::<char>::empty() + ls[i] + after =~= ls[i] + after);
    }
}

/// Where no line of `content` mentions `target`, the snippet is empty.
pub proof fn lemma_snippet_empty_without_mention(content: Seq<char>, target: Seq<char>)
    requires
        forall|k: int|
            0 <= k < lines(content).len() ==> !contains_sub(
                lowercase(#[trigger] lines(content)[k]),
                lowercase(target),
            ),
    ensures
        snippet_of(content, target) == Seq::<char>::empty(),
{
    lemma_first_mention_is(lines(content), lowercase(target), lines(content).len() as int);
}

} // verus!
