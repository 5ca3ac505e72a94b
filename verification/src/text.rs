//! Character-level text utilities with their specifications: whitespace,
//! trimming, searching and line splitting.
use vstd::prelude::*;

verus! {

/// Unicode `White_Space` property, as used by `char::is_whitespace`.
pub open spec fn is_white_space(c: char) -> bool {
    ||| ('\u{9}' <= c && c <= '\u{D}')
    ||| c == ' '
    ||| c == '\u{85}'
    ||| c == '\u{A0}'
    ||| c == '\u{1680}'
    ||| ('\u{2000}' <= c && c <= '\u{200A}')
    ||| c == '\u{2028}'
    ||| c == '\u{2029}'
    ||| c == '\u{202F}'
    ||| c == '\u{205F}'
    ||| c == '\u{3000}'
}

/// Decides `is_white_space`.
pub fn white_space(c: char) -> (b: bool)
    ensures
        b == is_white_space(c),
{
    ('\u{9}' <= c && c <= '\u{D}') || c == ' ' || c == '\u{85}' || c == '\u{A0}' || c == '\u{1680}'
        || ('\u{2000}' <= c && c <= '\u{200A}') || c == '\u{2028}' || c == '\u{2029}' || c
        == '\u{202F}' || c == '\u{205F}' || c == '\u{3000}'
}

/// The characters of `s`, in order.
pub fn chars_of(s: &str) -> (v: Vec<char>)
    ensures
        v@ == s@,
{
    let mut v: Vec<char> = Vec::new();
    for c in it: s.chars()
        invariant
            v@ == it.seq().take(it.index() as int),
            it.seq() == s@,
    {
        v.push(c);
    }
    v
}

} // verus!

verus! {

/// Builds a `String` holding exactly the given characters, through std's
/// `FromIterator<&char> for String`.
#[verifier::external_body]
pub(crate) fn string_from_chars(v: &[char]) -> (s: String)
    ensures
        s@ == v@,
{
    v.iter().collect()
}

/// The result of std's `str::to_lowercase` on the text `s`.
pub uninterp spec fn lowercase(s: Seq<char>) -> Seq<char>;

/// Calls std's `str::to_lowercase`; the contract ties the result to `lowercase`
/// of the argument and to nothing else.
#[verifier::external_body]
pub(crate) fn to_lowercase(s: &str) -> (r: String)
    ensures
        r@ == lowercase(s@),
{
    s.to_lowercase()
}

// ---------------------------------------------------------------------------
// Trimming
// ---------------------------------------------------------------------------

/// `s` without its leading white space.
pub open spec fn trim_start(s: Seq<char>) -> Seq<char>
    decreases s.len(),
{
    if s.len() > 0 && is_white_space(s[0]) {
        trim_start(s.drop_first())
    } else {
        s
    }
}

/// `s` without its trailing white space.
pub open spec fn trim_end(s: Seq<char>) -> Seq<char>
    decreases s.len(),
{
    if s.len() > 0 && is_white_space(s.last()) {
        trim_end(s.drop_last())
    } else {
        s
    }
}

/// `s` without leading and trailing white space (as `str::trim`).
pub open spec fn trim(s: Seq<char>) -> Seq<char> {
    trim_end(trim_start(s))
}

/// The bounds `(a, b)` of `trim(v[lo..hi])` inside `v`.
pub fn trim_bounds(v: &Vec<char>, lo: usize, hi: usize) -> (r: (usize, usize))
    requires
        lo <= hi <= v.len(),
    ensures
        lo <= r.0 <= r.1 <= hi,
        v@.subrange(r.0 as int, r.1 as int) == trim(v@.subrange(lo as int, hi as int)),
{
    let i = trim_start_index(v, lo, hi);
    let mut j = hi;
    while j > i && white_space(v[j - 1])
        invariant
            lo <= i <= j <= hi <= v.len(),
            trim_end(v@.subrange(i as int, hi as int)) == trim_end(
                v@.subrange(i as int, j as int),
            ),
        decreases j - i,
    {
        assert(v@.subrange(i as int, j as int).drop_last() =~= v@.subrange(
            i as int,
            j - 1,
        ));
        j = j - 1;
    }
    (i, j)
}

/// Copies `v[lo..hi]`.
pub fn sub_chars(v: &Vec<char>, lo: usize, hi: usize) -> (r: Vec<char>)
    requires
        lo <= hi <= v.len(),
    ensures
        r@ == v@.subrange(lo as int, hi as int),
{
    let mut r: Vec<char> = Vec::new();
    let mut i = lo;
    while i < hi
        invariant
            lo <= i <= hi <= v.len(),
            r@ == v@.subrange(lo as int, i as int),
        decreases hi - i,
    {
        r.push(v[i]);
        assert(r@ =~= v@.subrange(lo as int, i + 1));
        i = i + 1;
    }
    r
}

/// `s` trimmed, as a new `String` (std's `str::trim` followed by `to_string`).
pub fn trim_str(s: &str) -> (r: String)
    ensures
        r@ == trim(s@),
{
    let v = chars_of(s);
    let (a, b) = trim_bounds(&v, 0, v.len());
    assert(v@.subrange(0, v@.len() as int) =~= v@);
    let t = sub_chars(&v, a, b);
    string_from_chars(t.as_slice())
}

} // verus!

verus! {

// ---------------------------------------------------------------------------
// Searching
// ---------------------------------------------------------------------------

/// Index of the first `c` in `s`, or `s.len()` when there is none.
pub open spec fn find_char(s: Seq<char>, c: char) -> int
    decreases s.len(),
{
    if s.len() == 0 {
        0
    } else if s[0] == c {
        0
    } else {
        1 + find_char(s.drop_first(), c)
    }
}

pub proof fn lemma_find_char_bounds(s: Seq<char>, c: char)
    ensures
        0 <= find_char(s, c) <= s.len(),
        find_char(s, c) < s.len() ==> s[find_char(s, c)] == c,
        forall|j: int| 0 <= j < find_char(s, c) ==> s[j] != c,
    decreases s.len(),
{
    if s.len() > 0 && s[0] != c {
        lemma_find_char_bounds(s.drop_first(), c);
        assert forall|j: int| 0 <= j < find_char(s, c) implies s[j] != c by {
            if j > 0 {
                assert(s[j] == s.drop_first()[j - 1]);
            }
        }
    }
}

/// `find_char` is the first position holding `c`.
pub proof fn lemma_find_char_is(s: Seq<char>, c: char, i: int)
    requires
        0 <= i <= s.len(),
        forall|j: int| 0 <= j < i ==> s[j] != c,
        i == s.len() || s[i] == c,
    ensures
        find_char(s, c) == i,
    decreases i,
{
    if i > 0 {
        assert forall|j: int| 0 <= j < i - 1 implies s.drop_first()[j] != c by {
            assert(s.drop_first()[j] == s[j + 1]);
        }
        lemma_find_char_is(s.drop_first(), c, i - 1);
    }
}

/// The first index `k` in `lo..hi` with `v[k] == c`, or `hi`.
pub fn find_char_in(v: &Vec<char>, c: char, lo: usize, hi: usize) -> (k: usize)
    requires
        lo <= hi <= v.len(),
    ensures
        lo <= k <= hi,
        k == lo + find_char(v@.subrange(lo as int, hi as int), c),
        k < hi ==> v@[k as int] == c,
        forall|j: int| lo <= j < k ==> v@[j] != c,
{
    let mut k = lo;
    while k < hi && v[k] != c
        invariant
            lo <= k <= hi <= v.len(),
            forall|j: int| lo <= j < k ==> v@[j] != c,
        decreases hi - k,
    {
        k = k + 1;
    }
    proof {
        let s = v@.subrange(lo as int, hi as int);
        assert forall|j: int| 0 <= j < k - lo implies s[j] != c by {
            assert(s[j] == v@[j + lo]);
        }
        lemma_find_char_is(s, c, k - lo);
    }
    k
}

/// `s` begins with `p`.
pub open spec fn starts_with(s: Seq<char>, p: Seq<char>) -> bool {
    p.len() <= s.len() && s.take(p.len() as int) == p
}

/// Whether `v[at..]` begins with `p`.
pub fn starts_with_at(v: &Vec<char>, at: usize, p: &[char]) -> (b: bool)
    requires
        at <= v.len(),
    ensures
        b == starts_with(v@.skip(at as int), p@),
{
    if p.len() > v.len() - at {
        return false;
    }
    let mut i: usize = 0;
    while i < p.len()
        invariant
            at + p.len() <= v.len(),
            p.len() == p@.len(),
            i <= p@.len(),
            forall|j: int| 0 <= j < i ==> v@[at + j] == p@[j],
        decreases p.len() - i,
    {
        if v[at + i] != p[i] {
            assert(v@.skip(at as int).take(p@.len() as int)[i as int] != p@[i as int]);
            return false;
        }
        i = i + 1;
    }
    assert(v@.skip(at as int).take(p@.len() as int) =~= p@);
    true
}

/// Offset of the first occurrence of `p` in `s`, if any.
pub open spec fn find_sub(s: Seq<char>, p: Seq<char>) -> Option<int>
    decreases s.len(),
{
    if starts_with(s, p) {
        Some(0)
    } else if s.len() == 0 {
        None
    } else {
        match find_sub(s.drop_first(), p) {
            Some(i) => Some(i + 1),
            None => None,
        }
    }
}

/// `p` occurs in `s` (as `str::contains`).
pub open spec fn contains_sub(s: Seq<char>, p: Seq<char>) -> bool {
    find_sub(s, p) is Some
}

pub open spec fn shift(o: Option<int>, d: int) -> Option<int> {
    match o {
        Some(i) => Some(i + d),
        None => None,
    }
}

/// Whether `p` occurs in `v`.
pub fn contains_chars(v: &Vec<char>, p: &[char]) -> (b: bool)
    ensures
        b == contains_sub(v@, p@),
{
    assert(v@.skip(0) =~= v@);
    find_sub_from(v, 0, p).is_some()
}

// ---------------------------------------------------------------------------
// Lines
// ---------------------------------------------------------------------------

/// `line` without one trailing carriage return.
pub open spec fn strip_cr(line: Seq<char>) -> Seq<char> {
    if line.len() > 0 && line.last() == '\r' {
        line.drop_last()
    } else {
        line
    }
}

/// The lines of `s`, as `str::lines` yields them: split at `'\n'`, a `'\r'`
/// before the `'\n'` removed, no empty line after a final `'\n'`.
pub open spec fn lines(s: Seq<char>) -> Seq<Seq<char>>
    decreases s.len(),
{
    if s.len() == 0 {
        seq![]
    } else {
        let i = find_char(s, '\n');
        if 0 <= i < s.len() {
            seq![strip_cr(s.take(i))] + lines(s.skip(i + 1))
        } else {
            seq![s]
        }
    }
}

/// One step through the lines of `v[start..]`: `(end, next)` where `v[start..end]`
/// is the first line and `v[next..]` the rest.
pub fn next_line(v: &Vec<char>, start: usize) -> (r: (usize, usize))
    requires
        start < v.len(),
    ensures
        start <= r.0 <= r.1 <= v.len(),
        start < r.1,
        lines(v@.skip(start as int)) == seq![v@.subrange(start as int, r.0 as int)] + lines(
            v@.skip(r.1 as int),
        ),
{
    let k = find_char_in(v, '\n', start, v.len());
    let ghost s = v@.skip(start as int);
    proof {
        assert(v@.subrange(start as int, v@.len() as int) =~= s);
    }
    if k < v.len() {
        assert(s.skip(k - start + 1) =~= v@.skip(k + 1));
        let end = if k > start && v[k - 1] == '\r' {
            k - 1
        } else {
            k
        };
        assert(strip_cr(s.take(k - start)) =~= v@.subrange(start as int, end as int));
        (end, k + 1)
    } else {
        assert(v@.skip(v@.len() as int) =~= Seq::<char>::empty());
        assert(s =~= v@.subrange(start as int, v@.len() as int));
        (v.len(), v.len())
    }
}

} // verus!

verus! {

/// The start `a` of `trim_start(v[lo..hi])` inside `v`.
pub fn trim_start_index(v: &Vec<char>, lo: usize, hi: usize) -> (a: usize)
    requires
        lo <= hi <= v.len(),
    ensures
        lo <= a <= hi,
        v@.subrange(a as int, hi as int) == trim_start(v@.subrange(lo as int, hi as int)),
{
    let mut i = lo;
    while i < hi && white_space(v[i])
        invariant
            lo <= i <= hi <= v.len(),
            trim_start(v@.subrange(lo as int, hi as int)) == trim_start(
                v@.subrange(i as int, hi as int),
            ),
        decreases hi - i,
    {
        assert(v@.subrange(i as int, hi as int).drop_first() =~= v@.subrange(
            i + 1,
            hi as int,
        ));
        i = i + 1;
    }
    i
}

} // verus!

verus! {

pub proof fn lemma_trim_start_shape(s: Seq<char>)
    ensures
        exists|k: int| 0 <= k <= s.len() && trim_start(s) == s.skip(k),
        trim_start(s).len() == 0 || !is_white_space(trim_start(s)[0]),
    decreases s.len(),
{
    if s.len() > 0 && is_white_space(s[0]) {
        lemma_trim_start_shape(s.drop_first());
        let k = choose|k: int| 0 <= k <= s.drop_first().len() && trim_start(s.drop_first()) == s.drop_first().skip(k);
        assert(s.drop_first().skip(k) =~= s.skip(k + 1));
    } else {
        assert(s.skip(0) =~= s);
    }
}

pub proof fn lemma_trim_end_shape(s: Seq<char>)
    ensures
        exists|k: int| 0 <= k <= s.len() && trim_end(s) == s.take(k),
        trim_end(s).len() == 0 || !is_white_space(trim_end(s).last()),
    decreases s.len(),
{
    if s.len() > 0 && is_white_space(s.last()) {
        lemma_trim_end_shape(s.drop_last());
        let k = choose|k: int| 0 <= k <= s.drop_last().len() && trim_end(s.drop_last()) == s.drop_last().take(k);
        assert(s.drop_last().take(k) =~= s.take(k));
    } else {
        assert(s.take(s.len() as int) =~= s);
    }
}

pub proof fn lemma_trim_start_noop(s: Seq<char>)
    requires
        s.len() == 0 || !is_white_space(s[0]),
    ensures
        trim_start(s) == s,
{
}

pub proof fn lemma_trim_end_noop(s: Seq<char>)
    requires
        s.len() == 0 || !is_white_space(s.last()),
    ensures
        trim_end(s) == s,
{
}

/// Trimming twice is trimming once.
pub proof fn lemma_trim_idempotent(s: Seq<char>)
    ensures
        trim(trim(s)) == trim(s),
        trim(s).len() == 0 || (!is_white_space(trim(s)[0]) && !is_white_space(trim(s).last())),
{
    let x = trim_start(s);
    lemma_trim_start_shape(s);
    lemma_trim_end_shape(x);
    let y = trim_end(x);
    let k = choose|k: int| 0 <= k <= x.len() && y == x.take(k);
    if y.len() > 0 {
        assert(y[0] == x[0]);
    }
    lemma_trim_start_noop(y);
    lemma_trim_end_noop(y);
}

} // verus!

verus! {

/// The first occurrence of `p` in `v[from..]`, as an index into `v`.
pub fn find_sub_from(v: &Vec<char>, from: usize, p: &[char]) -> (r: Option<usize>)
    requires
        from <= v.len(),
    ensures
        match r {
            Some(k) => from <= k <= v.len() && find_sub(v@.skip(from as int), p@) == Some(k - from),
            None => find_sub(v@.skip(from as int), p@) is None,
        },
{
    let mut i: usize = from;
    while i <= v.len()
        invariant
            from <= i <= v.len() + 1,
            i <= v.len() ==> shift(find_sub(v@.skip(from as int), p@), from as int) == shift(
                find_sub(v@.skip(i as int), p@),
                i as int,
            ),
            i > v.len() ==> find_sub(v@.skip(from as int), p@) is None,
        decreases v.len() + 1 - i,
    {
        if starts_with_at(v, i, p) {
            return Some(i);
        }
        if i == v.len() {
            assert(v@.skip(i as int).len() == 0);
            return None;
        }
        assert(v@.skip(i as int).drop_first() =~= v@.skip(i + 1));
        i = i + 1;
    }
    None
}

/// `s` split at every `c` (as `str::split` with a `char` pattern).
pub open spec fn split_char(s: Seq<char>, c: char) -> Seq<Seq<char>>
    decreases s.len(),
{
    let i = find_char(s, c);
    if 0 <= i < s.len() {
        seq![s.take(i)] + split_char(s.skip(i + 1), c)
    } else {
        seq![s]
    }
}

/// The trimmed parts that are not empty, in order.
pub open spec fn kept_trimmed(parts: Seq<Seq<char>>) -> Seq<Seq<char>>
    decreases parts.len(),
{
    if parts.len() == 0 {
        seq![]
    } else {
        let t = trim(parts[0]);
        (if t.len() > 0 {
            seq![t]
        } else {
            seq![]
        }) + kept_trimmed(parts.drop_first())
    }
}

/// The views of a sequence of strings.
pub open spec fn strings_view(v: Seq<String>) -> Seq<Seq<char>> {
    v.map_values(|s: String| s@)
}

pub proof fn lemma_strings_view_push(v: Seq<String>, s: String)
    ensures
        strings_view(v.push(s)) == strings_view(v) + seq![s@],
{
    assert(strings_view(v.push(s)) =~= strings_view(v) + seq![s@]);
}

/// The non-empty trimmed parts of `s` split at `c`.
pub fn split_trimmed(s: &Vec<char>, c: char) -> (r: Vec<String>)
    ensures
        strings_view(r@) == kept_trimmed(split_char(s@, c)),
{
    let mut out: Vec<String> = Vec::new();
    let mut pos: usize = 0;
    assert(s@.skip(0) =~= s@);
    assert(strings_view(out@) =~= Seq::<Seq<char>>::empty());
    loop
        invariant
            pos <= s.len(),
            strings_view(out@) + kept_trimmed(split_char(s@.skip(pos as int), c)) == kept_trimmed(
                split_char(s@, c),
            ),
        decreases s.len() - pos,
    {
        let ghost rest = s@.skip(pos as int);
        let k = find_char_in(s, c, pos, s.len());
        assert(s@.subrange(pos as int, s@.len() as int) =~= rest);
        let (a, b) = trim_bounds(s, pos, k);
        assert(rest.take(k - pos) =~= s@.subrange(pos as int, k as int));
        let ghost before = out@;
        if a < b {
            let t = sub_chars(s, a, b);
            out.push(string_from_chars(t.as_slice()));
            proof {
                lemma_strings_view_push(before, out@.last());
                assert(out@ == before.push(out@.last()));
            }
        }
        if k == s.len() {
            assert(split_char(rest, c) == seq![rest]);
            assert(seq![rest].drop_first() =~= Seq::<Seq<char>>::empty());
            assert(kept_trimmed(Seq::<Seq<char>>::empty()) =~= Seq::<Seq<char>>::empty());
            assert(rest.take(k - pos) =~= rest);
            if a < b {
                assert(kept_trimmed(split_char(rest, c)) =~= seq![trim(rest)]);
                assert(strings_view(out@) =~= strings_view(before) + seq![trim(rest)]);
            } else {
                assert(kept_trimmed(split_char(rest, c)) =~= Seq::<Seq<char>>::empty());
            }
            return out;
        }
        assert(rest.skip(k - pos + 1) =~= s@.skip(k + 1));
        assert(split_char(rest, c).drop_first() == split_char(s@.skip(k + 1), c));
        pos = k + 1;
    }
}

} // verus!

verus! {

/// The texts that the ranges `r` select in `v`.
pub open spec fn range_texts(v: Seq<char>, r: Seq<(usize, usize)>) -> Seq<Seq<char>> {
    Seq::new(r.len(), |k: int| v.subrange(r[k].0 as int, r[k].1 as int))
}

/// The bounds of every line of `v`, in order.
pub fn line_ranges(v: &Vec<char>) -> (r: Vec<(usize, usize)>)
    ensures
        forall|k: int| 0 <= k < r@.len() ==> #[trigger] r@[k].0 <= r@[k].1 <= v@.len(),
        range_texts(v@, r@) == lines(v@),
{
    let mut r: Vec<(usize, usize)> = Vec::new();
    let mut pos: usize = 0;
    assert(v@.skip(0) =~= v@);
    assert(range_texts(v@, r@) =~= Seq::<Seq<char>>::empty());
    while pos < v.len()
        invariant
            pos <= v.len(),
            forall|k: int| 0 <= k < r@.len() ==> #[trigger] r@[k].0 <= r@[k].1 <= v@.len(),
            range_texts(v@, r@) + lines(v@.skip(pos as int)) == lines(v@),
        decreases v.len() - pos,
    {
        let (end, next) = next_line(v, pos);
        let ghost before = r@;
        r.push((pos, end));
        assert(range_texts(v@, r@) =~= range_texts(v@, before) + seq![
            v@.subrange(pos as int, end as int),
        ]);
        pos = next;
    }
    assert(v@.skip(pos as int) =~= Seq::<char>::empty());
    assert(range_texts(v@, r@) =~= lines(v@));
    r
}

} // verus!
