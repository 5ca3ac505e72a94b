//! Naming note files, and the decisions of the note commands that do not
//! touch the disk or the database.
use vstd::prelude::*;
use crate::parser::{file_stem, path_file_stem, untitled};
use crate::text::{
    chars_of, contains_chars, contains_sub, lemma_trim_end_shape, lemma_trim_idempotent,
    lemma_trim_start_shape, string_from_chars, sub_chars, trim, trim_bounds, trim_end,
    trim_start,
};

verus! {

/// A character that may not appear in a file name: `/ \ : * ? " < > |`.
pub open spec fn forbidden(c: char) -> bool {
    c == '/' || c == '\\' || c == ':' || c == '*' || c == '?' || c == '"' || c == '<' || c == '>'
        || c == '|'
}

/// `s` without its forbidden characters.
pub open spec fn drop_forbidden(s: Seq<char>) -> Seq<char>
    decreases s.len(),
{
    if s.len() == 0 {
        seq![]
    } else {
        (if forbidden(s[0]) {
            seq![]
        } else {
            seq![s[0]]
        }) + drop_forbidden(s.drop_first())
    }
}

/// The file-name-safe form of a title: its allowed characters, trimmed.
pub open spec fn sanitized(title: Seq<char>) -> Seq<char> {
    trim(drop_forbidden(title))
}

/// Removes the characters that file names may not hold, then trims.
pub fn sanitize_filename(title: &str) -> (r: String)
    ensures
        r@ == sanitized(title@),
{
    let v = chars_of(title);
    let mut out: Vec<char> = Vec::new();
    let mut i: usize = 0;
    assert(v@.skip(0) =~= v@);
    while i < v.len()
        invariant
            i <= v.len(),
            out@ + drop_forbidden(v@.skip(i as int)) == drop_forbidden(v@),
        decreases v.len() - i,
    {
        let c = v[i];
        let ghost before = out@;
        assert(v@.skip(i as int).drop_first() =~= v@.skip(i + 1));
        if !(c == '/' || c == '\\' || c == ':' || c == '*' || c == '?' || c == '"' || c == '<' || c
            == '>' || c == '|') {
            out.push(c);
            assert(out@ =~= before + seq![c]);
        } else {
            assert(out@ =~= before + Seq::<char>::empty());
        }
        i = i + 1;
    }
    assert(v@.skip(i as int) =~= Seq::<char>::empty());
    assert(out@ =~= drop_forbidden(v@));
    let (a, b) = trim_bounds(&out, 0, out.len());
    assert(out@.subrange(0, out@.len() as int) =~= out@);
    let t = sub_chars(&out, a, b);
    string_from_chars(t.as_slice())
}

proof fn lemma_drop_forbidden_clean(s: Seq<char>)
    ensures
        forall|i: int| 0 <= i < drop_forbidden(s).len() ==> !forbidden(#[trigger] drop_forbidden(s)[i]),
    decreases s.len(),
{
    if s.len() > 0 {
        lemma_drop_forbidden_clean(s.drop_first());
        let h = if forbidden(s[0]) {
            Seq::<char>::empty()
        } else {
            seq![s[0]]
        };
        assert forall|i: int| 0 <= i < drop_forbidden(s).len() implies !forbidden(
            #[trigger] drop_forbidden(s)[i],
        ) by {
            if i >= h.len() {
                assert(drop_forbidden(s)[i] == drop_forbidden(s.drop_first())[i - h.len()]);
            }
        }
    }
}

proof fn lemma_drop_forbidden_noop(s: Seq<char>)
    requires
        forall|i: int| 0 <= i < s.len() ==> !forbidden(#[trigger] s[i]),
    ensures
        drop_forbidden(s) == s,
    decreases s.len(),
{
    if s.len() > 0 {
        assert forall|i: int| 0 <= i < s.drop_first().len() implies !forbidden(
            #[trigger] s.drop_first()[i],
        ) by {
            assert(s.drop_first()[i] == s[i + 1]);
        }
        lemma_drop_forbidden_noop(s.drop_first());
        assert(seq![s[0]] + s.drop_first() =~= s);
    }
}

/// Every character of `trim(s)` is a character of `s`.
proof fn lemma_trim_within(s: Seq<char>)
    ensures
        forall|i: int| 0 <= i < trim(s).len() ==> exists|j: int| 0 <= j < s.len() && s[j] == #[trigger] trim(s)[i],
{
    lemma_trim_start_shape(s);
    let k = choose|k: int| 0 <= k <= s.len() && trim_start(s) == s.skip(k);
    lemma_trim_end_shape(trim_start(s));
    let k2 = choose|k2: int| 0 <= k2 <= trim_start(s).len() && trim_end(trim_start(s)) == trim_start(s).take(k2);
    assert forall|i: int| 0 <= i < trim(s).len() implies exists|j: int| 0 <= j < s.len() && s[j] == #[trigger] trim(s)[i] by {
        assert(s[i + k] == trim(s)[i]);
    }
}

/// A sanitized title holds no forbidden character, begins and ends with no
/// white space, and sanitizing it again leaves it unchanged.
pub proof fn lemma_sanitized_is_clean_and_stable(title: Seq<char>)
    ensures
        forall|i: int| 0 <= i < sanitized(title).len() ==> !forbidden(#[trigger] sanitized(title)[i]),
        sanitized(title) == trim(sanitized(title)),
        sanitized(sanitized(title)) == sanitized(title),
{
    let d = drop_forbidden(title);
    lemma_drop_forbidden_clean(title);
    lemma_trim_within(d);
    lemma_trim_idempotent(d);
    assert forall|i: int| 0 <= i < sanitized(title).len() implies !forbidden(#[trigger] sanitized(title)[i]) by {
        let j = choose|j: int| 0 <= j < d.len() && d[j] == trim(d)[i];
        assert(!forbidden(d[j]));
    }
    lemma_drop_forbidden_noop(sanitized(title));
}

} // verus!

verus! {

/// Appends the characters of `s` to `out`.
pub(crate) fn push_chars(out: &mut Vec<char>, s: &[char])
    ensures
        final(out)@ == old(out)@ + s@,
{
    let mut i: usize = 0;
    while i < s.len()
        invariant
            i <= s@.len(),
            s.len() == s@.len(),
            out@ == old(out)@ + s@.take(i as int),
        decreases s.len() - i,
    {
        out.push(s[i]);
        assert(s@.take(i + 1) =~= s@.take(i as int).push(s@[i as int]));
        i = i + 1;
    }
    assert(s@.take(s@.len() as int) =~= s@);
}

/// The name under which a note with the given title is stored: the
/// sanitized title, or `Untitled` when nothing of it is left.
pub open spec fn note_name_of(title: Seq<char>) -> Seq<char> {
    if sanitized(title).len() == 0 {
        untitled()
    } else {
        sanitized(title)
    }
}

/// The file-name base for a note titled `title`.
pub fn note_name(title: &str) -> (r: String)
    ensures
        r@ == note_name_of(title@),
{
    let s = sanitize_filename(title);
    if s.as_str().is_empty() {
        let u: [char; 8] = ['U', 'n', 't', 'i', 't', 'l', 'e', 'd'];
        assert(u@ =~= untitled());
        string_from_chars(u.as_slice())
    } else {
        s
    }
}

/// The character of the decimal digit `d`.
pub open spec fn digit_char(d: nat) -> char {
    if d == 0 {
        '0'
    } else if d == 1 {
        '1'
    } else if d == 2 {
        '2'
    } else if d == 3 {
        '3'
    } else if d == 4 {
        '4'
    } else if d == 5 {
        '5'
    } else if d == 6 {
        '6'
    } else if d == 7 {
        '7'
    } else if d == 8 {
        '8'
    } else {
        '9'
    }
}

/// The decimal notation of `n`, without leading zeros.
pub open spec fn decimal(n: nat) -> Seq<char>
    decreases n,
{
    if n < 10 {
        seq![digit_char(n)]
    } else {
        decimal(n / 10) + seq![digit_char(n % 10)]
    }
}

fn digit(d: u32) -> (c: char)
    requires
        d < 10,
    ensures
        c == digit_char(d as nat),
{
    if d == 0 {
        '0'
    } else if d == 1 {
        '1'
    } else if d == 2 {
        '2'
    } else if d == 3 {
        '3'
    } else if d == 4 {
        '4'
    } else if d == 5 {
        '5'
    } else if d == 6 {
        '6'
    } else if d == 7 {
        '7'
    } else if d == 8 {
        '8'
    } else {
        '9'
    }
}

fn decimal_chars(n: u32) -> (r: Vec<char>)
    ensures
        r@ == decimal(n as nat),
    decreases n,
{
    if n < 10 {
        let mut v: Vec<char> = Vec::new();
        v.push(digit(n));
        assert(v@ =~= seq![digit_char(n as nat)]);
        v
    } else {
        let mut v = decimal_chars(n / 10);
        v.push(digit(n % 10));
        assert(v@ =~= decimal((n / 10) as nat) + seq![digit_char((n % 10) as nat)]);
        v
    }
}

/// `.md`
pub open spec fn md_ext() -> Seq<char> {
    seq!['.', 'm', 'd']
}

/// The file name of a note named `name`; with `Some(n)`, the `n`-th candidate
/// used when the plain name is taken.
pub open spec fn file_name_of(name: Seq<char>, suffix: Option<u32>) -> Seq<char> {
    match suffix {
        None => name + md_ext(),
        Some(n) => name + seq!['_'] + decimal(n as nat) + md_ext(),
    }
}

/// `{name}.md`, or `{name}_{n}.md` for a suffix `n`.
pub fn note_file_name(name: &str, suffix: Option<u32>) -> (r: String)
    ensures
        r@ == file_name_of(name@, suffix),
{
    let mut out = chars_of(name);
    let md: [char; 3] = ['.', 'm', 'd'];
    assert(md@ =~= md_ext());
    if let Some(n) = suffix {
        out.push('_');
        let d = decimal_chars(n);
        push_chars(&mut out, d.as_slice());
        assert(out@ =~= name@ + seq!['_'] + decimal(n as nat));
    }
    push_chars(&mut out, md.as_slice());
    string_from_chars(out.as_slice())
}

/// The text of a new note: a frontmatter block with its title and date.
pub open spec fn stub_text(title: Seq<char>, date: Seq<char>) -> Seq<char> {
    seq!['-', '-', '-', '\n', 't', 'i', 't', 'l', 'e', ':', ' '] + title + seq![
        '\n',
        'd',
        'a',
        't',
        'e',
        ':',
        ' ',
    ] + date + seq!['\n', '-', '-', '-', '\n']
}

/// `---\ntitle: {title}\ndate: {date}\n---\n`
pub fn note_stub(title: &str, date: &str) -> (r: String)
    ensures
        r@ == stub_text(title@, date@),
{
    let head: [char; 11] = ['-', '-', '-', '\n', 't', 'i', 't', 'l', 'e', ':', ' '];
    let mid: [char; 7] = ['\n', 'd', 'a', 't', 'e', ':', ' '];
    let tail: [char; 5] = ['\n', '-', '-', '-', '\n'];
    let mut out: Vec<char> = Vec::new();
    push_chars(&mut out, head.as_slice());
    let t = chars_of(title);
    push_chars(&mut out, t.as_slice());
    push_chars(&mut out, mid.as_slice());
    let d = chars_of(date);
    push_chars(&mut out, d.as_slice());
    push_chars(&mut out, tail.as_slice());
    assert(out@ =~= stub_text(title@, date@));
    string_from_chars(out.as_slice())
}

/// The title a note has by its file name: the file stem, or nothing.
pub open spec fn stem_title_of(path: Seq<char>) -> Seq<char> {
    match path_file_stem(path) {
        Some(s) => s,
        None => seq![],
    }
}

/// The title that links to the note stored at `path` use: its file stem.
pub fn title_from_path(path: &str) -> (r: String)
    ensures
        r@ == stem_title_of(path@),
{
    match file_stem(path) {
        Some(s) => s,
        None => string_from_chars(&[]),
    }
}

/// `Transaction write conflict`, the database error that is worth a retry.
pub open spec fn write_conflict() -> Seq<char> {
    seq![
        'T',
        'r',
        'a',
        'n',
        's',
        'a',
        'c',
        't',
        'i',
        'o',
        'n',
        ' ',
        'w',
        'r',
        'i',
        't',
        'e',
        ' ',
        'c',
        'o',
        'n',
        'f',
        'l',
        'i',
        'c',
        't',
    ]
}

/// How many times indexing a new note is retried after a write conflict.
pub const MAX_INDEX_RETRIES: u32 = 5;

/// What to do after indexing a note failed.
pub enum RetryDecision {
    /// Wait `delay_ms` milliseconds, then make attempt number `attempts`.
    Retry { attempts: u32, delay_ms: u64 },
    /// Report the error.
    GiveUp,
}

/// The decision after a failure with message `error` when `attempts` retries
/// have been made so far.
pub open spec fn retry_decision(error: Seq<char>, attempts: u32) -> RetryDecision {
    if contains_sub(error, write_conflict()) && attempts < MAX_INDEX_RETRIES {
        RetryDecision::Retry { attempts: (attempts + 1) as u32, delay_ms: (50 * (attempts + 1)) as u64 }
    } else {
        RetryDecision::GiveUp
    }
}

/// Decides whether a failed indexing of a new note is retried: only a write
/// conflict is, at most `MAX_INDEX_RETRIES` times, waiting 50 ms more each time.
pub fn after_index_failure(error: &str, attempts: u32) -> (r: RetryDecision)
    ensures
        r == retry_decision(error@, attempts),
{
    let e = chars_of(error);
    let pat: [char; 26] = [
        'T',
        'r',
        'a',
        'n',
        's',
        'a',
        'c',
        't',
        'i',
        'o',
        'n',
        ' ',
        'w',
        'r',
        'i',
        't',
        'e',
        ' ',
        'c',
        'o',
        'n',
        'f',
        'l',
        'i',
        'c',
        't',
    ];
    assert(pat@ =~= write_conflict());
    if contains_chars(&e, pat.as_slice()) && attempts < MAX_INDEX_RETRIES {
        RetryDecision::Retry { attempts: attempts + 1, delay_ms: 50 * (attempts as u64 + 1) }
    } else {
        RetryDecision::GiveUp
    }
}

/// Retries stop: no failure is retried once `MAX_INDEX_RETRIES` retries were
/// made, each retry counts one more attempt, and the delays grow by 50 ms.
pub proof fn lemma_retries_are_bounded(error: Seq<char>, attempts: u32)
    ensures
        attempts >= MAX_INDEX_RETRIES ==> retry_decision(error, attempts) is GiveUp,
        retry_decision(error, attempts) matches RetryDecision::Retry { attempts: a, delay_ms: d }
            ==> a == attempts + 1 && a <= MAX_INDEX_RETRIES && d == 50 * a,
{
}

} // verus!
