//! Parsing a note: its YAML frontmatter block, its title and its tags.
use vstd::prelude::*;
use crate::text::{
    chars_of, find_char, find_char_in, find_sub, find_sub_from, is_white_space, kept_trimmed,
    lemma_find_char_bounds, lemma_strings_view_push, lines, next_line, split_char,
    split_trimmed, starts_with, starts_with_at, string_from_chars, strings_view, sub_chars,
    trim, trim_bounds, trim_str, white_space,
};
use crate::wikilink::opt_view;

verus! {

/// `---`, which opens a frontmatter block.
pub open spec fn fence_open() -> Seq<char> {
    seq!['-', '-', '-']
}

/// `\n---`, which closes a frontmatter block.
pub open spec fn fence_close() -> Seq<char> {
    seq!['\n', '-', '-', '-']
}

/// Where the frontmatter block of `s` ends and its body begins, if `s` has
/// one: `(fm_end, body_start)`.
pub open spec fn frontmatter_bounds(s: Seq<char>) -> Option<(int, int)> {
    if !starts_with(s, fence_open()) {
        None
    } else {
        let after = s.skip(3);
        let nl = find_char(after, '\n');
        let np = if 0 <= nl < after.len() {
            nl + 1
        } else {
            0
        };
        match find_sub(after.skip(np), fence_close()) {
            None => None,
            Some(c) => {
                let fm_end = 3 + np + c;
                let bs = fm_end + 4;
                Some(
                    (
                        fm_end,
                        if bs < s.len() && s[bs] == '\n' {
                            bs + 1
                        } else {
                            bs
                        },
                    ),
                )
            },
        }
    }
}

/// The frontmatter text (between the opening `---` and the closing `\n---`)
/// and the body of `s`; without a frontmatter block, `("", s)`.
pub open spec fn frontmatter_split(s: Seq<char>) -> (Seq<char>, Seq<char>) {
    match frontmatter_bounds(s) {
        Some((fm_end, bs)) => (s.subrange(3, fm_end), s.skip(bs)),
        None => (seq![], s),
    }
}

proof fn lemma_find_sub_bounds(s: Seq<char>, p: Seq<char>)
    ensures
        find_sub(s, p) matches Some(i) ==> 0 <= i && i + p.len() <= s.len() && s.subrange(
            i,
            i + p.len(),
        ) == p,
    decreases s.len(),
{
    if starts_with(s, p) {
        assert(s.subrange(0, p.len() as int) =~= s.take(p.len() as int));
    } else if s.len() > 0 {
        lemma_find_sub_bounds(s.drop_first(), p);
        if let Some(i) = find_sub(s.drop_first(), p) {
            assert(s.subrange(i + 1, i + 1 + p.len()) =~= s.drop_first().subrange(i, i + p.len()));
        }
    }
}

/// A note with a frontmatter block reads `---`, the block, `\n---`, an
/// optional line break, then the body; a note without one is all body.
pub proof fn lemma_frontmatter_split_reassembles(s: Seq<char>)
    ensures
        frontmatter_bounds(s) is None ==> frontmatter_split(s) == (Seq::<char>::empty(), s),
        frontmatter_bounds(s) is Some ==> {
            let (fm, body) = frontmatter_split(s);
            ||| s == fence_open() + fm + fence_close() + body
            ||| s == fence_open() + fm + fence_close() + seq!['\n'] + body
        },
{
    if let Some((fm_end, bs)) = frontmatter_bounds(s) {
        let after = s.skip(3);
        let nl = find_char(after, '\n');
        lemma_find_char_bounds(after, '\n');
        let np = if 0 <= nl < after.len() {
            nl + 1
        } else {
            0
        };
        let c = find_sub(after.skip(np), fence_close())->0;
        lemma_find_sub_bounds(after.skip(np), fence_close());
        assert(s.subrange(fm_end, fm_end + 4) =~= after.skip(np).subrange(c, c + 4));
        assert(s.take(3) =~= fence_open());
        if bs == fm_end + 4 {
            assert(s =~= fence_open() + s.subrange(3, fm_end) + fence_close() + s.skip(bs));
        } else {
            assert(s =~= fence_open() + s.subrange(3, fm_end) + fence_close() + seq!['\n'] + s.skip(
                bs,
            ));
        }
    }
}

/// Splits `content` into its frontmatter text and its body.
pub fn split_frontmatter(content: &str) -> (r: (String, String))
    ensures
        r.0@ == frontmatter_split(content@).0,
        r.1@ == frontmatter_split(content@).1,
{
    let v = chars_of(content);
    let open: [char; 3] = ['-', '-', '-'];
    let close: [char; 4] = ['\n', '-', '-', '-'];
    assert(open@ =~= fence_open());
    assert(close@ =~= fence_close());
    assert(v@.skip(0) =~= v@);
    if !starts_with_at(&v, 0, open.as_slice()) {
        return (string_from_chars(&[]), content.to_owned());
    }
    let ghost after = v@.skip(3);
    let nl = find_char_in(&v, '\n', 3, v.len());
    assert(v@.subrange(3, v@.len() as int) =~= after);
    let np: usize = if nl < v.len() {
        nl - 3 + 1
    } else {
        0
    };
    assert(after.skip(np as int) =~= v@.skip(3 + np));
    match find_sub_from(&v, 3 + np, close.as_slice()) {
        None => (string_from_chars(&[]), content.to_owned()),
        Some(k) => {
            proof {
                lemma_find_sub_bounds(after.skip(np as int), fence_close());
            }
            let fm_end = k;
            let bs = fm_end + 4;
            let bs2 = if bs < v.len() && v[bs] == '\n' {
                bs + 1
            } else {
                bs
            };
            let fm = sub_chars(&v, 3, fm_end);
            let body = sub_chars(&v, bs2, v.len());
            assert(v@.subrange(bs2 as int, v@.len() as int) =~= v@.skip(bs2 as int));
            (string_from_chars(fm.as_slice()), string_from_chars(body.as_slice()))
        },
    }
}

} // verus!

verus! {

/// A frontmatter value, as far as the note's logic reads it: a string, a list
/// (holding its string items, `None` for an item of another kind), or any
/// other kind of value.
pub enum FrontmatterValue {
    Text(String),
    List(Vec<Option<String>>),
    Other,
}

/// The mathematical content of a `FrontmatterValue`.
pub enum FmValue {
    Text(Seq<char>),
    List(Seq<Option<Seq<char>>>),
    Other,
}

pub open spec fn opt_strings_view(v: Seq<Option<String>>) -> Seq<Option<Seq<char>>> {
    v.map_values(|o: Option<String>| opt_view(o))
}

impl View for FrontmatterValue {
    type V = FmValue;

    open spec fn view(&self) -> FmValue {
        match self {
            FrontmatterValue::Text(s) => FmValue::Text(s@),
            FrontmatterValue::List(v) => FmValue::List(opt_strings_view(v@)),
            FrontmatterValue::Other => FmValue::Other,
        }
    }
}

/// The top-level mapping of a frontmatter block.
pub struct Frontmatter {
    pub entries: Vec<(String, FrontmatterValue)>,
}

/// The value of the first entry of `entries` under `key`.
pub open spec fn lookup(entries: Seq<(String, FrontmatterValue)>, key: Seq<char>) -> Option<FmValue>
    decreases entries.len(),
{
    if entries.len() == 0 {
        None
    } else if entries[0].0@ == key {
        Some(entries[0].1@)
    } else {
        lookup(entries.drop_first(), key)
    }
}

impl Frontmatter {
    /// The value stored under `key`.
    pub open spec fn get(&self, key: Seq<char>) -> Option<FmValue> {
        lookup(self.entries@, key)
    }

    /// The value stored under `key` (with `key` given by its characters).
    pub fn field(&self, key: &[char]) -> (r: Option<&FrontmatterValue>)
        ensures
            match r {
                Some(v) => self.get(key@) == Some(v@),
                None => self.get(key@) is None,
            },
    {
        let mut i: usize = 0;
        assert(self.entries@.skip(0) =~= self.entries@);
        while i < self.entries.len()
            invariant
                i <= self.entries.len(),
                lookup(self.entries@.skip(i as int), key@) == self.get(key@),
            decreases self.entries.len() - i,
        {
            let k = chars_of(self.entries[i].0.as_str());
            let mut same = k.len() == key.len();
            let mut j: usize = 0;
            while same && j < k.len()
                invariant
                    j <= k.len(),
                    same ==> k.len() == key@.len(),
                    same ==> forall|m: int| 0 <= m < j ==> k@[m] == key@[m],
                    !same ==> k@ != key@,
                decreases k.len() - j,
            {
                if k[j] != key[j] {
                    same = false;
                    assert(k@[j as int] != key@[j as int]);
                }
                j = j + 1;
            }
            proof {
                if same {
                    assert(k@ =~= key@);
                }
            }
            assert(self.entries@.skip(i as int)[0] == self.entries@[i as int]);
            if same {
                return Some(&self.entries[i].1);
            }
            assert(self.entries@.skip(i as int).drop_first() =~= self.entries@.skip(i + 1));
            i = i + 1;
        }
        None
    }
}

/// What the mapping that serde_yaml reads from the text `yaml` holds under
/// `key`, classified as a `FmValue`.
pub uninterp spec fn yaml_field(yaml: Seq<char>, key: Seq<char>) -> Option<FmValue>;

/// Parses a frontmatter block with `serde_yaml::from_str` into a map from
/// string keys to `serde_json::Value`, an empty map when the text is not
/// such a mapping, and keeps each value's kind and string content. The
/// contract claims only that every key reads back as `yaml_field` names it;
/// the order of the entries (a hash map's) is left unsaid.
#[verifier::external_body]
pub(crate) fn parse_frontmatter_yaml(yaml: &str) -> (fm: Frontmatter)
    ensures
        forall|k: Seq<char>| #[trigger] fm.get(k) == yaml_field(yaml@, k),
{
    let map: std::collections::HashMap<String, serde_json::Value> =
        serde_yaml::from_str(yaml).unwrap_or_default();
    let entries = map.into_iter().map(|(k, v)| (k, match v {
        serde_json::Value::String(s) => FrontmatterValue::Text(s),
        serde_json::Value::Array(a) => FrontmatterValue::List(a.into_iter().map(|x| match x {
            serde_json::Value::String(s) => Some(s),
            _ => None,
        }).collect()),
        _ => FrontmatterValue::Other,
    })).collect();
    Frontmatter { entries }
}

} // verus!

verus! {

/// `title`
pub open spec fn title_key() -> Seq<char> {
    seq!['t', 'i', 't', 'l', 'e']
}

/// `tags`
pub open spec fn tags_key() -> Seq<char> {
    seq!['t', 'a', 'g', 's']
}

/// `Untitled`
pub open spec fn untitled() -> Seq<char> {
    seq!['U', 'n', 't', 'i', 't', 'l', 'e', 'd']
}

/// The text of the first line among `ls` that starts with `# ` and holds more
/// than white space after it, trimmed.
pub open spec fn heading_title(ls: Seq<Seq<char>>) -> Option<Seq<char>>
    decreases ls.len(),
{
    if ls.len() == 0 {
        None
    } else if starts_with(ls[0], seq!['#', ' ']) && trim(ls[0].skip(2)).len() > 0 {
        Some(trim(ls[0].skip(2)))
    } else {
        heading_title(ls.drop_first())
    }
}

/// The title of a note: a non-empty `title` string of its frontmatter, else
/// its first level-one heading, else the stem of its file name, else
/// `Untitled`.
pub open spec fn note_title(fm_title: Option<FmValue>, body: Seq<char>, stem: Option<Seq<char>>) -> Seq<char> {
    let fallback = match heading_title(lines(body)) {
        Some(h) => h,
        None => match stem {
            Some(s) => s,
            None => untitled(),
        },
    };
    match fm_title {
        Some(FmValue::Text(t)) => if t.len() > 0 {
            t
        } else {
            fallback
        },
        _ => fallback,
    }
}

/// The file stem (file name without its extension) that std's
/// `Path::file_stem` gives for `path`, when it is valid UTF-8. What a path
/// means depends on the build target's separator rules.
pub uninterp spec fn path_file_stem(path: Seq<char>) -> Option<Seq<char>>;

/// Calls `Path::new(path).file_stem()` and keeps it as a `String` when it is
/// valid UTF-8. The contract names the result by `path_file_stem` only.
#[verifier::external_body]
pub(crate) fn file_stem(path: &str) -> (r: Option<String>)
    ensures
        opt_view(r) == path_file_stem(path@),
{
    std::path::Path::new(path).file_stem().and_then(|s| s.to_str()).map(|s| s.to_string())
}

fn heading_title_of(body: &str) -> (r: Option<String>)
    ensures
        opt_view(r) == heading_title(lines(body@)),
{
    let v = chars_of(body);
    let mut pos: usize = 0;
    assert(v@.skip(0) =~= v@);
    while pos < v.len()
        invariant
            pos <= v.len(),
            v@ == body@,
            heading_title(lines(v@.skip(pos as int))) == heading_title(lines(v@)),
        decreases v.len() - pos,
    {
        let (end, next) = next_line(&v, pos);
        let ghost ls = lines(v@.skip(pos as int));
        let ghost line = v@.subrange(pos as int, end as int);
        assert(ls[0] == line);
        assert(ls.drop_first() =~= lines(v@.skip(next as int)));
        if end - pos >= 2 && v[pos] == '#' && v[pos + 1] == ' ' {
            assert(line.take(2) =~= seq!['#', ' ']);
            assert(line.skip(2) =~= v@.subrange(pos + 2, end as int));
            let (a, b) = trim_bounds(&v, pos + 2, end);
            if a < b {
                let t = sub_chars(&v, a, b);
                assert(starts_with(line, seq!['#', ' ']));
                return Some(string_from_chars(t.as_slice()));
            }
        } else {
            proof {
                if line.len() >= 2 {
                    assert(line.take(2)[0] == line[0] && line.take(2)[1] == line[1]);
                }
            }
        }
        pos = next;
    }
    assert(v@.skip(pos as int) =~= Seq::<char>::empty());
    None
}

/// The title of a note with frontmatter `frontmatter` and body `body`, stored
/// at `path`.
pub fn extract_title(frontmatter: &Frontmatter, body: &str, path: &str) -> (r: String)
    ensures
        r@ == note_title(frontmatter.get(title_key()), body@, path_file_stem(path@)),
{
    let key: [char; 5] = ['t', 'i', 't', 'l', 'e'];
    assert(key@ =~= title_key());
    if let Some(FrontmatterValue::Text(t)) = frontmatter.field(key.as_slice()) {
        if !t.as_str().is_empty() {
            return t.clone();
        }
    }
    match heading_title_of(body) {
        Some(h) => h,
        None => match file_stem(path) {
            Some(s) => s,
            None => {
                let u: [char; 8] = ['U', 'n', 't', 'i', 't', 'l', 'e', 'd'];
                assert(u@ =~= untitled());
                string_from_chars(u.as_slice())
            },
        },
    }
}

/// The trimmed, non-empty string items of a frontmatter list.
pub open spec fn list_tags(items: Seq<Option<Seq<char>>>) -> Seq<Seq<char>>
    decreases items.len(),
{
    if items.len() == 0 {
        seq![]
    } else {
        (match items[0] {
            Some(s) => if trim(s).len() > 0 {
                seq![trim(s)]
            } else {
                seq![]
            },
            None => seq![],
        }) + list_tags(items.drop_first())
    }
}

/// The tags that a frontmatter `tags` value declares: the trimmed non-empty
/// string items of a list, or the trimmed non-empty comma-separated parts of
/// a string.
pub open spec fn frontmatter_tags(v: Option<FmValue>) -> Seq<Seq<char>> {
    match v {
        Some(FmValue::List(items)) => list_tags(items),
        Some(FmValue::Text(s)) => kept_trimmed(split_char(s, ',')),
        _ => seq![],
    }
}

/// The tags declared in the frontmatter.
pub fn extract_frontmatter_tags(frontmatter: &Frontmatter) -> (r: Vec<String>)
    ensures
        strings_view(r@) == frontmatter_tags(frontmatter.get(tags_key())),
{
    let key: [char; 4] = ['t', 'a', 'g', 's'];
    assert(key@ =~= tags_key());
    match frontmatter.field(key.as_slice()) {
        Some(FrontmatterValue::List(items)) => {
            let ghost iv = opt_strings_view(items@);
            let mut out: Vec<String> = Vec::new();
            let mut i: usize = 0;
            assert(iv.skip(0) =~= iv);
            assert(strings_view(out@) =~= Seq::<Seq<char>>::empty());
            while i < items.len()
                invariant
                    i <= items.len(),
                    iv == opt_strings_view(items@),
                    strings_view(out@) + list_tags(iv.skip(i as int)) == list_tags(iv),
                decreases items.len() - i,
            {
                assert(iv.skip(i as int)[0] == opt_view(items@[i as int]));
                assert(iv.skip(i as int).drop_first() =~= iv.skip(i + 1));
                let ghost before = out@;
                if let Some(s) = &items[i] {
                    let t = trim_str(s.as_str());
                    if !t.as_str().is_empty() {
                        out.push(t);
                        proof {
                            lemma_strings_view_push(before, out@.last());
                            assert(out@ == before.push(out@.last()));
                        }
                    } else {
                        proof {
                            if trim(s@).len() > 0 {
                                assert(t@.len() > 0);
                                assert(false);
                            }
                        }
                    }
                }
                i = i + 1;
            }
            assert(iv.skip(i as int) =~= Seq::<Option<Seq<char>>>::empty());
            out
        },
        Some(FrontmatterValue::Text(s)) => {
            let v = chars_of(s.as_str());
            split_trimmed(&v, ',')
        },
        _ => Vec::new(),
    }
}

} // verus!

verus! {

/// Whether `c` is a Unicode word character (`\w` of the `regex` crate), as
/// `regex_syntax::is_word_character` decides it.
pub uninterp spec fn regex_word_char(c: char) -> bool;

/// Calls `regex_syntax::is_word_character`, which panics only when the crate
/// is built without its `unicode-perl` feature (a default feature, enabled
/// here). The contract names the answer by `regex_word_char`.
#[verifier::external_body]
pub(crate) fn is_word_character(c: char) -> (b: bool)
    ensures
        b == regex_word_char(c),
{
    regex_syntax::is_word_character(c)
}

/// Position `j` of `s` holds a tag character (`[\w/]`).
pub open spec fn tag_char(s: Seq<char>, j: int) -> bool {
    0 <= j < s.len() && (regex_word_char(s[j]) || s[j] == '/')
}

/// The end of the run of tag characters that starts at `j`.
pub open spec fn tag_run_end(s: Seq<char>, j: int) -> int
    decreases s.len() - j,
{
    if tag_char(s, j) {
        tag_run_end(s, j + 1)
    } else {
        j
    }
}

pub proof fn lemma_tag_run_end(s: Seq<char>, j: int)
    requires
        0 <= j <= s.len(),
    ensures
        j <= tag_run_end(s, j) <= s.len(),
        forall|m: int| j <= m < tag_run_end(s, j) ==> tag_char(s, m),
        !tag_char(s, tag_run_end(s, j)),
    decreases s.len() - j,
{
    if tag_char(s, j) {
        lemma_tag_run_end(s, j + 1);
    }
}

/// Position `i` of `s` begins a line.
pub open spec fn line_start(s: Seq<char>, i: int) -> bool {
    i == 0 || (i > 0 && s[i - 1] == '\n')
}

/// The inline tags of `s` from position `i` on: the matches, leftmost first
/// and without overlap, of the pattern `(?m)(?:^|\s)#([\w/]+)`, each given
/// by its captured group.
pub open spec fn tags_from(s: Seq<char>, i: int) -> Seq<Seq<char>>
    decreases s.len() - i,
{
    if i < 0 || i >= s.len() {
        seq![]
    } else if line_start(s, i) && s[i] == '#' && tag_char(s, i + 1) {
        proof {
            lemma_tag_run_end(s, i + 1);
        }
        seq![s.subrange(i + 1, tag_run_end(s, i + 1))] + tags_from(s, tag_run_end(s, i + 1))
    } else if is_white_space(s[i]) && i + 1 < s.len() && s[i + 1] == '#' && tag_char(s, i + 2) {
        proof {
            lemma_tag_run_end(s, i + 2);
        }
        seq![s.subrange(i + 2, tag_run_end(s, i + 2))] + tags_from(s, tag_run_end(s, i + 2))
    } else {
        tags_from(s, i + 1)
    }
}

/// The inline tags of a note body.
pub open spec fn inline_tags(body: Seq<char>) -> Seq<Seq<char>> {
    tags_from(body, 0)
}

fn is_tag_char(v: &Vec<char>, j: usize) -> (b: bool)
    ensures
        b == tag_char(v@, j as int),
{
    j < v.len() && (v[j] == '/' || is_word_character(v[j]))
}

fn run_end(v: &Vec<char>, j: usize) -> (e: usize)
    requires
        j <= v.len(),
    ensures
        e as int == tag_run_end(v@, j as int),
{
    let mut e = j;
    while is_tag_char(v, e)
        invariant
            j <= e <= v.len(),
            tag_run_end(v@, j as int) == tag_run_end(v@, e as int),
        decreases v.len() - e,
    {
        e = e + 1;
    }
    e
}

/// The inline `#tags` of `body`.
pub fn extract_inline_tags(body: &str) -> (r: Vec<String>)
    ensures
        strings_view(r@) == inline_tags(body@),
{
    let v = chars_of(body);
    let mut out: Vec<String> = Vec::new();
    let mut i: usize = 0;
    assert(strings_view(out@) =~= Seq::<Seq<char>>::empty());
    while i < v.len()
        invariant
            i <= v.len(),
            v@ == body@,
            strings_view(out@) + tags_from(v@, i as int) == inline_tags(v@),
        decreases v.len() - i,
    {
        let at_line_start = i == 0 || v[i - 1] == '\n';
        let ghost before = out@;
        if at_line_start && v[i] == '#' && is_tag_char(&v, i + 1) {
            let e = run_end(&v, i + 1);
            proof {
                lemma_tag_run_end(v@, i + 1);
            }
            let t = sub_chars(&v, i + 1, e);
            out.push(string_from_chars(t.as_slice()));
            proof {
                lemma_strings_view_push(before, out@.last());
                assert(out@ == before.push(out@.last()));
            }
            i = e;
        } else if white_space(v[i]) && i + 1 < v.len() && v[i + 1] == '#' && is_tag_char(&v, i + 2) {
            let e = run_end(&v, i + 2);
            proof {
                lemma_tag_run_end(v@, i + 2);
            }
            let t = sub_chars(&v, i + 2, e);
            out.push(string_from_chars(t.as_slice()));
            proof {
                lemma_strings_view_push(before, out@.last());
                assert(out@ == before.push(out@.last()));
            }
            i = e;
        } else {
            i = i + 1;
        }
    }
    out
}

/// A parsed note.
pub struct ParsedNote {
    pub title: String,
    pub frontmatter: Frontmatter,
    /// The frontmatter block as written, for a full reading elsewhere.
    pub frontmatter_yaml: String,
    pub body: String,
    pub tags_inline: Vec<String>,
    pub tags_frontmatter: Vec<String>,
}

/// Parses the note stored at `path` with text `content`.
pub fn parse_note(path: &str, content: &str) -> (r: ParsedNote)
    ensures
        r.frontmatter_yaml@ == frontmatter_split(content@).0,
        r.body@ == frontmatter_split(content@).1,
        forall|k: Seq<char>|
            #[trigger] r.frontmatter.get(k) == yaml_field(frontmatter_split(content@).0, k),
        r.title@ == note_title(
            yaml_field(frontmatter_split(content@).0, title_key()),
            frontmatter_split(content@).1,
            path_file_stem(path@),
        ),
        strings_view(r.tags_frontmatter@) == frontmatter_tags(
            yaml_field(frontmatter_split(content@).0, tags_key()),
        ),
        strings_view(r.tags_inline@) == inline_tags(frontmatter_split(content@).1),
{
    let (raw, body) = split_frontmatter(content);
    let frontmatter = parse_frontmatter_yaml(raw.as_str());
    let title = extract_title(&frontmatter, body.as_str(), path);
    let tags_frontmatter = extract_frontmatter_tags(&frontmatter);
    let tags_inline = extract_inline_tags(body.as_str());
    ParsedNote { title, frontmatter, frontmatter_yaml: raw, body, tags_inline, tags_frontmatter }
}

} // verus!

verus! {

/// `t` is a well-formed tag: non-empty, made of word characters and `/`.
pub open spec fn is_tag_text(t: Seq<char>) -> bool {
    t.len() > 0 && forall|j: int| 0 <= j < t.len() ==> regex_word_char(#[trigger] t[j]) || t[j] == '/'
}

proof fn lemma_tags_from_shape(s: Seq<char>, i: int)
    ensures
        forall|m: int| 0 <= m < tags_from(s, i).len() ==> is_tag_text(#[trigger] tags_from(s, i)[m]),
    decreases s.len() - i,
{
    if i < 0 || i >= s.len() {
    } else if line_start(s, i) && s[i] == '#' && tag_char(s, i + 1) {
        lemma_tag_run_end(s, i + 1);
        let e = tag_run_end(s, i + 1);
        lemma_tags_from_shape(s, e);
        let t = s.subrange(i + 1, e);
        assert forall|j: int| 0 <= j < t.len() implies regex_word_char(#[trigger] t[j]) || t[j] == '/' by {
            assert(tag_char(s, i + 1 + j));
        }
        assert(is_tag_text(t));
        assert(tags_from(s, i) == seq![t] + tags_from(s, e));
        assert forall|m: int| 0 <= m < tags_from(s, i).len() implies is_tag_text(#[trigger] tags_from(s, i)[m]) by {
            if m > 0 {
                assert(tags_from(s, i)[m] == tags_from(s, e)[m - 1]);
            } else {
                assert(tags_from(s, i)[0] == t);
            }
        }
    } else if is_white_space(s[i]) && i + 1 < s.len() && s[i + 1] == '#' && tag_char(s, i + 2) {
        lemma_tag_run_end(s, i + 2);
        let e = tag_run_end(s, i + 2);
        lemma_tags_from_shape(s, e);
        let t = s.subrange(i + 2, e);
        assert forall|j: int| 0 <= j < t.len() implies regex_word_char(#[trigger] t[j]) || t[j] == '/' by {
            assert(tag_char(s, i + 2 + j));
        }
        assert(is_tag_text(t));
        assert(tags_from(s, i) == seq![t] + tags_from(s, e));
        assert forall|m: int| 0 <= m < tags_from(s, i).len() implies is_tag_text(#[trigger] tags_from(s, i)[m]) by {
            if m > 0 {
                assert(tags_from(s, i)[m] == tags_from(s, e)[m - 1]);
            } else {
                assert(tags_from(s, i)[0] == t);
            }
        }
    } else {
        lemma_tags_from_shape(s, i + 1);
        assert(tags_from(s, i) == tags_from(s, i + 1));
    }
}

/// Every inline tag is non-empty and made only of word characters and `/`.
pub proof fn lemma_inline_tags_are_tag_text(body: Seq<char>)
    ensures
        forall|m: int| 0 <= m < inline_tags(body).len() ==> is_tag_text(#[trigger] inline_tags(body)[m]),
{
    lemma_tags_from_shape(body, 0);
}

} // verus!

verus! {

proof fn lemma_heading_title_nonempty(ls: Seq<Seq<char>>)
    ensures
        heading_title(ls) matches Some(h) ==> h.len() > 0,
    decreases ls.len(),
{
    if ls.len() > 0 {
        lemma_heading_title_nonempty(ls.drop_first());
    }
}

/// A note's title is never empty, as long as the file stem it may fall back
/// to is not empty.
pub proof fn lemma_note_title_nonempty(fm_title: Option<FmValue>, body: Seq<char>, stem: Option<Seq<char>>)
    requires
        stem matches Some(x) ==> x.len() > 0,
    ensures
        note_title(fm_title, body, stem).len() > 0,
{
    lemma_heading_title_nonempty(lines(body));
}

} // verus!

verus! {

proof fn lemma_tag_run_end_shift(p: Seq<char>, b: Seq<char>, k: int)
    requires
        0 <= k <= b.len(),
    ensures
        tag_run_end(p + b, p.len() + k) == p.len() + tag_run_end(b, k),
    decreases b.len() - k,
{
    let s = p + b;
    if k < b.len() {
        assert(s[p.len() + k] == b[k]);
    }
    assert(tag_char(s, p.len() + k) == tag_char(b, k));
    if tag_char(b, k) {
        lemma_tag_run_end_shift(p, b, k + 1);
    }
}

proof fn lemma_tag_run_end_prefix(a: Seq<char>, q: Seq<char>, j: int)
    requires
        0 <= j <= a.len(),
        !tag_char(q, 0),
    ensures
        tag_run_end(a + q, j) == tag_run_end(a, j),
    decreases a.len() - j,
{
    let s = a + q;
    if j < a.len() {
        assert(s[j] == a[j]);
        assert(tag_char(s, j) == tag_char(a, j));
        if tag_char(a, j) {
            lemma_tag_run_end_prefix(a, q, j + 1);
        }
    } else if q.len() > 0 {
        assert(s[j] == q[0]);
    }
}

/// Past the first character of `b`, the tag scan of `p + b` reads `b` alone.
proof fn lemma_tags_from_shift(p: Seq<char>, b: Seq<char>, j: int)
    requires
        1 <= j,
    ensures
        tags_from(p + b, p.len() + j) == tags_from(b, j),
    decreases b.len() - j,
{
    let s = p + b;
    let i = p.len() + j;
    if j < b.len() {
        assert(s[i - 1] == b[j - 1]);
        assert(s[i] == b[j]);
        assert(line_start(s, i) == line_start(b, j));
        if j + 1 < b.len() {
            assert(s[i + 1] == b[j + 1]);
        }
        if j + 2 < b.len() {
            assert(s[i + 2] == b[j + 2]);
        }
        assert(tag_char(s, i + 1) == tag_char(b, j + 1));
        assert(tag_char(s, i + 2) == tag_char(b, j + 2));
        if line_start(b, j) && b[j] == '#' && tag_char(b, j + 1) {
            lemma_tag_run_end(b, j + 1);
            lemma_tag_run_end_shift(p, b, j + 1);
            let e = tag_run_end(b, j + 1);
            assert(s.subrange(i + 1, p.len() + e) =~= b.subrange(j + 1, e));
            lemma_tags_from_shift(p, b, e);
        } else if is_white_space(b[j]) && j + 1 < b.len() && b[j + 1] == '#' && tag_char(b, j + 2) {
            lemma_tag_run_end(b, j + 2);
            lemma_tag_run_end_shift(p, b, j + 2);
            let e = tag_run_end(b, j + 2);
            assert(s.subrange(i + 2, p.len() + e) =~= b.subrange(j + 2, e));
            lemma_tags_from_shift(p, b, e);
        } else {
            lemma_tags_from_shift(p, b, j + 1);
        }
    }
}

/// Up to a white-space character that is not a tag character, the tag scan of
/// `a + [sep] + b` reads `a` alone.
proof fn lemma_tags_from_prefix(a: Seq<char>, sep: char, b: Seq<char>, i: int)
    requires
        is_white_space(sep),
        !regex_word_char(sep),
        0 <= i <= a.len(),
    ensures
        tags_from(a + seq![sep] + b, i) == tags_from(a, i) + tags_from(a + seq![sep] + b, a.len() as int),
    decreases a.len() - i,
{
    let s = a + seq![sep] + b;
    let q = seq![sep] + b;
    assert(s =~= a + q);
    assert(q[0] == sep);
    assert(!tag_char(q, 0));
    assert(s[a.len() as int] == sep);
    if i == a.len() {
        assert(tags_from(a, i) =~= Seq::<Seq<char>>::empty());
        assert(tags_from(s, i) =~= tags_from(a, i) + tags_from(s, i));
    } else {
        assert(s[i] == a[i]);
        if i > 0 {
            assert(s[i - 1] == a[i - 1]);
        }
        assert(line_start(s, i) == line_start(a, i));
        if i + 1 < a.len() {
            assert(s[i + 1] == a[i + 1]);
        }
        if i + 2 < a.len() {
            assert(s[i + 2] == a[i + 2]);
        }
        assert(tag_char(s, i + 1) == tag_char(a, i + 1));
        assert(i + 1 < a.len() ==> tag_char(s, i + 2) == tag_char(a, i + 2));
        let rest = tags_from(s, a.len() as int);
        if line_start(a, i) && a[i] == '#' && tag_char(a, i + 1) {
            lemma_tag_run_end(a, i + 1);
            lemma_tag_run_end_prefix(a, q, i + 1);
            let e = tag_run_end(a, i + 1);
            assert(s.subrange(i + 1, e) =~= a.subrange(i + 1, e));
            lemma_tags_from_prefix(a, sep, b, e);
            assert(tags_from(s, i) == seq![a.subrange(i + 1, e)] + tags_from(s, e));
            assert(tags_from(a, i) == seq![a.subrange(i + 1, e)] + tags_from(a, e));
            assert(seq![a.subrange(i + 1, e)] + (tags_from(a, e) + rest) =~= (seq![a.subrange(i + 1, e)]
                + tags_from(a, e)) + rest);
        } else if is_white_space(a[i]) && i + 1 < a.len() && a[i + 1] == '#' && tag_char(a, i + 2) {
            lemma_tag_run_end(a, i + 2);
            lemma_tag_run_end_prefix(a, q, i + 2);
            let e = tag_run_end(a, i + 2);
            assert(s.subrange(i + 2, e) =~= a.subrange(i + 2, e));
            lemma_tags_from_prefix(a, sep, b, e);
            assert(tags_from(s, i) == seq![a.subrange(i + 2, e)] + tags_from(s, e));
            assert(tags_from(a, i) == seq![a.subrange(i + 2, e)] + tags_from(a, e));
            assert(seq![a.subrange(i + 2, e)] + (tags_from(a, e) + rest) =~= (seq![a.subrange(i + 2, e)]
                + tags_from(a, e)) + rest);
        } else {
            assert(i + 1 == a.len() ==> s[i + 1] == sep);
            assert(tags_from(s, i) == tags_from(s, i + 1));
            lemma_tags_from_prefix(a, sep, b, i + 1);
        }
    }
}

/// Splitting a body at a white-space character that is not a tag character
/// splits its inline tags: those of `a + [sep] + b` are those of `a` followed
/// by those of `b`. A tag right after another one and a single space is
/// therefore found, as the scan of `b` on its own finds it.
pub proof fn lemma_inline_tags_split(a: Seq<char>, sep: char, b: Seq<char>)
    requires
        is_white_space(sep),
        !regex_word_char(sep),
    ensures
        inline_tags(a + seq![sep] + b) == inline_tags(a) + inline_tags(b),
{
    let s = a + seq![sep] + b;
    let p = a + seq![sep];
    let n = a.len() as int;
    assert(s =~= p + b);
    assert(s[n] == sep);
    lemma_tags_from_prefix(a, sep, b, 0);
    if b.len() > 0 {
        assert(s[n + 1] == b[0]);
    }
    if b.len() > 1 {
        assert(s[n + 2] == b[1]);
    }
    assert(tag_char(s, n + 2) == tag_char(b, 1));
    if b.len() > 0 && b[0] == '#' && tag_char(b, 1) {
        lemma_tag_run_end(b, 1);
        lemma_tag_run_end_shift(p, b, 1);
        let e = tag_run_end(b, 1);
        assert(s.subrange(n + 2, p.len() + e) =~= b.subrange(1, e));
        lemma_tags_from_shift(p, b, e);
        assert(tags_from(s, n) == seq![b.subrange(1, e)] + tags_from(s, p.len() + e));
        assert(tags_from(b, 0) == seq![b.subrange(1, e)] + tags_from(b, e));
    } else {
        assert(tags_from(s, n) == tags_from(s, n + 1));
        if b.len() > 0 {
            if b.len() > 2 {
                assert(s[n + 3] == b[2]);
            }
            assert(tag_char(s, n + 3) == tag_char(b, 2));
            if is_white_space(b[0]) && 1 < b.len() && b[1] == '#' && tag_char(b, 2) {
                lemma_tag_run_end(b, 2);
                lemma_tag_run_end_shift(p, b, 2);
                let e = tag_run_end(b, 2);
                assert(s.subrange(n + 3, p.len() + e) =~= b.subrange(2, e));
                lemma_tags_from_shift(p, b, e);
                assert(tags_from(s, n + 1) == seq![b.subrange(2, e)] + tags_from(s, p.len() + e));
                assert(tags_from(b, 0) == seq![b.subrange(2, e)] + tags_from(b, e));
            } else {
                lemma_tags_from_shift(p, b, 1);
                assert(tags_from(s, n + 1) == tags_from(s, n + 2));
                assert(tags_from(b, 0) == tags_from(b, 1));
            }
        }
    }
}

} // verus!
