//! Note identifiers, record ids, tag slugs and the indexer's error type.
use vstd::prelude::*;
use vstd::utf8::encode_utf8;
use sha2::Digest;
use crate::notes::{digit_char, push_chars};
use crate::text::{
    chars_of, find_char, find_char_in, lowercase, string_from_chars, sub_chars, to_lowercase,
};
use crate::wikilink::opt_view;

verus! {

/// The lower-case hexadecimal digit of `d` (below 16).
pub open spec fn hex_digit(d: nat) -> char {
    if d < 10 {
        digit_char(d)
    } else if d == 10 {
        'a'
    } else if d == 11 {
        'b'
    } else if d == 12 {
        'c'
    } else if d == 13 {
        'd'
    } else if d == 14 {
        'e'
    } else {
        'f'
    }
}

/// Lower-case hexadecimal notation of `data`, two digits per byte, the high
/// half of each byte first.
pub open spec fn hex_lower(data: Seq<u8>) -> Seq<char>
    decreases data.len(),
{
    if data.len() == 0 {
        seq![]
    } else {
        hex_lower(data.drop_last()) + seq![
            hex_digit((data.last() / 16) as nat),
            hex_digit((data.last() % 16) as nat),
        ]
    }
}

/// Calls `hex::encode`, which writes each byte as two lower-case hexadecimal
/// digits, high half first; the contract states exactly that.
#[verifier::external_body]
pub(crate) fn hex_encode(data: &[u8]) -> (r: String)
    ensures
        r@ == hex_lower(data@),
{
    hex::encode(data)
}

/// The SHA-256 digest of `data`.
pub uninterp spec fn sha256(data: Seq<u8>) -> Seq<u8>;

/// Calls `sha2::Sha256::digest`; the contract names the digest by `sha256`
/// and states its documented length of 32 bytes.
#[verifier::external_body]
pub(crate) fn sha256_digest(data: &[u8]) -> (r: Vec<u8>)
    ensures
        r@ == sha256(data@),
        r@.len() == 32,
{
    sha2::Sha256::digest(data).to_vec()
}

/// The path of `path` relative to `root`, as std's `Path::strip_prefix`
/// (which compares whole components) gives it, written as text. What a path
/// means depends on the build target's separator rules.
pub uninterp spec fn path_relative(root: Seq<char>, path: Seq<char>) -> Option<Seq<char>>;

/// Calls `Path::new(path).strip_prefix(root)` and renders the remainder with
/// `to_string_lossy`; the contract names the result by `path_relative`.
#[verifier::external_body]
pub(crate) fn strip_path_prefix(root: &str, path: &str) -> (r: Option<String>)
    ensures
        opt_view(r) == path_relative(root@, path@),
{
    std::path::Path::new(path).strip_prefix(root).ok().map(|p| p.to_string_lossy().to_string())
}

/// `s` with every backslash replaced by a slash.
pub open spec fn with_slashes(s: Seq<char>) -> Seq<char> {
    s.map_values(|c: char| if c == '\\' { '/' } else { c })
}

/// `note:`
pub open spec fn note_table() -> Seq<char> {
    seq!['n', 'o', 't', 'e']
}

/// The record id of the note whose path relative to the vault root is
/// `relative`: `note:` followed by the first 16 bytes of the SHA-256 digest of
/// the path (with slashes as separators) in hexadecimal.
pub open spec fn note_id_of(relative: Seq<char>) -> Seq<char> {
    note_table() + seq![':'] + hex_lower(sha256(encode_utf8(with_slashes(relative))).take(16))
}

/// The note id for a path given relative to the vault root.
pub fn note_id_from_relative(relative: &str) -> (r: String)
    ensures
        r@ == note_id_of(relative@),
{
    let v = chars_of(relative);
    let mut w: Vec<char> = Vec::new();
    let mut i: usize = 0;
    while i < v.len()
        invariant
            i <= v.len(),
            w@ == with_slashes(v@.take(i as int)),
        decreases v.len() - i,
    {
        let c = if v[i] == '\\' {
            '/'
        } else {
            v[i]
        };
        w.push(c);
        assert(with_slashes(v@.take(i + 1)) =~= with_slashes(v@.take(i as int)).push(c));
        i = i + 1;
    }
    assert(v@.take(v@.len() as int) =~= v@);
    let normalized = string_from_chars(w.as_slice());
    let digest = sha256_digest(normalized.as_str().as_bytes());
    let mut head: Vec<u8> = Vec::new();
    let mut k: usize = 0;
    while k < 16
        invariant
            k <= 16,
            digest@.len() == 32,
            head@ == digest@.take(k as int),
        decreases 16 - k,
    {
        head.push(digest[k]);
        assert(digest@.take(k + 1) =~= digest@.take(k as int).push(digest@[k as int]));
        k = k + 1;
    }
    let hex = hex_encode(head.as_slice());
    let prefix: [char; 5] = ['n', 'o', 't', 'e', ':'];
    let mut out: Vec<char> = Vec::new();
    push_chars(&mut out, prefix.as_slice());
    let h = chars_of(hex.as_str());
    push_chars(&mut out, h.as_slice());
    assert(out@ =~= note_id_of(relative@));
    string_from_chars(out.as_slice())
}

/// The note id of the note at `note_path` in the vault rooted at `vault_root`.
pub fn note_id_from_path(vault_root: &str, note_path: &str) -> (r: String)
    requires
        path_relative(vault_root@, note_path@) is Some,
    ensures
        r@ == note_id_of(path_relative(vault_root@, note_path@)->0),
{
    match strip_path_prefix(vault_root, note_path) {
        Some(rel) => note_id_from_relative(rel.as_str()),
        None => {
            assert(false);
            string_from_chars(&[])
        },
    }
}

/// The note id of the note at `note_path`, or `None` when the path does not
/// lie under `vault_root`.
pub fn try_note_id_from_path(vault_root: &str, note_path: &str) -> (r: Option<String>)
    ensures
        match r {
            Some(id) => path_relative(vault_root@, note_path@) is Some && id@ == note_id_of(
                path_relative(vault_root@, note_path@)->0,
            ),
            None => path_relative(vault_root@, note_path@) is None,
        },
{
    match strip_path_prefix(vault_root, note_path) {
        Some(_) => Some(note_id_from_path(vault_root, note_path)),
        None => None,
    }
}

/// Splits a record id `table:key` at its first colon.
pub fn split_id(id: &str) -> (r: (String, String))
    requires
        find_char(id@, ':') < id@.len(),
    ensures
        r.0@ == id@.take(find_char(id@, ':')),
        r.1@ == id@.skip(find_char(id@, ':') + 1),
{
    let v = chars_of(id);
    let k = find_char_in(&v, ':', 0, v.len());
    assert(v@.subrange(0, v@.len() as int) =~= v@);
    let a = sub_chars(&v, 0, k);
    let b = sub_chars(&v, k + 1, v.len());
    assert(v@.subrange(0, k as int) =~= v@.take(k as int));
    assert(v@.subrange(k + 1, v@.len() as int) =~= v@.skip(k + 1));
    (string_from_chars(a.as_slice()), string_from_chars(b.as_slice()))
}

/// A note id splits into the table `note` and the hexadecimal digest.
pub proof fn lemma_note_id_splits(relative: Seq<char>)
    ensures
        find_char(note_id_of(relative), ':') == 4,
        note_id_of(relative).take(4) == note_table(),
        note_id_of(relative).skip(5) == hex_lower(
            sha256(encode_utf8(with_slashes(relative))).take(16),
        ),
{
    let id = note_id_of(relative);
    assert(id[0] == 'n' && id[1] == 'o' && id[2] == 't' && id[3] == 'e' && id[4] == ':');
    crate::text::lemma_find_char_is(id, ':', 4);
    assert(id.take(4) =~= note_table());
    assert(id.skip(5) =~= hex_lower(sha256(encode_utf8(with_slashes(relative))).take(16)));
}

/// The slug of a tag: its name in lower case with spaces turned into hyphens.
pub open spec fn slug_of(name: Seq<char>) -> Seq<char> {
    lowercase(name).map_values(|c: char| if c == ' ' { '-' } else { c })
}

/// The slug under which a tag is stored.
pub fn tag_slug(name: &str) -> (r: String)
    ensures
        r@ == slug_of(name@),
{
    let low = to_lowercase(name);
    let v = chars_of(low.as_str());
    let mut w: Vec<char> = Vec::new();
    let mut i: usize = 0;
    while i < v.len()
        invariant
            i <= v.len(),
            w@ == v@.take(i as int).map_values(|c: char| if c == ' ' { '-' } else { c }),
        decreases v.len() - i,
    {
        let c = if v[i] == ' ' {
            '-'
        } else {
            v[i]
        };
        w.push(c);
        assert(v@.take(i + 1).map_values(|c: char| if c == ' ' { '-' } else { c }) =~= v@.take(
            i as int,
        ).map_values(|c: char| if c == ' ' { '-' } else { c }).push(c));
        i = i + 1;
    }
    assert(v@.take(v@.len() as int) =~= v@);
    string_from_chars(w.as_slice())
}

/// The record a link edge points to: `note:` followed by the id of the note
/// its target resolved to, else `dangling_node:` followed by the id of the
/// placeholder for the unresolved target.
pub open spec fn link_target_of(resolved: Option<Seq<char>>, dangling_id: Seq<char>) -> Seq<char> {
    match resolved {
        Some(id) => note_table() + seq![':'] + id,
        None => seq!['d', 'a', 'n', 'g', 'l', 'i', 'n', 'g', '_', 'n', 'o', 'd', 'e', ':']
            + dangling_id,
    }
}

/// The record that a link edge from a note points to.
pub fn link_target_record(resolved: Option<String>, dangling_id: &str) -> (r: String)
    ensures
        r@ == link_target_of(opt_view(resolved), dangling_id@),
{
    let mut out: Vec<char> = Vec::new();
    match resolved {
        Some(id) => {
            let t: [char; 5] = ['n', 'o', 't', 'e', ':'];
            push_chars(&mut out, t.as_slice());
            let c = chars_of(id.as_str());
            push_chars(&mut out, c.as_slice());
        },
        None => {
            let t: [char; 14] = ['d', 'a', 'n', 'g', 'l', 'i', 'n', 'g', '_', 'n', 'o', 'd', 'e', ':'];
            push_chars(&mut out, t.as_slice());
            let c = chars_of(dangling_id);
            push_chars(&mut out, c.as_slice());
        },
    }
    assert(out@ =~= link_target_of(opt_view(resolved), dangling_id@));
    string_from_chars(out.as_slice())
}

} // verus!

verus! {

/// The extension that std's `Path::extension` gives for `path`, when it is
/// valid UTF-8. What a path means depends on the build target's separator
/// rules.
pub uninterp spec fn path_extension(path: Seq<char>) -> Option<Seq<char>>;

/// Calls `Path::new(path).extension()` and keeps it as a `String` when it is
/// valid UTF-8; the contract names the result by `path_extension`.
#[verifier::external_body]
pub(crate) fn extension(path: &str) -> (r: Option<String>)
    ensures
        opt_view(r) == path_extension(path@),
{
    std::path::Path::new(path).extension().and_then(|e| e.to_str()).map(|e| e.to_string())
}

/// Whether `path` names a Markdown note (its extension is `md`).
pub fn is_markdown_path(path: &str) -> (b: bool)
    ensures
        b == (path_extension(path@) == Some(seq!['m', 'd'])),
{
    match extension(path) {
        Some(e) => {
            let c = chars_of(e.as_str());
            let r = c.len() == 2 && c[0] == 'm' && c[1] == 'd';
            proof {
                if r {
                    assert(c@ =~= seq!['m', 'd']);
                } else if c@.len() == 2 {
                    assert(c@ != seq!['m', 'd']) by {
                        if c@ == seq!['m', 'd'] {
                            assert(c@[0] == 'm' && c@[1] == 'd');
                        }
                    }
                }
            }
            r
        },
        None => false,
    }
}

/// Std's `Debug` rendering of the path written as `s` (`Path`'s `Debug`: the
/// path quoted, with its characters escaped). What a path means depends on
/// the build target's separator rules.
pub uninterp spec fn path_debug(s: Seq<char>) -> Seq<char>;

/// Renders the path `s` with `format!("{:?}", Path::new(s))`; the contract
/// names the result by `path_debug`.
#[verifier::external_body]
pub(crate) fn debug_path(s: &str) -> (r: String)
    ensures
        r@ == path_debug(s@),
{
    format!("{:?}", std::path::Path::new(s))
}

/// Why indexing a note failed.
pub enum IndexerError {
    /// The file at the path (first) could not be read, for the reason (second).
    ReadFailed(String, String),
    /// The database reported an error.
    Unexpected(String),
}

impl IndexerError {
    /// The message that reports the error.
    pub open spec fn message_of(&self) -> Seq<char> {
        match self {
            IndexerError::ReadFailed(p, e) => seq![
                'F',
                'a',
                'i',
                'l',
                'e',
                'd',
                ' ',
                't',
                'o',
                ' ',
                'r',
                'e',
                'a',
                'd',
                ' ',
                'f',
                'i',
                'l',
                'e',
                ' ',
            ] + path_debug(p@) + seq![':', ' '] + e@,
            IndexerError::Unexpected(m) => seq![
                'D',
                'a',
                't',
                'a',
                'b',
                'a',
                's',
                'e',
                ' ',
                'e',
                'r',
                'r',
                'o',
                'r',
                ':',
                ' ',
            ] + m@,
        }
    }

    /// The message that reports the error: `Failed to read file "path": reason`
    /// or `Database error: message`.
    pub fn message(&self) -> (r: String)
        ensures
            r@ == self.message_of(),
    {
        let mut out: Vec<char> = Vec::new();
        match self {
            IndexerError::ReadFailed(p, e) => {
                let head: [char; 20] = [
                    'F',
                    'a',
                    'i',
                    'l',
                    'e',
                    'd',
                    ' ',
                    't',
                    'o',
                    ' ',
                    'r',
                    'e',
                    'a',
                    'd',
                    ' ',
                    'f',
                    'i',
                    'l',
                    'e',
                    ' ',
                ];
                push_chars(&mut out, head.as_slice());
                let q = debug_path(p.as_str());
                let qc = chars_of(q.as_str());
                push_chars(&mut out, qc.as_slice());
                let sep: [char; 2] = [':', ' '];
                push_chars(&mut out, sep.as_slice());
                let ec = chars_of(e.as_str());
                push_chars(&mut out, ec.as_slice());
            },
            IndexerError::Unexpected(m) => {
                let head: [char; 16] = [
                    'D',
                    'a',
                    't',
                    'a',
                    'b',
                    'a',
                    's',
                    'e',
                    ' ',
                    'e',
                    'r',
                    'r',
                    'o',
                    'r',
                    ':',
                    ' ',
                ];
                push_chars(&mut out, head.as_slice());
                let mc = chars_of(m.as_str());
                push_chars(&mut out, mc.as_slice());
            },
        }
        assert(out@ =~= self.message_of());
        string_from_chars(out.as_slice())
    }
}

} // verus!

verus! {

/// Where a tag of a note was declared.
pub enum TagSource {
    Frontmatter,
    Inline,
}

/// One tag to attach to a note: its name, its slug and where it came from.
pub struct TagAssignment {
    pub name: String,
    pub slug: String,
    pub source: TagSource,
}

/// The tags of a note in the order they are attached: the frontmatter tags,
/// then the inline tags, each with its slug.
pub fn tag_assignments(frontmatter_tags: &Vec<String>, inline_tags: &Vec<String>) -> (r: Vec<
    TagAssignment,
>)
    ensures
        r@.len() == frontmatter_tags@.len() + inline_tags@.len(),
        forall|i: int|
            0 <= i < frontmatter_tags@.len() ==> {
                &&& (#[trigger] r@[i]).name@ == frontmatter_tags@[i]@
                &&& r@[i].slug@ == slug_of(frontmatter_tags@[i]@)
                &&& r@[i].source is Frontmatter
            },
        forall|i: int|
            0 <= i < inline_tags@.len() ==> {
                &&& (#[trigger] r@[frontmatter_tags@.len() + i]).name@ == inline_tags@[i]@
                &&& r@[frontmatter_tags@.len() + i].slug@ == slug_of(inline_tags@[i]@)
                &&& r@[frontmatter_tags@.len() + i].source is Inline
            },
{
    let mut r: Vec<TagAssignment> = Vec::new();
    let mut i: usize = 0;
    while i < frontmatter_tags.len()
        invariant
            i <= frontmatter_tags@.len(),
            r@.len() == i,
            forall|k: int|
                0 <= k < i ==> {
                    &&& (#[trigger] r@[k]).name@ == frontmatter_tags@[k]@
                    &&& r@[k].slug@ == slug_of(frontmatter_tags@[k]@)
                    &&& r@[k].source is Frontmatter
                },
        decreases frontmatter_tags.len() - i,
    {
        let name = frontmatter_tags[i].clone();
        let slug = tag_slug(name.as_str());
        r.push(TagAssignment { name, slug, source: TagSource::Frontmatter });
        i = i + 1;
    }
    let n = frontmatter_tags.len();
    let mut j: usize = 0;
    while j < inline_tags.len()
        invariant
            n == frontmatter_tags@.len(),
            j <= inline_tags@.len(),
            r@.len() == n + j,
            forall|k: int|
                0 <= k < n ==> {
                    &&& (#[trigger] r@[k]).name@ == frontmatter_tags@[k]@
                    &&& r@[k].slug@ == slug_of(frontmatter_tags@[k]@)
                    &&& r@[k].source is Frontmatter
                },
            forall|k: int|
                0 <= k < j ==> {
                    &&& (#[trigger] r@[n + k]).name@ == inline_tags@[k]@
                    &&& r@[n + k].slug@ == slug_of(inline_tags@[k]@)
                    &&& r@[n + k].source is Inline
                },
        decreases inline_tags.len() - j,
    {
        let name = inline_tags[j].clone();
        let slug = tag_slug(name.as_str());
        r.push(TagAssignment { name, slug, source: TagSource::Inline });
        assert(r@[n + j as int].name@ == inline_tags@[j as int]@);
        j = j + 1;
    }
    r
}

/// What happened to files of the vault, as the file watcher reports it.
pub enum WatchEventKind {
    Created,
    Modified,
    Removed,
    Other,
}

/// What the watcher does about one path.
pub enum WatchAction {
    /// Read and index the note file again.
    Reindex(String),
    /// Delete the note records stored under the path.
    DeleteRecord(String),
}

/// The actions for one event: created or modified Markdown files are indexed
/// again, removed paths lose their records, anything else is ignored.
pub open spec fn watch_actions_of(kind: WatchEventKind, paths: Seq<Seq<char>>) -> Seq<(bool, Seq<char>)>
    decreases paths.len(),
{
    if paths.len() == 0 {
        seq![]
    } else {
        let rest = watch_actions_of(kind, paths.drop_last());
        let p = paths.last();
        match kind {
            WatchEventKind::Created | WatchEventKind::Modified => if path_extension(p) == Some(
                seq!['m', 'd'],
            ) {
                rest.push((true, p))
            } else {
                rest
            },
            WatchEventKind::Removed => rest.push((false, p)),
            WatchEventKind::Other => rest,
        }
    }
}

/// An action as `(reindex?, path)`.
pub open spec fn action_view(a: WatchAction) -> (bool, Seq<char>) {
    match a {
        WatchAction::Reindex(p) => (true, p@),
        WatchAction::DeleteRecord(p) => (false, p@),
    }
}

/// The actions the watcher takes for an event of kind `kind` on `paths`.
pub fn watch_actions(kind: &WatchEventKind, paths: &Vec<String>) -> (r: Vec<WatchAction>)
    ensures
        r@.map_values(|a: WatchAction| action_view(a)) == watch_actions_of(
            *kind,
            paths@.map_values(|p: String| p@),
        ),
{
    let ghost pv = paths@.map_values(|p: String| p@);
    let mut r: Vec<WatchAction> = Vec::new();
    let mut i: usize = 0;
    while i < paths.len()
        invariant
            i <= paths@.len(),
            pv == paths@.map_values(|p: String| p@),
            r@.map_values(|a: WatchAction| action_view(a)) == watch_actions_of(*kind, pv.take(i as int)),
        decreases paths.len() - i,
    {
        let ghost before = r@;
        assert(pv.take(i + 1).drop_last() =~= pv.take(i as int));
        assert(pv.take(i + 1).last() == paths@[i as int]@);
        match kind {
            WatchEventKind::Created | WatchEventKind::Modified => {
                if is_markdown_path(paths[i].as_str()) {
                    r.push(WatchAction::Reindex(paths[i].clone()));
                    assert(r@.map_values(|a: WatchAction| action_view(a)) =~= before.map_values(
                        |a: WatchAction| action_view(a),
                    ).push((true, paths@[i as int]@)));
                }
            },
            WatchEventKind::Removed => {
                r.push(WatchAction::DeleteRecord(paths[i].clone()));
                assert(r@.map_values(|a: WatchAction| action_view(a)) =~= before.map_values(
                    |a: WatchAction| action_view(a),
                ).push((false, paths@[i as int]@)));
            },
            WatchEventKind::Other => {},
        }
        i = i + 1;
    }
    assert(pv.take(i as int) =~= pv);
    r
}

} // verus!

verus! {

/// A path written with backslashes as separators gets the same note id as the
/// same path written with slashes.
pub proof fn lemma_note_id_ignores_separator_style(relative: Seq<char>)
    ensures
        note_id_of(with_slashes(relative)) == note_id_of(relative),
{
    assert(with_slashes(with_slashes(relative)) =~= with_slashes(relative));
}

} // verus!

verus! {

/// How the watcher answers events: created and modified files are handled
/// alike; a Markdown file is indexed again and any other file ignored; every
/// removed path loses its records; other events do nothing; and the answer
/// to a batch of paths is the answers to its parts, in order.
pub proof fn lemma_watcher_answers(kind: WatchEventKind, ps: Seq<Seq<char>>, qs: Seq<Seq<char>>, p: Seq<char>)
    ensures
        watch_actions_of(WatchEventKind::Created, ps) == watch_actions_of(WatchEventKind::Modified, ps),
        path_extension(p) == Some(seq!['m', 'd']) ==> watch_actions_of(WatchEventKind::Created, seq![p])
            == seq![(true, p)] && watch_actions_of(WatchEventKind::Modified, seq![p]) == seq![(true, p)],
        path_extension(p) != Some(seq!['m', 'd']) ==> watch_actions_of(WatchEventKind::Created, seq![p])
            == Seq::<(bool, Seq<char>)>::empty() && watch_actions_of(WatchEventKind::Modified, seq![p])
            == Seq::<(bool, Seq<char>)>::empty(),
        watch_actions_of(WatchEventKind::Removed, seq![p]) == seq![(false, p)],
        watch_actions_of(WatchEventKind::Other, ps) == Seq::<(bool, Seq<char>)>::empty(),
        watch_actions_of(kind, ps + qs) == watch_actions_of(kind, ps) + watch_actions_of(kind, qs),
    decreases ps.len() + qs.len(),
{
    lemma_created_like_modified(ps);
    lemma_other_ignored(ps);
    assert(seq![p].drop_last() =~= Seq::<Seq<char>>::empty());
    assert(seq![p].last() == p);
    assert(watch_actions_of(WatchEventKind::Created, Seq::<Seq<char>>::empty()).len() == 0);
    assert(watch_actions_of(WatchEventKind::Modified, Seq::<Seq<char>>::empty()).len() == 0);
    assert(watch_actions_of(WatchEventKind::Removed, Seq::<Seq<char>>::empty()).len() == 0);
    assert(Seq::<(bool, Seq<char>)>::empty().push((true, p)) =~= seq![(true, p)]);
    assert(Seq::<(bool, Seq<char>)>::empty().push((false, p)) =~= seq![(false, p)]);
    lemma_watch_concat(kind, ps, qs);
}

proof fn lemma_created_like_modified(ps: Seq<Seq<char>>)
    ensures
        watch_actions_of(WatchEventKind::Created, ps) == watch_actions_of(WatchEventKind::Modified, ps),
    decreases ps.len(),
{
    if ps.len() > 0 {
        lemma_created_like_modified(ps.drop_last());
    }
}

proof fn lemma_other_ignored(ps: Seq<Seq<char>>)
    ensures
        watch_actions_of(WatchEventKind::Other, ps) == Seq::<(bool, Seq<char>)>::empty(),
    decreases ps.len(),
{
    if ps.len() > 0 {
        lemma_other_ignored(ps.drop_last());
    }
}

proof fn lemma_watch_concat(kind: WatchEventKind, ps: Seq<Seq<char>>, qs: Seq<Seq<char>>)
    ensures
        watch_actions_of(kind, ps + qs) == watch_actions_of(kind, ps) + watch_actions_of(kind, qs),
    decreases qs.len(),
{
    if qs.len() == 0 {
        assert(ps + qs =~= ps);
        assert(watch_actions_of(kind, ps) + watch_actions_of(kind, qs) =~= watch_actions_of(kind, ps));
    } else {
        lemma_watch_concat(kind, ps, qs.drop_last());
        assert((ps + qs).drop_last() =~= ps + qs.drop_last());
        assert((ps + qs).last() == qs.last());
        let a = watch_actions_of(kind, ps);
        let b = watch_actions_of(kind, qs.drop_last());
        assert(forall|x: (bool, Seq<char>)| (a + b).push(x) =~= a + b.push(x));
    }
}

} // verus!
