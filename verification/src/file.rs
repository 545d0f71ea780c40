//! The record of file contents: path-to-hash maps, the cache file that stores
//! them, and the hashing of file contents.

use sha2::Digest;
use vstd::prelude::*;

use vstd::string::StringExecFns;

use crate::text::{
    spec_rfind, after_last, chars_eq, chars_to_string, ends_line, find_from, lemma_find_from_is, lemma_lines_concat,
    lemma_lines_one, spec_after_last, spec_lines, spec_split_once, split_lines, split_once, to_chars,
};

verus! {

/// The map that a list of (path, hash) entries describes; a later entry for a
/// path wins over an earlier one.
pub open spec fn entries_map(es: Seq<(Seq<char>, Seq<char>)>) -> Map<Seq<char>, Seq<char>>
    decreases es.len(),
{
    if es.len() == 0 {
        Map::empty()
    } else {
        entries_map(es.drop_last()).insert(es.last().0, es.last().1)
    }
}

/// No path occurs in two entries.
pub open spec fn keys_distinct(es: Seq<(Seq<char>, Seq<char>)>) -> bool {
    forall|i: int, j: int| 0 <= i < j < es.len() ==> #[trigger] es[i].0 != #[trigger] es[j].0
}

pub proof fn lemma_entries_map_dom(es: Seq<(Seq<char>, Seq<char>)>)
    ensures
        forall|k: Seq<char>|
            #[trigger] entries_map(es).dom().contains(k) <==> exists|i: int|
                0 <= i < es.len() && #[trigger] es[i].0 == k,
    decreases es.len(),
{
    if es.len() > 0 {
        lemma_entries_map_dom(es.drop_last());
        assert forall|k: Seq<char>| #[trigger]
            entries_map(es).dom().contains(k) implies exists|i: int|
            0 <= i < es.len() && #[trigger] es[i].0 == k by {
            if k != es.last().0 {
                assert(entries_map(es.drop_last()).dom().contains(k));
                let i = choose|i: int| 0 <= i < es.drop_last().len() && #[trigger] es.drop_last()[i].0 == k;
                assert(es[i].0 == k);
            } else {
                assert(es[es.len() - 1].0 == k);
            }
        }
        assert forall|k: Seq<char>|
            (exists|i: int| 0 <= i < es.len() && #[trigger] es[i].0 == k) implies #[trigger]
            entries_map(es).dom().contains(k) by {
            let i = choose|i: int| 0 <= i < es.len() && #[trigger] es[i].0 == k;
            if i < es.len() - 1 {
                assert(es.drop_last()[i].0 == k);
                assert(entries_map(es.drop_last()).dom().contains(k));
            }
        }
    }
}

pub proof fn lemma_entries_map_value(es: Seq<(Seq<char>, Seq<char>)>, i: int)
    requires
        keys_distinct(es),
        0 <= i < es.len(),
    ensures
        entries_map(es).dom().contains(es[i].0),
        entries_map(es)[es[i].0] == es[i].1,
    decreases es.len(),
{
    if i < es.len() - 1 {
        lemma_entries_map_value(es.drop_last(), i);
        assert(es.drop_last()[i] == es[i]);
        assert(es[i].0 != es[es.len() - 1].0);
    }
}

proof fn lemma_entries_map_update(es: Seq<(Seq<char>, Seq<char>)>, i: int, v: Seq<char>)
    requires
        keys_distinct(es),
        0 <= i < es.len(),
    ensures
        entries_map(es.update(i, (es[i].0, v))) == entries_map(es).insert(es[i].0, v),
        keys_distinct(es.update(i, (es[i].0, v))),
    decreases es.len(),
{
    let u = es.update(i, (es[i].0, v));
    if i == es.len() - 1 {
        assert(u.drop_last() =~= es.drop_last());
        assert(entries_map(u) =~= entries_map(es).insert(es[i].0, v));
    } else {
        lemma_entries_map_update(es.drop_last(), i, v);
        assert(u.drop_last() =~= es.drop_last().update(i, (es[i].0, v)));
        assert(es[i].0 != es.last().0);
        assert(entries_map(u) =~= entries_map(es).insert(es[i].0, v));
    }
}

/// A map from paths to hashes, which remembers the order in which paths were first added.
#[derive(Debug)]
pub struct FileHashes {
    entries: Vec<(String, String)>,
}

impl View for FileHashes {
    type V = Map<Seq<char>, Seq<char>>;

    closed spec fn view(&self) -> Map<Seq<char>, Seq<char>> {
        entries_map(self.entries.deep_view())
    }
}

impl FileHashes {
    /// The paths, in the order in which they were first added.
    pub closed spec fn keys(&self) -> Seq<Seq<char>> {
        self.entries.deep_view().map_values(|e: (Seq<char>, Seq<char>)| e.0)
    }

    /// No path occurs twice.
    pub closed spec fn wf(&self) -> bool {
        keys_distinct(self.entries.deep_view())
    }

    /// The paths listed are exactly those in the map, each once.
    pub proof fn lemma_keys(&self)
        requires
            self.wf(),
        ensures
            self.keys().no_duplicates(),
            forall|k: Seq<char>| #[trigger] self@.dom().contains(k) <==> self.keys().contains(k),
            self@.dom().finite(),
            self@.dom().len() == self.keys().len(),
    {
        let es = self.entries.deep_view();
        lemma_entries_map_dom(es);
        assert forall|k: Seq<char>| #[trigger] self@.dom().contains(k) <==> self.keys().contains(
            k,
        ) by {
            if self@.dom().contains(k) {
                let i = choose|i: int| 0 <= i < es.len() && #[trigger] es[i].0 == k;
                assert(self.keys()[i] == k);
            }
            if self.keys().contains(k) {
                let i = choose|i: int| 0 <= i < self.keys().len() && self.keys()[i] == k;
                assert(es[i].0 == k);
            }
        }
        assert(self.keys().no_duplicates()) by {
            assert forall|i: int, j: int|
                0 <= i < self.keys().len() && 0 <= j < self.keys().len() && i != j implies self.keys()[i]
                != self.keys()[j] by {
                if i < j {
                    assert(es[i].0 != es[j].0);
                } else {
                    assert(es[j].0 != es[i].0);
                }
            }
        }
        self.keys().unique_seq_to_set();
        assert(self@.dom() =~= self.keys().to_set());
    }

    /// An empty map.
    pub fn new() -> (r: Self)
        ensures
            r.wf(),
            r@ == Map::<Seq<char>, Seq<char>>::empty(),
            r.keys() == Seq::<Seq<char>>::empty(),
    {
        let r = FileHashes { entries: Vec::new() };
        assert(r.keys() =~= Seq::<Seq<char>>::empty());
        r
    }

    /// The number of paths.
    pub fn len(&self) -> (r: usize)
        ensures
            r == self.keys().len(),
    {
        self.entries.len()
    }

    /// The index of `key` among the entries, or the number of entries when it is absent.
    fn position(&self, key: &String) -> (r: usize)
        ensures
            r <= self.entries@.len(),
            r < self.entries@.len() ==> self.entries.deep_view()[r as int].0 == key@,
            r == self.entries@.len() ==> !self.keys().contains(key@),
    {
        let mut i: usize = 0;
        while i < self.entries.len()
            invariant
                i <= self.entries@.len(),
                forall|j: int| 0 <= j < i ==> self.entries.deep_view()[j].0 != key@,
            decreases self.entries@.len() - i,
        {
            if self.entries[i].0 == *key {
                return i;
            }
            i += 1;
        }
        proof {
            if self.keys().contains(key@) {
                let j = choose|j: int| 0 <= j < self.keys().len() && self.keys()[j] == key@;
                assert(self.entries.deep_view()[j].0 == key@);
            }
        }
        i
    }

    /// The hash recorded for `key`, if any.
    pub fn get(&self, key: &String) -> (r: Option<&String>)
        requires
            self.wf(),
        ensures
            match r {
                Some(v) => self@.contains_key(key@) && self@[key@] == v@,
                None => !self@.contains_key(key@),
            },
    {
        let i = self.position(key);
        proof {
            self.lemma_keys();
        }
        if i < self.entries.len() {
            proof {
                lemma_entries_map_value(self.entries.deep_view(), i as int);
            }
            Some(&self.entries[i].1)
        } else {
            None
        }
    }

    /// Records `value` for `key`, in place of any earlier value.
    pub fn insert(&mut self, key: String, value: String)
        requires
            old(self).wf(),
        ensures
            final(self).wf(),
            final(self)@ == old(self)@.insert(key@, value@),
            final(self).keys() == (if old(self).keys().contains(key@) {
                old(self).keys()
            } else {
                old(self).keys().push(key@)
            }),
    {
        let i = self.position(&key);
        let ghost es = self.entries.deep_view();
        if i < self.entries.len() {
            proof {
                lemma_entries_map_update(es, i as int, value@);
            }
            let ghost kv = key@;
            let ghost vv = value@;
            self.entries.set(i, (key, value));
            assert(self.entries.deep_view() =~= es.update(i as int, (es[i as int].0, vv)));
            assert(self.keys() =~= old(self).keys());
            proof {
                assert(old(self).keys()[i as int] == kv);
            }
        } else {
            let ghost kv = key@;
            let ghost vv = value@;
            self.entries.push((key, value));
            assert(self.entries.deep_view() =~= es.push((kv, vv)));
            assert(self.entries.deep_view().drop_last() =~= es);
            assert(self.keys() =~= old(self).keys().push(kv));
            assert forall|a: int, b: int|
                0 <= a < b < self.entries.deep_view().len() implies #[trigger] self.entries.deep_view()[a].0
                != #[trigger] self.entries.deep_view()[b].0 by {
                if b == es.len() {
                    assert(old(self).keys()[a] == es[a].0);
                }
            }
        }
    }

    /// The paths, in the order in which they were first added.
    pub fn paths(&self) -> (r: Vec<String>)
        ensures
            r.deep_view() == self.keys(),
    {
        let mut r: Vec<String> = Vec::new();
        let mut i: usize = 0;
        while i < self.entries.len()
            invariant
                i <= self.entries@.len(),
                r.deep_view() == self.keys().take(i as int),
            decreases self.entries@.len() - i,
        {
            let ghost old_r = r.deep_view();
            let k = self.entries[i].0.clone();
            assert(k@ == self.keys()[i as int]);
            r.push(k);
            assert(r.deep_view() =~= old_r.push(self.keys()[i as int]));
            assert(r.deep_view() =~= self.keys().take(i + 1));
            i += 1;
        }
        assert(self.keys().take(i as int) =~= self.keys());
        r
    }
}

impl FileHashes {
    /// The map that `entries` describe, a later entry for a path winning over an
    /// earlier one; paths keep the order of their first entry.
    pub fn from_entries(entries: &Vec<(String, String)>) -> (r: FileHashes)
        ensures
            r.wf(),
            r@ == entries_map(entries.deep_view()),
    {
        let mut r = FileHashes::new();
        let ghost es = entries.deep_view();
        let mut i: usize = 0;
        assert(es.take(0) =~= Seq::<(Seq<char>, Seq<char>)>::empty());
        while i < entries.len()
            invariant
                es == entries.deep_view(),
                i <= es.len(),
                r.wf(),
                r@ == entries_map(es.take(i as int)),
            decreases es.len() - i,
        {
            assert(es.take(i + 1).drop_last() =~= es.take(i as int));
            let k = entries[i].0.clone();
            let v = entries[i].1.clone();
            assert((k@, v@) == es[i as int]);
            r.insert(k, v);
            i += 1;
        }
        assert(es.take(es.len() as int) =~= es);
        r
    }
}

/// The hashes of a code base: those of its sources, then those of its headers.
pub type CodebaseHashes = (FileHashes, FileHashes);

/// What a path names, by the text after its last `.`: a source, a header, or neither.
#[derive(Clone, Copy, Debug)]
pub enum FileKind {
    Source,
    Header,
    Other,
}

/// The kind of `path` when sources end in `.<source_ext>` and headers in
/// `.<header_ext>` (the text after the last `.`, or the whole path if it has none).
pub open spec fn spec_kind_for(path: Seq<char>, source_ext: Seq<char>, header_ext: Seq<char>) -> FileKind {
    if spec_after_last(path, '.') == source_ext {
        FileKind::Source
    } else if spec_after_last(path, '.') == header_ext {
        FileKind::Header
    } else {
        FileKind::Other
    }
}

/// The kind of `path` in the cache, where sources end in `.c` and headers in `.h`.
pub open spec fn spec_file_kind(path: Seq<char>) -> FileKind {
    spec_kind_for(path, "c"@, "h"@)
}

/// Whether `path` names a source, a header or neither, for the given extensions.
pub fn kind_for(path: &str, source_ext: &str, header_ext: &str) -> (r: FileKind)
    ensures
        r == spec_kind_for(path@, source_ext@, header_ext@),
{
    let chars = to_chars(path);
    let ext = after_last(chars.as_slice(), '.');
    if chars_eq(ext.as_slice(), to_chars(source_ext).as_slice()) {
        FileKind::Source
    } else if chars_eq(ext.as_slice(), to_chars(header_ext).as_slice()) {
        FileKind::Header
    } else {
        FileKind::Other
    }
}

proof fn lemma_rfind_extension(p: Seq<char>, e: Seq<char>)
    requires
        forall|j: int| 0 <= j < e.len() ==> e[j] != '.',
    ensures
        spec_rfind(p + seq!['.'] + e, '.') == p.len(),
    decreases e.len(),
{
    let q = p + seq!['.'] + e;
    if e.len() == 0 {
        assert(q.last() == '.');
    } else {
        assert(q.drop_last() =~= p + seq!['.'] + e.drop_last());
        assert(q.last() == e.last());
        lemma_rfind_extension(p, e.drop_last());
    }
}

/// The kind is decided by the text after the last `.` alone: a path ending in
/// `.<source_ext>` is a source and one ending in `.<header_ext>` a header,
/// whatever `.` characters come before, when the extension holds no `.`.
pub proof fn lemma_kind_by_last_extension(p: Seq<char>, e: Seq<char>, other: Seq<char>)
    requires
        forall|j: int| 0 <= j < e.len() ==> e[j] != '.',
        e != other,
    ensures
        spec_after_last(p + seq!['.'] + e, '.') == e,
        spec_kind_for(p + seq!['.'] + e, e, other) == FileKind::Source,
        spec_kind_for(p + seq!['.'] + e, other, e) == FileKind::Header,
{
    lemma_rfind_extension(p, e);
    assert((p + seq!['.'] + e).skip(p.len() as int + 1) =~= e);
}

/// Whether `path` names a source (`.c`), a header (`.h`) or neither.
pub fn file_kind(path: &str) -> (r: FileKind)
    ensures
        r == spec_file_kind(path@),
{
    kind_for(path, "c", "h")
}

/// The paths of a code base split into sources and headers by their
/// extensions, each kept in order; other paths are left out.
pub open spec fn spec_classify(paths: Seq<Seq<char>>, source_ext: Seq<char>, header_ext: Seq<char>) -> (Seq<Seq<char>>, Seq<Seq<char>>) {
    (
        paths.filter(|p: Seq<char>| spec_kind_for(p, source_ext, header_ext) == FileKind::Source),
        paths.filter(|p: Seq<char>| spec_kind_for(p, source_ext, header_ext) == FileKind::Header),
    )
}

/// Splits `paths` into the sources and the headers among them.
pub fn classify_paths(paths: &Vec<String>, source_ext: &str, header_ext: &str) -> (r: (Vec<String>, Vec<String>))
    ensures
        (r.0.deep_view(), r.1.deep_view()) == spec_classify(paths.deep_view(), source_ext@, header_ext@),
{
    let ghost ps = paths.deep_view();
    let ghost is_src = |p: Seq<char>| spec_kind_for(p, source_ext@, header_ext@) == FileKind::Source;
    let ghost is_hdr = |p: Seq<char>| spec_kind_for(p, source_ext@, header_ext@) == FileKind::Header;
    let mut sources: Vec<String> = Vec::new();
    let mut headers: Vec<String> = Vec::new();
    let mut i: usize = 0;
    assert(ps.take(0) =~= Seq::<Seq<char>>::empty());
    while i < paths.len()
        invariant
            ps == paths.deep_view(),
            is_src == (|p: Seq<char>| spec_kind_for(p, source_ext@, header_ext@) == FileKind::Source),
            is_hdr == (|p: Seq<char>| spec_kind_for(p, source_ext@, header_ext@) == FileKind::Header),
            i <= ps.len(),
            sources.deep_view() == ps.take(i as int).filter(is_src),
            headers.deep_view() == ps.take(i as int).filter(is_hdr),
        decreases ps.len() - i,
    {
        proof {
            reveal_with_fuel(Seq::filter, 1);
        }
        assert(ps.take(i + 1).drop_last() =~= ps.take(i as int));
        assert(ps.take(i + 1).last() == ps[i as int]);
        match kind_for(paths[i].as_str(), source_ext, header_ext) {
            FileKind::Source => {
                let ghost old_s = sources.deep_view();
                sources.push(paths[i].clone());
                assert(sources.deep_view() =~= old_s.push(ps[i as int]));
            },
            FileKind::Header => {
                let ghost old_h = headers.deep_view();
                headers.push(paths[i].clone());
                assert(headers.deep_view() =~= old_h.push(ps[i as int]));
            },
            FileKind::Other => {},
        }
        i += 1;
    }
    assert(ps.take(ps.len() as int) =~= ps);
    (sources, headers)
}

/// What a cache text records: the source hashes, the header hashes, and the
/// paths of lines that name neither a source nor a header, in order.
pub open spec fn spec_parse_silcache(lines: Seq<Seq<char>>) -> Option<
    (Map<Seq<char>, Seq<char>>, Map<Seq<char>, Seq<char>>, Seq<Seq<char>>),
>
    decreases lines.len(),
{
    if lines.len() == 0 {
        Some((Map::empty(), Map::empty(), Seq::empty()))
    } else {
        match spec_parse_silcache(lines.drop_last()) {
            None => None,
            Some((sources, headers, skipped)) => match spec_split_once(lines.last(), ' ') {
                None => None,
                Some((path, hash)) => match spec_file_kind(path) {
                    FileKind::Source => Some((sources.insert(path, hash), headers, skipped)),
                    FileKind::Header => Some((sources, headers.insert(path, hash), skipped)),
                    FileKind::Other => Some((sources, headers, skipped.push(path))),
                },
            },
        }
    }
}

/// The contents of a cache text.
#[derive(Debug)]
pub struct Silcache {
    pub hashes: CodebaseHashes,
    /// Paths that name neither a source nor a header; their lines were skipped.
    pub skipped: Vec<String>,
}

/// Reads a cache text: one `path hash` line per file. `None` when a line has no
/// space; lines whose path names neither a source nor a header are skipped.
pub fn parse_silcache(contents: &str) -> (r: Option<Silcache>)
    ensures
        match r {
            None => spec_parse_silcache(spec_lines(contents@)) is None,
            Some(c) => {
                &&& c.hashes.0.wf()
                &&& c.hashes.1.wf()
                &&& spec_parse_silcache(spec_lines(contents@)) == Some(
                    (c.hashes.0@, c.hashes.1@, c.skipped.deep_view()),
                )
            },
        },
{
    let chars = to_chars(contents);
    let lines = split_lines(chars.as_slice());
    let ghost ls = spec_lines(contents@);
    let mut sources = FileHashes::new();
    let mut headers = FileHashes::new();
    let mut skipped: Vec<String> = Vec::new();
    let mut i: usize = 0;
    assert(ls.take(0) =~= Seq::<Seq<char>>::empty());
    assert(skipped.deep_view() =~= Seq::<Seq<char>>::empty());
    while i < lines.len()
        invariant
            lines.deep_view() == ls,
            ls == spec_lines(contents@),
            i <= ls.len(),
            sources.wf(),
            headers.wf(),
            spec_parse_silcache(ls.take(i as int)) == Some(
                (sources@, headers@, skipped.deep_view()),
            ),
        decreases ls.len() - i,
    {
        let line = &lines[i];
        assert(line@ == ls[i as int]);
        assert(ls.take(i + 1).drop_last() =~= ls.take(i as int));
        assert(ls.take(i + 1).last() == ls[i as int]);
        match split_once(line.as_slice(), ' ') {
            None => {
                proof {
                    assert(spec_parse_silcache(ls.take(i + 1)) is None);
                    lemma_parse_silcache_stays_none(ls, i as int + 1);
                }
                return None;
            },
            Some((path, hash)) => {
                let path_string = chars_to_string(path.as_slice());
                match file_kind(path_string.as_str()) {
                    FileKind::Source => {
                        sources.insert(path_string, chars_to_string(hash.as_slice()));
                    },
                    FileKind::Header => {
                        headers.insert(path_string, chars_to_string(hash.as_slice()));
                    },
                    FileKind::Other => {
                        let ghost old_k = skipped.deep_view();
                        let ghost pv = path_string@;
                        skipped.push(path_string);
                        assert(skipped.deep_view() =~= old_k.push(pv));
                    },
                }
            },
        }
        i += 1;
    }
    assert(ls.take(ls.len() as int) =~= ls);
    Some(Silcache { hashes: (sources, headers), skipped })
}

proof fn lemma_parse_silcache_stays_none(ls: Seq<Seq<char>>, n: int)
    requires
        0 <= n <= ls.len(),
        spec_parse_silcache(ls.take(n)) is None,
    ensures
        spec_parse_silcache(ls) is None,
    decreases ls.len() - n,
{
    if n < ls.len() {
        assert(ls.take(n + 1).drop_last() =~= ls.take(n));
        lemma_parse_silcache_stays_none(ls, n + 1);
    } else {
        assert(ls.take(n) =~= ls);
    }
}

/// The SHA-256 digest of `data`.
pub uninterp spec fn sha256(data: Seq<u8>) -> Seq<u8>;

/// Calls `sha2::Sha256::digest` on `data`; the result is named `sha256` and is
/// 32 bytes long (the output size of `Sha256`).
#[verifier::external_body]
fn sha256_digest(data: &[u8]) -> (r: Vec<u8>)
    ensures
        r@ == sha256(data@),
        r@.len() == 32,
{
    sha2::Sha256::digest(data).to_vec()
}

/// The lowercase hexadecimal digit for `n`, which is below 16.
pub open spec fn hex_digit(n: int) -> char {
    seq!['0', '1', '2', '3', '4', '5', '6', '7', '8', '9', 'a', 'b', 'c', 'd', 'e', 'f'][n]
}

/// Each byte as two lowercase hexadecimal digits, high digit first.
pub open spec fn hex_lower(bytes: Seq<u8>) -> Seq<char>
    decreases bytes.len(),
{
    if bytes.len() == 0 {
        Seq::empty()
    } else {
        hex_lower(bytes.drop_last()) + seq![
            hex_digit(bytes.last() as int / 16),
            hex_digit(bytes.last() as int % 16),
        ]
    }
}

/// `bytes` written in lowercase hexadecimal, two digits per byte.
pub fn to_hex_lower(bytes: &[u8]) -> (r: String)
    ensures
        r@ == hex_lower(bytes@),
{
    let digits: [char; 16] = ['0', '1', '2', '3', '4', '5', '6', '7', '8', '9', 'a', 'b', 'c', 'd', 'e', 'f'];
    assert(digits@ =~= seq!['0', '1', '2', '3', '4', '5', '6', '7', '8', '9', 'a', 'b', 'c', 'd', 'e', 'f']);
    let mut out: Vec<char> = Vec::new();
    let mut i: usize = 0;
    assert(bytes@.take(0) =~= Seq::<u8>::empty());
    while i < bytes.len()
        invariant
            i <= bytes@.len(),
            digits@ == seq!['0', '1', '2', '3', '4', '5', '6', '7', '8', '9', 'a', 'b', 'c', 'd', 'e', 'f'],
            out@ == hex_lower(bytes@.take(i as int)),
        decreases bytes@.len() - i,
    {
        let b = bytes[i];
        assert(bytes@.take(i + 1).drop_last() =~= bytes@.take(i as int));
        assert(bytes@.take(i + 1).last() == b);
        out.push(digits[(b / 16) as usize]);
        out.push(digits[(b % 16) as usize]);
        i += 1;
    }
    assert(bytes@.take(bytes@.len() as int) =~= bytes@);
    chars_to_string(out.as_slice())
}

/// The hash a file with these contents is recorded under: its SHA-256 digest in
/// lowercase hexadecimal.
pub fn hash_contents(data: &[u8]) -> (r: String)
    ensures
        r@ == hex_lower(sha256(data@)),
        r@.len() == 64,
{
    let digest = sha256_digest(data);
    let r = to_hex_lower(digest.as_slice());
    proof {
        lemma_hex_lower_len(digest@);
    }
    r
}

pub proof fn lemma_hex_lower_len(bytes: Seq<u8>)
    ensures
        hex_lower(bytes).len() == 2 * bytes.len(),
    decreases bytes.len(),
{
    if bytes.len() > 0 {
        lemma_hex_lower_len(bytes.drop_last());
    }
}

/// One cache line per path, in the given order: the path, a space, its hash, a line feed.
pub open spec fn spec_render_map(keys: Seq<Seq<char>>, m: Map<Seq<char>, Seq<char>>) -> Seq<char>
    decreases keys.len(),
{
    if keys.len() == 0 {
        Seq::empty()
    } else {
        spec_render_map(keys.drop_last(), m) + keys.last() + seq![' '] + m[keys.last()] + seq!['\n']
    }
}

/// The cache text for a code base: the lines of its sources, then those of its headers.
pub open spec fn spec_render_silcache(h: CodebaseHashes) -> Seq<char> {
    spec_render_map(h.0.keys(), h.0@) + spec_render_map(h.1.keys(), h.1@)
}

/// One cache line per (path, hash) entry, in the order of the entries.
pub open spec fn render_entries(es: Seq<(Seq<char>, Seq<char>)>) -> Seq<char>
    decreases es.len(),
{
    if es.len() == 0 {
        Seq::empty()
    } else {
        render_entries(es.drop_last()) + es.last().0 + seq![' '] + es.last().1 + seq!['\n']
    }
}

proof fn lemma_render_map_entries(es: Seq<(Seq<char>, Seq<char>)>, n: int)
    requires
        keys_distinct(es),
        0 <= n <= es.len(),
    ensures
        spec_render_map(es.take(n).map_values(|e: (Seq<char>, Seq<char>)| e.0), entries_map(es))
            == render_entries(es.take(n)),
    decreases n,
{
    let ks = es.take(n).map_values(|e: (Seq<char>, Seq<char>)| e.0);
    if n > 0 {
        lemma_render_map_entries(es, n - 1);
        assert(ks.drop_last() =~= es.take(n - 1).map_values(|e: (Seq<char>, Seq<char>)| e.0));
        assert(es.take(n).drop_last() =~= es.take(n - 1));
        lemma_entries_map_value(es, n - 1);
    } else {
        assert(ks.len() == 0);
        assert(es.take(n).len() == 0);
    }
}

impl FileHashes {
    /// Appends one cache line per path, in the order of `keys`.
    fn render_into(&self, out: &mut String)
        requires
            self.wf(),
        ensures
            final(out)@ == old(out)@ + spec_render_map(self.keys(), self@),
    {
        let ghost es = self.entries.deep_view();
        let ghost start = out@;
        let mut i: usize = 0;
        assert(start + render_entries(es.take(0)) =~= start);
        while i < self.entries.len()
            invariant
                es == self.entries.deep_view(),
                i <= es.len(),
                out@ == start + render_entries(es.take(i as int)),
            decreases es.len() - i,
        {
            assert(es.take(i + 1).drop_last() =~= es.take(i as int));
            assert(es.take(i + 1).last() == es[i as int]);
            out.append(self.entries[i].0.as_str());
            out.append(" ");
            out.append(self.entries[i].1.as_str());
            out.append("\n");
            proof {
                reveal_strlit(" ");
                reveal_strlit("\n");
            }
            assert(out@ =~= start + render_entries(es.take(i + 1)));
            i += 1;
        }
        proof {
            lemma_render_map_entries(es, es.len() as int);
            assert(es.take(es.len() as int) =~= es);
            assert(self.keys() =~= es.take(es.len() as int).map_values(|e: (Seq<char>, Seq<char>)| e.0));
        }
    }
}

/// The cache text that records `h`.
pub fn render_silcache(h: &CodebaseHashes) -> (r: String)
    requires
        h.0.wf(),
        h.1.wf(),
    ensures
        r@ == spec_render_silcache(*h),
{
    let mut r = String::new();
    h.0.render_into(&mut r);
    h.1.render_into(&mut r);
    r
}

/// The paths of `fh` all name files of `kind` and hold no space or line feed, and
/// its hashes hold no line feed and do not end with a carriage return: what a
/// cache line needs to be read back as written.
pub open spec fn writable(fh: FileHashes, kind: FileKind) -> bool {
    forall|k: Seq<char>|
        #[trigger] fh@.contains_key(k) ==> {
            &&& spec_file_kind(k) == kind
            &&& forall|j: int| 0 <= j < k.len() ==> k[j] != ' ' && k[j] != '\n'
            &&& forall|j: int| 0 <= j < fh@[k].len() ==> fh@[k][j] != '\n'
            &&& (fh@[k].len() == 0 || fh@[k].last() != '\r')
        }
}

proof fn lemma_render_ends_line(keys: Seq<Seq<char>>, m: Map<Seq<char>, Seq<char>>)
    ensures
        ends_line(spec_render_map(keys, m)),
{
    if keys.len() > 0 {
        let r = spec_render_map(keys, m);
        assert(r.last() == '\n');
    }
}

/// Reading back the lines of `keys` from the state `(src, hdr, [])` puts each
/// path in the map of its kind.
proof fn lemma_read_rendered(
    prefix: Seq<Seq<char>>,
    keys: Seq<Seq<char>>,
    m: Map<Seq<char>, Seq<char>>,
    kind: FileKind,
    src: Map<Seq<char>, Seq<char>>,
    hdr: Map<Seq<char>, Seq<char>>,
)
    requires
        kind == FileKind::Source || kind == FileKind::Header,
        spec_parse_silcache(prefix) == Some((src, hdr, Seq::<Seq<char>>::empty())),
        forall|i: int| 0 <= i < keys.len() ==> #[trigger] m.contains_key(keys[i]),
        forall|i: int|
            0 <= i < keys.len() ==> {
                let k = #[trigger] keys[i];
                &&& spec_file_kind(k) == kind
                &&& forall|j: int| 0 <= j < k.len() ==> k[j] != ' ' && k[j] != '\n'
                &&& forall|j: int| 0 <= j < m[k].len() ==> m[k][j] != '\n'
                &&& (m[k].len() == 0 || m[k].last() != '\r')
            },
    ensures
        spec_parse_silcache(prefix + spec_lines(spec_render_map(keys, m))) == (if kind
            == FileKind::Source {
            Some((src.union_prefer_right(m.restrict(keys.to_set())), hdr, Seq::<Seq<char>>::empty()))
        } else {
            Some((src, hdr.union_prefer_right(m.restrict(keys.to_set())), Seq::<Seq<char>>::empty()))
        }),
    decreases keys.len(),
{
    if keys.len() == 0 {
        assert(spec_lines(Seq::<char>::empty()) =~= Seq::<Seq<char>>::empty());
        assert(prefix + Seq::<Seq<char>>::empty() =~= prefix);
        assert(src.union_prefer_right(m.restrict(keys.to_set())) =~= src);
        assert(hdr.union_prefer_right(m.restrict(keys.to_set())) =~= hdr);
    } else {
        let ks = keys.drop_last();
        let k = keys.last();
        let v = m[k];
        assert(forall|i: int| 0 <= i < ks.len() ==> ks[i] == keys[i]);
        lemma_read_rendered(prefix, ks, m, kind, src, hdr);
        let line = k + seq![' '] + v;
        let body = spec_render_map(ks, m);
        lemma_render_ends_line(ks, m);
        assert(spec_render_map(keys, m) =~= body + line.push('\n'));
        assert forall|j: int| 0 <= j < line.len() implies line[j] != '\n' by {
            if j < k.len() {
                assert(line[j] == k[j]);
            } else if j > k.len() {
                assert(line[j] == v[j - k.len() - 1]);
            }
        }
        assert(line.len() == 0 || line.last() != '\r') by {
            if v.len() > 0 {
                assert(line.last() == v.last());
            }
        }
        lemma_lines_concat(body, line.push('\n'));
        lemma_lines_one(line);
        let ls = prefix + spec_lines(body);
        assert(prefix + spec_lines(spec_render_map(keys, m)) =~= ls.push(line));
        assert(ls.push(line).drop_last() =~= ls);
        lemma_find_from_is(line, ' ', 0, k.len() as int);
        assert(line.take(k.len() as int) =~= k);
        assert(line.skip(k.len() as int + 1) =~= v);
        assert(spec_split_once(line, ' ') == Some((k, v)));
        let kset = keys.to_set();
        let kset0 = ks.to_set();
        assert(kset =~= kset0.insert(k)) by {
            assert forall|x: Seq<char>| kset.contains(x) <==> kset0.insert(k).contains(x) by {
                if kset.contains(x) {
                    let i = choose|i: int| 0 <= i < keys.len() && keys[i] == x;
                    if i < keys.len() - 1 {
                        assert(ks[i] == x);
                    }
                }
                if kset0.contains(x) {
                    let i = choose|i: int| 0 <= i < ks.len() && ks[i] == x;
                    assert(keys[i] == x);
                }
                if x == k {
                    assert(keys[keys.len() - 1] == x);
                }
            }
        }
        if kind == FileKind::Source {
            assert(src.union_prefer_right(m.restrict(kset0)).insert(k, v) =~= src.union_prefer_right(
                m.restrict(kset),
            ));
        } else {
            assert(hdr.union_prefer_right(m.restrict(kset0)).insert(k, v) =~= hdr.union_prefer_right(
                m.restrict(kset),
            ));
        }
    }
}

/// Reading a cache text gives back the code base it was written from, when its
/// paths and hashes fit on cache lines and each path is filed under its kind.
pub proof fn lemma_silcache_roundtrip(h: CodebaseHashes)
    requires
        h.0.wf(),
        h.1.wf(),
        writable(h.0, FileKind::Source),
        writable(h.1, FileKind::Header),
    ensures
        spec_parse_silcache(spec_lines(spec_render_silcache(h))) == Some(
            (h.0@, h.1@, Seq::<Seq<char>>::empty()),
        ),
{
    h.0.lemma_keys();
    h.1.lemma_keys();
    let r0 = spec_render_map(h.0.keys(), h.0@);
    let r1 = spec_render_map(h.1.keys(), h.1@);
    lemma_render_ends_line(h.0.keys(), h.0@);
    lemma_lines_concat(r0, r1);
    let empty_ls = Seq::<Seq<char>>::empty();
    assert(spec_parse_silcache(empty_ls) == Some(
        (Map::<Seq<char>, Seq<char>>::empty(), Map::<Seq<char>, Seq<char>>::empty(), Seq::<Seq<char>>::empty()),
    ));
    assert forall|i: int| 0 <= i < h.0.keys().len() implies #[trigger] h.0@.contains_key(h.0.keys()[i]) by {
        assert(h.0.keys().contains(h.0.keys()[i]));
    }
    assert forall|i: int|
        0 <= i < h.0.keys().len() implies {
            let k = #[trigger] h.0.keys()[i];
            &&& spec_file_kind(k) == FileKind::Source
            &&& forall|j: int| 0 <= j < k.len() ==> k[j] != ' ' && k[j] != '\n'
            &&& forall|j: int| 0 <= j < h.0@[k].len() ==> h.0@[k][j] != '\n'
            &&& (h.0@[k].len() == 0 || h.0@[k].last() != '\r')
        } by {
        assert(h.0.keys().contains(h.0.keys()[i]));
        assert(h.0@.contains_key(h.0.keys()[i]));
    }
    assert forall|i: int| 0 <= i < h.1.keys().len() implies #[trigger] h.1@.contains_key(h.1.keys()[i]) by {
        assert(h.1.keys().contains(h.1.keys()[i]));
    }
    assert forall|i: int|
        0 <= i < h.1.keys().len() implies {
            let k = #[trigger] h.1.keys()[i];
            &&& spec_file_kind(k) == FileKind::Header
            &&& forall|j: int| 0 <= j < k.len() ==> k[j] != ' ' && k[j] != '\n'
            &&& forall|j: int| 0 <= j < h.1@[k].len() ==> h.1@[k][j] != '\n'
            &&& (h.1@[k].len() == 0 || h.1@[k].last() != '\r')
        } by {
        assert(h.1.keys().contains(h.1.keys()[i]));
        assert(h.1@.contains_key(h.1.keys()[i]));
    }
    lemma_read_rendered(empty_ls, h.0.keys(), h.0@, FileKind::Source, Map::empty(), Map::empty());
    assert(empty_ls + spec_lines(r0) =~= spec_lines(r0));
    let m0 = Map::<Seq<char>, Seq<char>>::empty().union_prefer_right(h.0@.restrict(h.0.keys().to_set()));
    assert(m0 =~= h.0@);
    lemma_read_rendered(spec_lines(r0), h.1.keys(), h.1@, FileKind::Header, h.0@, Map::empty());
    let m1 = Map::<Seq<char>, Seq<char>>::empty().union_prefer_right(h.1@.restrict(h.1.keys().to_set()));
    assert(m1 =~= h.1@);
}

/// An entry that fits on a cache line and is read back under its own kind: its
/// path names a source or a header and holds no space or line feed; its hash
/// holds no line feed and does not end with a carriage return.
pub open spec fn entry_writable(e: (Seq<char>, Seq<char>)) -> bool {
    &&& (spec_file_kind(e.0) == FileKind::Source || spec_file_kind(e.0) == FileKind::Header)
    &&& forall|j: int| 0 <= j < e.0.len() ==> e.0[j] != ' ' && e.0[j] != '\n'
    &&& forall|j: int| 0 <= j < e.1.len() ==> e.1[j] != '\n'
    &&& (e.1.len() == 0 || e.1.last() != '\r')
}

pub open spec fn is_source_entry(e: (Seq<char>, Seq<char>)) -> bool {
    spec_file_kind(e.0) == FileKind::Source
}

pub open spec fn is_header_entry(e: (Seq<char>, Seq<char>)) -> bool {
    spec_file_kind(e.0) == FileKind::Header
}

proof fn lemma_render_entries_ends_line(es: Seq<(Seq<char>, Seq<char>)>)
    ensures
        ends_line(render_entries(es)),
{
    if es.len() > 0 {
        assert(render_entries(es).last() == '\n');
    }
}

/// Reading the lines of any list of entries files each under its kind, a later
/// line for a path winning over an earlier one.
proof fn lemma_read_entries(es: Seq<(Seq<char>, Seq<char>)>)
    requires
        forall|i: int| 0 <= i < es.len() ==> entry_writable(#[trigger] es[i]),
    ensures
        spec_parse_silcache(spec_lines(render_entries(es))) == Some(
            (
                entries_map(es.filter(|e: (Seq<char>, Seq<char>)| is_source_entry(e))),
                entries_map(es.filter(|e: (Seq<char>, Seq<char>)| is_header_entry(e))),
                Seq::<Seq<char>>::empty(),
            ),
        ),
    decreases es.len(),
{
    reveal_with_fuel(Seq::filter, 1);
    let ps = |e: (Seq<char>, Seq<char>)| is_source_entry(e);
    let ph = |e: (Seq<char>, Seq<char>)| is_header_entry(e);
    if es.len() == 0 {
        assert(render_entries(es) =~= Seq::<char>::empty());
        assert(spec_lines(Seq::<char>::empty()) =~= Seq::<Seq<char>>::empty());
        assert(es.filter(ps) =~= es);
        assert(es.filter(ph) =~= es);
    } else {
        let dl = es.drop_last();
        let e = es.last();
        assert(entry_writable(es[es.len() - 1]));
        assert forall|i: int| 0 <= i < dl.len() implies entry_writable(#[trigger] dl[i]) by {
            assert(dl[i] == es[i]);
        }
        lemma_read_entries(dl);
        let k = e.0;
        let v = e.1;
        let line = k + seq![' '] + v;
        let body = render_entries(dl);
        lemma_render_entries_ends_line(dl);
        assert(render_entries(es) =~= body + line.push('\n'));
        assert forall|j: int| 0 <= j < line.len() implies line[j] != '\n' by {
            if j < k.len() {
                assert(line[j] == k[j]);
            } else if j > k.len() {
                assert(line[j] == v[j - k.len() - 1]);
            }
        }
        assert(line.len() == 0 || line.last() != '\r') by {
            if v.len() > 0 {
                assert(line.last() == v.last());
            }
        }
        lemma_lines_concat(body, line.push('\n'));
        lemma_lines_one(line);
        let ls = spec_lines(body);
        assert(spec_lines(render_entries(es)) =~= ls.push(line));
        assert(ls.push(line).drop_last() =~= ls);
        lemma_find_from_is(line, ' ', 0, k.len() as int);
        assert(line.take(k.len() as int) =~= k);
        assert(line.skip(k.len() as int + 1) =~= v);
        assert(spec_split_once(line, ' ') == Some((k, v)));
        if is_source_entry(e) {
            assert(es.filter(ps) == dl.filter(ps).push(e));
            assert(es.filter(ph) == dl.filter(ph));
            assert(dl.filter(ps).push(e).drop_last() =~= dl.filter(ps));
        } else {
            assert(is_header_entry(e));
            assert(es.filter(ps) == dl.filter(ps));
            assert(es.filter(ph) == dl.filter(ph).push(e));
            assert(dl.filter(ph).push(e).drop_last() =~= dl.filter(ph));
        }
    }
}

/// A path in the map of a list of entries has the hash of some entry for it.
proof fn lemma_entries_map_some(es: Seq<(Seq<char>, Seq<char>)>, k: Seq<char>)
    requires
        entries_map(es).dom().contains(k),
    ensures
        exists|j: int| 0 <= j < es.len() && es[j].0 == k && entries_map(es)[k] == #[trigger] es[j].1,
    decreases es.len(),
{
    if es.last().0 == k {
        assert(es[es.len() - 1].0 == k);
    } else {
        lemma_entries_map_some(es.drop_last(), k);
        let j = choose|j: int|
            0 <= j < es.drop_last().len() && es.drop_last()[j].0 == k && entries_map(
                es.drop_last(),
            )[k] == #[trigger] es.drop_last()[j].1;
        assert(es[j] == es.drop_last()[j]);
    }
}

/// The entries of kind `kind` among `es` describe exactly the map `m`, when
/// every entry comes from `m` or from a map of the other kind and every path of
/// `m` has an entry.
proof fn lemma_filtered_map(
    es: Seq<(Seq<char>, Seq<char>)>,
    m: FileHashes,
    other: FileHashes,
    kind: FileKind,
    p: spec_fn((Seq<char>, Seq<char>)) -> bool,
)
    requires
        kind == FileKind::Source || kind == FileKind::Header,
        p == (|e: (Seq<char>, Seq<char>)| spec_file_kind(e.0) == kind),
        forall|k: Seq<char>| #[trigger] m@.contains_key(k) ==> spec_file_kind(k) == kind,
        forall|k: Seq<char>| #[trigger] other@.contains_key(k) ==> spec_file_kind(k) != kind,
        forall|i: int|
            0 <= i < es.len() ==> (m@.contains_key(#[trigger] es[i].0) && es[i].1 == m@[es[i].0]) || (
            other@.contains_key(es[i].0) && es[i].1 == other@[es[i].0]),
        forall|k: Seq<char>|
            #[trigger] m@.contains_key(k) ==> exists|i: int| 0 <= i < es.len() && es[i].0 == k,
    ensures
        entries_map(es.filter(p)) == m@,
{
    let f = es.filter(p);
    lemma_entries_map_dom(f);
    assert forall|k: Seq<char>| #[trigger] entries_map(f).dom().contains(k) <==> m@.contains_key(k) by {
        if entries_map(f).dom().contains(k) {
            let j = choose|j: int| 0 <= j < f.len() && #[trigger] f[j].0 == k;
            es.lemma_filter_pred(p, j);
            assert(f.contains(f[j]));
            es.lemma_filter_contains_rev(p, f[j]);
            let i = choose|i: int| 0 <= i < es.len() && es[i] == f[j];
            assert(es[i].0 == k);
        }
        if m@.contains_key(k) {
            let i = choose|i: int| 0 <= i < es.len() && es[i].0 == k;
            es.lemma_filter_contains(p, i);
            let j = choose|j: int| 0 <= j < f.len() && f[j] == es[i];
            assert(f[j].0 == k);
        }
    }
    assert forall|k: Seq<char>| #[trigger] entries_map(f).dom().contains(k) implies entries_map(f)[k]
        == m@[k] by {
        lemma_entries_map_some(f, k);
        let j = choose|j: int| 0 <= j < f.len() && f[j].0 == k && entries_map(f)[k] == #[trigger] f[j].1;
        es.lemma_filter_pred(p, j);
        assert(f.contains(f[j]));
        es.lemma_filter_contains_rev(p, f[j]);
        let i = choose|i: int| 0 <= i < es.len() && es[i] == f[j];
        assert(es[i].0 == k);
    }
    assert(entries_map(f) =~= m@);
}

/// Reading the cache gives back the code base whatever the order of its lines:
/// for any list of entries that holds every path of `sources` and of `headers`
/// and only their entries, the lines written for that list read back as the
/// two maps.
pub proof fn lemma_silcache_read_any_order(
    sources: FileHashes,
    headers: FileHashes,
    es: Seq<(Seq<char>, Seq<char>)>,
)
    requires
        writable(sources, FileKind::Source),
        writable(headers, FileKind::Header),
        forall|i: int|
            0 <= i < es.len() ==> (sources@.contains_key(#[trigger] es[i].0) && es[i].1
                == sources@[es[i].0]) || (headers@.contains_key(es[i].0) && es[i].1
                == headers@[es[i].0]),
        forall|k: Seq<char>|
            #[trigger] sources@.contains_key(k) ==> exists|i: int| 0 <= i < es.len() && es[i].0 == k,
        forall|k: Seq<char>|
            #[trigger] headers@.contains_key(k) ==> exists|i: int| 0 <= i < es.len() && es[i].0 == k,
    ensures
        spec_parse_silcache(spec_lines(render_entries(es))) == Some(
            (sources@, headers@, Seq::<Seq<char>>::empty()),
        ),
{
    assert forall|i: int| 0 <= i < es.len() implies entry_writable(#[trigger] es[i]) by {
        let k = es[i].0;
        if sources@.contains_key(k) && es[i].1 == sources@[k] {
        } else {
            assert(headers@.contains_key(k));
        }
    }
    lemma_read_entries(es);
    let ps = |e: (Seq<char>, Seq<char>)| is_source_entry(e);
    let ph = |e: (Seq<char>, Seq<char>)| is_header_entry(e);
    assert(ps == (|e: (Seq<char>, Seq<char>)| spec_file_kind(e.0) == FileKind::Source));
    assert(ph == (|e: (Seq<char>, Seq<char>)| spec_file_kind(e.0) == FileKind::Header));
    assert forall|i: int|
        0 <= i < es.len() implies (headers@.contains_key(#[trigger] es[i].0) && es[i].1
        == headers@[es[i].0]) || (sources@.contains_key(es[i].0) && es[i].1
        == sources@[es[i].0]) by {}
    lemma_filtered_map(es, sources, headers, FileKind::Source, ps);
    lemma_filtered_map(es, headers, sources, FileKind::Header, ph);
}

} // verus!
