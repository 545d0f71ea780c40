//! Change detection: which files changed between two records, which files a C
//! source names in its `#include` directives, and which sources depend on
//! changed headers.

use vstd::prelude::*;

use crate::file::FileHashes;
use crate::text::{ends_with, spec_ends_with, to_chars};

verus! {

/// The targets of the `#include` directives in a text: for each match of
/// `#include\s*["<](.*?)[">]`, leftmost first and without overlap, the text
/// of its group.
pub uninterp spec fn include_targets(contents: Seq<char>) -> Seq<Seq<char>>;

/// Calls `regex::Regex::new` on the `#include` pattern (which is valid, so the
/// unwrap never fails) and then `Regex::captures_iter` on `contents`, taking the
/// text of group 1 of each match; the result is named `include_targets`.
/// Also claimed, from the pattern: a target holds no line feed (`.` does not
/// match one) and no `"` or `>` (the lazy `.*?` stops at the first of them).
#[verifier::external_body]
fn include_captures(contents: &str) -> (r: Vec<String>)
    ensures
        r.deep_view() == include_targets(contents@),
        forall|i: int, j: int|
            0 <= i < r.deep_view().len() && 0 <= j < r.deep_view()[i].len() ==> {
                let c = #[trigger] r.deep_view()[i][j];
                c != '\n' && c != '"' && c != '>'
            },
{
    let include_regex = regex::Regex::new(r#"#include\s*["<](.*?)[">]"#).unwrap();
    include_regex.captures_iter(contents).filter_map(|cap| cap.get(1).map(|m| m.as_str().to_string())).collect()
}

/// The files that the C text `contents` includes, in order of appearance.
pub fn get_file_dependencies(contents: &str) -> (r: Vec<String>)
    ensures
        r.deep_view() == include_targets(contents@),
        forall|i: int, j: int|
            0 <= i < r.deep_view().len() && 0 <= j < r.deep_view()[i].len() ==> {
                let c = #[trigger] r.deep_view()[i][j];
                c != '\n' && c != '"' && c != '>'
            },
{
    include_captures(contents)
}

/// A path counts as modified when the old record lacks it or holds another hash.
pub open spec fn is_modified(old: Map<Seq<char>, Seq<char>>, new: Map<Seq<char>, Seq<char>>, path: Seq<char>) -> bool {
    !old.contains_key(path) || old[path] != new[path]
}

/// The paths of the new record that are modified, in the new record's order.
pub open spec fn spec_modified(old: FileHashes, new: FileHashes) -> Seq<Seq<char>> {
    new.keys().filter(|k: Seq<char>| is_modified(old@, new@, k))
}

/// The paths in `b` that `a` lacks or records with another hash, in `b`'s order.
pub fn get_modified(a: &FileHashes, b: &FileHashes) -> (r: Vec<String>)
    requires
        a.wf(),
        b.wf(),
    ensures
        r.deep_view() == spec_modified(*a, *b),
        r.deep_view().no_duplicates(),
        forall|p: Seq<char>|
            #[trigger] r.deep_view().contains(p) <==> b@.contains_key(p) && (!a@.contains_key(p)
                || a@[p] != b@[p]),
{
    proof {
        lemma_modified_exactly(*a, *b);
    }
    let paths = b.paths();
    let ghost keys = b.keys();
    let ghost pred = |k: Seq<char>| is_modified(a@, b@, k);
    proof {
        b.lemma_keys();
    }
    let mut r: Vec<String> = Vec::new();
    let mut i: usize = 0;
    assert(keys.take(0) =~= Seq::<Seq<char>>::empty());
    while i < paths.len()
        invariant
            paths.deep_view() == keys,
            keys == b.keys(),
            a.wf(),
            b.wf(),
            forall|k: Seq<char>| #[trigger] b@.dom().contains(k) <==> keys.contains(k),
            pred == (|k: Seq<char>| is_modified(a@, b@, k)),
            i <= keys.len(),
            r.deep_view() == keys.take(i as int).filter(pred),
        decreases keys.len() - i,
    {
        let path = &paths[i];
        assert(path@ == keys[i as int]);
        assert(keys.contains(path@));
        assert(keys.take(i + 1).drop_last() =~= keys.take(i as int));
        assert(keys.take(i + 1).last() == path@);
        proof {
            reveal_with_fuel(Seq::filter, 1);
        }
        let new_hash = b.get(path);
        let modified = match a.get(path) {
            None => true,
            Some(old_hash) => match new_hash {
                Some(nh) => *old_hash != *nh,
                None => false,
            },
        };
        assert(modified == pred(path@));
        if modified {
            let ghost old_r = r.deep_view();
            let p = path.clone();
            r.push(p);
            assert(r.deep_view() =~= old_r.push(keys[i as int]));
        }
        i += 1;
    }
    assert(keys.take(keys.len() as int) =~= keys);
    r
}

/// Some header path ends with some dependency name.
pub open spec fn depends_on_any(deps: Seq<Seq<char>>, headers: Seq<Seq<char>>) -> bool {
    exists|h: int, d: int|
        0 <= h < headers.len() && 0 <= d < deps.len() && spec_ends_with(
            #[trigger] headers[h],
            #[trigger] deps[d],
        )
}

/// The sources (with the dependencies of each alongside) that depend on one of
/// the headers, in order.
pub open spec fn spec_dependent(sources: Seq<Seq<char>>, deps: Seq<Seq<Seq<char>>>, headers: Seq<Seq<char>>) -> Seq<Seq<char>>
    decreases sources.len(),
{
    if sources.len() == 0 || deps.len() == 0 {
        Seq::empty()
    } else {
        let rest = spec_dependent(sources.drop_last(), deps.drop_last(), headers);
        if depends_on_any(deps.last(), headers) {
            rest.push(sources.last())
        } else {
            rest
        }
    }
}

/// Whether one of `headers` ends with one of `deps`.
fn any_header_matches(deps: &Vec<String>, headers: &Vec<String>) -> (r: bool)
    ensures
        r == depends_on_any(deps.deep_view(), headers.deep_view()),
{
    let mut h: usize = 0;
    while h < headers.len()
        invariant
            h <= headers@.len(),
            forall|x: int, d: int|
                0 <= x < h && 0 <= d < deps.deep_view().len() ==> !spec_ends_with(
                    #[trigger] headers.deep_view()[x],
                    #[trigger] deps.deep_view()[d],
                ),
        decreases headers@.len() - h,
    {
        let header = to_chars(headers[h].as_str());
        let mut d: usize = 0;
        while d < deps.len()
            invariant
                h < headers@.len(),
                header@ == headers.deep_view()[h as int],
                d <= deps@.len(),
                forall|x: int, e: int|
                    0 <= x < h && 0 <= e < deps.deep_view().len() ==> !spec_ends_with(
                        #[trigger] headers.deep_view()[x],
                        #[trigger] deps.deep_view()[e],
                    ),
                forall|e: int| 0 <= e < d ==> !spec_ends_with(header@, #[trigger] deps.deep_view()[e]),
            decreases deps@.len() - d,
        {
            let dep = to_chars(deps[d].as_str());
            if ends_with(header.as_slice(), dep.as_slice()) {
                assert(spec_ends_with(headers.deep_view()[h as int], deps.deep_view()[d as int]));
                return true;
            }
            d += 1;
        }
        h += 1;
    }
    false
}

/// The sources that include a file whose name ends one of `headers`, in order;
/// `dependencies[i]` lists what `sources[i]` includes.
pub fn get_dependent_sources(sources: &Vec<String>, dependencies: &Vec<Vec<String>>, headers: &Vec<String>) -> (r: Vec<String>)
    requires
        sources@.len() == dependencies@.len(),
    ensures
        r.deep_view() == spec_dependent(sources.deep_view(), dependencies.deep_view(), headers.deep_view()),
        forall|i: int, d: int, h: int|
            0 <= i < sources.deep_view().len() && 0 <= d < dependencies.deep_view()[i].len() && 0 <= h
                < headers.deep_view().len() && ends_with_text(
                #[trigger] headers.deep_view()[h],
                #[trigger] dependencies.deep_view()[i][d],
            ) ==> r.deep_view().contains(sources.deep_view()[i]),
        forall|x: Seq<char>|
            #[trigger] r.deep_view().contains(x) ==> exists|i: int, d: int, h: int|
                0 <= i < sources.deep_view().len() && sources.deep_view()[i] == x && 0 <= d
                    < dependencies.deep_view()[i].len() && 0 <= h < headers.deep_view().len()
                    && ends_with_text(
                    #[trigger] headers.deep_view()[h],
                    #[trigger] dependencies.deep_view()[i][d],
                ),
{
    proof {
        lemma_dependency_anywhere_counts(sources.deep_view(), dependencies.deep_view(), headers.deep_view());
    }
    let ghost ss = sources.deep_view();
    let ghost ds = dependencies.deep_view();
    let ghost hs = headers.deep_view();
    let mut r: Vec<String> = Vec::new();
    let mut i: usize = 0;
    assert(ss.take(0) =~= Seq::<Seq<char>>::empty());
    while i < sources.len()
        invariant
            sources@.len() == dependencies@.len(),
            ss == sources.deep_view(),
            ds == dependencies.deep_view(),
            hs == headers.deep_view(),
            i <= ss.len(),
            r.deep_view() == spec_dependent(ss.take(i as int), ds.take(i as int), hs),
        decreases ss.len() - i,
    {
        assert(ss.take(i + 1).drop_last() =~= ss.take(i as int));
        assert(ds.take(i + 1).drop_last() =~= ds.take(i as int));
        assert(ds.take(i + 1).last() == ds[i as int]);
        assert(dependencies[i as int].deep_view() == ds[i as int]);
        if any_header_matches(&dependencies[i], headers) {
            let ghost old_r = r.deep_view();
            r.push(sources[i].clone());
            assert(r.deep_view() =~= old_r.push(ss[i as int]));
        }
        i += 1;
    }
    assert(ss.take(ss.len() as int) =~= ss);
    assert(ds.take(ds.len() as int) =~= ds);
    r
}

proof fn lemma_filter_none(s: Seq<Seq<char>>, p: spec_fn(Seq<char>) -> bool)
    requires
        forall|i: int| 0 <= i < s.len() ==> !p(#[trigger] s[i]),
    ensures
        s.filter(p) == Seq::<Seq<char>>::empty(),
    decreases s.len(),
{
    reveal_with_fuel(Seq::filter, 1);
    if s.len() > 0 {
        lemma_filter_none(s.drop_last(), p);
        assert(!p(s[s.len() - 1]));
    }
}

proof fn lemma_filter_all(s: Seq<Seq<char>>, p: spec_fn(Seq<char>) -> bool)
    requires
        forall|i: int| 0 <= i < s.len() ==> p(#[trigger] s[i]),
    ensures
        s.filter(p) == s,
    decreases s.len(),
{
    reveal_with_fuel(Seq::filter, 1);
    if s.len() > 0 {
        lemma_filter_all(s.drop_last(), p);
        assert(p(s[s.len() - 1]));
        assert(s.drop_last().push(s.last()) =~= s);
    }
}

/// A path is reported as modified exactly when the new record holds it and the
/// old one lacks it or records another hash for it.
pub proof fn lemma_modified_iff(a: FileHashes, b: FileHashes, path: Seq<char>)
    requires
        b.wf(),
    ensures
        spec_modified(a, b).contains(path) <==> b@.contains_key(path) && is_modified(a@, b@, path),
{
    b.lemma_keys();
    let p = |k: Seq<char>| is_modified(a@, b@, k);
    if spec_modified(a, b).contains(path) {
        b.keys().lemma_filter_contains_rev(p, path);
        let i = choose|i: int| 0 <= i < spec_modified(a, b).len() && spec_modified(a, b)[i] == path;
        b.keys().lemma_filter_pred(p, i);
    }
    if b@.contains_key(path) && is_modified(a@, b@, path) {
        let i = choose|i: int| 0 <= i < b.keys().len() && b.keys()[i] == path;
        b.keys().lemma_filter_contains(p, i);
    }
}

/// Comparing a record with itself reports nothing.
pub proof fn lemma_unchanged_reports_nothing(b: FileHashes)
    requires
        b.wf(),
    ensures
        spec_modified(b, b) == Seq::<Seq<char>>::empty(),
{
    b.lemma_keys();
    let p = |k: Seq<char>| is_modified(b@, b@, k);
    assert forall|i: int| 0 <= i < b.keys().len() implies !p(#[trigger] b.keys()[i]) by {
        assert(b.keys().contains(b.keys()[i]));
    }
    lemma_filter_none(b.keys(), p);
}

/// Against an empty old record every path of the new one is reported, in order.
pub proof fn lemma_empty_old_reports_all(a: FileHashes, b: FileHashes)
    requires
        a@ == Map::<Seq<char>, Seq<char>>::empty(),
    ensures
        spec_modified(a, b) == b.keys(),
{
    let p = |k: Seq<char>| is_modified(a@, b@, k);
    lemma_filter_all(b.keys(), p);
}

/// A source is reported exactly when one of its dependencies names the end of one
/// of the headers; reported sources keep their order.
pub proof fn lemma_dependent_iff(sources: Seq<Seq<char>>, deps: Seq<Seq<Seq<char>>>, headers: Seq<Seq<char>>, x: Seq<char>)
    requires
        sources.len() == deps.len(),
    ensures
        spec_dependent(sources, deps, headers).contains(x) <==> exists|i: int|
            0 <= i < sources.len() && sources[i] == x && #[trigger] depends_on_any(deps[i], headers),
    decreases sources.len(),
{
    if sources.len() > 0 {
        let n = sources.len() - 1;
        lemma_dependent_iff(sources.drop_last(), deps.drop_last(), headers, x);
        let rest = spec_dependent(sources.drop_last(), deps.drop_last(), headers);
        if spec_dependent(sources, deps, headers).contains(x) {
            if rest.contains(x) {
                let i = choose|i: int|
                    0 <= i < sources.drop_last().len() && sources.drop_last()[i] == x
                        && #[trigger] depends_on_any(deps.drop_last()[i], headers);
                assert(sources[i] == x && deps[i] == deps.drop_last()[i]);
            } else {
                let j = choose|j: int| 0 <= j < rest.push(sources.last()).len() && rest.push(sources.last())[j] == x;
                assert(j == rest.len());
                assert(depends_on_any(deps[n], headers));
            }
        }
        if exists|i: int| 0 <= i < sources.len() && sources[i] == x && #[trigger] depends_on_any(deps[i], headers) {
            let i = choose|i: int| 0 <= i < sources.len() && sources[i] == x && #[trigger] depends_on_any(deps[i], headers);
            if i < n {
                assert(sources.drop_last()[i] == x && deps.drop_last()[i] == deps[i]);
                assert(rest.contains(x));
                if depends_on_any(deps.last(), headers) {
                    let j = choose|j: int| 0 <= j < rest.len() && rest[j] == x;
                    assert(rest.push(sources.last())[j] == x);
                }
            } else {
                assert(rest.push(sources.last())[rest.len() as int] == x);
            }
        }
    }
}

/// `f` places the elements of `a` at increasing positions of `b`.
pub open spec fn embeds(a: Seq<Seq<char>>, b: Seq<Seq<char>>, f: Seq<int>) -> bool {
    &&& f.len() == a.len()
    &&& forall|i: int| 0 <= i < f.len() ==> 0 <= #[trigger] f[i] < b.len() && b[f[i]] == a[i]
    &&& forall|i: int, j: int| 0 <= i < j < f.len() ==> #[trigger] f[i] < #[trigger] f[j]
}

/// `a` is `b` with some elements left out, the rest in order.
pub open spec fn is_subsequence(a: Seq<Seq<char>>, b: Seq<Seq<char>>) -> bool {
    exists|f: Seq<int>| embeds(a, b, f)
}

proof fn lemma_dependent_mono_witness(
    sources: Seq<Seq<char>>,
    deps: Seq<Seq<Seq<char>>>,
    fewer: Seq<Seq<char>>,
    more: Seq<Seq<char>>,
) -> (f: Seq<int>)
    requires
        sources.len() == deps.len(),
        forall|h: int| 0 <= h < fewer.len() ==> more.contains(#[trigger] fewer[h]),
    ensures
        embeds(spec_dependent(sources, deps, fewer), spec_dependent(sources, deps, more), f),
    decreases sources.len(),
{
    if sources.len() == 0 {
        Seq::empty()
    } else {
        let f0 = lemma_dependent_mono_witness(sources.drop_last(), deps.drop_last(), fewer, more);
        let a0 = spec_dependent(sources.drop_last(), deps.drop_last(), fewer);
        let b0 = spec_dependent(sources.drop_last(), deps.drop_last(), more);
        let d = deps.last();
        if depends_on_any(d, fewer) {
            let (h, k) = choose|h: int, k: int|
                0 <= h < fewer.len() && 0 <= k < d.len() && spec_ends_with(
                    #[trigger] fewer[h],
                    #[trigger] d[k],
                );
            assert(more.contains(fewer[h]));
            let h2 = choose|h2: int| 0 <= h2 < more.len() && more[h2] == fewer[h];
            assert(spec_ends_with(more[h2], d[k]));
            assert(depends_on_any(d, more));
            let f = f0.push(b0.len() as int);
            assert(embeds(a0.push(sources.last()), b0.push(sources.last()), f)) by {
                assert forall|i: int| 0 <= i < f.len() implies 0 <= #[trigger] f[i] < b0.push(
                    sources.last(),
                ).len() && b0.push(sources.last())[f[i]] == a0.push(sources.last())[i] by {
                    if i < f0.len() {
                        assert(f[i] == f0[i]);
                    }
                }
                assert forall|i: int, j: int| 0 <= i < j < f.len() implies #[trigger] f[i]
                    < #[trigger] f[j] by {
                    if j < f0.len() {
                        assert(f[i] == f0[i] && f[j] == f0[j]);
                    } else {
                        assert(f[i] == f0[i]);
                    }
                }
            }
            f
        } else if depends_on_any(d, more) {
            assert(embeds(a0, b0.push(sources.last()), f0)) by {
                assert forall|i: int| 0 <= i < f0.len() implies 0 <= #[trigger] f0[i] < b0.push(
                    sources.last(),
                ).len() && b0.push(sources.last())[f0[i]] == a0[i] by {}
            }
            f0
        } else {
            f0
        }
    }
}

/// More headers never drop a dependent source: the sources that depend on some
/// of `fewer` are among those that depend on some of `more`, in the same order,
/// when every header of `fewer` is one of `more`.
pub proof fn lemma_dependent_monotone(
    sources: Seq<Seq<char>>,
    deps: Seq<Seq<Seq<char>>>,
    fewer: Seq<Seq<char>>,
    more: Seq<Seq<char>>,
)
    requires
        sources.len() == deps.len(),
        forall|h: int| 0 <= h < fewer.len() ==> more.contains(#[trigger] fewer[h]),
    ensures
        is_subsequence(spec_dependent(sources, deps, fewer), spec_dependent(sources, deps, more)),
{
    let f = lemma_dependent_mono_witness(sources, deps, fewer, more);
    assert(embeds(spec_dependent(sources, deps, fewer), spec_dependent(sources, deps, more), f));
}

/// The modified paths are exactly those of the new record that the old record
/// lacks or holds with any other hash, each listed once.
pub proof fn lemma_modified_exactly(a: FileHashes, b: FileHashes)
    requires
        b.wf(),
    ensures
        spec_modified(a, b).no_duplicates(),
        forall|p: Seq<char>|
            #[trigger] spec_modified(a, b).contains(p) <==> b@.contains_key(p) && (!a@.contains_key(p)
                || a@[p] != b@[p]),
{
    b.lemma_keys();
    assert forall|p: Seq<char>|
        #[trigger] spec_modified(a, b).contains(p) <==> b@.contains_key(p) && (!a@.contains_key(p)
            || a@[p] != b@[p]) by {
        lemma_modified_iff(a, b, p);
    }
    let pr = |k: Seq<char>| is_modified(a@, b@, k);
    lemma_filter_no_duplicates(b.keys(), pr);
}

proof fn lemma_filter_no_duplicates(s: Seq<Seq<char>>, p: spec_fn(Seq<char>) -> bool)
    requires
        s.no_duplicates(),
    ensures
        s.filter(p).no_duplicates(),
    decreases s.len(),
{
    reveal_with_fuel(Seq::filter, 1);
    if s.len() > 0 {
        let dl = s.drop_last();
        assert(dl.no_duplicates());
        lemma_filter_no_duplicates(dl, p);
        if p(s.last()) {
            let f = dl.filter(p);
            assert(!f.contains(s.last())) by {
                if f.contains(s.last()) {
                    dl.lemma_filter_contains_rev(p, s.last());
                    let j = choose|j: int| 0 <= j < dl.len() && dl[j] == s.last();
                    assert(s[j] == s[s.len() - 1]);
                }
            }
            assert forall|i: int, j: int| 0 <= i < j < f.push(s.last()).len() implies f.push(s.last())[i]
                != f.push(s.last())[j] by {
                if j == f.len() {
                    assert(f.contains(f[i]));
                }
            }
        }
    }
}

/// `h` ends with `d`, character for character.
pub open spec fn ends_with_text(h: Seq<char>, d: Seq<char>) -> bool {
    d.len() <= h.len() && forall|j: int| 0 <= j < d.len() ==> h[h.len() - d.len() + j] == #[trigger] d[j]
}

proof fn lemma_ends_with_text(h: Seq<char>, d: Seq<char>)
    ensures
        ends_with_text(h, d) <==> spec_ends_with(h, d),
{
    if ends_with_text(h, d) {
        assert(h.skip(h.len() - d.len()) =~= d);
    }
    if spec_ends_with(h, d) {
        assert forall|j: int| 0 <= j < d.len() implies h[h.len() - d.len() + j] == #[trigger] d[j] by {
            assert(h.skip(h.len() - d.len())[j] == d[j]);
        }
    }
}

/// A source counts as dependent when any of its dependencies, at any position
/// of its list, ends any of the headers; and only then.
pub proof fn lemma_dependency_anywhere_counts(
    sources: Seq<Seq<char>>,
    deps: Seq<Seq<Seq<char>>>,
    headers: Seq<Seq<char>>,
)
    requires
        sources.len() == deps.len(),
    ensures
        forall|i: int, d: int, h: int|
            0 <= i < sources.len() && 0 <= d < deps[i].len() && 0 <= h < headers.len()
                && ends_with_text(#[trigger] headers[h], #[trigger] deps[i][d])
                ==> spec_dependent(sources, deps, headers).contains(sources[i]),
        forall|x: Seq<char>|
            #[trigger] spec_dependent(sources, deps, headers).contains(x) ==> exists|i: int, d: int, h: int|
                0 <= i < sources.len() && sources[i] == x && 0 <= d < deps[i].len() && 0 <= h
                    < headers.len() && ends_with_text(#[trigger] headers[h], #[trigger] deps[i][d]),
{
    assert forall|i: int, d: int, h: int|
        0 <= i < sources.len() && 0 <= d < deps[i].len() && 0 <= h < headers.len() && ends_with_text(
            #[trigger] headers[h],
            #[trigger] deps[i][d],
        ) implies spec_dependent(sources, deps, headers).contains(sources[i]) by {
        lemma_ends_with_text(headers[h], deps[i][d]);
        assert(depends_on_any(deps[i], headers));
        lemma_dependent_iff(sources, deps, headers, sources[i]);
    }
    assert forall|x: Seq<char>| #[trigger] spec_dependent(sources, deps, headers).contains(x) implies exists|
        i: int,
        d: int,
        h: int,
    |
        0 <= i < sources.len() && sources[i] == x && 0 <= d < deps[i].len() && 0 <= h < headers.len()
            && ends_with_text(#[trigger] headers[h], #[trigger] deps[i][d]) by {
        lemma_dependent_iff(sources, deps, headers, x);
        let i = choose|i: int| 0 <= i < sources.len() && sources[i] == x && #[trigger] depends_on_any(deps[i], headers);
        let (h, d) = choose|h: int, d: int|
            0 <= h < headers.len() && 0 <= d < deps[i].len() && spec_ends_with(
                #[trigger] headers[h],
                #[trigger] deps[i][d],
            );
        lemma_ends_with_text(headers[h], deps[i][d]);
    }
}

} // verus!
