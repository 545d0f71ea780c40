//! Reading the compiler's list of system header directories, and the places a
//! header may be found in them.

use vstd::prelude::*;
use vstd::string::StringExecFns;

use crate::text::{
    chars_to_string, ends_line, lemma_lines_concat, lemma_lines_push_newline, spec_lines,
    spec_starts_with, spec_trim, split_lines, starts_with, strip_cr, to_chars, trim,
};

verus! {

/// The line after which the compiler lists its header directories.
pub open spec fn search_start() -> Seq<char> {
    "#include <...> search starts here:"@
}

/// The line that ends the compiler's list.
pub open spec fn search_end() -> Seq<char> {
    "End of search list."@
}

/// The directories listed from line 0 of `lines` on, `capturing` telling whether
/// the start line was already seen: the trimmed lines after a line beginning
/// with the start text, up to the first line beginning with the end text.
pub open spec fn spec_include_paths(lines: Seq<Seq<char>>, capturing: bool) -> Seq<Seq<char>>
    decreases lines.len(),
{
    if lines.len() == 0 {
        Seq::empty()
    } else if spec_starts_with(lines[0], search_start()) {
        spec_include_paths(lines.drop_first(), true)
    } else if spec_starts_with(lines[0], search_end()) {
        Seq::empty()
    } else if capturing {
        seq![spec_trim(lines[0])] + spec_include_paths(lines.drop_first(), capturing)
    } else {
        spec_include_paths(lines.drop_first(), capturing)
    }
}

/// The header directories in the compiler's verbose preprocessor output.
pub fn parse_include_paths(output: &str) -> (r: Vec<String>)
    ensures
        r.deep_view() == spec_include_paths(spec_lines(output@), false),
{
    let chars = to_chars(output);
    let lines = split_lines(chars.as_slice());
    let ghost ls = spec_lines(output@);
    let start = to_chars("#include <...> search starts here:");
    let end = to_chars("End of search list.");
    let mut paths: Vec<String> = Vec::new();
    let mut capture = false;
    let mut i: usize = 0;
    assert(ls.skip(0) =~= ls);
    while i < lines.len()
        invariant
            lines.deep_view() == ls,
            ls == spec_lines(output@),
            start@ == search_start(),
            end@ == search_end(),
            i <= ls.len(),
            spec_include_paths(ls, false) == paths.deep_view() + spec_include_paths(
                ls.skip(i as int),
                capture,
            ),
        decreases ls.len() - i,
    {
        let line = &lines[i];
        assert(line@ == ls[i as int]);
        assert(ls.skip(i as int)[0] == ls[i as int]);
        assert(ls.skip(i as int).drop_first() =~= ls.skip(i + 1));
        if starts_with(line.as_slice(), start.as_slice()) {
            capture = true;
        } else if starts_with(line.as_slice(), end.as_slice()) {
            assert(paths.deep_view() + Seq::<Seq<char>>::empty() =~= paths.deep_view());
            return paths;
        } else if capture {
            let t = trim(line.as_slice());
            let ghost old_p = paths.deep_view();
            paths.push(chars_to_string(t.as_slice()));
            assert(paths.deep_view() =~= old_p.push(t@));
            assert(old_p + (seq![t@] + spec_include_paths(ls.skip(i + 1), capture)) =~= old_p.push(t@)
                + spec_include_paths(ls.skip(i + 1), capture));
        }
        i += 1;
    }
    assert(paths.deep_view() + Seq::<Seq<char>>::empty() =~= paths.deep_view());
    paths
}

/// `dir`, a `/`, then `name`.
pub open spec fn join_path(dir: Seq<char>, name: Seq<char>) -> Seq<char> {
    dir + seq!['/'] + name
}

/// The places where header `name` may be found, one per directory, in order.
pub fn header_candidates(dirs: &Vec<String>, name: &str) -> (r: Vec<String>)
    ensures
        r.deep_view().len() == dirs.deep_view().len(),
        forall|i: int|
            0 <= i < dirs.deep_view().len() ==> #[trigger] r.deep_view()[i] == join_path(
                dirs.deep_view()[i],
                name@,
            ),
{
    let mut r: Vec<String> = Vec::new();
    let mut i: usize = 0;
    while i < dirs.len()
        invariant
            i <= dirs@.len(),
            r.deep_view().len() == i,
            forall|j: int|
                0 <= j < i ==> #[trigger] r.deep_view()[j] == join_path(dirs.deep_view()[j], name@),
        decreases dirs@.len() - i,
    {
        let mut full = dirs[i].clone();
        full.append("/");
        full.append(name);
        proof {
            reveal_strlit("/");
        }
        let ghost old_r = r.deep_view();
        let ghost fv = full@;
        assert(fv =~= join_path(dirs.deep_view()[i as int], name@));
        r.push(full);
        assert(r.deep_view() =~= old_r.push(fv));
        i += 1;
    }
    r
}

proof fn lemma_end_line_not_start(l: Seq<char>)
    requires
        spec_starts_with(l, search_end()),
    ensures
        !spec_starts_with(l, search_start()),
{
    reveal_strlit("End of search list.");
    reveal_strlit("#include <...> search starts here:");
    if spec_starts_with(l, search_start()) {
        assert(l[0] == l.take(search_end().len() as int)[0]);
        assert(l[0] == l.take(search_start().len() as int)[0]);
    }
}

proof fn lemma_strip_cr_keeps_end(l: Seq<char>)
    requires
        spec_starts_with(l, search_end()),
    ensures
        spec_starts_with(strip_cr(l), search_end()),
{
    reveal_strlit("End of search list.");
    let n = search_end().len() as int;
    if l.len() > 0 && l.last() == '\r' {
        if l.len() == n {
            assert(l.last() == l.take(n)[n - 1]);
        } else {
            assert(l.drop_last().take(n) =~= l.take(n));
        }
    }
}

/// Lists that agree up to a line beginning with the end text give the same
/// directories: lines from there on are never read.
proof fn lemma_include_paths_agree(l1: Seq<Seq<char>>, l2: Seq<Seq<char>>, e: int, capturing: bool)
    requires
        0 <= e < l1.len(),
        e < l2.len(),
        forall|i: int| 0 <= i < e ==> l1[i] == l2[i],
        spec_starts_with(l1[e], search_end()),
        spec_starts_with(l2[e], search_end()),
    ensures
        spec_include_paths(l1, capturing) == spec_include_paths(l2, capturing),
    decreases e,
{
    if e == 0 {
        lemma_end_line_not_start(l1[0]);
        lemma_end_line_not_start(l2[0]);
    } else {
        assert(l1[0] == l2[0]);
        let c2 = if spec_starts_with(l1[0], search_start()) { true } else { capturing };
        assert forall|i: int| 0 <= i < e - 1 implies l1.drop_first()[i] == l2.drop_first()[i] by {
            assert(l1[i + 1] == l2[i + 1]);
        }
        lemma_include_paths_agree(l1.drop_first(), l2.drop_first(), e - 1, c2);
    }
}

/// Text after a line that begins with the end text never changes the
/// directories found: the output followed by a line feed and any text `t`
/// lists the same directories as the output alone.
pub proof fn lemma_include_paths_ignore_after_end(output: Seq<char>, t: Seq<char>, e: int)
    requires
        0 <= e < spec_lines(output).len(),
        spec_starts_with(spec_lines(output)[e], search_end()),
    ensures
        spec_include_paths(spec_lines(output + seq!['\n'] + t), false) == spec_include_paths(
            spec_lines(output),
            false,
        ),
{
    let l1 = spec_lines(output);
    let b = output.push('\n');
    assert(output + seq!['\n'] + t =~= b + t);
    lemma_lines_concat(b, t);
    lemma_lines_push_newline(output);
    let l2 = spec_lines(b) + spec_lines(t);
    if ends_line(output) {
        assert forall|i: int| 0 <= i <= e implies l1[i] == l2[i] by {
            assert(l2[i] == spec_lines(b)[i]);
        }
    } else {
        let n = l1.len() as int;
        assert forall|i: int| 0 <= i < e implies l1[i] == l2[i] by {
            assert(l2[i] == spec_lines(b)[i]);
            assert(spec_lines(b)[i] == l1.drop_last()[i]);
        }
        assert(l2[e] == spec_lines(b)[e]);
        if e < n - 1 {
            assert(spec_lines(b)[e] == l1.drop_last()[e]);
        } else {
            assert(spec_lines(b)[e] == strip_cr(l1.last()));
            lemma_strip_cr_keeps_end(l1[e]);
        }
    }
    lemma_include_paths_agree(l1, l2, e, false);
}

} // verus!
