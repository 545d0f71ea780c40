//! Character classes and the string operations the rest of the crate is built on.

use vstd::prelude::*;

verus! {

/// ASCII whitespace as `char::is_ascii_whitespace` defines it:
/// space, tab, line feed, form feed and carriage return.
pub open spec fn spec_ascii_whitespace(c: char) -> bool {
    c == ' ' || c == '\t' || c == '\n' || c == '\x0C' || c == '\r'
}

pub fn is_ascii_whitespace(c: char) -> (r: bool)
    ensures
        r == spec_ascii_whitespace(c),
{
    c == ' ' || c == '\t' || c == '\n' || c == '\x0C' || c == '\r'
}

/// The characters of a string slice, in order.
pub fn to_chars(s: &str) -> (r: Vec<char>)
    ensures
        r@ == s@,
{
    broadcast use vstd::string::group_string_axioms;
    let mut r: Vec<char> = Vec::new();
    for c in it: s.chars()
        invariant
            r@ == it.seq().take(it.index() as int),
            it.seq() == s@,
    {
        r.push(c);
    }
    r
}


/// Whether `c` has the Unicode `White_Space` property, which `char::is_whitespace`
/// tests: tab through carriage return, space, U+0085, U+00A0, U+1680, U+2000
/// through U+200A, U+2028, U+2029, U+202F, U+205F and U+3000.
pub open spec fn unicode_white_space(c: char) -> bool {
    ||| '\t' <= c <= '\r'
    ||| c == ' '
    ||| c == '\u{85}'
    ||| c == '\u{a0}'
    ||| c == '\u{1680}'
    ||| '\u{2000}' <= c <= '\u{200a}'
    ||| c == '\u{2028}'
    ||| c == '\u{2029}'
    ||| c == '\u{202f}'
    ||| c == '\u{205f}'
    ||| c == '\u{3000}'
}

/// `char::is_whitespace`: whether `c` has the Unicode `White_Space` property.
pub fn is_whitespace(c: char) -> (r: bool)
    ensures
        r == unicode_white_space(c),
{
    ('\t' <= c && c <= '\r') || c == ' ' || c == '\u{85}' || c == '\u{a0}' || c == '\u{1680}'
        || ('\u{2000}' <= c && c <= '\u{200a}') || c == '\u{2028}' || c == '\u{2029}' || c
        == '\u{202f}' || c == '\u{205f}' || c == '\u{3000}'
}

/// Calls `String::push`, which appends one character to the string.
#[verifier::external_body]
pub(crate) fn push_char(s: &mut String, c: char)
    ensures
        final(s)@ == old(s)@.push(c),
{
    s.push(c)
}

/// A `String` holding exactly the given characters.
pub fn chars_to_string(v: &[char]) -> (r: String)
    ensures
        r@ == v@,
{
    let mut r = String::new();
    let mut i: usize = 0;
    while i < v.len()
        invariant
            i <= v@.len(),
            r@ == v@.take(i as int),
        decreases v@.len() - i,
    {
        push_char(&mut r, v[i]);
        i += 1;
        assert(r@ =~= v@.take(i as int));
    }
    assert(v@.take(v@.len() as int) =~= v@);
    r
}

/// A copy of `v[from..to]`.
pub fn copy_range(v: &[char], from: usize, to: usize) -> (r: Vec<char>)
    requires
        from <= to <= v@.len(),
    ensures
        r@ == v@.subrange(from as int, to as int),
{
    let mut r: Vec<char> = Vec::new();
    let mut i: usize = from;
    while i < to
        invariant
            from <= i <= to <= v@.len(),
            r@ == v@.subrange(from as int, i as int),
        decreases to - i,
    {
        r.push(v[i]);
        i += 1;
        assert(r@ =~= v@.subrange(from as int, i as int));
    }
    r
}

/// Character-wise equality of two sequences.
pub fn chars_eq(a: &[char], b: &[char]) -> (r: bool)
    ensures
        r == (a@ == b@),
{
    if a.len() != b.len() {
        return false;
    }
    let mut i: usize = 0;
    while i < a.len()
        invariant
            a@.len() == b@.len(),
            i <= a@.len(),
            forall|j: int| 0 <= j < i ==> a@[j] == b@[j],
        decreases a@.len() - i,
    {
        if a[i] != b[i] {
            return false;
        }
        i += 1;
    }
    assert(a@ =~= b@);
    true
}

/// `s` begins with `p` (every sequence begins with the empty one).
pub open spec fn spec_starts_with(s: Seq<char>, p: Seq<char>) -> bool {
    p.len() <= s.len() && s.take(p.len() as int) == p
}

/// `s` ends with `p` (every sequence ends with the empty one).
pub open spec fn spec_ends_with(s: Seq<char>, p: Seq<char>) -> bool {
    p.len() <= s.len() && s.skip(s.len() - p.len()) == p
}

pub fn starts_with(s: &[char], p: &[char]) -> (r: bool)
    ensures
        r == spec_starts_with(s@, p@),
{
    if p.len() > s.len() {
        return false;
    }
    let mut i: usize = 0;
    while i < p.len()
        invariant
            p@.len() <= s@.len(),
            i <= p@.len(),
            forall|j: int| 0 <= j < i ==> s@[j] == p@[j],
        decreases p@.len() - i,
    {
        if s[i] != p[i] {
            assert(s@.take(p@.len() as int)[i as int] != p@[i as int]);
            return false;
        }
        i += 1;
    }
    assert(s@.take(p@.len() as int) =~= p@);
    true
}

pub fn ends_with(s: &[char], p: &[char]) -> (r: bool)
    ensures
        r == spec_ends_with(s@, p@),
{
    if p.len() > s.len() {
        return false;
    }
    let n: usize = s.len();
    let off: usize = n - p.len();
    let mut i: usize = 0;
    while i < p.len()
        invariant
            n == s@.len(),
            p@.len() <= s@.len(),
            off + p@.len() == s@.len(),
            i <= p@.len(),
            forall|j: int| 0 <= j < i ==> s@[off + j] == p@[j],
        decreases p@.len() - i,
    {
        if s[off + i] != p[i] {
            assert(s@.skip(off as int)[i as int] != p@[i as int]);
            return false;
        }
        i += 1;
    }
    assert(s@.skip(off as int) =~= p@);
    true
}

/// The first index at or after `i` that holds `c`, or `s.len()` when there is none.
pub open spec fn find_from(s: Seq<char>, c: char, i: int) -> int
    decreases s.len() - i,
{
    if i >= s.len() || (i >= 0 && s[i] == c) {
        i
    } else {
        find_from(s, c, i + 1)
    }
}

pub proof fn lemma_find_from(s: Seq<char>, c: char, i: int)
    requires
        0 <= i <= s.len(),
    ensures
        i <= find_from(s, c, i) <= s.len(),
        forall|j: int| i <= j < find_from(s, c, i) ==> s[j] != c,
        find_from(s, c, i) < s.len() ==> s[find_from(s, c, i)] == c,
    decreases s.len() - i,
{
    if i < s.len() && s[i] != c {
        lemma_find_from(s, c, i + 1);
    }
}

/// `find_from` is determined by the stretch it scans.
pub proof fn lemma_find_from_is(s: Seq<char>, c: char, i: int, k: int)
    requires
        0 <= i <= k <= s.len(),
        forall|j: int| i <= j < k ==> s[j] != c,
        k == s.len() || s[k] == c,
    ensures
        find_from(s, c, i) == k,
    decreases k - i,
{
    if i < k {
        lemma_find_from_is(s, c, i + 1, k);
    }
}

/// The index of the first `c` in `s`, when there is one.
pub fn find_char(s: &[char], c: char, from: usize) -> (r: usize)
    requires
        from <= s@.len(),
    ensures
        r == find_from(s@, c, from as int),
{
    let mut i: usize = from;
    while i < s.len() && s[i] != c
        invariant
            from <= i <= s@.len(),
            forall|j: int| from <= j < i ==> s@[j] != c,
        decreases s@.len() - i,
    {
        i += 1;
    }
    proof {
        lemma_find_from_is(s@, c, from as int, i as int);
    }
    i
}

/// A line without its trailing carriage return, if it has one.
pub open spec fn strip_cr(l: Seq<char>) -> Seq<char> {
    if l.len() > 0 && l.last() == '\r' {
        l.drop_last()
    } else {
        l
    }
}

/// The lines of a text as `str::lines` yields them: split at each line feed, a
/// carriage return right before a line feed dropped, and no empty line after a
/// final line feed.
pub open spec fn spec_lines(s: Seq<char>) -> Seq<Seq<char>>
    decreases s.len(),
{
    if s.len() == 0 {
        seq![]
    } else {
        let k = find_from(s, '\n', 0);
        if k < s.len() {
            proof {
                lemma_find_from(s, '\n', 0);
            }
            seq![strip_cr(s.take(k))] + spec_lines(s.skip(k + 1))
        } else {
            seq![s]
        }
    }
}

proof fn lemma_lines_step(s: Seq<char>, start: int, i: int)
    requires
        0 <= start <= i < s.len(),
        s[i] == '\n',
        forall|j: int| start <= j < i ==> s[j] != '\n',
    ensures
        spec_lines(s.skip(start)) == seq![strip_cr(s.subrange(start, i))] + spec_lines(
            s.skip(i + 1),
        ),
{
    let t = s.skip(start);
    lemma_find_from_is(t, '\n', 0, i - start);
    assert(t.take(i - start) =~= s.subrange(start, i));
    assert(t.skip(i - start + 1) =~= s.skip(i + 1));
}

proof fn lemma_lines_last(s: Seq<char>, start: int)
    requires
        0 <= start < s.len(),
        forall|j: int| start <= j < s.len() ==> s[j] != '\n',
    ensures
        spec_lines(s.skip(start)) == seq![s.skip(start)],
{
    let t = s.skip(start);
    lemma_find_from_is(t, '\n', 0, t.len() as int);
}

/// A text that is empty or ends with a line feed: its lines end where it ends.
pub open spec fn ends_line(a: Seq<char>) -> bool {
    a.len() == 0 || a.last() == '\n'
}

/// The lines of two texts, the first of which ends its last line, are the
/// lines of each in turn.
pub proof fn lemma_lines_concat(a: Seq<char>, b: Seq<char>)
    requires
        ends_line(a),
    ensures
        spec_lines(a + b) == spec_lines(a) + spec_lines(b),
    decreases a.len(),
{
    if a.len() == 0 {
        assert(a + b =~= b);
        assert(spec_lines(a) =~= Seq::<Seq<char>>::empty());
        assert(spec_lines(a) + spec_lines(b) =~= spec_lines(b));
    } else {
        let s = a + b;
        lemma_find_from(a, '\n', 0);
        let k = find_from(a, '\n', 0);
        assert(k < a.len());
        lemma_find_from_is(s, '\n', 0, k);
        assert(s.take(k) =~= a.take(k));
        assert(s.skip(k + 1) =~= a.skip(k + 1) + b);
        let rest = a.skip(k + 1);
        assert(ends_line(rest)) by {
            if rest.len() > 0 {
                assert(rest.last() == a.last());
            }
        }
        lemma_lines_concat(rest, b);
        assert(spec_lines(s) =~= spec_lines(a) + spec_lines(b));
    }
}

/// A line with its line feed is one line, the same again.
pub proof fn lemma_lines_one(l: Seq<char>)
    requires
        forall|j: int| 0 <= j < l.len() ==> l[j] != '\n',
        l.len() == 0 || l.last() != '\r',
    ensures
        spec_lines(l.push('\n')) == seq![l],
{
    let s = l.push('\n');
    lemma_find_from_is(s, '\n', 0, l.len() as int);
    assert(s.take(l.len() as int) =~= l);
    assert(s.skip(l.len() as int + 1) =~= Seq::<char>::empty());
    assert(spec_lines(s.skip(l.len() as int + 1)) =~= Seq::<Seq<char>>::empty());
    assert(spec_lines(s) =~= seq![l]);
}

/// Ending a text with one more line feed: after a complete last line it adds an
/// empty line; otherwise it ends the last line, dropping a carriage return
/// there.
pub proof fn lemma_lines_push_newline(a: Seq<char>)
    ensures
        ends_line(a) ==> spec_lines(a.push('\n')) == spec_lines(a).push(Seq::<char>::empty()),
        !ends_line(a) ==> spec_lines(a).len() > 0 && spec_lines(a.push('\n')) == spec_lines(
            a,
        ).drop_last().push(strip_cr(spec_lines(a).last())),
    decreases a.len(),
{
    if ends_line(a) {
        lemma_lines_one(Seq::<char>::empty());
        assert(Seq::<char>::empty().push('\n') =~= seq!['\n']);
        lemma_lines_concat(a, seq!['\n']);
        assert(a + seq!['\n'] =~= a.push('\n'));
        assert(spec_lines(a) + seq![Seq::<char>::empty()] =~= spec_lines(a).push(Seq::<char>::empty()));
    } else {
        let b = a.push('\n');
        lemma_find_from(a, '\n', 0);
        let k = find_from(a, '\n', 0);
        if k < a.len() {
            lemma_find_from_is(b, '\n', 0, k);
            assert(b.take(k) =~= a.take(k));
            let rest = a.skip(k + 1);
            assert(b.skip(k + 1) =~= rest.push('\n'));
            assert(k < a.len() - 1);
            assert(rest.len() > 0 && rest.last() == a.last());
            lemma_lines_push_newline(rest);
            let x = strip_cr(a.take(k));
            let l = spec_lines(rest);
            assert(spec_lines(a) == seq![x] + l);
            assert(spec_lines(b) == seq![x] + spec_lines(rest.push('\n')));
            assert((seq![x] + l).drop_last().push(strip_cr((seq![x] + l).last())) =~= seq![x]
                + l.drop_last().push(strip_cr(l.last())));
        } else {
            lemma_find_from_is(b, '\n', 0, a.len() as int);
            assert(b.take(a.len() as int) =~= a);
            assert(b.skip(a.len() as int + 1) =~= Seq::<char>::empty());
            assert(spec_lines(Seq::<char>::empty()) =~= Seq::<Seq<char>>::empty());
            assert(spec_lines(b) =~= seq![strip_cr(a)]);
            assert(spec_lines(a) =~= seq![a]);
            assert(spec_lines(a).drop_last().push(strip_cr(spec_lines(a).last())) =~= seq![strip_cr(a)]);
        }
    }
}

fn strip_cr_range(v: &[char], from: usize, to: usize) -> (r: Vec<char>)
    requires
        from <= to <= v@.len(),
    ensures
        r@ == strip_cr(v@.subrange(from as int, to as int)),
{
    if to > from && v[to - 1] == '\r' {
        let r = copy_range(v, from, to - 1);
        assert(r@ =~= v@.subrange(from as int, to as int).drop_last());
        r
    } else {
        copy_range(v, from, to)
    }
}

/// The lines of `s`, as `str::lines` splits them.
pub fn split_lines(s: &[char]) -> (r: Vec<Vec<char>>)
    ensures
        r.deep_view() == spec_lines(s@),
{
    let mut r: Vec<Vec<char>> = Vec::new();
    let mut start: usize = 0;
    let mut i: usize = 0;
    assert(s@.skip(0) =~= s@);
    while i < s.len()
        invariant
            start <= i <= s@.len(),
            forall|j: int| start <= j < i ==> s@[j] != '\n',
            spec_lines(s@) == r.deep_view() + spec_lines(s@.skip(start as int)),
        decreases s@.len() - i,
    {
        if s[i] == '\n' {
            let line = strip_cr_range(s, start, i);
            proof {
                lemma_lines_step(s@, start as int, i as int);
            }
            let ghost old_r = r.deep_view();
            let ghost lv = line@;
            r.push(line);
            assert(r@.last().deep_view() =~= lv);
            assert(r.deep_view() =~= old_r.push(lv));
            start = i + 1;
        }
        i += 1;
    }
    if start < s.len() {
        let line = copy_range(s, start, s.len());
        proof {
            lemma_lines_last(s@, start as int);
            assert(s@.skip(start as int) =~= s@.subrange(start as int, s@.len() as int));
        }
        let ghost old_r = r.deep_view();
        let ghost lv = line@;
        r.push(line);
        assert(r@.last().deep_view() =~= lv);
        assert(r.deep_view() =~= old_r.push(lv));
    } else {
        assert(s@.skip(start as int).len() == 0);
    }
    assert(r.deep_view() =~= spec_lines(s@));
    r
}


/// `s` without its leading Unicode whitespace, as `str::trim_start` gives it.
pub open spec fn spec_trim_start(s: Seq<char>) -> Seq<char>
    decreases s.len(),
{
    if s.len() > 0 && unicode_white_space(s[0]) {
        spec_trim_start(s.drop_first())
    } else {
        s
    }
}

/// `s` without its trailing Unicode whitespace, as `str::trim_end` gives it.
pub open spec fn spec_trim_end(s: Seq<char>) -> Seq<char>
    decreases s.len(),
{
    if s.len() > 0 && unicode_white_space(s.last()) {
        spec_trim_end(s.drop_last())
    } else {
        s
    }
}

/// `s` without leading and trailing Unicode whitespace, as `str::trim` gives it.
pub open spec fn spec_trim(s: Seq<char>) -> Seq<char> {
    spec_trim_end(spec_trim_start(s))
}

/// The start of `s[from..to]` once its leading whitespace is skipped.
pub fn trim_start_index(s: &[char], from: usize, to: usize) -> (a: usize)
    requires
        from <= to <= s@.len(),
    ensures
        from <= a <= to,
        spec_trim_start(s@.subrange(from as int, to as int)) == s@.subrange(a as int, to as int),
{
    let mut i: usize = from;
    while i < to && is_whitespace(s[i])
        invariant
            from <= i <= to <= s@.len(),
            spec_trim_start(s@.subrange(from as int, to as int)) == spec_trim_start(
                s@.subrange(i as int, to as int),
            ),
        decreases to - i,
    {
        assert(s@.subrange(i as int, to as int).drop_first() =~= s@.subrange(
            i + 1,
            to as int,
        ));
        i += 1;
    }
    i
}

/// The end of `s[from..to]` once its trailing whitespace is dropped.
pub fn trim_end_index(s: &[char], from: usize, to: usize) -> (e: usize)
    requires
        from <= to <= s@.len(),
    ensures
        from <= e <= to,
        spec_trim_end(s@.subrange(from as int, to as int)) == s@.subrange(from as int, e as int),
{
    let mut e: usize = to;
    while e > from && is_whitespace(s[e - 1])
        invariant
            from <= e <= to <= s@.len(),
            spec_trim_end(s@.subrange(from as int, to as int)) == spec_trim_end(
                s@.subrange(from as int, e as int),
            ),
        decreases e - from,
    {
        assert(s@.subrange(from as int, e as int).drop_last() =~= s@.subrange(
            from as int,
            e - 1,
        ));
        e -= 1;
    }
    e
}

/// A copy of `s` without its leading whitespace.
pub fn trim_start(s: &[char]) -> (r: Vec<char>)
    ensures
        r@ == spec_trim_start(s@),
{
    let a = trim_start_index(s, 0, s.len());
    assert(s@.subrange(0, s@.len() as int) =~= s@);
    copy_range(s, a, s.len())
}

/// A copy of `s` without its leading and trailing whitespace.
pub fn trim(s: &[char]) -> (r: Vec<char>)
    ensures
        r@ == spec_trim(s@),
{
    let a = trim_start_index(s, 0, s.len());
    assert(s@.subrange(0, s@.len() as int) =~= s@);
    let e = trim_end_index(s, a, s.len());
    copy_range(s, a, e)
}

/// `s` split at its first `c`, as `str::split_once` splits it.
pub open spec fn spec_split_once(s: Seq<char>, c: char) -> Option<(Seq<char>, Seq<char>)> {
    let k = find_from(s, c, 0);
    if k < s.len() {
        Some((s.take(k), s.skip(k + 1)))
    } else {
        None
    }
}

pub fn split_once(s: &[char], c: char) -> (r: Option<(Vec<char>, Vec<char>)>)
    ensures
        match r {
            Some((a, b)) => spec_split_once(s@, c) == Some((a@, b@)),
            None => spec_split_once(s@, c) is None,
        },
{
    let k = find_char(s, c, 0);
    proof {
        lemma_find_from(s@, c, 0);
    }
    if k < s.len() {
        let a = copy_range(s, 0, k);
        let b = copy_range(s, k + 1, s.len());
        assert(a@ =~= s@.take(k as int));
        assert(b@ =~= s@.skip(k + 1));
        Some((a, b))
    } else {
        None
    }
}

/// The index of the last `c` in `s`, or -1 when `s` holds none.
pub open spec fn spec_rfind(s: Seq<char>, c: char) -> int
    decreases s.len(),
{
    if s.len() == 0 {
        -1
    } else if s.last() == c {
        s.len() - 1
    } else {
        spec_rfind(s.drop_last(), c)
    }
}

/// What follows the last `c` in `s`; all of `s` when it holds no `c`. This is the
/// last piece that `str::split` yields.
pub open spec fn spec_after_last(s: Seq<char>, c: char) -> Seq<char> {
    s.skip(spec_rfind(s, c) + 1)
}

pub proof fn lemma_rfind_bounds(s: Seq<char>, c: char)
    ensures
        -1 <= spec_rfind(s, c) < s.len(),
        spec_rfind(s, c) >= 0 ==> s[spec_rfind(s, c)] == c,
        forall|j: int| spec_rfind(s, c) < j < s.len() ==> s[j] != c,
    decreases s.len(),
{
    if s.len() > 0 && s.last() != c {
        lemma_rfind_bounds(s.drop_last(), c);
        assert(forall|j: int| 0 <= j < s.len() - 1 ==> s.drop_last()[j] == s[j]);
    }
}

/// One past the index of the last `c` in `s`; 0 when `s` holds none.
pub fn rfind_end(s: &[char], c: char) -> (j: usize)
    ensures
        j == spec_rfind(s@, c) + 1,
        j <= s@.len(),
{
    let mut j: usize = s.len();
    assert(s@.take(j as int) =~= s@);
    while j > 0 && s[j - 1] != c
        invariant
            j <= s@.len(),
            spec_rfind(s@, c) == spec_rfind(s@.take(j as int), c),
        decreases j,
    {
        assert(s@.take(j as int).drop_last() =~= s@.take(j - 1));
        j -= 1;
    }
    j
}

pub fn after_last(s: &[char], c: char) -> (r: Vec<char>)
    ensures
        r@ == spec_after_last(s@, c),
{
    let j = rfind_end(s, c);
    copy_range(s, j, s.len())
}

/// The index of the first whitespace character at or after `i`, or `s.len()`.
pub open spec fn find_ws_from(s: Seq<char>, i: int) -> int
    decreases s.len() - i,
{
    if i >= s.len() || (i >= 0 && unicode_white_space(s[i])) {
        i
    } else {
        find_ws_from(s, i + 1)
    }
}

pub proof fn lemma_find_ws_from(s: Seq<char>, i: int)
    requires
        0 <= i <= s.len(),
    ensures
        i <= find_ws_from(s, i) <= s.len(),
        forall|j: int| i <= j < find_ws_from(s, i) ==> !unicode_white_space(s[j]),
        find_ws_from(s, i) < s.len() ==> unicode_white_space(s[find_ws_from(s, i)]),
    decreases s.len() - i,
{
    if i < s.len() && !unicode_white_space(s[i]) {
        lemma_find_ws_from(s, i + 1);
    }
}

proof fn lemma_find_ws_from_is(s: Seq<char>, i: int, k: int)
    requires
        0 <= i <= k <= s.len(),
        forall|j: int| i <= j < k ==> !unicode_white_space(s[j]),
        k == s.len() || unicode_white_space(s[k]),
    ensures
        find_ws_from(s, i) == k,
    decreases k - i,
{
    if i < k {
        lemma_find_ws_from_is(s, i + 1, k);
    }
}

/// The words of `s`: its maximal runs of non-whitespace characters, in order, as
/// `str::split_whitespace` yields them.
pub open spec fn spec_words(s: Seq<char>) -> Seq<Seq<char>>
    decreases s.len(),
{
    if s.len() == 0 {
        seq![]
    } else if unicode_white_space(s[0]) {
        spec_words(s.drop_first())
    } else {
        let k = find_ws_from(s, 0);
        proof {
            lemma_find_ws_from(s, 0);
        }
        seq![s.take(k)] + spec_words(s.skip(k))
    }
}

/// The words of `s`, as `str::split_whitespace` splits them.
pub fn split_whitespace(s: &[char]) -> (r: Vec<Vec<char>>)
    ensures
        r.deep_view() == spec_words(s@),
{
    let mut r: Vec<Vec<char>> = Vec::new();
    let mut i: usize = 0;
    assert(s@.skip(0) =~= s@);
    while i < s.len()
        invariant
            i <= s@.len(),
            spec_words(s@) == r.deep_view() + spec_words(s@.skip(i as int)),
        decreases s@.len() - i,
    {
        let ghost t = s@.skip(i as int);
        if is_whitespace(s[i]) {
            assert(t.drop_first() =~= s@.skip(i + 1));
            i += 1;
        } else {
            let mut k: usize = i;
            while k < s.len() && !is_whitespace(s[k])
                invariant
                    i <= k <= s@.len(),
                    forall|j: int| i <= j < k ==> !unicode_white_space(s@[j]),
                decreases s@.len() - k,
            {
                k += 1;
            }
            proof {
                lemma_find_ws_from_is(t, 0, k - i);
                assert(t.take(k - i) =~= s@.subrange(i as int, k as int));
                assert(t.skip(k - i) =~= s@.skip(k as int));
            }
            let w = copy_range(s, i, k);
            let ghost old_r = r.deep_view();
            let ghost wv = w@;
            r.push(w);
            assert(r@.last().deep_view() =~= wv);
            assert(r.deep_view() =~= old_r.push(wv));
            i = k;
        }
    }
    assert(r.deep_view() + spec_words(s@.skip(i as int)) =~= r.deep_view());
    r
}


/// Whether `c` has the Unicode `Alphabetic` property, as `char::is_alphabetic` reports it.
pub uninterp spec fn unicode_alphabetic(c: char) -> bool;

/// Whether `c` is in a Unicode numeric category, as `char::is_numeric` reports it.
pub uninterp spec fn unicode_numeric(c: char) -> bool;

/// `char::is_alphanumeric`: alphabetic or numeric, as its documentation defines it.
pub open spec fn spec_alphanumeric(c: char) -> bool {
    unicode_alphabetic(c) || unicode_numeric(c)
}

/// Calls `char::is_alphabetic`; the result is named `unicode_alphabetic(c)`.
/// Also claimed: NUL and the ASCII whitespace characters are not alphabetic
/// (they lack the Unicode `Alphabetic` property that the function tests).
#[verifier::external_body]
pub fn is_alphabetic(c: char) -> (r: bool)
    ensures
        r == unicode_alphabetic(c),
        (c == '\0' || spec_ascii_whitespace(c)) ==> !r,
{
    c.is_alphabetic()
}

/// Calls `char::is_numeric`; the result is named `unicode_numeric(c)`.
/// Also claimed: NUL and the ASCII whitespace characters are not numeric
/// (they lie in no Unicode `N*` category, which is what the function tests).
#[verifier::external_body]
pub fn is_numeric(c: char) -> (r: bool)
    ensures
        r == unicode_numeric(c),
        (c == '\0' || spec_ascii_whitespace(c)) ==> !r,
{
    c.is_numeric()
}

/// `char::is_alphanumeric`, which its documentation defines as `is_alphabetic() || is_numeric()`.
pub fn is_alphanumeric(c: char) -> (r: bool)
    ensures
        r == spec_alphanumeric(c),
        (c == '\0' || spec_ascii_whitespace(c)) ==> !r,
{
    is_alphabetic(c) || is_numeric(c)
}

/// A one-character string.
pub fn char_to_string(c: char) -> (r: String)
    ensures
        r@ == seq![c],
{
    let mut r = String::new();
    push_char(&mut r, c);
    assert(r@ =~= seq![c]);
    r
}

} // verus!
