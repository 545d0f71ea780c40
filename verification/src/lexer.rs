//! A character-level tokenizer: words of alphanumeric characters, runs of
//! numeric characters, and single other characters, with ASCII whitespace between.

use vstd::prelude::*;
use vstd::string::StrSliceExecFns;

use crate::text::{
    char_to_string, is_alphabetic, is_alphanumeric, is_ascii_whitespace, is_numeric, push_char, spec_alphanumeric,
    spec_ascii_whitespace, unicode_alphabetic, unicode_numeric,
};

verus! {

/// The character at `i`, or NUL past either end.
pub open spec fn char_at(s: Seq<char>, i: int) -> char {
    if 0 <= i < s.len() {
        s[i]
    } else {
        '\0'
    }
}

/// The first index at or after `i` that is not ASCII whitespace.
pub open spec fn ws_end(s: Seq<char>, i: int) -> int
    decreases s.len() - i,
{
    if 0 <= i < s.len() && spec_ascii_whitespace(s[i]) {
        ws_end(s, i + 1)
    } else {
        i
    }
}

/// The first index at or after `i` that is not alphanumeric.
pub open spec fn alnum_end(s: Seq<char>, i: int) -> int
    decreases s.len() - i,
{
    if 0 <= i < s.len() && spec_alphanumeric(s[i]) {
        alnum_end(s, i + 1)
    } else {
        i
    }
}

/// The first index at or after `i` that is not numeric.
pub open spec fn numeric_end(s: Seq<char>, i: int) -> int
    decreases s.len() - i,
{
    if 0 <= i < s.len() && unicode_numeric(s[i]) {
        numeric_end(s, i + 1)
    } else {
        i
    }
}

pub proof fn lemma_ws_end(s: Seq<char>, i: int)
    requires
        0 <= i,
    ensures
        i <= ws_end(s, i),
        i <= s.len() ==> ws_end(s, i) <= s.len(),
        forall|j: int| i <= j < ws_end(s, i) ==> spec_ascii_whitespace(#[trigger] s[j]),
        0 <= ws_end(s, i) < s.len() ==> !spec_ascii_whitespace(s[ws_end(s, i)]),
    decreases s.len() - i,
{
    if 0 <= i < s.len() && spec_ascii_whitespace(s[i]) {
        lemma_ws_end(s, i + 1);
    }
}

pub proof fn lemma_alnum_end(s: Seq<char>, i: int)
    requires
        0 <= i,
    ensures
        i <= alnum_end(s, i),
        i <= s.len() ==> alnum_end(s, i) <= s.len(),
        forall|j: int| i <= j < alnum_end(s, i) ==> spec_alphanumeric(#[trigger] s[j]),
        0 <= alnum_end(s, i) < s.len() ==> !spec_alphanumeric(s[alnum_end(s, i)]),
        i < s.len() && spec_alphanumeric(s[i]) ==> i < alnum_end(s, i),
    decreases s.len() - i,
{
    if 0 <= i < s.len() && spec_alphanumeric(s[i]) {
        lemma_alnum_end(s, i + 1);
    }
}

pub proof fn lemma_numeric_end(s: Seq<char>, i: int)
    requires
        0 <= i,
    ensures
        i <= numeric_end(s, i),
        i <= s.len() ==> numeric_end(s, i) <= s.len(),
        forall|j: int| i <= j < numeric_end(s, i) ==> unicode_numeric(#[trigger] s[j]),
        0 <= numeric_end(s, i) < s.len() ==> !unicode_numeric(s[numeric_end(s, i)]),
        i < s.len() && unicode_numeric(s[i]) ==> i < numeric_end(s, i),
    decreases s.len() - i,
{
    if 0 <= i < s.len() && unicode_numeric(s[i]) {
        lemma_numeric_end(s, i + 1);
    }
}

/// The tokens that lexing `s` from position `i` yields. Lexing stops at a NUL
/// or at the end. Otherwise ASCII whitespace is skipped; then an alphabetic
/// character starts a token running to the end of the alphanumeric run, a numeric
/// character starts one running to the end of the numeric run, and any other
/// character is a token by itself. When only whitespace was left, that character
/// is the NUL that stands past the end.
pub open spec fn spec_lex(s: Seq<char>, i: int) -> Seq<Seq<char>>
    decreases s.len() + 1 - i,
{
    if !(0 <= i < s.len()) || s[i] == '\0' {
        seq![]
    } else {
        let j = ws_end(s, i);
        proof {
            lemma_ws_end(s, i);
        }
        if j < s.len() && unicode_alphabetic(s[j]) {
            let k = alnum_end(s, j);
            proof {
                lemma_alnum_end(s, j);
            }
            seq![s.subrange(j, k)] + spec_lex(s, k)
        } else if j < s.len() && unicode_numeric(s[j]) {
            let k = numeric_end(s, j);
            proof {
                lemma_numeric_end(s, j);
            }
            seq![s.subrange(j, k)] + spec_lex(s, k)
        } else {
            seq![seq![char_at(s, j)]] + spec_lex(s, j + 1)
        }
    }
}

/// The tokens of a whole text.
pub open spec fn spec_tokens(s: Seq<char>) -> Seq<Seq<char>> {
    spec_lex(s, 0)
}

/// Whether a character is visible: neither ASCII whitespace nor NUL.
pub open spec fn visible_char(c: char) -> bool {
    !spec_ascii_whitespace(c) && c != '\0'
}

/// The visible characters of `s`, in order.
pub open spec fn visible(s: Seq<char>) -> Seq<char> {
    s.filter(|c: char| visible_char(c))
}

pub open spec fn has_nul(s: Seq<char>) -> bool {
    exists|j: int| 0 <= j < s.len() && s[j] == '\0'
}

proof fn lemma_visible_split(s: Seq<char>, a: int, b: int)
    requires
        0 <= a <= b <= s.len(),
    ensures
        visible(s.skip(a)) == visible(s.subrange(a, b)) + visible(s.skip(b)),
{
    assert(s.skip(a) =~= s.subrange(a, b) + s.skip(b));
    Seq::filter_distributes_over_add(s.subrange(a, b), s.skip(b), |c: char| visible_char(c));
}

proof fn lemma_visible_blank(s: Seq<char>, a: int, b: int)
    requires
        0 <= a <= b <= s.len(),
        forall|j: int| a <= j < b ==> spec_ascii_whitespace(#[trigger] s[j]),
    ensures
        visible(s.subrange(a, b)) == Seq::<char>::empty(),
    decreases b - a,
{
    reveal_with_fuel(Seq::filter, 1);
    if a < b {
        lemma_visible_blank(s, a, b - 1);
        assert(s.subrange(a, b).drop_last() =~= s.subrange(a, b - 1));
    } else {
        assert(s.subrange(a, b) =~= Seq::<char>::empty());
    }
}

proof fn lemma_visible_one(c: char)
    ensures
        visible(seq![c]) == (if visible_char(c) { seq![c] } else { Seq::<char>::empty() }),
{
    reveal_with_fuel(Seq::filter, 2);
    assert(seq![c].drop_last() =~= Seq::<char>::empty());
}

proof fn lemma_lex_visible(s: Seq<char>, i: int)
    requires
        !has_nul(s),
        0 <= i <= s.len(),
    ensures
        visible(spec_lex(s, i).flatten()) == visible(s.skip(i)),
    decreases s.len() + 1 - i,
{
    if i == s.len() {
        assert(s.skip(i) =~= Seq::<char>::empty());
        reveal_with_fuel(Seq::filter, 1);
    } else {
        let j = ws_end(s, i);
        lemma_ws_end(s, i);
        lemma_visible_split(s, i, j);
        lemma_visible_blank(s, i, j);
        assert(visible(s.skip(i)) =~= visible(s.skip(j)));
        if j < s.len() && unicode_alphabetic(s[j]) {
            let k = alnum_end(s, j);
            lemma_alnum_end(s, j);
            lemma_lex_visible(s, k);
            let tok = s.subrange(j, k);
            assert(spec_lex(s, i) == seq![tok] + spec_lex(s, k));
            assert((seq![tok] + spec_lex(s, k)).drop_first() =~= spec_lex(s, k));
            Seq::filter_distributes_over_add(tok, spec_lex(s, k).flatten(), |c: char| visible_char(c));
            lemma_visible_split(s, j, k);
        } else if j < s.len() && unicode_numeric(s[j]) {
            let k = numeric_end(s, j);
            lemma_numeric_end(s, j);
            lemma_lex_visible(s, k);
            let tok = s.subrange(j, k);
            assert(spec_lex(s, i) == seq![tok] + spec_lex(s, k));
            assert((seq![tok] + spec_lex(s, k)).drop_first() =~= spec_lex(s, k));
            Seq::filter_distributes_over_add(tok, spec_lex(s, k).flatten(), |c: char| visible_char(c));
            lemma_visible_split(s, j, k);
        } else {
            let c = char_at(s, j);
            assert(spec_lex(s, i) == seq![seq![c]] + spec_lex(s, j + 1));
            assert((seq![seq![c]] + spec_lex(s, j + 1)).drop_first() =~= spec_lex(s, j + 1));
            lemma_visible_one(c);
            if j < s.len() {
                lemma_lex_visible(s, j + 1);
                Seq::filter_distributes_over_add(seq![c], spec_lex(s, j + 1).flatten(), |c: char| visible_char(c));
                lemma_visible_split(s, j, j + 1);
                assert(s.subrange(j, j + 1) =~= seq![c]);
            } else {
                assert(spec_lex(s, j + 1) =~= Seq::<Seq<char>>::empty());
                assert(s.skip(j) =~= Seq::<char>::empty());
                reveal_with_fuel(Seq::filter, 1);
                assert(spec_lex(s, j + 1).flatten() =~= Seq::<char>::empty());
                assert(seq![c] + Seq::<char>::empty() =~= seq![c]);
            }
        }
    }
}

/// Lexing loses no visible character: for a text without NUL, the tokens joined
/// together hold exactly the text's characters other than ASCII whitespace, in
/// order (the NUL that marks trailing whitespace aside).
pub proof fn lemma_tokens_keep_visible_text(s: Seq<char>)
    requires
        !has_nul(s),
    ensures
        visible(spec_tokens(s).flatten()) == visible(s),
{
    lemma_lex_visible(s, 0);
    assert(s.skip(0) =~= s);
}

proof fn lemma_cons_nonempty(tok: Seq<char>, rest: Seq<Seq<char>>)
    requires
        tok.len() > 0,
        forall|t: int| 0 <= t < rest.len() ==> #[trigger] rest[t].len() > 0,
    ensures
        forall|t: int|
            0 <= t < (seq![tok] + rest).len() ==> #[trigger] (seq![tok] + rest)[t].len() > 0,
{
    assert forall|t: int| 0 <= t < (seq![tok] + rest).len() implies #[trigger] (seq![tok]
        + rest)[t].len() > 0 by {
        if t > 0 {
            assert((seq![tok] + rest)[t] == rest[t - 1]);
        }
    }
}

proof fn lemma_lex_nonempty(s: Seq<char>, i: int)
    requires
        0 <= i,
    ensures
        forall|t: int| 0 <= t < spec_lex(s, i).len() ==> #[trigger] spec_lex(s, i)[t].len() > 0,
    decreases s.len() + 1 - i,
{
    if 0 <= i < s.len() && s[i] != '\0' {
        let j = ws_end(s, i);
        lemma_ws_end(s, i);
        if j < s.len() && unicode_alphabetic(s[j]) {
            let k = alnum_end(s, j);
            lemma_alnum_end(s, j);
            lemma_lex_nonempty(s, k);
            lemma_cons_nonempty(s.subrange(j, k), spec_lex(s, k));
        } else if j < s.len() && unicode_numeric(s[j]) {
            let k = numeric_end(s, j);
            lemma_numeric_end(s, j);
            lemma_lex_nonempty(s, k);
            lemma_cons_nonempty(s.subrange(j, k), spec_lex(s, k));
        } else {
            lemma_lex_nonempty(s, j + 1);
            lemma_cons_nonempty(seq![char_at(s, j)], spec_lex(s, j + 1));
        }
    }
}

/// Every token holds at least one character.
pub proof fn lemma_tokens_nonempty(s: Seq<char>)
    ensures
        forall|t: int| 0 <= t < spec_tokens(s).len() ==> #[trigger] spec_tokens(s)[t].len() > 0,
{
    lemma_lex_nonempty(s, 0);
}

/// The position just after the token that lexing `s` from `i` yields next:
/// past the run of an alphanumeric or numeric token, or one past its single
/// character (one past the end for the NUL that marks trailing whitespace).
/// Where lexing stops, `i` itself.
pub open spec fn next_pos(s: Seq<char>, i: int) -> int {
    if !(0 <= i < s.len()) || s[i] == '\0' {
        i
    } else {
        let j = ws_end(s, i);
        if j < s.len() && unicode_alphabetic(s[j]) {
            alnum_end(s, j)
        } else if j < s.len() && unicode_numeric(s[j]) {
            numeric_end(s, j)
        } else {
            j + 1
        }
    }
}

pub proof fn lemma_next_pos(s: Seq<char>, i: int)
    requires
        0 <= i < s.len(),
        s[i] != '\0',
    ensures
        i < next_pos(s, i) <= s.len() + 1,
{
    lemma_ws_end(s, i);
    let j = ws_end(s, i);
    if j < s.len() && unicode_alphabetic(s[j]) {
        lemma_alnum_end(s, j);
    } else if j < s.len() && unicode_numeric(s[j]) {
        lemma_numeric_end(s, j);
    }
}

/// The position where lexing `s` from `i` stops: at a NUL, or past the end.
pub open spec fn lex_end(s: Seq<char>, i: int) -> int
    decreases s.len() + 1 - i,
{
    if !(0 <= i < s.len()) || s[i] == '\0' {
        i
    } else {
        proof {
            lemma_next_pos(s, i);
        }
        lex_end(s, next_pos(s, i))
    }
}

/// Lexing stops where no token is left.
pub proof fn lemma_lex_end(s: Seq<char>, i: int)
    requires
        0 <= i,
    ensures
        char_at(s, lex_end(s, i)) == '\0',
        spec_lex(s, lex_end(s, i)) == Seq::<Seq<char>>::empty(),
        i <= s.len() + 1 ==> lex_end(s, i) <= s.len() + 1,
        i <= lex_end(s, i),
    decreases s.len() + 1 - i,
{
    if 0 <= i < s.len() && s[i] != '\0' {
        lemma_next_pos(s, i);
        lemma_lex_end(s, next_pos(s, i));
    }
}

pub struct Lexer {
    contents: String,
    character: char,
    index: usize,
}

impl Lexer {
    /// The text being lexed.
    pub closed spec fn text(&self) -> Seq<char> {
        self.contents@
    }

    /// The position of the current character.
    pub closed spec fn position(&self) -> int {
        self.index as int
    }

    /// The current character is the one at the position (NUL past the end).
    pub closed spec fn wf(&self) -> bool {
        &&& self.contents@.len() < usize::MAX
        &&& self.character == char_at(self.contents@, self.index as int)
    }

    /// A lexer at the start of `contents`, which must not be empty.
    pub fn from(contents: String) -> (r: Self)
        requires
            contents@.len() > 0,
            contents@.len() < usize::MAX,
        ensures
            r.wf(),
            r.text() == contents@,
            r.position() == 0,
    {
        let first = contents.as_str().get_char(0);
        Lexer { contents: contents, character: first, index: 0 }
    }

    fn advance(&mut self)
        requires
            old(self).wf(),
            old(self).index < usize::MAX,
        ensures
            final(self).wf(),
            final(self).contents@ == old(self).contents@,
            final(self).index == old(self).index + 1,
    {
        self.index += 1;
        let s = self.contents.as_str();
        if self.index < s.unicode_len() {
            self.character = s.get_char(self.index);
        } else {
            self.character = '\0';
        }
    }

    /// The character `offset` places from the current one, if there is one.
    fn peek(&self, offset: i64) -> (r: Option<char>)
        requires
            self.wf(),
            self.index <= i64::MAX,
            i64::MIN <= self.index + offset <= i64::MAX,
        ensures
            r == (if 0 <= self.index + offset < self.contents@.len() {
                Some(self.contents@[self.index + offset])
            } else {
                None
            }),
    {
        let target: i64 = self.index as i64 + offset;
        let s = self.contents.as_str();
        assert(target == self.index + offset);
        if target < 0 {
            return None;
        }
        let len: usize = s.unicode_len();
        if target as u64 >= len as u64 {
            return None;
        }
        Some(s.get_char(target as usize))
    }

    fn skip_whitespace(&mut self)
        requires
            old(self).wf(),
        ensures
            final(self).wf(),
            final(self).contents@ == old(self).contents@,
            final(self).index == ws_end(old(self).contents@, old(self).index as int),
    {
        let ghost s = self.contents@;
        let ghost start = self.index as int;
        while is_ascii_whitespace(self.character)
            invariant
                self.wf(),
                self.contents@ == s,
                0 <= start <= self.index,
                ws_end(s, start) == ws_end(s, self.index as int),
            decreases s.len() - self.index,
        {
            self.advance();
        }
    }

    fn identifier(&mut self) -> (id: String)
        requires
            old(self).wf(),
        ensures
            final(self).wf(),
            final(self).contents@ == old(self).contents@,
            final(self).index == alnum_end(old(self).contents@, old(self).index as int),
            old(self).index <= old(self).contents@.len() ==> id@ == old(self).contents@.subrange(
                old(self).index as int,
                final(self).index as int,
            ),
            old(self).index > old(self).contents@.len() ==> id@.len() == 0,
    {
        let ghost s = self.contents@;
        let ghost start = self.index as int;
        let mut id = String::new();
        while is_alphanumeric(self.character)
            invariant
                self.wf(),
                self.contents@ == s,
                0 <= start <= self.index,
                alnum_end(s, start) == alnum_end(s, self.index as int),
                start > s.len() ==> self.index == start && id@.len() == 0,
                start <= s.len() ==> self.index <= s.len() && id@ == s.subrange(
                    start,
                    self.index as int,
                ),
            decreases s.len() - self.index,
        {
            let c = self.character;
            let ghost i0 = self.index as int;
            let ghost id0 = id@;
            assert(i0 < s.len() && c == s[i0]);
            push_char(&mut id, c);
            self.advance();
            assert(id@ == id0.push(c));
            assert(self.index == i0 + 1);
            assert(s.subrange(start, i0 + 1) =~= s.subrange(start, i0).push(s[i0]));
        }
        id
    }

    fn number(&mut self) -> (num: String)
        requires
            old(self).wf(),
        ensures
            final(self).wf(),
            final(self).contents@ == old(self).contents@,
            final(self).index == numeric_end(old(self).contents@, old(self).index as int),
            old(self).index <= old(self).contents@.len() ==> num@ == old(self).contents@.subrange(
                old(self).index as int,
                final(self).index as int,
            ),
            old(self).index > old(self).contents@.len() ==> num@.len() == 0,
    {
        let ghost s = self.contents@;
        let ghost start = self.index as int;
        let mut num = String::new();
        while is_numeric(self.character)
            invariant
                self.wf(),
                self.contents@ == s,
                0 <= start <= self.index,
                numeric_end(s, start) == numeric_end(s, self.index as int),
                start > s.len() ==> self.index == start && num@.len() == 0,
                start <= s.len() ==> self.index <= s.len() && num@ == s.subrange(
                    start,
                    self.index as int,
                ),
            decreases s.len() - self.index,
        {
            let c = self.character;
            let ghost i0 = self.index as int;
            let ghost num0 = num@;
            assert(i0 < s.len() && c == s[i0]);
            push_char(&mut num, c);
            self.advance();
            assert(num@ == num0.push(c));
            assert(s.subrange(start, i0 + 1) =~= s.subrange(start, i0).push(s[i0]));
        }
        num
    }

    /// The next token, or `None` at a NUL or past the end; the position is left
    /// just after the token.
    fn get_token(&mut self) -> (r: Option<String>)
        requires
            old(self).wf(),
        ensures
            final(self).wf(),
            final(self).contents@ == old(self).contents@,
            r is None <==> char_at(old(self).contents@, old(self).index as int) == '\0',
            final(self).index == next_pos(old(self).contents@, old(self).index as int),
            r is Some ==> old(self).index < final(self).index <= old(self).contents@.len() + 1,
            spec_lex(old(self).contents@, old(self).index as int) == match r {
                Some(t) => seq![t@] + spec_lex(final(self).contents@, final(self).index as int),
                None => Seq::<Seq<char>>::empty(),
            },
    {
        let ghost s = self.contents@;
        let ghost i0 = self.index as int;
        if self.character == '\0' {
            return None;
        }
        proof {
            lemma_next_pos(s, i0);
        }
        self.skip_whitespace();
        proof {
            lemma_ws_end(s, i0);
        }
        let ghost j = self.index as int;
        if is_alphabetic(self.character) {
            proof {
                lemma_alnum_end(s, j);
            }
            let id = self.identifier();
            return Some(id);
        }
        if is_numeric(self.character) {
            proof {
                lemma_numeric_end(s, j);
            }
            let num = self.number();
            return Some(num);
        }
        let value = self.character;
        self.advance();
        Some(char_to_string(value))
    }

    /// All the tokens from the current position on. The lexer is left where
    /// lexing stops, with no token left: calling again yields nothing and
    /// changes nothing.
    pub fn tokens(&mut self) -> (r: Vec<String>)
        requires
            old(self).wf(),
        ensures
            final(self).wf(),
            final(self).text() == old(self).text(),
            r.deep_view() == spec_lex(old(self).text(), old(self).position()),
            final(self).position() == lex_end(old(self).text(), old(self).position()),
            char_at(final(self).text(), final(self).position()) == '\0',
            spec_lex(final(self).text(), final(self).position()) == Seq::<Seq<char>>::empty(),
            char_at(old(self).text(), old(self).position()) == '\0' ==> final(self).position()
                == old(self).position(),
    {
        let ghost s = self.contents@;
        let ghost start = self.index as int;
        proof {
            lemma_lex_end(s, start);
        }
        let mut r: Vec<String> = Vec::new();
        loop
            invariant
                self.wf(),
                self.contents@ == s,
                spec_lex(s, start) == r.deep_view() + spec_lex(s, self.index as int),
                lex_end(s, start) == lex_end(s, self.index as int),
                r.deep_view().len() > 0 ==> self.index <= s.len() + 1,
                r.deep_view().len() == 0 ==> self.index == start,
            ensures
                self.wf(),
                self.contents@ == s,
                spec_lex(s, start) == r.deep_view(),
                lex_end(s, start) == self.index,
            decreases (if self.index <= s.len() + 1 { s.len() + 2 - self.index } else { 0 }),
        {
            let ghost i0 = self.index as int;
            match self.get_token() {
                Some(t) => {
                    let ghost old_r = r.deep_view();
                    let ghost tv = t@;
                    r.push(t);
                    assert(r@.last().deep_view() == tv);
                    assert(r.deep_view() =~= old_r.push(tv));
                    assert(old_r + (seq![tv] + spec_lex(s, self.index as int)) =~= old_r.push(tv)
                        + spec_lex(s, self.index as int));
                    assert(lex_end(s, i0) == lex_end(s, next_pos(s, i0)));
                },
                None => {
                    assert(r.deep_view() + Seq::<Seq<char>>::empty() =~= r.deep_view());
                    break ;
                },
            }
        }
        r
    }
}

} // verus!
