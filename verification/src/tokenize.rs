//! Word- and character-granularity tokenizers, and the line tokenizer that
//! line diffs use. Every tokenizer is lossless: its tokens, concatenated, give
//! back the input.

use vstd::prelude::*;
use vstd::std_specs::iter::IteratorSpec;

use crate::text::{char_byte_len, lemma_utf8_len_take_step, split_chars, str_byte_len, utf8_len};

verus! {

broadcast use {vstd::string::axiom_spec_iter, vstd::string::next_postcondition};

/// What `char::is_alphanumeric` returns for `c` (Unicode's Alphabetic or
/// Numeric property).
pub uninterp spec fn unicode_alphanumeric(c: char) -> bool;

/// `char::is_alphanumeric`: the result is Unicode's classification of `c`,
/// named `unicode_alphanumeric`. Of the ASCII characters, exactly the digits
/// and the letters are alphanumeric (the only ASCII characters with the
/// Alphabetic property are the letters, and the only ones with a Numeric
/// category are the digits); the Unicode tables beyond ASCII are not
/// restated here.
#[verifier::external_body]
fn char_is_alphanumeric(c: char) -> (r: bool)
    ensures
        r == unicode_alphanumeric(c),
        (c as u32) < 0x80 ==> (r <==> (0x30 <= (c as u32) <= 0x39 || 0x41 <= (c as u32) <= 0x5a
            || 0x61 <= (c as u32) <= 0x7a)),
{
    c.is_alphanumeric()
}

/// A word character: alphanumeric or `_`.
pub open spec fn word_char(c: char) -> bool {
    unicode_alphanumeric(c) || c == '_'
}

/// Whether `c` is a word character (alphanumeric or `_`).
pub fn is_word_char(c: char) -> (r: bool)
    ensures
        r == word_char(c),
        r == (unicode_alphanumeric(c) || c == '_'),
        (c as u32) < 0x80 ==> (r <==> (0x30 <= (c as u32) <= 0x39 || 0x41 <= (c as u32) <= 0x5a
            || 0x61 <= (c as u32) <= 0x7a || c == '_')),
{
    char_is_alphanumeric(c) || c == '_'
}

/// The length of the longest prefix of `s` whose characters are all of class `w`.
pub open spec fn class_run(s: Seq<char>, w: bool) -> nat
    decreases s.len(),
{
    if s.len() == 0 || word_char(s[0]) != w {
        0
    } else {
        1 + class_run(s.drop_first(), w)
    }
}

/// The length of the first word token of `s`: its first character and every
/// following character of the same class.
pub open spec fn first_word_len(s: Seq<char>) -> nat {
    if s.len() == 0 {
        0
    } else {
        1 + class_run(s.drop_first(), word_char(s[0]))
    }
}

pub proof fn lemma_class_run_bound(s: Seq<char>, w: bool)
    ensures
        class_run(s, w) <= s.len(),
        forall|j: int| 0 <= j < class_run(s, w) ==> word_char(#[trigger] s[j]) == w,
        class_run(s, w) < s.len() ==> word_char(s[class_run(s, w) as int]) != w,
    decreases s.len(),
{
    if s.len() > 0 && word_char(s[0]) == w {
        lemma_class_run_bound(s.drop_first(), w);
        assert forall|j: int| 0 <= j < class_run(s, w) implies word_char(#[trigger] s[j]) == w by {
            if j > 0 {
                assert(s[j] == s.drop_first()[j - 1]);
            }
        }
    }
}

/// A run length is determined by where the class first changes.
pub proof fn lemma_class_run_exact(s: Seq<char>, w: bool, m: int)
    requires
        0 <= m <= s.len(),
        forall|j: int| 0 <= j < m ==> word_char(#[trigger] s[j]) == w,
        m == s.len() || word_char(s[m]) != w,
    ensures
        class_run(s, w) == m,
    decreases m,
{
    if m > 0 {
        assert forall|j: int| 0 <= j < m - 1 implies word_char(#[trigger] s.drop_first()[j]) == w by {
            assert(s.drop_first()[j] == s[j + 1]);
        }
        if m < s.len() {
            assert(s.drop_first()[m - 1] == s[m]);
        }
        lemma_class_run_exact(s.drop_first(), w, m - 1);
    }
}

pub proof fn lemma_first_word_len_bound(s: Seq<char>)
    requires
        s.len() > 0,
    ensures
        1 <= first_word_len(s) <= s.len(),
{
    lemma_class_run_bound(s.drop_first(), word_char(s[0]));
}

/// The word tokens of `s`: alternating maximal runs of word characters and
/// of other characters.
pub open spec fn word_tokens(s: Seq<char>) -> Seq<Seq<char>>
    decreases s.len(),
{
    if s.len() == 0 {
        seq![]
    } else {
        let k = first_word_len(s) as int;
        proof {
            lemma_first_word_len_bound(s);
        }
        seq![s.take(k)] + word_tokens(s.skip(k))
    }
}

/// A run: a non-empty sequence of characters that are all word characters
/// or all not.
pub open spec fn is_class_run(t: Seq<char>) -> bool {
    &&& t.len() > 0
    &&& forall|j: int| 0 <= j < t.len() ==> word_char(#[trigger] t[j]) == word_char(t[0])
}

/// The word tokens of `s` give back `s` when concatenated, each is a run of
/// one class, and neighbouring tokens are of different classes (so each run
/// is maximal).
pub proof fn lemma_word_tokens(s: Seq<char>)
    ensures
        word_tokens(s).flatten() == s,
        forall|i: int| 0 <= i < word_tokens(s).len() ==> is_class_run(#[trigger] word_tokens(s)[i]),
        forall|i: int|
            0 <= i < word_tokens(s).len() - 1 ==> word_char(#[trigger] word_tokens(s)[i][0])
                != word_char(word_tokens(s)[i + 1][0]),
        word_tokens(s).len() <= s.len(),
        word_tokens(s).len() == 0 <==> s.len() == 0,
    decreases s.len(),
{
    if s.len() > 0 {
        let k = first_word_len(s) as int;
        let w = word_char(s[0]);
        lemma_first_word_len_bound(s);
        lemma_class_run_bound(s.drop_first(), w);
        let rest = s.skip(k);
        lemma_word_tokens(rest);
        let toks = word_tokens(s);
        assert(toks == seq![s.take(k)] + word_tokens(rest));
        assert(toks.drop_first() =~= word_tokens(rest));
        assert(s.take(k) + rest =~= s);
        assert forall|j: int| 0 <= j < k implies word_char(#[trigger] s.take(k)[j]) == word_char(
            s.take(k)[0],
        ) by {
            if j > 0 {
                assert(s.take(k)[j] == s.drop_first()[j - 1]);
            }
        }
        assert forall|i: int| 0 <= i < toks.len() implies is_class_run(#[trigger] toks[i]) by {
            if i > 0 {
                assert(toks[i] == word_tokens(rest)[i - 1]);
            }
        }
        assert forall|i: int| 0 <= i < toks.len() - 1 implies word_char(#[trigger] toks[i][0])
            != word_char(toks[i + 1][0]) by {
            if i == 0 {
                assert(rest.len() > 0);
                lemma_first_word_len_bound(rest);
                assert(word_tokens(rest)[0] == rest.take(first_word_len(rest) as int));
                assert(toks[1][0] == rest[0]);
                assert(rest[0] == s.drop_first()[k - 1]);
            } else {
                assert(toks[i] == word_tokens(rest)[i - 1]);
                assert(toks[i + 1] == word_tokens(rest)[i]);
            }
        }
    }
}

/// Runs of one class each, neighbours of different classes, concatenated,
/// split back into themselves.
pub proof fn lemma_word_tokens_of_runs(toks: Seq<Seq<char>>)
    requires
        forall|i: int| 0 <= i < toks.len() ==> is_class_run(#[trigger] toks[i]),
        forall|i: int|
            0 <= i < toks.len() - 1 ==> word_char(#[trigger] toks[i][0]) != word_char(
                toks[i + 1][0],
            ),
    ensures
        word_tokens(toks.flatten()) == toks,
    decreases toks.len(),
{
    if toks.len() > 0 {
        let t = toks[0];
        let rest = toks.drop_first();
        assert forall|i: int| 0 <= i < rest.len() implies is_class_run(#[trigger] rest[i]) by {
            assert(rest[i] == toks[i + 1]);
        }
        assert forall|i: int| 0 <= i < rest.len() - 1 implies word_char(#[trigger] rest[i][0])
            != word_char(rest[i + 1][0]) by {
            assert(rest[i] == toks[i + 1]);
            assert(rest[i + 1] == toks[i + 2]);
        }
        lemma_word_tokens_of_runs(rest);
        let s = toks.flatten();
        assert(s == t + rest.flatten());
        assert(is_class_run(toks[0]));
        let w = word_char(t[0]);
        let d = s.drop_first();
        assert forall|j: int| 0 <= j < t.len() - 1 implies word_char(#[trigger] d[j]) == w by {
            assert(d[j] == t[j + 1]);
        }
        if rest.len() > 0 {
            assert(is_class_run(rest[0]));
            assert(rest.flatten() == rest[0] + rest.drop_first().flatten());
            assert(d[t.len() - 1] == rest[0][0]);
            assert(toks[1] == rest[0]);
        } else {
            assert(rest.flatten() =~= Seq::<char>::empty());
        }
        lemma_class_run_exact(d, w, t.len() - 1);
        assert(first_word_len(s) == t.len());
        assert(s.take(t.len() as int) =~= t);
        assert(s.skip(t.len() as int) =~= rest.flatten());
        assert(word_tokens(s) == seq![t] + word_tokens(rest.flatten()));
        assert(seq![t] + rest =~= toks);
    }
}

/// Splits a string into alternating runs of word characters (alphanumeric or
/// `_`) and of other characters (whitespace, punctuation), one token per run.
#[derive(Clone, Copy)]
pub struct WordTokenizer<'a>(pub &'a str);

/// The tokens of a [`WordTokenizer`] that are still to come.
#[derive(Clone, Copy)]
pub struct WordTokens<'a> {
    remaining: &'a str,
}

impl<'a> WordTokens<'a> {
    /// The characters whose tokens are still to come.
    pub closed spec fn rest(&self) -> Seq<char> {
        self.remaining@
    }

    /// Yields the next token: the first character left and every following
    /// character of the same class; `None` once nothing is left.
    pub fn next(&mut self) -> (r: Option<&'a str>)
        ensures
            old(self).rest().len() == 0 ==> r is None && final(self).rest() == old(self).rest(),
            old(self).rest().len() > 0 ==> (r matches Some(t) && t@ == old(self).rest().take(
                first_word_len(old(self).rest()) as int,
            ) && final(self).rest() == old(self).rest().skip(
                first_word_len(old(self).rest()) as int,
            )),
            r is None <==> word_tokens(old(self).rest()).len() == 0,
            r matches Some(t) ==> t@ == word_tokens(old(self).rest())[0] && word_tokens(
                final(self).rest(),
            ) == word_tokens(old(self).rest()).drop_first(),
    {
        if self.remaining.is_empty() {
            return None;
        }
        let ghost s = self.remaining@;
        let total = str_byte_len(self.remaining);
        let mut chars = self.remaining.chars();
        let first_char = match chars.next() {
            Some(c) => c,
            None => {
                assert(false);
                return None;
            },
        };
        let first_is_word = is_word_char(first_char);
        proof {
            lemma_utf8_len_take_step(s, 0);
            assert(s.take(0) =~= Seq::<char>::empty());
        }
        let mut split_at = char_byte_len(first_char);
        let ghost mut k: int = 1;
        loop
            invariant_except_break
                1 <= k <= s.len(),
                chars.remaining() == s.skip(k),
                split_at == utf8_len(s.take(k)),
                total == utf8_len(s),
                first_is_word == word_char(s[0]),
                forall|j: int| 1 <= j < k ==> word_char(#[trigger] s[j]) == first_is_word,
            ensures
                1 <= k <= s.len(),
                split_at == utf8_len(s.take(k)),
                forall|j: int| 1 <= j < k ==> word_char(#[trigger] s[j]) == first_is_word,
                k == s.len() || word_char(s[k]) != first_is_word,
            decreases s.len() - k,
        {
            match chars.next() {
                None => {
                    break ;
                },
                Some(c) => {
                    assert(c == s[k]);
                    if is_word_char(c) != first_is_word {
                        break ;
                    }
                    proof {
                        lemma_utf8_len_take_step(s, k);
                    }
                    split_at = split_at + char_byte_len(c);
                    proof {
                        k = k + 1;
                    }
                    assert(chars.remaining() =~= s.skip(k));
                },
            }
        }
        proof {
            let t = s.drop_first();
            assert forall|j: int| 0 <= j < k - 1 implies word_char(#[trigger] t[j]) == first_is_word by {
                assert(t[j] == s[j + 1]);
            }
            if k < s.len() {
                assert(t[k - 1] == s[k]);
            }
            lemma_class_run_exact(t, first_is_word, k - 1);
            assert(s =~= s.take(k) + s.skip(k));
        }
        let (token, rest) = split_chars(
            self.remaining,
            split_at,
            Ghost(s.take(k)),
            Ghost(s.skip(k)),
        );
        self.remaining = rest;
        proof {
            lemma_first_word_len_bound(s);
            assert(word_tokens(s) == seq![s.take(k)] + word_tokens(s.skip(k)));
            assert(word_tokens(s).drop_first() =~= word_tokens(s.skip(k)));
        }
        Some(token)
    }
}

impl<'a> WordTokenizer<'a> {
    /// Starts yielding the word tokens of the whole string.
    pub fn tokenize(&self) -> (r: WordTokens<'a>)
        ensures
            r.rest() == self.0@,
    {
        WordTokens { remaining: self.0 }
    }

    /// A capacity hint for the number of tokens: a quarter of the byte
    /// length, as a `u32`, and at least 1.
    pub fn estimate_tokens(&self) -> (r: u32)
        ensures
            r == vstd::math::max((utf8_len(self.0@) as u32 / 4) as int, 1),
    {
        let n = str_byte_len(self.0);
        #[verifier::truncate]
        let n32 = n as u32;
        let q = n32 / 4;
        if q < 1 {
            1
        } else {
            q
        }
    }

    /// All word tokens of the string, in order.
    pub fn tokens(&self) -> (r: Vec<&'a str>)
        ensures
            r.deep_view() == word_tokens(self.0@),
            r.deep_view().flatten() == self.0@,
            forall|i: int|
                #![trigger r.deep_view()[i]]
                0 <= i < r.deep_view().len() ==> r.deep_view()[i].len() > 0 && forall|j: int|
                    0 <= j < r.deep_view()[i].len() ==> (unicode_alphanumeric(
                        #[trigger] r.deep_view()[i][j],
                    ) || r.deep_view()[i][j] == '_') == (unicode_alphanumeric(r.deep_view()[i][0])
                        || r.deep_view()[i][0] == '_'),
            forall|i: int|
                #![trigger r.deep_view()[i]]
                0 <= i < r.deep_view().len() - 1 ==> (unicode_alphanumeric(r.deep_view()[i][0])
                    || r.deep_view()[i][0] == '_') != (unicode_alphanumeric(
                    r.deep_view()[i + 1][0],
                ) || r.deep_view()[i + 1][0] == '_'),
    {
        proof {
            lemma_word_tokens(self.0@);
        }
        let mut it = self.tokenize();
        let mut out: Vec<&'a str> = Vec::new();
        loop
            invariant
                out.deep_view() + word_tokens(it.rest()) == word_tokens(self.0@),
                word_tokens(self.0@).flatten() == self.0@,
            decreases it.rest().len(),
        {
            let ghost before = it.rest();
            match it.next() {
                None => {
                    assert(out.deep_view() + word_tokens(it.rest()) =~= out.deep_view());
                    proof {
                        lemma_word_tokens(self.0@);
                        let toks = out.deep_view();
                        assert forall|i: int| 0 <= i < toks.len() implies (#[trigger] toks[i]).len() > 0 && forall|
                            j: int,
                        |
                            0 <= j < toks[i].len() ==> (unicode_alphanumeric(#[trigger] toks[i][j])
                                || toks[i][j] == '_') == (unicode_alphanumeric(toks[i][0])
                                || toks[i][0] == '_') by {
                            assert(is_class_run(toks[i]));
                            assert forall|j: int| 0 <= j < toks[i].len() implies (
                            unicode_alphanumeric(#[trigger] toks[i][j]) || toks[i][j] == '_') == (
                            unicode_alphanumeric(toks[i][0]) || toks[i][0] == '_') by {
                                assert(word_char(toks[i][j]) == word_char(toks[i][0]));
                            }
                        }
                        assert forall|i: int| 0 <= i < toks.len() - 1 implies (unicode_alphanumeric(
                            (#[trigger] toks[i])[0],
                        ) || toks[i][0] == '_') != (unicode_alphanumeric(toks[i + 1][0])
                            || toks[i + 1][0] == '_') by {
                            assert(word_char(toks[i][0]) != word_char(toks[i + 1][0]));
                        }
                    }
                    return out;
                },
                Some(t) => {
                    proof {
                        lemma_first_word_len_bound(before);
                    }
                    let ghost old_out = out.deep_view();
                    out.push(t);
                    assert(out.deep_view() =~= old_out.push(t@));
                    assert(out.deep_view() + word_tokens(it.rest()) =~= old_out + word_tokens(
                        before,
                    ));
                },
            }
        }
    }
}

/// Splits a string into one token per character (Unicode scalar value).
#[derive(Clone, Copy)]
pub struct CharTokenizer<'a>(pub &'a str);

impl<'a> CharTokenizer<'a> {
    /// An iterator over the characters of the string.
    pub fn tokenize(&self) -> (r: std::str::Chars<'a>)
        ensures
            r.remaining() == self.0@,
    {
        self.0.chars()
    }

    /// A capacity hint for the number of tokens: the byte length as a `u32`.
    pub fn estimate_tokens(&self) -> (r: u32)
        ensures
            r == utf8_len(self.0@) as u32,
    {
        let n = str_byte_len(self.0);
        #[verifier::truncate]
        let r = n as u32;
        r
    }

    /// All characters of the string, in order.
    pub fn tokens(&self) -> (r: Vec<char>)
        ensures
            r@ == self.0@,
    {
        let mut it = self.tokenize();
        let mut out: Vec<char> = Vec::new();
        loop
            invariant
                out@ + it.remaining() == self.0@,
            decreases self.0@.len() - out@.len(),
        {
            let ghost before = it.remaining();
            match it.next() {
                None => {
                    assert(out@ + it.remaining() =~= out@);
                    return out;
                },
                Some(c) => {
                    let ghost old_out = out@;
                    out.push(c);
                    assert(out@ + it.remaining() =~= old_out + before);
                },
            }
        }
    }
}

/// The number of leading characters of `s` before its first newline.
pub open spec fn line_body_len(s: Seq<char>) -> nat
    decreases s.len(),
{
    if s.len() == 0 || s[0] == '\n' {
        0
    } else {
        1 + line_body_len(s.drop_first())
    }
}

/// The length of the first line of `s`, its newline included where it has one.
pub open spec fn first_line_len(s: Seq<char>) -> nat {
    if line_body_len(s) < s.len() {
        line_body_len(s) + 1
    } else {
        s.len()
    }
}

pub proof fn lemma_line_body_bound(s: Seq<char>)
    ensures
        line_body_len(s) <= s.len(),
        forall|j: int| 0 <= j < line_body_len(s) ==> #[trigger] s[j] != '\n',
        line_body_len(s) < s.len() ==> s[line_body_len(s) as int] == '\n',
    decreases s.len(),
{
    if s.len() > 0 && s[0] != '\n' {
        lemma_line_body_bound(s.drop_first());
        assert forall|j: int| 0 <= j < line_body_len(s) implies #[trigger] s[j] != '\n' by {
            if j > 0 {
                assert(s[j] == s.drop_first()[j - 1]);
            }
        }
    }
}

proof fn lemma_line_body_exact(s: Seq<char>, m: int)
    requires
        0 <= m <= s.len(),
        forall|j: int| 0 <= j < m ==> #[trigger] s[j] != '\n',
        m == s.len() || s[m] == '\n',
    ensures
        line_body_len(s) == m,
    decreases m,
{
    if m > 0 {
        assert forall|j: int| 0 <= j < m - 1 implies #[trigger] s.drop_first()[j] != '\n' by {
            assert(s.drop_first()[j] == s[j + 1]);
        }
        if m < s.len() {
            assert(s.drop_first()[m - 1] == s[m]);
        }
        lemma_line_body_exact(s.drop_first(), m - 1);
    }
}

/// The lines of `s`, each with its newline, the last one without a newline
/// where `s` does not end with one.
pub open spec fn line_tokens(s: Seq<char>) -> Seq<Seq<char>>
    decreases s.len(),
{
    if s.len() == 0 {
        seq![]
    } else {
        let k = first_line_len(s) as int;
        proof {
            lemma_line_body_bound(s);
        }
        seq![s.take(k)] + line_tokens(s.skip(k))
    }
}

/// A line: non-empty, with a newline at most as its last character.
pub open spec fn is_line(t: Seq<char>) -> bool {
    &&& t.len() > 0
    &&& forall|j: int| 0 <= j < t.len() - 1 ==> #[trigger] t[j] != '\n'
}

/// The lines of `s` give back `s` when concatenated; each is a line, and each
/// but the last ends with a newline.
pub proof fn lemma_line_tokens(s: Seq<char>)
    ensures
        line_tokens(s).flatten() == s,
        forall|i: int| 0 <= i < line_tokens(s).len() ==> is_line(#[trigger] line_tokens(s)[i]),
        forall|i: int|
            0 <= i < line_tokens(s).len() - 1 ==> (#[trigger] line_tokens(s)[i]).last() == '\n',
    decreases s.len(),
{
    if s.len() > 0 {
        let k = first_line_len(s) as int;
        lemma_line_body_bound(s);
        let rest = s.skip(k);
        lemma_line_tokens(rest);
        let toks = line_tokens(s);
        assert(toks == seq![s.take(k)] + line_tokens(rest));
        assert(toks.drop_first() =~= line_tokens(rest));
        assert(s.take(k) + rest =~= s);
        assert(is_line(s.take(k)));
        assert forall|i: int| 0 <= i < toks.len() implies is_line(#[trigger] toks[i]) by {
            if i > 0 {
                assert(toks[i] == line_tokens(rest)[i - 1]);
            }
        }
        assert forall|i: int| 0 <= i < toks.len() - 1 implies (#[trigger] toks[i]).last()
            == '\n' by {
            if i > 0 {
                assert(toks[i] == line_tokens(rest)[i - 1]);
            } else {
                assert(rest.len() > 0);
            }
        }
    }
}

/// A line that ends with a newline.
pub open spec fn is_full_line(t: Seq<char>) -> bool {
    is_line(t) && t.last() == '\n'
}

/// Lines that each end with a newline, but perhaps the last, concatenated,
/// split back into themselves.
pub proof fn lemma_line_tokens_of_lines(toks: Seq<Seq<char>>)
    requires
        forall|i: int| 0 <= i < toks.len() ==> is_line(#[trigger] toks[i]),
        forall|i: int| 0 <= i < toks.len() - 1 ==> is_full_line(#[trigger] toks[i]),
    ensures
        line_tokens(toks.flatten()) == toks,
    decreases toks.len(),
{
    if toks.len() > 0 {
        let t = toks[0];
        let rest = toks.drop_first();
        assert forall|i: int| 0 <= i < rest.len() implies is_line(#[trigger] rest[i]) by {
            assert(rest[i] == toks[i + 1]);
        }
        assert forall|i: int| 0 <= i < rest.len() - 1 implies is_full_line(#[trigger] rest[i]) by {
            assert(rest[i] == toks[i + 1]);
        }
        lemma_line_tokens_of_lines(rest);
        let s = toks.flatten();
        assert(s == t + rest.flatten());
        assert(is_line(toks[0]));
        assert forall|j: int| 0 <= j < t.len() - 1 implies #[trigger] s[j] != '\n' by {
            assert(s[j] == t[j]);
        }
        assert(s[t.len() - 1] == t[t.len() - 1]);
        if rest.len() > 0 {
            assert(is_full_line(toks[0]));
            lemma_line_body_exact(s, t.len() - 1);
        } else {
            assert(rest.flatten() =~= Seq::<char>::empty());
            assert(s =~= t);
            if t[t.len() - 1] == '\n' {
                lemma_line_body_exact(s, t.len() - 1);
            } else {
                lemma_line_body_exact(s, t.len() as int);
            }
        }
        assert(first_line_len(s) == t.len());
        assert(s.take(t.len() as int) =~= t);
        assert(s.skip(t.len() as int) =~= rest.flatten());
        assert(line_tokens(s) == seq![t] + line_tokens(rest.flatten()));
        assert(seq![t] + rest =~= toks);
    }
}

/// When a text is empty or ends with a newline, each of its lines ends with
/// a newline.
pub proof fn lemma_line_tokens_full(s: Seq<char>)
    requires
        s.len() == 0 || s.last() == '\n',
    ensures
        forall|i: int| 0 <= i < line_tokens(s).len() ==> is_full_line(#[trigger] line_tokens(s)[i]),
{
    lemma_line_tokens(s);
    let toks = line_tokens(s);
    if toks.len() > 0 {
        let n = toks.len() - 1;
        toks.lemma_flatten_and_flatten_alt_are_equivalent();
        assert(toks.flatten_alt() == toks.drop_last().flatten_alt() + toks.last());
        assert(is_line(toks[n]));
        assert(s.last() == toks.last().last());
        assert forall|i: int| 0 <= i < toks.len() implies is_full_line(#[trigger] toks[i]) by {
            assert(is_line(toks[i]));
        }
    }
}

/// Splits off the first line of `s`, its newline included.
fn next_line<'a>(s: &'a str) -> (r: (&'a str, &'a str))
    requires
        s@.len() > 0,
    ensures
        r.0@ == s@.take(first_line_len(s@) as int),
        r.1@ == s@.skip(first_line_len(s@) as int),
{
    let ghost t = s@;
    let total = str_byte_len(s);
    let mut chars = s.chars();
    let mut split_at: usize = 0;
    let ghost mut k: int = 0;
    assert(t.take(0) =~= Seq::<char>::empty());
    loop
        invariant_except_break
            0 <= k <= t.len(),
            chars.remaining() == t.skip(k),
            split_at == utf8_len(t.take(k)),
            total == utf8_len(t),
            forall|j: int| 0 <= j < k ==> #[trigger] t[j] != '\n',
        ensures
            0 <= k <= t.len(),
            split_at == utf8_len(t.take(k)),
            k == first_line_len(t),
        decreases t.len() - k,
    {
        match chars.next() {
            None => {
                proof {
                    lemma_line_body_exact(t, k);
                }
                break ;
            },
            Some(c) => {
                assert(c == t[k]);
                proof {
                    lemma_utf8_len_take_step(t, k);
                }
                split_at = split_at + char_byte_len(c);
                proof {
                    k = k + 1;
                }
                assert(chars.remaining() =~= t.skip(k));
                if c == '\n' {
                    proof {
                        lemma_line_body_exact(t, k - 1);
                    }
                    break ;
                }
            },
        }
    }
    assert(t =~= t.take(k) + t.skip(k));
    split_chars(s, split_at, Ghost(t.take(k)), Ghost(t.skip(k)))
}

/// The lines of `text`, each with its newline (`imara-diff`'s line
/// tokenization of a `str`).
pub fn split_lines<'a>(text: &'a str) -> (r: Vec<&'a str>)
    ensures
        r.deep_view() == line_tokens(text@),
        r.deep_view().flatten() == text@,
{
    proof {
        lemma_line_tokens(text@);
    }
    let mut rest = text;
    let mut out: Vec<&'a str> = Vec::new();
    while !rest.is_empty()
        invariant
            out.deep_view() + line_tokens(rest@) == line_tokens(text@),
        decreases rest@.len(),
    {
        let ghost before = rest@;
        proof {
            lemma_line_body_bound(before);
        }
        let (line, tail) = next_line(rest);
        let ghost old_out = out.deep_view();
        out.push(line);
        rest = tail;
        assert(out.deep_view() =~= old_out.push(line@));
        assert(out.deep_view() + line_tokens(rest@) =~= old_out + line_tokens(before));
    }
    assert(out.deep_view() + line_tokens(rest@) =~= out.deep_view());
    out
}

} // verus!
