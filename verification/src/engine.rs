//! The edit scripts that `imara-diff` computes, seen as plain hunks.

use std::ops::Range;

use imara_diff::{Algorithm, BasicLineDiffPrinter, Diff, InternedInput, UnifiedDiffConfig};
use vstd::prelude::*;

#[allow(unused_imports)]
use crate::tokenize::line_tokens;

verus! {

/// `imara_diff::Algorithm`, the choice of diff algorithm, carried through
/// unopened.
#[verifier::external_type_specification]
#[verifier::external_body]
pub struct ExAlgorithm(imara_diff::Algorithm);

/// One changed region of a diff: the token range `before` of the first
/// sequence was replaced by the token range `after` of the second.
#[derive(Debug, PartialEq, Eq)]
pub struct Hunk {
    pub before: Range<u32>,
    pub after: Range<u32>,
}

/// `hunks`, read from token positions `pb` (first sequence) and `pa` (second
/// sequence) on, turn what is left of `b` into what is left of `a`: the hunks
/// come in order within bounds, and every token between them, and after the
/// last, is the same on both sides.
pub open spec fn edit_script_from(
    hunks: Seq<Hunk>,
    b: Seq<Seq<char>>,
    a: Seq<Seq<char>>,
    pb: int,
    pa: int,
) -> bool
    decreases hunks.len(),
{
    if hunks.len() == 0 {
        &&& 0 <= pb <= b.len()
        &&& 0 <= pa <= a.len()
        &&& b.skip(pb) == a.skip(pa)
    } else {
        let h = hunks[0];
        &&& 0 <= pb <= h.before.start <= h.before.end <= b.len()
        &&& 0 <= pa <= h.after.start <= h.after.end <= a.len()
        &&& b.subrange(pb, h.before.start as int) == a.subrange(pa, h.after.start as int)
        &&& edit_script_from(hunks.drop_first(), b, a, h.before.end as int, h.after.end as int)
    }
}

/// `hunks` is an edit script that turns the token sequence `b` into `a`.
pub open spec fn is_edit_script(hunks: Seq<Hunk>, b: Seq<Seq<char>>, a: Seq<Seq<char>>) -> bool {
    edit_script_from(hunks, b, a, 0, 0)
}

/// Every hunk changes something (one of its ranges is non-empty), and
/// consecutive hunks have at least one unchanged token between them, on both
/// sides.
pub open spec fn hunks_separated(hunks: Seq<Hunk>) -> bool {
    &&& forall|k: int|
        0 <= k < hunks.len() ==> (#[trigger] hunks[k]).before.start < hunks[k].before.end
            || hunks[k].after.start < hunks[k].after.end
    &&& forall|k: int|
        0 <= k < hunks.len() - 1 ==> (#[trigger] hunks[k]).before.end < hunks[k + 1].before.start
            && hunks[k].after.end < hunks[k + 1].after.start
}

/// The lines of `text` (as [`line_tokens`] splits it) that begin with `mark`.
pub open spec fn marked_lines(text: Seq<char>, mark: char) -> Seq<Seq<char>> {
    line_tokens(text).filter(|l: Seq<char>| l.len() > 0 && l[0] == mark)
}

/// Each line with `mark` put in front.
pub open spec fn prefixed(mark: char, lines: Seq<Seq<char>>) -> Seq<Seq<char>> {
    lines.map_values(|l: Seq<char>| seq![mark] + l)
}

/// The tokens of `b` that the hunks remove, in order.
pub open spec fn removed_tokens(hunks: Seq<Hunk>, b: Seq<Seq<char>>) -> Seq<Seq<char>>
    decreases hunks.len(),
{
    if hunks.len() == 0 {
        seq![]
    } else {
        b.subrange(hunks[0].before.start as int, hunks[0].before.end as int) + removed_tokens(
            hunks.drop_first(),
            b,
        )
    }
}

/// The tokens of `a` that the hunks add, in order.
pub open spec fn added_tokens(hunks: Seq<Hunk>, a: Seq<Seq<char>>) -> Seq<Seq<char>>
    decreases hunks.len(),
{
    if hunks.len() == 0 {
        seq![]
    } else {
        a.subrange(hunks[0].after.start as int, hunks[0].after.end as int) + added_tokens(
            hunks.drop_first(),
            a,
        )
    }
}

/// The text is empty or ends with a newline.
pub open spec fn ends_in_newline(s: Seq<char>) -> bool {
    s.len() == 0 || s.last() == '\n'
}

/// Each character as a token of its own.
pub open spec fn char_units(s: Seq<char>) -> Seq<Seq<char>> {
    Seq::new(s.len(), |i: int| seq![s[i]])
}

/// The hunks of `imara-diff`'s diff of two line sequences, postprocessed for
/// lines.
pub uninterp spec fn imara_line_hunks(
    algorithm: Algorithm,
    before: Seq<Seq<char>>,
    after: Seq<Seq<char>>,
) -> Seq<Hunk>;

/// The hunks of `imara-diff`'s diff of two sequences of string tokens.
pub uninterp spec fn imara_token_hunks(
    algorithm: Algorithm,
    before: Seq<Seq<char>>,
    after: Seq<Seq<char>>,
) -> Seq<Hunk>;

/// The hunks of `imara-diff`'s diff of two character sequences.
pub uninterp spec fn imara_char_hunks(algorithm: Algorithm, before: Seq<char>, after: Seq<char>) -> Seq<
    Hunk,
>;

/// The unified diff text that `imara-diff` prints for two texts.
pub uninterp spec fn imara_unified_diff(algorithm: Algorithm, before: Seq<char>, after: Seq<char>) -> Seq<
    char,
>;

/// `Diff::compute` on the interned line tokens, then `Diff::postprocess_lines`,
/// then `Diff::hunks`. Claimed of it: the result is a function of the
/// algorithm and the token texts (`imara_line_hunks`); it is an edit script
/// from `before` to `after` (what `Diff::compute` documents, and what the
/// postprocessing keeps, as it only slides hunks over equal tokens); every
/// hunk is non-empty and consecutive hunks are apart (the hunk iterator walks
/// the removed and added marks in step and steps over an unchanged token
/// after each hunk); and two equal sequences give no hunk (their common prefix is stripped whole).
/// `Diff::compute` panics from `i32::MAX` tokens on.
#[verifier::external_body]
pub(crate) fn diff_line_tokens(algorithm: Algorithm, before: &Vec<&str>, after: &Vec<&str>) -> (r: Vec<Hunk>)
    requires
        before@.len() < i32::MAX,
        after@.len() < i32::MAX,
    ensures
        r@ == imara_line_hunks(algorithm, before.deep_view(), after.deep_view()),
        is_edit_script(r@, before.deep_view(), after.deep_view()),
        hunks_separated(r@),
        before.deep_view() == after.deep_view() ==> r@.len() == 0,
{
    let mut input: InternedInput<&str> = InternedInput::default();
    input.update_before(before.iter().copied());
    input.update_after(after.iter().copied());
    let mut diff = Diff::compute(algorithm, &input);
    diff.postprocess_lines(&input);
    diff.hunks().map(|h| Hunk { before: h.before, after: h.after }).collect()
}

/// `Diff::compute` on interned string tokens, then `Diff::hunks`, with no
/// postprocessing. Claimed of it: the result is a function of the algorithm
/// and the token texts (`imara_token_hunks`); it is an edit script from
/// `before` to `after`, of non-empty hunks with unchanged tokens between
/// them; two equal sequences give no hunk. `Diff::compute`
/// panics from `i32::MAX` tokens on.
#[verifier::external_body]
pub(crate) fn diff_str_tokens(algorithm: Algorithm, before: &Vec<&str>, after: &Vec<&str>) -> (r: Vec<Hunk>)
    requires
        before@.len() < i32::MAX,
        after@.len() < i32::MAX,
    ensures
        r@ == imara_token_hunks(algorithm, before.deep_view(), after.deep_view()),
        is_edit_script(r@, before.deep_view(), after.deep_view()),
        hunks_separated(r@),
        before.deep_view() == after.deep_view() ==> r@.len() == 0,
{
    let mut input: InternedInput<&str> = InternedInput::default();
    input.update_before(before.iter().copied());
    input.update_after(after.iter().copied());
    let diff = Diff::compute(algorithm, &input);
    diff.hunks().map(|h| Hunk { before: h.before, after: h.after }).collect()
}

/// `Diff::compute` on interned characters, then `Diff::hunks`. Claimed of it:
/// the result is a function of the algorithm and the characters
/// (`imara_char_hunks`); it is an edit script from `before` to `after`, each
/// character a token, of non-empty hunks with unchanged tokens between them;
/// two equal sequences give no hunk. `Diff::compute`
/// panics from `i32::MAX` tokens on.
#[verifier::external_body]
pub(crate) fn diff_char_tokens(algorithm: Algorithm, before: &Vec<char>, after: &Vec<char>) -> (r: Vec<Hunk>)
    requires
        before@.len() < i32::MAX,
        after@.len() < i32::MAX,
    ensures
        r@ == imara_char_hunks(algorithm, before@, after@),
        is_edit_script(r@, char_units(before@), char_units(after@)),
        hunks_separated(r@),
        before@ == after@ ==> r@.len() == 0,
{
    let mut input: InternedInput<char> = InternedInput::default();
    input.update_before(before.iter().copied());
    input.update_after(after.iter().copied());
    let diff = Diff::compute(algorithm, &input);
    diff.hunks().map(|h| Hunk { before: h.before, after: h.after }).collect()
}

/// `Diff::unified_diff` with `BasicLineDiffPrinter` and the default context of
/// three lines, over the postprocessed line diff of `before` and `after`,
/// returned with that diff's hunks (`Diff::hunks`). Claimed of it: the hunks
/// are those of `diff_line_tokens` on the lines of the texts (the same
/// tokens, as `imara-diff` splits a `str` into lines the way `line_tokens`
/// does, and the same computation), with the same properties; the text is a
/// function of the algorithm and the two texts (`imara_unified_diff`); equal
/// texts give the empty text (no hunk, nothing printed); different texts give
/// a text that starts with a hunk header `@@ -` (their lines differ, so there
/// is a hunk, and a header is printed before any hunk). Where both texts are
/// empty or end with a newline, every line is printed as one line of output:
/// the lines that begin with `-` are the removed lines of the hunks, in order,
/// each after a `-`, and those that begin with `+` the added lines after a
/// `+` (headers begin with `@`, context lines with a space). The rest of the
/// layout, such as which context lines are shown and the numbers in the
/// headers, is not restated.
#[verifier::external_body]
pub(crate) fn render_unified_diff(before: &str, after: &str, algorithm: Algorithm) -> (r: (
    String,
    Vec<Hunk>,
))
    requires
        line_tokens(before@).len() < i32::MAX,
        line_tokens(after@).len() < i32::MAX,
    ensures
        r.1@ == imara_line_hunks(algorithm, line_tokens(before@), line_tokens(after@)),
        is_edit_script(r.1@, line_tokens(before@), line_tokens(after@)),
        hunks_separated(r.1@),
        r.0@ == imara_unified_diff(algorithm, before@, after@),
        before@ == after@ ==> r.0@.len() == 0,
        before@ != after@ ==> r.0@.len() >= 4 && r.0@.take(4) == seq!['@', '@', ' ', '-'],
        ends_in_newline(before@) && ends_in_newline(after@) ==> marked_lines(r.0@, '-')
            == prefixed('-', removed_tokens(r.1@, line_tokens(before@))) && marked_lines(r.0@, '+')
            == prefixed('+', added_tokens(r.1@, line_tokens(after@))),
{
    let input = InternedInput::new(before, after);
    let mut diff = Diff::compute(algorithm, &input);
    diff.postprocess_lines(&input);
    let hunks = diff.hunks().map(|h| Hunk { before: h.before, after: h.after }).collect();
    let printer = BasicLineDiffPrinter(&input.interner);
    let text = diff.unified_diff(&printer, UnifiedDiffConfig::default(), &input).to_string();
    (text, hunks)
}

} // verus!
