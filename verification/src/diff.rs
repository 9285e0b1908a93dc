//! Diff results as runs of unchanged, removed and added text.

use imara_diff::Algorithm;
use vstd::prelude::*;

use crate::engine::{
    char_units, diff_char_tokens, diff_line_tokens, diff_str_tokens, edit_script_from, hunks_separated,
    imara_char_hunks, imara_line_hunks, imara_token_hunks, imara_unified_diff, is_edit_script,
    render_unified_diff, Hunk, marked_lines, prefixed, removed_tokens, added_tokens,
    ends_in_newline,
};
use crate::tokenize::{
    is_full_line, lemma_line_tokens, lemma_line_tokens_full, lemma_line_tokens_of_lines,
    lemma_word_tokens, lemma_word_tokens_of_runs, line_tokens, split_lines, word_tokens,
    CharTokenizer, WordTokenizer, is_line, is_class_run, word_char,
};
use crate::text::{
    char_byte_len, lemma_utf8_len_concat, split_chars, str_byte_len, utf8_len,
};

verus! {

/// One contiguous run of tokens in a diff result: unchanged (present
/// identically in both `before` and `after`), added, or removed. `value`
/// borrows the run's text from the input it came from; `count` is its number
/// of tokens.
#[derive(Debug, Clone, Copy, PartialEq, Eq)]
pub struct Change<'a> {
    pub value: &'a str,
    pub added: bool,
    pub removed: bool,
    pub count: usize,
}

/// A [`Change`] as a mathematical value.
pub struct ChangeView {
    pub value: Seq<char>,
    pub added: bool,
    pub removed: bool,
    pub count: nat,
}

impl<'a> View for Change<'a> {
    type V = ChangeView;

    open spec fn view(&self) -> ChangeView {
        ChangeView {
            value: self.value@,
            added: self.added,
            removed: self.removed,
            count: self.count as nat,
        }
    }
}

/// An unchanged run.
pub open spec fn unchanged_run(value: Seq<char>, count: nat) -> ChangeView {
    ChangeView { value, added: false, removed: false, count }
}

/// A removed run.
pub open spec fn removed_run(value: Seq<char>, count: nat) -> ChangeView {
    ChangeView { value, added: false, removed: true, count }
}

/// An added run.
pub open spec fn added_run(value: Seq<char>, count: nat) -> ChangeView {
    ChangeView { value, added: true, removed: false, count }
}

/// The views of a sequence of changes.
pub open spec fn change_views<'a>(cs: Seq<Change<'a>>) -> Seq<ChangeView> {
    cs.map_values(|c: Change<'a>| c@)
}

impl<'a> Change<'a> {
    fn unchanged(value: &'a str, count: usize) -> (r: Self)
        ensures
            r@ == unchanged_run(value@, count as nat),
    {
        Change { value, added: false, removed: false, count }
    }

    fn added(value: &'a str, count: usize) -> (r: Self)
        ensures
            r@ == added_run(value@, count as nat),
    {
        Change { value, added: true, removed: false, count }
    }

    fn removed(value: &'a str, count: usize) -> (r: Self)
        ensures
            r@ == removed_run(value@, count as nat),
    {
        Change { value, added: false, removed: true, count }
    }
}

/// A token whose text is known: a string slice, or a single character.
pub trait TokenText {
    /// The characters of the token.
    spec fn text(&self) -> Seq<char>;

    /// The byte length of the token's UTF-8 encoding.
    fn byte_len(&self) -> (n: usize)
        ensures
            n == utf8_len(self.text()),
    ;
}

impl<'a> TokenText for &'a str {
    open spec fn text(&self) -> Seq<char> {
        (**self)@
    }

    fn byte_len(&self) -> (n: usize) {
        str_byte_len(*self)
    }
}

impl TokenText for char {
    open spec fn text(&self) -> Seq<char> {
        seq![*self]
    }

    fn byte_len(&self) -> (n: usize) {
        char_byte_len(*self)
    }
}

/// The texts of a sequence of tokens.
pub open spec fn texts<T: TokenText>(s: Seq<T>) -> Seq<Seq<char>> {
    s.map_values(|t: T| t.text())
}

/// The text of the tokens `b[from..to]`.
pub open spec fn run_text(b: Seq<Seq<char>>, from: int, to: int) -> Seq<char> {
    b.subrange(from, to).flatten()
}

/// The runs that one hunk `h` makes, the previous hunk having ended at
/// position `pb` of `b`: the unchanged tokens since then, then the hunk's
/// removed tokens, then its added tokens; empty runs are left out.
pub open spec fn hunk_runs(h: Hunk, b: Seq<Seq<char>>, a: Seq<Seq<char>>, pb: int) -> Seq<ChangeView> {
    let bs = h.before.start as int;
    let be = h.before.end as int;
    let as_ = h.after.start as int;
    let ae = h.after.end as int;
    let lead = if bs > pb {
        seq![unchanged_run(run_text(b, pb, bs), (bs - pb) as nat)]
    } else {
        seq![]
    };
    let gone = if bs < be {
        seq![removed_run(run_text(b, bs, be), (be - bs) as nat)]
    } else {
        seq![]
    };
    let new = if as_ < ae {
        seq![added_run(run_text(a, as_, ae), (ae - as_) as nat)]
    } else {
        seq![]
    };
    lead + gone + new
}

/// The runs that `hunks` make of the token sequences `b` and `a`, read from
/// position `pb` of `b` on: the runs of each hunk in turn, then the
/// unchanged rest after the last hunk, if any.
pub open spec fn changes_from(hunks: Seq<Hunk>, b: Seq<Seq<char>>, a: Seq<Seq<char>>, pb: int) -> Seq<
    ChangeView,
>
    decreases hunks.len(),
{
    if hunks.len() == 0 {
        if pb < b.len() {
            seq![unchanged_run(run_text(b, pb, b.len() as int), (b.len() - pb) as nat)]
        } else {
            seq![]
        }
    } else {
        hunk_runs(hunks[0], b, a, pb) + changes_from(hunks.drop_first(), b, a, hunks[0].before.end as int)
    }
}

/// The runs that `hunks` make of the token sequences `b` and `a`.
pub open spec fn changes_of(hunks: Seq<Hunk>, b: Seq<Seq<char>>, a: Seq<Seq<char>>) -> Seq<
    ChangeView,
> {
    changes_from(hunks, b, a, 0)
}

/// The text of the first tokens plus that of the next ones is the text of both.
pub proof fn lemma_flatten_take_subrange(b: Seq<Seq<char>>, x: int, y: int)
    requires
        0 <= x <= y <= b.len(),
    ensures
        b.take(y).flatten() == b.take(x).flatten() + run_text(b, x, y),
        b.flatten() == b.take(y).flatten() + b.skip(y).flatten(),
        utf8_len(b.take(y).flatten()) == utf8_len(b.take(x).flatten()) + utf8_len(run_text(b, x, y)),
        utf8_len(b.flatten()) == utf8_len(b.take(y).flatten()) + utf8_len(b.skip(y).flatten()),
{
    assert(b.take(y) =~= b.take(x) + b.subrange(x, y));
    vstd::seq_lib::lemma_flatten_concat(b.take(x), b.subrange(x, y));
    assert(b =~= b.take(y) + b.skip(y));
    vstd::seq_lib::lemma_flatten_concat(b.take(y), b.skip(y));
    lemma_utf8_len_concat(b.take(x).flatten(), run_text(b, x, y));
    lemma_utf8_len_concat(b.take(y).flatten(), b.skip(y).flatten());
}

/// The byte length of the text of the tokens `tokens[from..to]`.
fn run_byte_len<T: TokenText>(tokens: &Vec<T>, from: u32, to: u32, Ghost(total): Ghost<nat>) -> (n:
    usize)
    requires
        from <= to <= tokens@.len(),
        total == utf8_len(texts(tokens@).flatten()),
        total <= usize::MAX,
    ensures
        n == utf8_len(run_text(texts(tokens@), from as int, to as int)),
{
    let ghost b = texts(tokens@);
    let mut n: usize = 0;
    let mut j: usize = from as usize;
    assert(run_text(b, from as int, from as int) =~= Seq::<char>::empty());
    assert(utf8_len(Seq::<char>::empty()) == 0);
    while j < to as usize
        invariant
            from <= j <= to <= tokens@.len(),
            b == texts(tokens@),
            total == utf8_len(b.flatten()),
            total <= usize::MAX,
            n == utf8_len(run_text(b, from as int, j as int)),
        decreases to - j,
    {
        proof {
            assert(b.subrange(from as int, j + 1) =~= b.subrange(from as int, j as int).push(b[j as int]));
            b.subrange(from as int, j as int).lemma_flatten_push(b[j as int]);
            lemma_utf8_len_concat(run_text(b, from as int, j as int), b[j as int]);
            lemma_flatten_take_subrange(b, from as int, j + 1);
            lemma_flatten_take_subrange(b, j + 1, j + 1);
        }
        let step = tokens[j].byte_len();
        n = n + step;
        j = j + 1;
    }
    n
}

/// The piece of `text` that holds the tokens `b[x..y]`; `start` is the byte
/// length of the tokens before `x`, `len` that of `b[x..y]`.
fn slice_run<'a>(
    text: &'a str,
    start: usize,
    len: usize,
    Ghost(b): Ghost<Seq<Seq<char>>>,
    Ghost(x): Ghost<int>,
    Ghost(y): Ghost<int>,
) -> (r: &'a str)
    requires
        text@ == b.flatten(),
        0 <= x <= y <= b.len(),
        start == utf8_len(b.take(x).flatten()),
        len == utf8_len(run_text(b, x, y)),
    ensures
        r@ == run_text(b, x, y),
{
    proof {
        lemma_flatten_take_subrange(b, x, y);
        assert(b.flatten() =~= b.take(x).flatten() + (run_text(b, x, y) + b.skip(y).flatten()));
    }
    let (_, tail) = split_chars(
        text,
        start,
        Ghost(b.take(x).flatten()),
        Ghost(run_text(b, x, y) + b.skip(y).flatten()),
    );
    let (piece, _) = split_chars(tail, len, Ghost(run_text(b, x, y)), Ghost(b.skip(y).flatten()));
    piece
}

/// Walks the hunks of a diff and the two token sequences to produce the
/// complete list of runs: unchanged ones as well as removed and added ones.
/// Each run is sliced out of `before_text` or `after_text` at byte offsets
/// found by summing the byte lengths of the tokens before it.
pub fn hunks_to_changes<'a, T: TokenText>(
    hunks: &Vec<Hunk>,
    before_tokens: &Vec<T>,
    after_tokens: &Vec<T>,
    before_text: &'a str,
    after_text: &'a str,
) -> (r: Vec<Change<'a>>)
    requires
        texts(before_tokens@).flatten() == before_text@,
        texts(after_tokens@).flatten() == after_text@,
        before_tokens@.len() <= u32::MAX,
        is_edit_script(hunks@, texts(before_tokens@), texts(after_tokens@)),
    ensures
        change_views(r@) == changes_of(hunks@, texts(before_tokens@), texts(after_tokens@)),
{
    let ghost b = texts(before_tokens@);
    let ghost a = texts(after_tokens@);
    let before_total = str_byte_len(before_text);
    let after_total = str_byte_len(after_text);
    let mut changes: Vec<Change<'a>> = Vec::new();
    let mut pos_before: u32 = 0;
    let mut byte_before: usize = 0;
    let mut byte_after: usize = 0;
    let ghost mut pos_after: int = 0;
    let mut i: usize = 0;
    assert(b.take(0) =~= Seq::<Seq<char>>::empty());
    assert(a.take(0) =~= Seq::<Seq<char>>::empty());
    assert(utf8_len(Seq::<char>::empty()) == 0);
    assert(hunks@.skip(0) =~= hunks@);
    assert(change_views(changes@) =~= Seq::<ChangeView>::empty());
    assert(change_views(changes@) + changes_from(hunks@, b, a, 0) =~= changes_from(hunks@, b, a, 0));
    while i < hunks.len()
        invariant
            b == texts(before_tokens@),
            a == texts(after_tokens@),
            before_text@ == b.flatten(),
            after_text@ == a.flatten(),
            before_total == utf8_len(b.flatten()),
            after_total == utf8_len(a.flatten()),
            b.len() <= u32::MAX,
            0 <= i <= hunks@.len(),
            edit_script_from(hunks@.skip(i as int), b, a, pos_before as int, pos_after),
            byte_before == utf8_len(b.take(pos_before as int).flatten()),
            byte_after == utf8_len(a.take(pos_after).flatten()),
            change_views(changes@) + changes_from(hunks@.skip(i as int), b, a, pos_before as int)
                == changes_of(hunks@, b, a),
        decreases hunks.len() - i,
    {
        let hunk = &hunks[i];
        let ghost rest = hunks@.skip(i as int);
        let ghost pb = pos_before as int;
        let ghost pa = pos_after;
        let ghost old_views = change_views(changes@);
        proof {
            assert(rest[0] == hunks@[i as int]);
            assert(rest.drop_first() =~= hunks@.skip(i + 1));
        }
        let bs = hunk.before.start;
        let be = hunk.before.end;
        let as_ = hunk.after.start;
        let ae = hunk.after.end;
        let ghost mut made: Seq<ChangeView> = Seq::empty();
        proof {
            assert(a.subrange(pa, as_ as int) == b.subrange(pb, bs as int));
            lemma_flatten_take_subrange(b, pb, bs as int);
            lemma_flatten_take_subrange(a, pa, as_ as int);
            lemma_flatten_take_subrange(b, bs as int, be as int);
            lemma_flatten_take_subrange(a, as_ as int, ae as int);
        }
        if bs > pos_before {
            let len = run_byte_len(before_tokens, pos_before, bs, Ghost(utf8_len(b.flatten())));
            let count = (bs - pos_before) as usize;
            let value = slice_run(before_text, byte_before, len, Ghost(b), Ghost(pb), Ghost(bs as int));
            let ghost prev = change_views(changes@);
            changes.push(Change::unchanged(value, count));
            proof {
                assert(change_views(changes@) =~= prev.push(changes@.last()@));
                made = made.push(unchanged_run(run_text(b, pb, bs as int), (bs - pb) as nat));
            }
            byte_before = byte_before + len;
            byte_after = byte_after + len;
        }
        proof {
            assert(byte_before == utf8_len(b.take(bs as int).flatten()));
            assert(byte_after == utf8_len(a.take(as_ as int).flatten()));
        }
        if bs < be {
            let len = run_byte_len(before_tokens, bs, be, Ghost(utf8_len(b.flatten())));
            let count = (be - bs) as usize;
            let value = slice_run(
                before_text,
                byte_before,
                len,
                Ghost(b),
                Ghost(bs as int),
                Ghost(be as int),
            );
            let ghost prev = change_views(changes@);
            changes.push(Change::removed(value, count));
            proof {
                assert(change_views(changes@) =~= prev.push(changes@.last()@));
                made = made.push(removed_run(run_text(b, bs as int, be as int), (be - bs) as nat));
            }
            byte_before = byte_before + len;
        }
        proof {
            assert(byte_before == utf8_len(b.take(be as int).flatten()));
        }
        if as_ < ae {
            let len = run_byte_len(after_tokens, as_, ae, Ghost(utf8_len(a.flatten())));
            let count = (ae - as_) as usize;
            let value = slice_run(
                after_text,
                byte_after,
                len,
                Ghost(a),
                Ghost(as_ as int),
                Ghost(ae as int),
            );
            let ghost prev = change_views(changes@);
            changes.push(Change::added(value, count));
            proof {
                assert(change_views(changes@) =~= prev.push(changes@.last()@));
                made = made.push(added_run(run_text(a, as_ as int, ae as int), (ae - as_) as nat));
            }
            byte_after = byte_after + len;
        }
        proof {
            assert(byte_after == utf8_len(a.take(ae as int).flatten()));
            assert(made =~= hunk_runs(rest[0], b, a, pb));
            assert(change_views(changes@) =~= old_views + made);
            assert(changes_from(rest, b, a, pb) == made + changes_from(
                hunks@.skip(i + 1),
                b,
                a,
                be as int,
            ));
            assert(change_views(changes@) + changes_from(hunks@.skip(i + 1), b, a, be as int)
                =~= old_views + changes_from(rest, b, a, pb));
        }
        pos_before = be;
        proof {
            pos_after = ae as int;
        }
        i = i + 1;
    }
    proof {
        assert(hunks@.skip(i as int) =~= Seq::<Hunk>::empty());
    }
    if (pos_before as usize) < before_tokens.len() {
        let end = before_tokens.len() as u32;
        let len = run_byte_len(before_tokens, pos_before, end, Ghost(utf8_len(b.flatten())));
        let count = before_tokens.len() - pos_before as usize;
        let value = slice_run(
            before_text,
            byte_before,
            len,
            Ghost(b),
            Ghost(pos_before as int),
            Ghost(b.len() as int),
        );
        let ghost prev = change_views(changes@);
        changes.push(Change::unchanged(value, count));
        proof {
            assert(change_views(changes@) =~= prev.push(changes@.last()@));
        }
    } else {
        proof {
            assert(change_views(changes@) + Seq::<ChangeView>::empty() =~= change_views(changes@));
        }
    }
    changes
}

/// The text of the runs that are not added: what the runs keep of `before`.
pub open spec fn before_side(cs: Seq<ChangeView>) -> Seq<char>
    decreases cs.len(),
{
    if cs.len() == 0 {
        seq![]
    } else {
        (if cs[0].added {
            seq![]
        } else {
            cs[0].value
        }) + before_side(cs.drop_first())
    }
}

/// The text of the runs that are not removed: what the runs keep of `after`.
pub open spec fn after_side(cs: Seq<ChangeView>) -> Seq<char>
    decreases cs.len(),
{
    if cs.len() == 0 {
        seq![]
    } else {
        (if cs[0].removed {
            seq![]
        } else {
            cs[0].value
        }) + after_side(cs.drop_first())
    }
}

/// The number of tokens in the runs that are not added.
pub open spec fn before_count(cs: Seq<ChangeView>) -> nat
    decreases cs.len(),
{
    if cs.len() == 0 {
        0
    } else {
        (if cs[0].added {
            0
        } else {
            cs[0].count
        }) + before_count(cs.drop_first())
    }
}

/// The number of tokens in the runs that are not removed.
pub open spec fn after_count(cs: Seq<ChangeView>) -> nat
    decreases cs.len(),
{
    if cs.len() == 0 {
        0
    } else {
        (if cs[0].removed {
            0
        } else {
            cs[0].count
        }) + after_count(cs.drop_first())
    }
}

proof fn lemma_sides_concat(x: Seq<ChangeView>, y: Seq<ChangeView>)
    ensures
        before_side(x + y) == before_side(x) + before_side(y),
        after_side(x + y) == after_side(x) + after_side(y),
        before_count(x + y) == before_count(x) + before_count(y),
        after_count(x + y) == after_count(x) + after_count(y),
    decreases x.len(),
{
    if x.len() == 0 {
        assert(x + y =~= y);
        assert(before_side(x) + before_side(y) =~= before_side(y));
        assert(after_side(x) + after_side(y) =~= after_side(y));
    } else {
        lemma_sides_concat(x.drop_first(), y);
        assert((x + y).drop_first() =~= x.drop_first() + y);
        assert((x + y)[0] == x[0]);
        let hb: Seq<char> = if x[0].added { seq![] } else { x[0].value };
        let ha: Seq<char> = if x[0].removed { seq![] } else { x[0].value };
        assert(hb + (before_side(x.drop_first()) + before_side(y)) =~= (hb + before_side(
            x.drop_first(),
        )) + before_side(y));
        assert(ha + (after_side(x.drop_first()) + after_side(y)) =~= (ha + after_side(
            x.drop_first(),
        )) + after_side(y));
    }
}

proof fn lemma_run_text_split(b: Seq<Seq<char>>, x: int, y: int)
    requires
        0 <= x <= y <= b.len(),
    ensures
        b.skip(x).flatten() == run_text(b, x, y) + b.skip(y).flatten(),
        run_text(b, x, x) == Seq::<char>::empty(),
{
    assert(b.skip(x) =~= b.subrange(x, y) + b.skip(y));
    vstd::seq_lib::lemma_flatten_concat(b.subrange(x, y), b.skip(y));
    assert(b.subrange(x, x) =~= Seq::<Seq<char>>::empty());
}

proof fn lemma_one_run(c: ChangeView)
    ensures
        before_side(seq![c]) == (if c.added {
            seq![]
        } else {
            c.value
        }),
        after_side(seq![c]) == (if c.removed {
            seq![]
        } else {
            c.value
        }),
        before_count(seq![c]) == (if c.added {
            0
        } else {
            c.count
        }),
        after_count(seq![c]) == (if c.removed {
            0
        } else {
            c.count
        }),
{
    let one = seq![c];
    assert(one.drop_first() =~= Seq::<ChangeView>::empty());
    assert(one[0] == c);
    assert(before_side(one.drop_first()) == Seq::<char>::empty());
    assert(after_side(one.drop_first()) == Seq::<char>::empty());
    let hb: Seq<char> = if c.added {
        seq![]
    } else {
        c.value
    };
    let ha: Seq<char> = if c.removed {
        seq![]
    } else {
        c.value
    };
    assert(before_side(one) == hb + before_side(one.drop_first()));
    assert(hb + Seq::<char>::empty() =~= hb);
    assert(after_side(one) == ha + after_side(one.drop_first()));
    assert(ha + Seq::<char>::empty() =~= ha);
    assert(before_count(one.drop_first()) == 0);
    assert(after_count(one.drop_first()) == 0);
}

proof fn lemma_empty_runs()
    ensures
        before_side(Seq::<ChangeView>::empty()) == Seq::<char>::empty(),
        after_side(Seq::<ChangeView>::empty()) == Seq::<char>::empty(),
        before_count(Seq::<ChangeView>::empty()) == 0,
        after_count(Seq::<ChangeView>::empty()) == 0,
{
}

/// What the runs of an edit script keep of each side, read from positions
/// `pb` and `pa` on, is the rest of that side; their token counts add up to
/// the number of tokens left on each side.
proof fn lemma_changes_from_sides(
    hunks: Seq<Hunk>,
    b: Seq<Seq<char>>,
    a: Seq<Seq<char>>,
    pb: int,
    pa: int,
)
    requires
        edit_script_from(hunks, b, a, pb, pa),
    ensures
        before_side(changes_from(hunks, b, a, pb)) == b.skip(pb).flatten(),
        after_side(changes_from(hunks, b, a, pb)) == a.skip(pa).flatten(),
        before_count(changes_from(hunks, b, a, pb)) == b.len() - pb,
        after_count(changes_from(hunks, b, a, pb)) == a.len() - pa,
    decreases hunks.len(),
{
    lemma_empty_runs();
    if hunks.len() == 0 {
        if pb < b.len() {
            let c = unchanged_run(run_text(b, pb, b.len() as int), (b.len() - pb) as nat);
            lemma_one_run(c);
            lemma_run_text_split(b, pb, b.len() as int);
            assert(b.skip(b.len() as int) =~= Seq::<Seq<char>>::empty());
            assert(b.skip(pb).flatten() =~= run_text(b, pb, b.len() as int));
        } else {
            assert(b.skip(pb) =~= Seq::<Seq<char>>::empty());
        }
        assert(b.skip(pb).len() == a.skip(pa).len());
    } else {
        let h = hunks[0];
        let bs = h.before.start as int;
        let be = h.before.end as int;
        let as_ = h.after.start as int;
        let ae = h.after.end as int;
        let rest = hunks.drop_first();
        lemma_changes_from_sides(rest, b, a, be, ae);
        let lead: Seq<ChangeView> = if bs > pb {
            seq![unchanged_run(run_text(b, pb, bs), (bs - pb) as nat)]
        } else {
            seq![]
        };
        let gone: Seq<ChangeView> = if bs < be {
            seq![removed_run(run_text(b, bs, be), (be - bs) as nat)]
        } else {
            seq![]
        };
        let new: Seq<ChangeView> = if as_ < ae {
            seq![added_run(run_text(a, as_, ae), (ae - as_) as nat)]
        } else {
            seq![]
        };
        if bs > pb {
            lemma_one_run(unchanged_run(run_text(b, pb, bs), (bs - pb) as nat));
        }
        if bs < be {
            lemma_one_run(removed_run(run_text(b, bs, be), (be - bs) as nat));
        }
        if as_ < ae {
            lemma_one_run(added_run(run_text(a, as_, ae), (ae - as_) as nat));
        }
        let tail = changes_from(rest, b, a, be);
        assert(hunk_runs(h, b, a, pb) == lead + gone + new);
        assert(changes_from(hunks, b, a, pb) == lead + gone + new + tail);
        lemma_sides_concat(lead, gone);
        lemma_sides_concat(lead + gone, new);
        lemma_sides_concat(lead + gone + new, tail);
        lemma_run_text_split(b, pb, bs);
        lemma_run_text_split(b, bs, be);
        lemma_run_text_split(a, pa, as_);
        lemma_run_text_split(a, as_, ae);
        assert(b.subrange(pb, bs) == a.subrange(pa, as_));
        assert(run_text(b, pb, bs) == run_text(a, pa, as_));
        assert(b.skip(pb).flatten() =~= run_text(b, pb, bs) + run_text(b, bs, be) + b.skip(
            be,
        ).flatten());
        assert(a.skip(pa).flatten() =~= run_text(a, pa, as_) + run_text(a, as_, ae) + a.skip(
            ae,
        ).flatten());
        assert(before_side(lead + gone + new + tail) =~= run_text(b, pb, bs) + run_text(b, bs, be)
            + b.skip(be).flatten());
        assert(after_side(lead + gone + new + tail) =~= run_text(a, pa, as_) + run_text(a, as_, ae)
            + a.skip(ae).flatten());
    }
}

/// Runs made from an edit script give back both sides: the runs that are not
/// added spell `b`, those that are not removed spell `a`, and their counts
/// add up to the numbers of tokens of `b` and of `a`.
pub proof fn lemma_changes_reconstruct(hunks: Seq<Hunk>, b: Seq<Seq<char>>, a: Seq<Seq<char>>)
    requires
        is_edit_script(hunks, b, a),
    ensures
        before_side(changes_of(hunks, b, a)) == b.flatten(),
        after_side(changes_of(hunks, b, a)) == a.flatten(),
        before_count(changes_of(hunks, b, a)) == b.len(),
        after_count(changes_of(hunks, b, a)) == a.len(),
{
    lemma_changes_from_sides(hunks, b, a, 0, 0);
    assert(b.skip(0) =~= b);
    assert(a.skip(0) =~= a);
}

/// Every run has at least one token and some text, and is at most one of
/// added and removed.
pub open spec fn runs_well_formed(cs: Seq<ChangeView>) -> bool {
    forall|i: int|
        0 <= i < cs.len() ==> {
            &&& (#[trigger] cs[i]).count > 0
            &&& cs[i].value.len() > 0
            &&& !(cs[i].added && cs[i].removed)
        }
}

/// Every token is non-empty.
pub open spec fn tokens_non_empty(b: Seq<Seq<char>>) -> bool {
    forall|i: int| 0 <= i < b.len() ==> (#[trigger] b[i]).len() > 0
}

proof fn lemma_run_text_non_empty(b: Seq<Seq<char>>, x: int, y: int)
    requires
        0 <= x < y <= b.len(),
        tokens_non_empty(b),
    ensures
        run_text(b, x, y).len() > 0,
{
    let sub = b.subrange(x, y);
    assert(sub[0] == b[x]);
    assert(sub.flatten() == sub.first() + sub.drop_first().flatten());
}

proof fn lemma_well_formed_concat(x: Seq<ChangeView>, y: Seq<ChangeView>)
    requires
        runs_well_formed(x),
        runs_well_formed(y),
    ensures
        runs_well_formed(x + y),
{
    assert forall|i: int| 0 <= i < (x + y).len() implies {
        &&& (#[trigger] (x + y)[i]).count > 0
        &&& (x + y)[i].value.len() > 0
        &&& !((x + y)[i].added && (x + y)[i].removed)
    } by {
        if i < x.len() {
            assert((x + y)[i] == x[i]);
        } else {
            assert((x + y)[i] == y[i - x.len()]);
        }
    }
}

proof fn lemma_changes_from_well_formed(
    hunks: Seq<Hunk>,
    b: Seq<Seq<char>>,
    a: Seq<Seq<char>>,
    pb: int,
    pa: int,
)
    requires
        edit_script_from(hunks, b, a, pb, pa),
        tokens_non_empty(b),
        tokens_non_empty(a),
    ensures
        runs_well_formed(changes_from(hunks, b, a, pb)),
    decreases hunks.len(),
{
    if hunks.len() == 0 {
        if pb < b.len() {
            lemma_run_text_non_empty(b, pb, b.len() as int);
        }
    } else {
        let h = hunks[0];
        let bs = h.before.start as int;
        let be = h.before.end as int;
        let as_ = h.after.start as int;
        let ae = h.after.end as int;
        lemma_changes_from_well_formed(hunks.drop_first(), b, a, be, ae);
        let lead: Seq<ChangeView> = if bs > pb {
            seq![unchanged_run(run_text(b, pb, bs), (bs - pb) as nat)]
        } else {
            seq![]
        };
        let gone: Seq<ChangeView> = if bs < be {
            seq![removed_run(run_text(b, bs, be), (be - bs) as nat)]
        } else {
            seq![]
        };
        let new: Seq<ChangeView> = if as_ < ae {
            seq![added_run(run_text(a, as_, ae), (ae - as_) as nat)]
        } else {
            seq![]
        };
        if bs > pb {
            lemma_run_text_non_empty(b, pb, bs);
        }
        if bs < be {
            lemma_run_text_non_empty(b, bs, be);
        }
        if as_ < ae {
            lemma_run_text_non_empty(a, as_, ae);
        }
        assert(runs_well_formed(lead));
        assert(runs_well_formed(gone));
        assert(runs_well_formed(new));
        lemma_well_formed_concat(lead, gone);
        lemma_well_formed_concat(lead + gone, new);
        lemma_well_formed_concat(lead + gone + new, changes_from(hunks.drop_first(), b, a, be));
        assert(changes_from(hunks, b, a, pb) == lead + gone + new + changes_from(
            hunks.drop_first(),
            b,
            a,
            be,
        ));
    }
}

/// The runs made from an edit script over non-empty tokens each hold at
/// least one token and some text, and none is both added and removed.
pub proof fn lemma_changes_well_formed(hunks: Seq<Hunk>, b: Seq<Seq<char>>, a: Seq<Seq<char>>)
    requires
        is_edit_script(hunks, b, a),
        tokens_non_empty(b),
        tokens_non_empty(a),
    ensures
        runs_well_formed(changes_of(hunks, b, a)),
{
    lemma_changes_from_well_formed(hunks, b, a, 0, 0);
}

/// Two runs that may follow each other: not two unchanged runs, not two
/// removed or two added runs, and no removed run right after an added one.
pub open spec fn may_follow(x: ChangeView, y: ChangeView) -> bool {
    &&& !(!x.added && !x.removed && !y.added && !y.removed)
    &&& !(x.removed && y.removed)
    &&& !(x.added && y.added)
    &&& !(x.added && y.removed)
}

/// Runs alternate between unchanged runs and changes, and each change is a
/// removed run, an added run, or a removed run followed by an added run.
pub open spec fn runs_alternate(cs: Seq<ChangeView>) -> bool {
    forall|i: int| 0 <= i < cs.len() - 1 ==> may_follow(#[trigger] cs[i], cs[i + 1])
}

proof fn lemma_alternate_concat(x: Seq<ChangeView>, y: Seq<ChangeView>)
    requires
        runs_alternate(x),
        runs_alternate(y),
        x.len() == 0 || y.len() == 0 || may_follow(x.last(), y[0]),
    ensures
        runs_alternate(x + y),
{
    assert forall|i: int| 0 <= i < (x + y).len() - 1 implies may_follow(
        #[trigger] (x + y)[i],
        (x + y)[i + 1],
    ) by {
        if i < x.len() - 1 {
            assert((x + y)[i] == x[i]);
            assert((x + y)[i + 1] == x[i + 1]);
        } else if i == x.len() - 1 {
            assert((x + y)[i] == x.last());
            assert((x + y)[i + 1] == y[0]);
        } else {
            assert((x + y)[i] == y[i - x.len()]);
            assert((x + y)[i + 1] == y[i - x.len() + 1]);
        }
    }
}

proof fn lemma_separated_rest(hunks: Seq<Hunk>)
    requires
        hunks.len() > 0,
        hunks_separated(hunks),
    ensures
        hunks_separated(hunks.drop_first()),
{
    let rest = hunks.drop_first();
    assert forall|k: int| 0 <= k < rest.len() implies (#[trigger] rest[k]).before.start
        < rest[k].before.end || rest[k].after.start < rest[k].after.end by {
        assert(rest[k] == hunks[k + 1]);
    }
    assert forall|k: int| 0 <= k < rest.len() - 1 implies (#[trigger] rest[k]).before.end
        < rest[k + 1].before.start && rest[k].after.end < rest[k + 1].after.start by {
        assert(rest[k] == hunks[k + 1]);
        assert(rest[k + 1] == hunks[k + 2]);
    }
}

/// The runs of separated hunks alternate; when the position read from is
/// before the first hunk, the first run is unchanged.
proof fn lemma_changes_from_alternate(
    hunks: Seq<Hunk>,
    b: Seq<Seq<char>>,
    a: Seq<Seq<char>>,
    pb: int,
    pa: int,
)
    requires
        edit_script_from(hunks, b, a, pb, pa),
        hunks_separated(hunks),
    ensures
        runs_alternate(changes_from(hunks, b, a, pb)),
        hunks.len() == 0 || pb < hunks[0].before.start ==> changes_from(hunks, b, a, pb).len()
            == 0 || {
            let c = changes_from(hunks, b, a, pb)[0];
            !c.added && !c.removed
        },
    decreases hunks.len(),
{
    if hunks.len() > 0 {
        let h = hunks[0];
        let bs = h.before.start as int;
        let be = h.before.end as int;
        let as_ = h.after.start as int;
        let ae = h.after.end as int;
        let rest = hunks.drop_first();
        lemma_separated_rest(hunks);
        lemma_changes_from_alternate(rest, b, a, be, ae);
        if rest.len() > 0 {
            assert(rest[0] == hunks[1]);
            assert(be < rest[0].before.start);
        }
        let lead: Seq<ChangeView> = if bs > pb {
            seq![unchanged_run(run_text(b, pb, bs), (bs - pb) as nat)]
        } else {
            seq![]
        };
        let gone: Seq<ChangeView> = if bs < be {
            seq![removed_run(run_text(b, bs, be), (be - bs) as nat)]
        } else {
            seq![]
        };
        let new: Seq<ChangeView> = if as_ < ae {
            seq![added_run(run_text(a, as_, ae), (ae - as_) as nat)]
        } else {
            seq![]
        };
        let tail = changes_from(rest, b, a, be);
        assert(hunk_runs(h, b, a, pb) == lead + gone + new);
        assert(changes_from(hunks, b, a, pb) == lead + gone + new + tail);
        assert(bs < be || as_ < ae);
        lemma_alternate_concat(lead, gone);
        lemma_alternate_concat(lead + gone, new);
        assert((lead + gone + new).len() > 0);
        assert(!(lead + gone + new).last().added || !(lead + gone + new).last().removed);
        assert((lead + gone + new).last().added || (lead + gone + new).last().removed);
        lemma_alternate_concat(lead + gone + new, tail);
        if pb < bs {
            assert((lead + gone + new + tail)[0] == lead[0]);
        }
    }
}

/// When one side is empty, separated hunks of an edit script make a single
/// run: all of the other side, added or removed.
proof fn lemma_one_side_empty(hunks: Seq<Hunk>, b: Seq<Seq<char>>, a: Seq<Seq<char>>)
    requires
        is_edit_script(hunks, b, a),
        hunks_separated(hunks),
    ensures
        b.len() == 0 && a.len() > 0 ==> changes_of(hunks, b, a) == seq![
            added_run(a.flatten(), a.len()),
        ],
        a.len() == 0 && b.len() > 0 ==> changes_of(hunks, b, a) == seq![
            removed_run(b.flatten(), b.len()),
        ],
{
    if (b.len() == 0 && a.len() > 0) || (a.len() == 0 && b.len() > 0) {
        assert(hunks.len() > 0) by {
            if hunks.len() == 0 {
                assert(b.skip(0).len() == a.skip(0).len());
            }
        }
        let h = hunks[0];
        let rest = hunks.drop_first();
        assert(rest.len() == 0) by {
            if rest.len() > 0 {
                assert(hunks[1] == rest[0]);
                assert(edit_script_from(rest, b, a, h.before.end as int, h.after.end as int));
                assert(hunks[0].before.end < hunks[1].before.start);
                assert(hunks[0].after.end < hunks[1].after.start);
                assert(rest[0].before.end <= b.len());
                assert(rest[0].after.end <= a.len());
            }
        }
        assert(edit_script_from(rest, b, a, h.before.end as int, h.after.end as int));
        assert(b.skip(h.before.end as int).len() == a.skip(h.after.end as int).len());
        assert(b.subrange(0, h.before.start as int).len() == a.subrange(0, h.after.start as int).len());
        assert(changes_from(rest, b, a, h.before.end as int) =~= Seq::<ChangeView>::empty());
        assert(b.subrange(0, b.len() as int) =~= b);
        assert(a.subrange(0, a.len() as int) =~= a);
        assert(hunk_runs(h, b, a, 0) + Seq::<ChangeView>::empty() =~= hunk_runs(h, b, a, 0));
    }
}

/// The lines of the removed runs, in order.
pub open spec fn removed_lines(cs: Seq<ChangeView>) -> Seq<Seq<char>>
    decreases cs.len(),
{
    if cs.len() == 0 {
        seq![]
    } else {
        (if cs[0].removed {
            line_tokens(cs[0].value)
        } else {
            seq![]
        }) + removed_lines(cs.drop_first())
    }
}

/// The lines of the added runs, in order.
pub open spec fn added_lines(cs: Seq<ChangeView>) -> Seq<Seq<char>>
    decreases cs.len(),
{
    if cs.len() == 0 {
        seq![]
    } else {
        (if cs[0].added {
            line_tokens(cs[0].value)
        } else {
            seq![]
        }) + added_lines(cs.drop_first())
    }
}

proof fn lemma_changed_lines_concat(x: Seq<ChangeView>, y: Seq<ChangeView>)
    ensures
        removed_lines(x + y) == removed_lines(x) + removed_lines(y),
        added_lines(x + y) == added_lines(x) + added_lines(y),
    decreases x.len(),
{
    if x.len() == 0 {
        assert(x + y =~= y);
        assert(removed_lines(x) + removed_lines(y) =~= removed_lines(y));
        assert(added_lines(x) + added_lines(y) =~= added_lines(y));
    } else {
        lemma_changed_lines_concat(x.drop_first(), y);
        assert((x + y).drop_first() =~= x.drop_first() + y);
        assert((x + y)[0] == x[0]);
        let hr: Seq<Seq<char>> = if x[0].removed { line_tokens(x[0].value) } else { seq![] };
        let ha: Seq<Seq<char>> = if x[0].added { line_tokens(x[0].value) } else { seq![] };
        assert(hr + (removed_lines(x.drop_first()) + removed_lines(y)) =~= (hr + removed_lines(
            x.drop_first(),
        )) + removed_lines(y));
        assert(ha + (added_lines(x.drop_first()) + added_lines(y)) =~= (ha + added_lines(
            x.drop_first(),
        )) + added_lines(y));
    }
}

proof fn lemma_one_run_lines(c: ChangeView)
    ensures
        removed_lines(seq![c]) == (if c.removed {
            line_tokens(c.value)
        } else {
            seq![]
        }),
        added_lines(seq![c]) == (if c.added {
            line_tokens(c.value)
        } else {
            seq![]
        }),
{
    let one = seq![c];
    assert(one.drop_first() =~= Seq::<ChangeView>::empty());
    assert(one[0] == c);
    assert(removed_lines(one.drop_first()) == Seq::<Seq<char>>::empty());
    assert(added_lines(one.drop_first()) == Seq::<Seq<char>>::empty());
    let hr: Seq<Seq<char>> = if c.removed { line_tokens(c.value) } else { seq![] };
    let ha: Seq<Seq<char>> = if c.added { line_tokens(c.value) } else { seq![] };
    assert(removed_lines(one) == hr + removed_lines(one.drop_first()));
    assert(hr + Seq::<Seq<char>>::empty() =~= hr);
    assert(added_lines(one) == ha + added_lines(one.drop_first()));
    assert(ha + Seq::<Seq<char>>::empty() =~= ha);
}

/// Every token is a line that ends with a newline.
pub open spec fn all_full_lines(b: Seq<Seq<char>>) -> bool {
    forall|i: int| 0 <= i < b.len() ==> is_full_line(#[trigger] b[i])
}

proof fn lemma_full_lines_run(b: Seq<Seq<char>>, x: int, y: int)
    requires
        0 <= x <= y <= b.len(),
        all_full_lines(b),
    ensures
        line_tokens(run_text(b, x, y)) == b.subrange(x, y),
{
    let sub = b.subrange(x, y);
    assert forall|i: int| 0 <= i < sub.len() implies is_full_line(#[trigger] sub[i]) by {
        assert(sub[i] == b[x + i]);
    }
    lemma_line_tokens_of_lines(sub);
}

/// Over tokens that are newline-ended lines, the lines of the removed runs are
/// the tokens that the hunks remove, and those of the added runs the tokens
/// they add.
proof fn lemma_changes_from_lines(
    hunks: Seq<Hunk>,
    b: Seq<Seq<char>>,
    a: Seq<Seq<char>>,
    pb: int,
    pa: int,
)
    requires
        edit_script_from(hunks, b, a, pb, pa),
        all_full_lines(b),
        all_full_lines(a),
    ensures
        removed_lines(changes_from(hunks, b, a, pb)) == removed_tokens(hunks, b),
        added_lines(changes_from(hunks, b, a, pb)) == added_tokens(hunks, a),
    decreases hunks.len(),
{
    if hunks.len() == 0 {
        if pb < b.len() {
            lemma_one_run_lines(unchanged_run(run_text(b, pb, b.len() as int), (b.len() - pb) as nat));
        }
    } else {
        let h = hunks[0];
        let bs = h.before.start as int;
        let be = h.before.end as int;
        let as_ = h.after.start as int;
        let ae = h.after.end as int;
        let rest = hunks.drop_first();
        lemma_changes_from_lines(rest, b, a, be, ae);
        let lead: Seq<ChangeView> = if bs > pb {
            seq![unchanged_run(run_text(b, pb, bs), (bs - pb) as nat)]
        } else {
            seq![]
        };
        let gone: Seq<ChangeView> = if bs < be {
            seq![removed_run(run_text(b, bs, be), (be - bs) as nat)]
        } else {
            seq![]
        };
        let new: Seq<ChangeView> = if as_ < ae {
            seq![added_run(run_text(a, as_, ae), (ae - as_) as nat)]
        } else {
            seq![]
        };
        if bs > pb {
            lemma_one_run_lines(unchanged_run(run_text(b, pb, bs), (bs - pb) as nat));
        }
        if bs < be {
            lemma_one_run_lines(removed_run(run_text(b, bs, be), (be - bs) as nat));
        }
        if as_ < ae {
            lemma_one_run_lines(added_run(run_text(a, as_, ae), (ae - as_) as nat));
        }
        lemma_full_lines_run(b, bs, be);
        lemma_full_lines_run(a, as_, ae);
        assert(b.subrange(bs, bs) =~= Seq::<Seq<char>>::empty());
        assert(a.subrange(as_, as_) =~= Seq::<Seq<char>>::empty());
        let tail = changes_from(rest, b, a, be);
        assert(hunk_runs(h, b, a, pb) == lead + gone + new);
        assert(changes_from(hunks, b, a, pb) == lead + gone + new + tail);
        lemma_changed_lines_concat(lead, gone);
        lemma_changed_lines_concat(lead + gone, new);
        lemma_changed_lines_concat(lead + gone + new, tail);
        assert(removed_lines(lead + gone + new + tail) =~= b.subrange(bs, be) + removed_tokens(
            rest,
            b,
        ));
        assert(added_lines(lead + gone + new + tail) =~= a.subrange(as_, ae) + added_tokens(
            rest,
            a,
        ));
    }
}

/// Where each run lies, read from positions `pb` of `b` and `pa` of `a` on: a
/// run that is not added is the `count` tokens of `b` that follow those of the
/// earlier runs that are not added; a run that is not removed is likewise the
/// next `count` tokens of `a`.
pub open spec fn runs_lie_from(
    cs: Seq<ChangeView>,
    b: Seq<Seq<char>>,
    a: Seq<Seq<char>>,
    pb: int,
    pa: int,
) -> bool {
    forall|i: int|
        0 <= i < cs.len() ==> {
            let x = pb + before_count(cs.take(i));
            let y = pa + after_count(cs.take(i));
            &&& (!(#[trigger] cs[i]).added ==> x + cs[i].count <= b.len() && cs[i].value
                == run_text(b, x, x + cs[i].count))
            &&& (!cs[i].removed ==> y + cs[i].count <= a.len() && cs[i].value == run_text(
                a,
                y,
                y + cs[i].count,
            ))
        }
}

/// Each run is a whole range of tokens: a run that is not added is the
/// `count` tokens of `b` after those of the earlier runs that are not added,
/// and a run that is not removed the `count` tokens of `a` after those of the
/// earlier runs that are not removed.
pub open spec fn runs_lie_in(cs: Seq<ChangeView>, b: Seq<Seq<char>>, a: Seq<Seq<char>>) -> bool {
    runs_lie_from(cs, b, a, 0, 0)
}

proof fn lemma_lie_concat(
    x: Seq<ChangeView>,
    y: Seq<ChangeView>,
    b: Seq<Seq<char>>,
    a: Seq<Seq<char>>,
    pb: int,
    pa: int,
)
    requires
        runs_lie_from(x, b, a, pb, pa),
        runs_lie_from(y, b, a, pb + before_count(x), pa + after_count(x)),
    ensures
        runs_lie_from(x + y, b, a, pb, pa),
{
    let z = x + y;
    assert forall|i: int| 0 <= i < z.len() implies {
        let p = pb + before_count(z.take(i));
        let q = pa + after_count(z.take(i));
        &&& (!(#[trigger] z[i]).added ==> p + z[i].count <= b.len() && z[i].value == run_text(
            b,
            p,
            p + z[i].count,
        ))
        &&& (!z[i].removed ==> q + z[i].count <= a.len() && z[i].value == run_text(
            a,
            q,
            q + z[i].count,
        ))
    } by {
        if i < x.len() {
            assert(z.take(i) =~= x.take(i));
            assert(z[i] == x[i]);
        } else {
            let j = i - x.len();
            assert(z.take(i) =~= x + y.take(j));
            assert(z[i] == y[j]);
            lemma_sides_concat(x, y.take(j));
        }
    }
}

proof fn lemma_lie_one(c: ChangeView, b: Seq<Seq<char>>, a: Seq<Seq<char>>, pb: int, pa: int)
    requires
        !c.added ==> pb + c.count <= b.len() && c.value == run_text(b, pb, pb + c.count),
        !c.removed ==> pa + c.count <= a.len() && c.value == run_text(a, pa, pa + c.count),
    ensures
        runs_lie_from(seq![c], b, a, pb, pa),
{
    lemma_empty_runs();
    assert(seq![c].take(0) =~= Seq::<ChangeView>::empty());
    assert(seq![c][0] == c);
}

proof fn lemma_lie_empty(b: Seq<Seq<char>>, a: Seq<Seq<char>>, pb: int, pa: int)
    ensures
        runs_lie_from(Seq::<ChangeView>::empty(), b, a, pb, pa),
{
}

/// The runs of an edit script, read from positions `pb` and `pa`, lie in
/// order on the tokens of both sides.
proof fn lemma_changes_from_lie(
    hunks: Seq<Hunk>,
    b: Seq<Seq<char>>,
    a: Seq<Seq<char>>,
    pb: int,
    pa: int,
)
    requires
        edit_script_from(hunks, b, a, pb, pa),
    ensures
        runs_lie_from(changes_from(hunks, b, a, pb), b, a, pb, pa),
    decreases hunks.len(),
{
    lemma_empty_runs();
    if hunks.len() == 0 {
        if pb < b.len() {
            assert(b.skip(pb).len() == a.skip(pa).len());
            assert(b.subrange(pb, b.len() as int) =~= b.skip(pb));
            assert(a.subrange(pa, a.len() as int) =~= a.skip(pa));
            lemma_lie_one(
                unchanged_run(run_text(b, pb, b.len() as int), (b.len() - pb) as nat),
                b,
                a,
                pb,
                pa,
            );
        }
    } else {
        let h = hunks[0];
        let bs = h.before.start as int;
        let be = h.before.end as int;
        let as_ = h.after.start as int;
        let ae = h.after.end as int;
        let rest = hunks.drop_first();
        lemma_changes_from_lie(rest, b, a, be, ae);
        assert(b.subrange(pb, bs) == a.subrange(pa, as_));
        assert(b.subrange(pb, bs).len() == bs - pb);
        assert(a.subrange(pa, as_).len() == as_ - pa);
        assert(bs - pb == as_ - pa);
        let lead: Seq<ChangeView> = if bs > pb {
            seq![unchanged_run(run_text(b, pb, bs), (bs - pb) as nat)]
        } else {
            seq![]
        };
        let gone: Seq<ChangeView> = if bs < be {
            seq![removed_run(run_text(b, bs, be), (be - bs) as nat)]
        } else {
            seq![]
        };
        let new: Seq<ChangeView> = if as_ < ae {
            seq![added_run(run_text(a, as_, ae), (ae - as_) as nat)]
        } else {
            seq![]
        };
        if bs > pb {
            let c = unchanged_run(run_text(b, pb, bs), (bs - pb) as nat);
            lemma_lie_one(c, b, a, pb, pa);
            lemma_one_run(c);
        }
        if bs < be {
            let c = removed_run(run_text(b, bs, be), (be - bs) as nat);
            lemma_lie_one(c, b, a, bs, as_);
            lemma_one_run(c);
        }
        if as_ < ae {
            let c = added_run(run_text(a, as_, ae), (ae - as_) as nat);
            lemma_lie_one(c, b, a, be, as_);
            lemma_one_run(c);
        }
        assert(before_count(lead) == bs - pb && after_count(lead) == as_ - pa);
        assert(before_count(gone) == be - bs && after_count(gone) == 0);
        assert(before_count(new) == 0 && after_count(new) == ae - as_);
        lemma_sides_concat(lead, gone);
        lemma_sides_concat(lead + gone, new);
        lemma_lie_concat(lead, gone, b, a, pb, pa);
        lemma_lie_concat(lead + gone, new, b, a, pb, pa);
        lemma_lie_concat(lead + gone + new, changes_from(rest, b, a, be), b, a, pb, pa);
        assert(hunk_runs(h, b, a, pb) == lead + gone + new);
        assert(changes_from(hunks, b, a, pb) == lead + gone + new + changes_from(rest, b, a, be));
    }
}

/// The runs of an edit script lie in order on the tokens of both sides.
pub proof fn lemma_changes_lie(hunks: Seq<Hunk>, b: Seq<Seq<char>>, a: Seq<Seq<char>>)
    requires
        is_edit_script(hunks, b, a),
    ensures
        runs_lie_in(changes_of(hunks, b, a), b, a),
{
    lemma_changes_from_lie(hunks, b, a, 0, 0);
}

/// Each run's `count` is its number of lines.
pub open spec fn counts_lines(cs: Seq<ChangeView>) -> bool {
    forall|i: int| 0 <= i < cs.len() ==> line_tokens((#[trigger] cs[i]).value).len() == cs[i].count
}

/// Each run's `count` is its number of word tokens.
pub open spec fn counts_words(cs: Seq<ChangeView>) -> bool {
    forall|i: int| 0 <= i < cs.len() ==> word_tokens((#[trigger] cs[i]).value).len() == cs[i].count
}

/// Each run's `count` is its number of characters.
pub open spec fn counts_chars(cs: Seq<ChangeView>) -> bool {
    forall|i: int| 0 <= i < cs.len() ==> (#[trigger] cs[i]).value.len() == cs[i].count
}

/// The text of a range of the lines of `s` splits back into those lines.
proof fn lemma_line_run(s: Seq<char>, x: int, y: int)
    requires
        0 <= x <= y <= line_tokens(s).len(),
    ensures
        line_tokens(run_text(line_tokens(s), x, y)) == line_tokens(s).subrange(x, y),
{
    lemma_line_tokens(s);
    let t = line_tokens(s);
    let sub = t.subrange(x, y);
    assert forall|i: int| 0 <= i < sub.len() implies is_line(#[trigger] sub[i]) by {
        assert(sub[i] == t[x + i]);
    }
    assert forall|i: int| 0 <= i < sub.len() - 1 implies is_full_line(#[trigger] sub[i]) by {
        assert(sub[i] == t[x + i]);
        assert(is_line(t[x + i]));
    }
    lemma_line_tokens_of_lines(sub);
}

/// The text of a range of the word tokens of `s` splits back into them.
proof fn lemma_word_run(s: Seq<char>, x: int, y: int)
    requires
        0 <= x <= y <= word_tokens(s).len(),
    ensures
        word_tokens(run_text(word_tokens(s), x, y)) == word_tokens(s).subrange(x, y),
{
    lemma_word_tokens(s);
    let t = word_tokens(s);
    let sub = t.subrange(x, y);
    assert forall|i: int| 0 <= i < sub.len() implies is_class_run(#[trigger] sub[i]) by {
        assert(sub[i] == t[x + i]);
    }
    assert forall|i: int| 0 <= i < sub.len() - 1 implies word_char(#[trigger] sub[i][0])
        != word_char(sub[i + 1][0]) by {
        assert(sub[i] == t[x + i]);
        assert(sub[i + 1] == t[x + i + 1]);
    }
    lemma_word_tokens_of_runs(sub);
}

/// The text of a range of the characters of `s` is those characters.
proof fn lemma_char_run(s: Seq<char>, x: int, y: int)
    requires
        0 <= x <= y <= s.len(),
    ensures
        run_text(char_units(s), x, y) == s.subrange(x, y),
{
    assert(char_units(s).subrange(x, y) =~= char_units(s.subrange(x, y)));
    lemma_char_units(s.subrange(x, y));
}

proof fn lemma_line_counts(cs: Seq<ChangeView>, b: Seq<char>, a: Seq<char>)
    requires
        runs_lie_in(cs, line_tokens(b), line_tokens(a)),
        runs_well_formed(cs),
    ensures
        counts_lines(cs),
{
    assert forall|i: int| 0 <= i < cs.len() implies line_tokens((#[trigger] cs[i]).value).len()
        == cs[i].count by {
        let x = before_count(cs.take(i)) as int;
        let y = after_count(cs.take(i)) as int;
        if !cs[i].added {
            lemma_line_run(b, x, x + cs[i].count);
        } else {
            lemma_line_run(a, y, y + cs[i].count);
        }
    }
}

proof fn lemma_word_counts(cs: Seq<ChangeView>, b: Seq<char>, a: Seq<char>)
    requires
        runs_lie_in(cs, word_tokens(b), word_tokens(a)),
        runs_well_formed(cs),
    ensures
        counts_words(cs),
{
    assert forall|i: int| 0 <= i < cs.len() implies word_tokens((#[trigger] cs[i]).value).len()
        == cs[i].count by {
        let x = before_count(cs.take(i)) as int;
        let y = after_count(cs.take(i)) as int;
        if !cs[i].added {
            lemma_word_run(b, x, x + cs[i].count);
        } else {
            lemma_word_run(a, y, y + cs[i].count);
        }
    }
}

proof fn lemma_char_counts(cs: Seq<ChangeView>, b: Seq<char>, a: Seq<char>)
    requires
        runs_lie_in(cs, char_units(b), char_units(a)),
        runs_well_formed(cs),
    ensures
        counts_chars(cs),
{
    assert forall|i: int| 0 <= i < cs.len() implies (#[trigger] cs[i]).value.len()
        == cs[i].count by {
        let x = before_count(cs.take(i)) as int;
        let y = after_count(cs.take(i)) as int;
        if !cs[i].added {
            lemma_char_run(b, x, x + cs[i].count);
        } else {
            lemma_char_run(a, y, y + cs[i].count);
        }
    }
}

/// Some hunk removes the token at position `j` of the first sequence.
pub open spec fn hunk_removes(hunks: Seq<Hunk>, j: int) -> bool {
    exists|k: int|
        0 <= k < hunks.len() && (#[trigger] hunks[k]).before.start <= j && j < hunks[k].before.end
}

/// Some hunk adds the token at position `j` of the second sequence.
pub open spec fn hunk_adds(hunks: Seq<Hunk>, j: int) -> bool {
    exists|k: int|
        0 <= k < hunks.len() && (#[trigger] hunks[k]).after.start <= j && j < hunks[k].after.end
}

/// The runs, read from positions `pb` and `pa` on, follow `hunks`: a run that
/// is not added is removed exactly when some hunk removes its tokens, and
/// unchanged when none does; a run that is not removed is added exactly when
/// some hunk adds its tokens.
pub open spec fn runs_follow_from(cs: Seq<ChangeView>, hunks: Seq<Hunk>, pb: int, pa: int) -> bool {
    &&& forall|i: int, j: int|
        #![trigger cs[i], hunk_removes(hunks, j)]
        0 <= i < cs.len() && !cs[i].added && pb + before_count(cs.take(i)) <= j && j < pb
            + before_count(cs.take(i)) + cs[i].count ==> (cs[i].removed <==> hunk_removes(hunks, j))
    &&& forall|i: int, j: int|
        #![trigger cs[i], hunk_adds(hunks, j)]
        0 <= i < cs.len() && !cs[i].removed && pa + after_count(cs.take(i)) <= j && j < pa
            + after_count(cs.take(i)) + cs[i].count ==> (cs[i].added <==> hunk_adds(hunks, j))
}

/// The runs follow `hunks`: every token of the first sequence that a hunk
/// removes lies in a removed run and every other one in an unchanged run;
/// every token of the second sequence that a hunk adds lies in an added run
/// and every other one in an unchanged run.
pub open spec fn runs_follow_hunks(cs: Seq<ChangeView>, hunks: Seq<Hunk>) -> bool {
    runs_follow_from(cs, hunks, 0, 0)
}

/// The hunks of an edit script lie in order, within bounds, on both sides.
proof fn lemma_script_order(hunks: Seq<Hunk>, b: Seq<Seq<char>>, a: Seq<Seq<char>>, pb: int, pa: int)
    requires
        edit_script_from(hunks, b, a, pb, pa),
    ensures
        forall|m: int|
            0 <= m < hunks.len() ==> pb <= (#[trigger] hunks[m]).before.start <= hunks[m].before.end
                <= b.len() && pa <= hunks[m].after.start <= hunks[m].after.end <= a.len(),
        forall|m: int, n: int|
            0 <= m < n < hunks.len() ==> (#[trigger] hunks[m]).before.end <= (
            #[trigger] hunks[n]).before.start && hunks[m].after.end <= hunks[n].after.start,
    decreases hunks.len(),
{
    if hunks.len() > 0 {
        let rest = hunks.drop_first();
        lemma_script_order(rest, b, a, hunks[0].before.end as int, hunks[0].after.end as int);
        assert forall|m: int| 0 <= m < hunks.len() implies pb <= (#[trigger] hunks[m]).before.start
            <= hunks[m].before.end <= b.len() && pa <= hunks[m].after.start <= hunks[m].after.end
            <= a.len() by {
            if m > 0 {
                assert(hunks[m] == rest[m - 1]);
            }
        }
        assert forall|m: int, n: int| 0 <= m < n < hunks.len() implies (
        #[trigger] hunks[m]).before.end <= (#[trigger] hunks[n]).before.start && hunks[m].after.end
            <= hunks[n].after.start by {
            assert(hunks[n] == rest[n - 1]);
            if m > 0 {
                assert(hunks[m] == rest[m - 1]);
            }
        }
    }
}

proof fn lemma_follow_concat(x: Seq<ChangeView>, y: Seq<ChangeView>, hunks: Seq<Hunk>, pb: int, pa: int)
    requires
        runs_follow_from(x, hunks, pb, pa),
        runs_follow_from(y, hunks, pb + before_count(x), pa + after_count(x)),
    ensures
        runs_follow_from(x + y, hunks, pb, pa),
{
    let z = x + y;
    assert forall|i: int, j: int|
        0 <= i < z.len() && !(#[trigger] z[i]).added && pb + before_count(z.take(i)) <= j && j < pb
            + before_count(z.take(i)) + z[i].count implies (z[i].removed <==> #[trigger] hunk_removes(
        hunks,
        j,
    )) by {
        if i < x.len() {
            assert(z.take(i) =~= x.take(i));
            assert(z[i] == x[i]);
        } else {
            let k = i - x.len();
            assert(z.take(i) =~= x + y.take(k));
            assert(z[i] == y[k]);
            lemma_sides_concat(x, y.take(k));
        }
    }
    assert forall|i: int, j: int|
        0 <= i < z.len() && !(#[trigger] z[i]).removed && pa + after_count(z.take(i)) <= j && j < pa
            + after_count(z.take(i)) + z[i].count implies (z[i].added <==> #[trigger] hunk_adds(
        hunks,
        j,
    )) by {
        if i < x.len() {
            assert(z.take(i) =~= x.take(i));
            assert(z[i] == x[i]);
        } else {
            let k = i - x.len();
            assert(z.take(i) =~= x + y.take(k));
            assert(z[i] == y[k]);
            lemma_sides_concat(x, y.take(k));
        }
    }
}

proof fn lemma_follow_one(c: ChangeView, hunks: Seq<Hunk>, p: int, q: int)
    requires
        !c.added ==> forall|j: int| p <= j < p + c.count ==> (c.removed <==> #[trigger] hunk_removes(hunks, j)),
        !c.removed ==> forall|j: int| q <= j < q + c.count ==> (c.added <==> #[trigger] hunk_adds(hunks, j)),
    ensures
        runs_follow_from(seq![c], hunks, p, q),
{
    lemma_empty_runs();
    assert(seq![c].take(0) =~= Seq::<ChangeView>::empty());
    assert(seq![c][0] == c);
}

/// The runs made from the hunks `hunks[k..]` of an edit script, read from the
/// end `pb`, `pa` of the earlier hunks, follow all the hunks.
proof fn lemma_changes_from_follow(
    hunks: Seq<Hunk>,
    k: int,
    b: Seq<Seq<char>>,
    a: Seq<Seq<char>>,
    pb: int,
    pa: int,
)
    requires
        is_edit_script(hunks, b, a),
        0 <= k <= hunks.len(),
        edit_script_from(hunks.skip(k), b, a, pb, pa),
        forall|m: int| 0 <= m < k ==> (#[trigger] hunks[m]).before.end <= pb && hunks[m].after.end <= pa,
    ensures
        runs_follow_from(changes_from(hunks.skip(k), b, a, pb), hunks, pb, pa),
    decreases hunks.len() - k,
{
    lemma_script_order(hunks, b, a, 0, 0);
    lemma_empty_runs();
    let s = hunks.skip(k);
    if k == hunks.len() {
        assert(s =~= Seq::<Hunk>::empty());
        if pb < b.len() {
            let c = unchanged_run(run_text(b, pb, b.len() as int), (b.len() - pb) as nat);
            assert(b.skip(pb).len() == a.skip(pa).len());
            assert forall|j: int| pb <= j < pb + c.count implies !#[trigger] hunk_removes(hunks, j) by {
                assert forall|m: int| 0 <= m < hunks.len() implies !((#[trigger] hunks[m]).before.start
                    <= j && j < hunks[m].before.end) by {}
            }
            assert forall|j: int| pa <= j < pa + c.count implies !#[trigger] hunk_adds(hunks, j) by {
                assert forall|m: int| 0 <= m < hunks.len() implies !((#[trigger] hunks[m]).after.start
                    <= j && j < hunks[m].after.end) by {}
            }
            lemma_follow_one(c, hunks, pb, pa);
        }
    } else {
        let h = hunks[k];
        assert(s[0] == h);
        assert(s.drop_first() =~= hunks.skip(k + 1));
        let bs = h.before.start as int;
        let be = h.before.end as int;
        let as_ = h.after.start as int;
        let ae = h.after.end as int;
        assert(b.subrange(pb, bs) == a.subrange(pa, as_));
        assert(b.subrange(pb, bs).len() == bs - pb);
        assert(a.subrange(pa, as_).len() == as_ - pa);
        lemma_changes_from_follow(hunks, k + 1, b, a, be, ae);
        let lead: Seq<ChangeView> = if bs > pb {
            seq![unchanged_run(run_text(b, pb, bs), (bs - pb) as nat)]
        } else {
            seq![]
        };
        let gone: Seq<ChangeView> = if bs < be {
            seq![removed_run(run_text(b, bs, be), (be - bs) as nat)]
        } else {
            seq![]
        };
        let new: Seq<ChangeView> = if as_ < ae {
            seq![added_run(run_text(a, as_, ae), (ae - as_) as nat)]
        } else {
            seq![]
        };
        if bs > pb {
            let c = unchanged_run(run_text(b, pb, bs), (bs - pb) as nat);
            assert forall|j: int| pb <= j < pb + c.count implies !#[trigger] hunk_removes(hunks, j) by {
                assert forall|m: int| 0 <= m < hunks.len() implies !((#[trigger] hunks[m]).before.start
                    <= j && j < hunks[m].before.end) by {
                    if m > k {
                        assert(hunks[k].before.end <= hunks[m].before.start);
                    }
                }
            }
            assert forall|j: int| pa <= j < pa + c.count implies !#[trigger] hunk_adds(hunks, j) by {
                assert forall|m: int| 0 <= m < hunks.len() implies !((#[trigger] hunks[m]).after.start
                    <= j && j < hunks[m].after.end) by {
                    if m > k {
                        assert(hunks[k].after.end <= hunks[m].after.start);
                    }
                }
            }
            lemma_follow_one(c, hunks, pb, pa);
            lemma_one_run(c);
        }
        if bs < be {
            let c = removed_run(run_text(b, bs, be), (be - bs) as nat);
            assert forall|j: int| bs <= j < bs + c.count implies #[trigger] hunk_removes(hunks, j) by {
                assert(hunks[k].before.start <= j && j < hunks[k].before.end);
            }
            lemma_follow_one(c, hunks, bs, as_);
            lemma_one_run(c);
        }
        if as_ < ae {
            let c = added_run(run_text(a, as_, ae), (ae - as_) as nat);
            assert forall|j: int| as_ <= j < as_ + c.count implies #[trigger] hunk_adds(hunks, j) by {
                assert(hunks[k].after.start <= j && j < hunks[k].after.end);
            }
            lemma_follow_one(c, hunks, be, as_);
            lemma_one_run(c);
        }
        assert(before_count(lead) == bs - pb && after_count(lead) == as_ - pa);
        assert(before_count(gone) == be - bs && after_count(gone) == 0);
        assert(before_count(new) == 0 && after_count(new) == ae - as_);
        lemma_sides_concat(lead, gone);
        lemma_sides_concat(lead + gone, new);
        lemma_follow_concat(lead, gone, hunks, pb, pa);
        lemma_follow_concat(lead + gone, new, hunks, pb, pa);
        lemma_follow_concat(lead + gone + new, changes_from(hunks.skip(k + 1), b, a, be), hunks, pb, pa);
        assert(hunk_runs(h, b, a, pb) == lead + gone + new);
        assert(changes_from(s, b, a, pb) == lead + gone + new + changes_from(
            hunks.skip(k + 1),
            b,
            a,
            be,
        ));
    }
}

/// The runs made from an edit script follow its hunks: a token that a hunk
/// removes lies in a removed run, a token that a hunk adds in an added run,
/// and every other token in an unchanged run.
pub proof fn lemma_changes_follow_hunks(hunks: Seq<Hunk>, b: Seq<Seq<char>>, a: Seq<Seq<char>>)
    requires
        is_edit_script(hunks, b, a),
    ensures
        runs_follow_hunks(changes_of(hunks, b, a), hunks),
{
    assert(hunks.skip(0) =~= hunks);
    lemma_changes_from_follow(hunks, 0, b, a, 0, 0);
}

/// A single unchanged run of all of `toks` when there is any token, and no
/// run otherwise: the result of diffing a sequence with itself.
pub open spec fn all_unchanged(toks: Seq<Seq<char>>) -> Seq<ChangeView> {
    if toks.len() > 0 {
        seq![unchanged_run(toks.flatten(), toks.len())]
    } else {
        seq![]
    }
}

proof fn lemma_no_hunks_all_unchanged(b: Seq<Seq<char>>)
    ensures
        changes_of(Seq::<Hunk>::empty(), b, b) == all_unchanged(b),
{
    assert(b.subrange(0, b.len() as int) =~= b);
}

/// Each character as a token: concatenated, they give back the characters.
proof fn lemma_char_units(s: Seq<char>)
    ensures
        char_units(s).flatten() == s,
    decreases s.len(),
{
    if s.len() > 0 {
        lemma_char_units(s.drop_first());
        assert(char_units(s).drop_first() =~= char_units(s.drop_first()));
        assert(char_units(s).first() == seq![s[0]]);
        assert(seq![s[0]] + s.drop_first() =~= s);
    } else {
        assert(char_units(s) =~= Seq::<Seq<char>>::empty());
    }
}

/// The runs of the line diff of `before` and `after`.
pub open spec fn line_changes(algorithm: Algorithm, before: Seq<char>, after: Seq<char>) -> Seq<
    ChangeView,
> {
    changes_of(
        imara_line_hunks(algorithm, line_tokens(before), line_tokens(after)),
        line_tokens(before),
        line_tokens(after),
    )
}

/// The runs of the word diff of `before` and `after`.
pub open spec fn word_changes(algorithm: Algorithm, before: Seq<char>, after: Seq<char>) -> Seq<
    ChangeView,
> {
    changes_of(
        imara_token_hunks(algorithm, word_tokens(before), word_tokens(after)),
        word_tokens(before),
        word_tokens(after),
    )
}

/// The runs of the character diff of `before` and `after`.
pub open spec fn char_changes(algorithm: Algorithm, before: Seq<char>, after: Seq<char>) -> Seq<
    ChangeView,
> {
    changes_of(
        imara_char_hunks(algorithm, before, after),
        char_units(before),
        char_units(after),
    )
}

/// Diffs `before`/`after` line by line (the newline is included in each
/// line's token, so changing the final line's trailing newline is itself a
/// change). The runs not added spell `before`, the runs not removed spell
/// `after`, each run is a whole range of lines and its `count` their number;
/// equal texts give one unchanged run (none when empty).
pub fn line_diff<'a>(before: &'a str, after: &'a str, algorithm: Algorithm) -> (r: Vec<Change<'a>>)
    requires
        line_tokens(before@).len() < i32::MAX,
        line_tokens(after@).len() < i32::MAX,
    ensures
        change_views(r@) == line_changes(algorithm, before@, after@),
        before_side(change_views(r@)) == before@,
        after_side(change_views(r@)) == after@,
        before_count(change_views(r@)) == line_tokens(before@).len(),
        after_count(change_views(r@)) == line_tokens(after@).len(),
        before@ == after@ ==> change_views(r@) == all_unchanged(line_tokens(before@)),
        runs_well_formed(change_views(r@)),
        runs_alternate(change_views(r@)),
        before@.len() == 0 && after@.len() > 0 ==> change_views(r@) == seq![
            added_run(after@, line_tokens(after@).len()),
        ],
        after@.len() == 0 && before@.len() > 0 ==> change_views(r@) == seq![
            removed_run(before@, line_tokens(before@).len()),
        ],
        is_edit_script(imara_line_hunks(algorithm, line_tokens(before@), line_tokens(after@)), line_tokens(before@), line_tokens(after@)),
        hunks_separated(imara_line_hunks(algorithm, line_tokens(before@), line_tokens(after@))),
        runs_lie_in(change_views(r@), line_tokens(before@), line_tokens(after@)),
        counts_lines(change_views(r@)),
        change_views(r@) == changes_of(imara_line_hunks(algorithm, line_tokens(before@), line_tokens(after@)), line_tokens(before@), line_tokens(after@)),
        runs_follow_hunks(change_views(r@), imara_line_hunks(algorithm, line_tokens(before@), line_tokens(after@))),
{
    let before_lines = split_lines(before);
    let after_lines = split_lines(after);
    let hunks = diff_line_tokens(algorithm, &before_lines, &after_lines);
    proof {
        lemma_line_tokens(before@);
        lemma_line_tokens(after@);
        assert(texts(before_lines@) =~= before_lines.deep_view());
        assert(texts(after_lines@) =~= after_lines.deep_view());
        lemma_changes_reconstruct(hunks@, line_tokens(before@), line_tokens(after@));
        lemma_changes_well_formed(hunks@, line_tokens(before@), line_tokens(after@));
        lemma_changes_from_alternate(hunks@, line_tokens(before@), line_tokens(after@), 0, 0);
        lemma_one_side_empty(hunks@, line_tokens(before@), line_tokens(after@));
        lemma_changes_lie(hunks@, line_tokens(before@), line_tokens(after@));
        lemma_changes_follow_hunks(hunks@, line_tokens(before@), line_tokens(after@));
        lemma_line_counts(changes_of(hunks@, line_tokens(before@), line_tokens(after@)), before@, after@);
        if before@ == after@ {
            lemma_no_hunks_all_unchanged(line_tokens(before@));
            assert(hunks@ =~= Seq::<Hunk>::empty());
        }
    }
    hunks_to_changes(&hunks, &before_lines, &after_lines, before, after)
}

/// Diffs `before`/`after` word by word. A word is a maximal run of
/// alphanumeric/`_` characters; the runs of other characters between words
/// are tokens of their own. The runs not added spell `before`, the runs not
/// removed spell `after`, each run is a whole range of word tokens and its
/// `count` their number; equal texts give one unchanged run (none when empty).
pub fn word_diff<'a>(before: &'a str, after: &'a str, algorithm: Algorithm) -> (r: Vec<Change<'a>>)
    requires
        word_tokens(before@).len() < i32::MAX,
        word_tokens(after@).len() < i32::MAX,
    ensures
        change_views(r@) == word_changes(algorithm, before@, after@),
        before_side(change_views(r@)) == before@,
        after_side(change_views(r@)) == after@,
        before_count(change_views(r@)) == word_tokens(before@).len(),
        after_count(change_views(r@)) == word_tokens(after@).len(),
        before@ == after@ ==> change_views(r@) == all_unchanged(word_tokens(before@)),
        runs_well_formed(change_views(r@)),
        runs_alternate(change_views(r@)),
        before@.len() == 0 && after@.len() > 0 ==> change_views(r@) == seq![
            added_run(after@, word_tokens(after@).len()),
        ],
        after@.len() == 0 && before@.len() > 0 ==> change_views(r@) == seq![
            removed_run(before@, word_tokens(before@).len()),
        ],
        is_edit_script(imara_token_hunks(algorithm, word_tokens(before@), word_tokens(after@)), word_tokens(before@), word_tokens(after@)),
        hunks_separated(imara_token_hunks(algorithm, word_tokens(before@), word_tokens(after@))),
        runs_lie_in(change_views(r@), word_tokens(before@), word_tokens(after@)),
        counts_words(change_views(r@)),
        change_views(r@) == changes_of(imara_token_hunks(algorithm, word_tokens(before@), word_tokens(after@)), word_tokens(before@), word_tokens(after@)),
        runs_follow_hunks(change_views(r@), imara_token_hunks(algorithm, word_tokens(before@), word_tokens(after@))),
{
    let before_words = WordTokenizer(before).tokens();
    let after_words = WordTokenizer(after).tokens();
    let hunks = diff_str_tokens(algorithm, &before_words, &after_words);
    proof {
        lemma_word_tokens(before@);
        lemma_word_tokens(after@);
        assert(texts(before_words@) =~= before_words.deep_view());
        assert(texts(after_words@) =~= after_words.deep_view());
        lemma_changes_reconstruct(hunks@, word_tokens(before@), word_tokens(after@));
        lemma_changes_well_formed(hunks@, word_tokens(before@), word_tokens(after@));
        lemma_changes_from_alternate(hunks@, word_tokens(before@), word_tokens(after@), 0, 0);
        lemma_one_side_empty(hunks@, word_tokens(before@), word_tokens(after@));
        lemma_changes_lie(hunks@, word_tokens(before@), word_tokens(after@));
        lemma_changes_follow_hunks(hunks@, word_tokens(before@), word_tokens(after@));
        lemma_word_counts(changes_of(hunks@, word_tokens(before@), word_tokens(after@)), before@, after@);
        if before@ == after@ {
            lemma_no_hunks_all_unchanged(word_tokens(before@));
            assert(hunks@ =~= Seq::<Hunk>::empty());
        }
    }
    hunks_to_changes(&hunks, &before_words, &after_words, before, after)
}

/// Diffs `before`/`after` character by character. The runs not added spell
/// `before`, the runs not removed spell `after`, and each run's `count` is its
/// number of characters; equal texts give one unchanged run (none when
/// empty).
pub fn char_diff<'a>(before: &'a str, after: &'a str, algorithm: Algorithm) -> (r: Vec<Change<'a>>)
    requires
        before@.len() < i32::MAX,
        after@.len() < i32::MAX,
    ensures
        change_views(r@) == char_changes(algorithm, before@, after@),
        before_side(change_views(r@)) == before@,
        after_side(change_views(r@)) == after@,
        before_count(change_views(r@)) == before@.len(),
        after_count(change_views(r@)) == after@.len(),
        before@ == after@ ==> change_views(r@) == all_unchanged(char_units(before@)),
        runs_well_formed(change_views(r@)),
        runs_alternate(change_views(r@)),
        before@.len() == 0 && after@.len() > 0 ==> change_views(r@) == seq![
            added_run(after@, after@.len()),
        ],
        after@.len() == 0 && before@.len() > 0 ==> change_views(r@) == seq![
            removed_run(before@, before@.len()),
        ],
        is_edit_script(imara_char_hunks(algorithm, before@, after@), char_units(before@), char_units(after@)),
        hunks_separated(imara_char_hunks(algorithm, before@, after@)),
        runs_lie_in(change_views(r@), char_units(before@), char_units(after@)),
        counts_chars(change_views(r@)),
        change_views(r@) == changes_of(imara_char_hunks(algorithm, before@, after@), char_units(before@), char_units(after@)),
        runs_follow_hunks(change_views(r@), imara_char_hunks(algorithm, before@, after@)),
{
    let before_chars = CharTokenizer(before).tokens();
    let after_chars = CharTokenizer(after).tokens();
    let hunks = diff_char_tokens(algorithm, &before_chars, &after_chars);
    proof {
        lemma_char_units(before@);
        lemma_char_units(after@);
        assert(texts(before_chars@) =~= char_units(before@));
        assert(texts(after_chars@) =~= char_units(after@));
        lemma_changes_reconstruct(hunks@, char_units(before@), char_units(after@));
        lemma_changes_well_formed(hunks@, char_units(before@), char_units(after@));
        lemma_changes_from_alternate(hunks@, char_units(before@), char_units(after@), 0, 0);
        lemma_one_side_empty(hunks@, char_units(before@), char_units(after@));
        lemma_changes_lie(hunks@, char_units(before@), char_units(after@));
        lemma_changes_follow_hunks(hunks@, char_units(before@), char_units(after@));
        lemma_char_counts(changes_of(hunks@, char_units(before@), char_units(after@)), before@, after@);
        if before@ == after@ {
            lemma_no_hunks_all_unchanged(char_units(before@));
            assert(hunks@ =~= Seq::<Hunk>::empty());
        }
    }
    hunks_to_changes(&hunks, &before_chars, &after_chars, before, after)
}

/// Renders a unified diff (`git diff`/`diff -u` style patch text) of the
/// line diff of `before`/`after`, with three lines of context. Equal texts
/// give the empty patch, different texts a patch that starts with a hunk
/// header; where both texts are empty or end with a newline, the patch's
/// lines that begin with `-` are the lines of the removed runs of
/// [`line_diff`], in order, and those that begin with `+` the lines of its
/// added runs.
pub fn unified_diff(before: &str, after: &str, algorithm: Algorithm) -> (r: String)
    requires
        line_tokens(before@).len() < i32::MAX,
        line_tokens(after@).len() < i32::MAX,
    ensures
        r@ == imara_unified_diff(algorithm, before@, after@),
        before@ == after@ ==> r@.len() == 0,
        before@ != after@ ==> r@.len() >= 4 && r@.take(4) == seq!['@', '@', ' ', '-'],
        ends_in_newline(before@) && ends_in_newline(after@) ==> marked_lines(r@, '-') == prefixed(
            '-',
            removed_lines(line_changes(algorithm, before@, after@)),
        ) && marked_lines(r@, '+') == prefixed('+', added_lines(line_changes(algorithm, before@, after@))),
{
    let (text, hunks) = render_unified_diff(before, after, algorithm);
    proof {
        if ends_in_newline(before@) && ends_in_newline(after@) {
            lemma_line_tokens_full(before@);
            lemma_line_tokens_full(after@);
            lemma_changes_from_lines(hunks@, line_tokens(before@), line_tokens(after@), 0, 0);
        }
    }
    text
}

} // verus!
