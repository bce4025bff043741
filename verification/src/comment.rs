//! Comment detection and the toggle operation.
//!
//! A block of lines is commented when every non-blank line carries the
//! comment token at its own first non-whitespace column. Toggling either
//! inserts `token + " "` at the block's minimum indentation column of every
//! non-blank line, or deletes `token.len() + 1` characters there.

use vstd::prelude::*;

use crate::buffer::Buffer;
use crate::buffer::blank;
use crate::buffer::first_non_ws;
use crate::buffer::flat_len;
use crate::buffer::is_ws;
use crate::buffer::lemma_blank_chars;
use crate::buffer::lemma_first_non_ws;
use crate::buffer::lemma_first_non_ws_at;
use crate::buffer::lemma_line_of_mono;
use crate::buffer::lemma_prefix_len_mono;
use crate::buffer::line_of;
use crate::buffer::prefix_len;
use crate::transaction::Edit;
use crate::transaction::State;
use crate::transaction::Transaction;
use crate::transaction::edit_view;

verus! {

/// End of the token-length fragment at column `p` of a line of length `len`,
/// clamped so a short line never reaches past its own end.
pub open spec fn clamped_end(p: int, tl: int, len: int) -> int {
    if p + tl <= len {
        p + tl
    } else {
        len
    }
}

/// A line carries the comment token at its first non-whitespace column: the
/// token-length fragment there (length-clamped) is exactly the token.
pub open spec fn line_commented(l: Seq<char>, tok: Seq<char>) -> bool {
    l.subrange(
        first_non_ws(l),
        clamped_end(first_non_ws(l), tok.len() as int, l.len() as int),
    ) == tok
}

/// A commented non-blank line is long enough to hold the whole token at its
/// first non-whitespace column.
pub proof fn lemma_line_commented_fits(l: Seq<char>, tok: Seq<char>)
    requires
        line_commented(l, tok),
        !blank(l),
    ensures
        first_non_ws(l) + tok.len() <= l.len(),
        l.subrange(first_non_ws(l), first_non_ws(l) + tok.len()) == tok,
{
    lemma_first_non_ws(l);
}

/// A line range is commented when every non-blank line in it carries the
/// token; blank lines never count.
pub open spec fn range_commented(lines: Seq<Seq<char>>, s: int, e: int, tok: Seq<char>) -> bool {
    forall|i: int| s <= i < e ==> blank(#[trigger] lines[i]) || line_commented(lines[i], tok)
}

/// Every line of the range is blank.
pub open spec fn all_blank(lines: Seq<Seq<char>>, s: int, e: int) -> bool {
    forall|i: int| s <= i < e ==> blank(#[trigger] lines[i])
}

/// The smallest first non-whitespace column among the non-blank lines of the
/// range, or the sentinel maximum when every line is blank.
pub open spec fn range_min(lines: Seq<Seq<char>>, s: int, e: int) -> int
    decreases e - s,
{
    if s >= e {
        usize::MAX as int
    } else {
        let rest = range_min(lines, s, e - 1);
        if blank(lines[e - 1]) {
            rest
        } else if first_non_ws(lines[e - 1]) < rest {
            first_non_ws(lines[e - 1])
        } else {
            rest
        }
    }
}

/// The blank lines of the range, in increasing order.
pub open spec fn blank_lines_in(lines: Seq<Seq<char>>, s: int, e: int) -> Seq<usize>
    decreases e - s,
{
    if s >= e {
        Seq::empty()
    } else {
        blank_lines_in(lines, s, e - 1) + if blank(lines[e - 1]) {
            seq![(e - 1) as usize]
        } else {
            Seq::empty()
        }
    }
}

/// The minimum indentation bounds every non-blank line's own column.
pub proof fn lemma_range_min_le(lines: Seq<Seq<char>>, s: int, e: int, i: int)
    requires
        s <= i < e,
        !blank(lines[i]),
    ensures
        range_min(lines, s, e) <= first_non_ws(lines[i]),
    decreases e - s,
{
    if i < e - 1 {
        lemma_range_min_le(lines, s, e - 1, i);
    }
}

/// The minimum indentation of a range with a non-blank line is some line's
/// own first non-whitespace column.
pub proof fn lemma_range_min_witness(lines: Seq<Seq<char>>, s: int, e: int)
    requires
        !all_blank(lines, s, e),
        forall|i: int|
            s <= i < e && !blank(#[trigger] lines[i]) ==> first_non_ws(lines[i]) < usize::MAX,
    ensures
        exists|i: int|
            s <= i < e && !blank(#[trigger] lines[i]) && range_min(lines, s, e) == first_non_ws(
                lines[i],
            ),
    decreases e - s,
{
    if s < e {
        if !blank(lines[e - 1]) && first_non_ws(lines[e - 1]) < range_min(lines, s, e - 1) {
            assert(!blank(lines[e - 1]) && range_min(lines, s, e) == first_non_ws(lines[e - 1]));
        } else if !all_blank(lines, s, e - 1) {
            lemma_range_min_witness(lines, s, e - 1);
            let i = choose|i: int|
                s <= i < e - 1 && !blank(#[trigger] lines[i]) && range_min(lines, s, e - 1)
                    == first_non_ws(lines[i]);
            if blank(lines[e - 1]) || first_non_ws(lines[e - 1]) >= range_min(lines, s, e - 1) {
                assert(!blank(lines[i]) && range_min(lines, s, e) == first_non_ws(lines[i]));
            }
        } else {
            assert(!blank(lines[e - 1]));
            assert(range_min(lines, s, e - 1) == usize::MAX as int) by {
                lemma_range_min_blank(lines, s, e - 1);
            }
            lemma_first_non_ws(lines[e - 1]);
            assert(first_non_ws(lines[e - 1]) < usize::MAX);
            assert(range_min(lines, s, e) == first_non_ws(lines[e - 1]));
        }
    }
}

/// An all-blank range keeps the sentinel minimum.
pub proof fn lemma_range_min_blank(lines: Seq<Seq<char>>, s: int, e: int)
    requires
        all_blank(lines, s, e),
    ensures
        range_min(lines, s, e) == usize::MAX as int,
    decreases e - s,
{
    if s < e {
        lemma_range_min_blank(lines, s, e - 1);
    }
}

/// Membership in the blank-line list is exactly blankness, for lines of the
/// range.
pub proof fn lemma_blank_lines_contains(lines: Seq<Seq<char>>, s: int, e: int, i: int)
    requires
        0 <= s <= e <= usize::MAX,
        s <= i < e,
    ensures
        blank_lines_in(lines, s, e).contains(i as usize) <==> blank(lines[i]),
    decreases e - s,
{
    lemma_blank_lines_range(lines, s, e);
    if i < e - 1 {
        lemma_blank_lines_contains(lines, s, e - 1, i);
        let rest = blank_lines_in(lines, s, e - 1);
        let tail: Seq<usize> = if blank(lines[e - 1]) {
            seq![(e - 1) as usize]
        } else {
            Seq::empty()
        };
        if rest.contains(i as usize) {
            let k = choose|k: int| 0 <= k < rest.len() && rest[k] == i as usize;
            assert((rest + tail)[k] == i as usize);
        }
        if (rest + tail).contains(i as usize) && !blank(lines[i]) {
            let k = choose|k: int| 0 <= k < (rest + tail).len() && (rest + tail)[k] == i as usize;
            if k < rest.len() {
                assert(rest[k] == i as usize);
            }
        }
    } else {
        let rest = blank_lines_in(lines, s, e - 1);
        lemma_blank_lines_range(lines, s, e - 1);
        if blank(lines[i]) {
            let whole = rest + seq![(e - 1) as usize];
            assert(whole[whole.len() - 1] == i as usize);
        } else {
            if blank_lines_in(lines, s, e).contains(i as usize) {
                let k = choose|k: int|
                    0 <= k < blank_lines_in(lines, s, e).len() && blank_lines_in(lines, s, e)[k]
                        == i as usize;
                assert(rest[k] == i as usize);
                assert(rest.contains(i as usize));
            }
        }
    }
}

/// Every entry of the blank-line list lies in the range.
pub proof fn lemma_blank_lines_range(lines: Seq<Seq<char>>, s: int, e: int)
    requires
        0 <= s,
        e <= usize::MAX,
    ensures
        forall|k: int|
            0 <= k < blank_lines_in(lines, s, e).len() ==> s <= #[trigger] blank_lines_in(
                lines,
                s,
                e,
            )[k] < e,
    decreases e - s,
{
    if s < e {
        lemma_blank_lines_range(lines, s, e - 1);
        let rest = blank_lines_in(lines, s, e - 1);
        assert forall|k: int|
            0 <= k < blank_lines_in(lines, s, e).len() implies s <= #[trigger] blank_lines_in(
            lines,
            s,
            e,
        )[k] < e by {
            if k < rest.len() {
                assert(blank_lines_in(lines, s, e)[k] == rest[k]);
            } else {
                assert(blank(lines[e - 1]));
                assert(blank_lines_in(lines, s, e)[k] == (e - 1) as usize);
            }
        }
    }
}

/// The text commenting a line inserts: the token followed by one space.
pub open spec fn comment_text(tok: Seq<char>) -> Seq<char> {
    tok + seq![' ']
}

/// The edit (if any) that toggling contributes for line `i`: none for a blank
/// line; otherwise an insertion of `token + " "` at column `m` when the block
/// is uncommented, or a deletion of `token.len() + 1` characters there when
/// it is commented.
pub open spec fn line_edit(lines: Seq<Seq<char>>, i: int, tok: Seq<char>, m: int, c: bool) -> Seq<
    (int, int, Option<Seq<char>>),
> {
    if blank(lines[i]) {
        Seq::empty()
    } else {
        let pos = prefix_len(lines, i) + m;
        if !c {
            seq![(pos, pos, Some(comment_text(tok)))]
        } else {
            seq![(pos, pos + tok.len() + 1, None::<Seq<char>>)]
        }
    }
}

/// The edits toggling contributes for the line range `[s, e)`, in line order,
/// with the block's minimum indentation `m` and comment state `c` fixed.
pub open spec fn range_edits(
    lines: Seq<Seq<char>>,
    s: int,
    e: int,
    tok: Seq<char>,
    m: int,
    c: bool,
) -> Seq<(int, int, Option<Seq<char>>)>
    decreases e - s,
{
    if s >= e {
        Seq::empty()
    } else {
        range_edits(lines, s, e - 1, tok, m, c) + line_edit(lines, e - 1, tok, m, c)
    }
}

/// First line of the line span a selected region covers.
pub open spec fn sel_line_start(lines: Seq<Seq<char>>, r: (int, int)) -> int {
    line_of(
        lines,
        if r.0 <= r.1 {
            r.0
        } else {
            r.1
        },
    )
}

/// Last line (inclusive) of the line span a selected region covers.
pub open spec fn sel_line_end(lines: Seq<Seq<char>>, r: (int, int)) -> int {
    line_of(
        lines,
        if r.0 <= r.1 {
            r.1
        } else {
            r.0
        },
    )
}

/// The edits toggling contributes for one selected region: its own detection
/// result applied to its own line span.
pub open spec fn range_toggle_edits(lines: Seq<Seq<char>>, r: (int, int), tok: Seq<char>) -> Seq<
    (int, int, Option<Seq<char>>),
> {
    let s = sel_line_start(lines, r);
    let e = sel_line_end(lines, r) + 1;
    range_edits(lines, s, e, tok, range_min(lines, s, e), range_commented(lines, s, e, tok))
}

/// The whole transaction's edits: each selected region's edits in turn,
/// concatenated in selection order.
pub open spec fn toggle_edits(
    lines: Seq<Seq<char>>,
    ranges: Seq<(int, int)>,
    tok: Seq<char>,
) -> Seq<(int, int, Option<Seq<char>>)>
    decreases ranges.len(),
{
    if ranges.len() == 0 {
        Seq::empty()
    } else {
        toggle_edits(lines, ranges.drop_last(), tok) + range_toggle_edits(
            lines,
            ranges.last(),
            tok,
        )
    }
}

/// Whether a character counts as whitespace.
fn is_ws_exec(c: char) -> (b: bool)
    ensures
        b == is_ws(c),
{
    c == ' ' || c == '\t' || c == '\r' || c == '\n'
}

/// The characters of a string slice.
fn str_chars(s: &str) -> (r: Vec<char>)
    ensures
        r@ == s@,
{
    let n = s.unicode_len();
    let mut r: Vec<char> = Vec::new();
    let mut i: usize = 0;
    while i < n
        invariant
            i <= n,
            n == s@.len(),
            r@ == s@.take(i as int),
        decreases n - i,
    {
        r.push(s.get_char(i));
        i = i + 1;
        proof {
            assert(s@.take(i as int) =~= s@.take(i as int - 1).push(s@[i as int - 1]));
        }
    }
    proof {
        assert(s@.take(n as int) =~= s@);
    }
    r
}

/// Column of the first non-whitespace character of a line, or none when the
/// line is blank.
fn line_first_non_ws(l: &Vec<char>) -> (r: Option<usize>)
    ensures
        match r {
            Some(p) => p as int == first_non_ws(l@) && !blank(l@),
            None => blank(l@),
        },
{
    let n = l.len();
    let mut i: usize = 0;
    while i < n
        invariant
            i <= n,
            n == l@.len(),
            forall|j: int| 0 <= j < i ==> is_ws(l@[j]),
        decreases n - i,
    {
        if !is_ws_exec(l[i]) {
            proof {
                lemma_first_non_ws_at(l@, i as int);
            }
            return Some(i);
        }
        i = i + 1;
    }
    proof {
        lemma_blank_chars(l@);
    }
    None
}

/// Whether the token-length fragment of the line at column `pos`
/// (length-clamped) is exactly the token.
fn fragment_matches(l: &Vec<char>, pos: usize, tok: &Vec<char>) -> (b: bool)
    requires
        pos <= l@.len(),
    ensures
        b == (l@.subrange(
            pos as int,
            clamped_end(pos as int, tok@.len() as int, l@.len() as int),
        ) == tok@),
{
    let len = l.len();
    let tl = tok.len();
    if len - pos < tl {
        proof {
            assert(l@.subrange(pos as int, len as int).len() == len - pos);
        }
        return false;
    }
    let mut j: usize = 0;
    while j < tl
        invariant
            j <= tl,
            tl == tok@.len(),
            len == l@.len(),
            pos + tl <= len,
            forall|q: int| 0 <= q < j ==> l@[pos + q] == tok@[q],
        decreases tl - j,
    {
        if l[pos + j] != tok[j] {
            proof {
                assert(l@.subrange(pos as int, pos + tl)[j as int] == l@[pos + j]);
            }
            return false;
        }
        j = j + 1;
    }
    proof {
        assert(l@.subrange(pos as int, pos + tl) =~= tok@);
    }
    true
}

/// Whether the skipped-line list holds a given line index.
fn contains_line(v: &Vec<usize>, x: usize) -> (b: bool)
    ensures
        b == v@.contains(x),
{
    let n = v.len();
    let mut i: usize = 0;
    while i < n
        invariant
            i <= n,
            n == v@.len(),
            forall|j: int| 0 <= j < i ==> v@[j] != x,
        decreases n - i,
    {
        if v[i] == x {
            return true;
        }
        i = i + 1;
    }
    false
}

/// Classify the line range `[line_start, line_end)`: whether every non-blank
/// line is commented with `token`, which lines are blank and are to be
/// skipped, and the minimum first non-whitespace column (the sentinel maximum
/// when every line is blank).
pub fn find_line_comment(token: &str, text: &Buffer, line_start: usize, line_end: usize) -> (r: (
    bool,
    Vec<usize>,
    usize,
))
    requires
        line_start <= line_end,
        line_end <= text@.len(),
    ensures
        r.0 == range_commented(text@, line_start as int, line_end as int, token@),
        r.1@ == blank_lines_in(text@, line_start as int, line_end as int),
        r.2 as int == range_min(text@, line_start as int, line_end as int),
{
    let tok = str_chars(token);
    let mut commented = true;
    let mut skipped: Vec<usize> = Vec::new();
    let mut min_indent: usize = usize::MAX;
    let mut line = line_start;
    while line < line_end
        invariant
            line_start <= line <= line_end <= text@.len(),
            tok@ == token@,
            commented == range_commented(text@, line_start as int, line as int, token@),
            skipped@ == blank_lines_in(text@, line_start as int, line as int),
            min_indent as int == range_min(text@, line_start as int, line as int),
        decreases line_end - line,
    {
        let l = &text.lines[line];
        let ghost lv = text@[line as int];
        match line_first_non_ws(l) {
            Some(pos) => {
                proof {
                    lemma_first_non_ws(lv);
                }
                if pos < min_indent {
                    min_indent = pos;
                }
                let is_match = fragment_matches(l, pos, &tok);
                if !is_match {
                    commented = false;
                }
                proof {
                    assert(blank_lines_in(text@, line_start as int, line as int + 1) =~= skipped@);
                }
            },
            None => {
                skipped.push(line);
                proof {
                    assert(blank_lines_in(text@, line_start as int, line as int + 1) =~= skipped@);
                }
            },
        }
        proof {
            let ls = line_start as int;
            let li = line as int;
            assert(range_commented(text@, ls, li + 1, token@) == (range_commented(
                text@,
                ls,
                li,
                token@,
            ) && (blank(text@[li]) || line_commented(text@[li], token@)))) by {
                if range_commented(text@, ls, li, token@) && (blank(text@[li]) || line_commented(
                    text@[li],
                    token@,
                )) {
                    assert forall|i: int| ls <= i < li + 1 implies blank(#[trigger] text@[i])
                        || line_commented(text@[i], token@) by {}
                }
            }
        }
        line = line + 1;
    }
    (commented, skipped, min_indent)
}

/// Toggle line comments under every selected region of the state, producing
/// one atomic transaction.
///
/// Each region is handled independently: its character bounds are widened to
/// whole lines, the line block is classified by [`find_line_comment`], and
/// every non-blank line of the block contributes exactly one edit — an
/// insertion of `token + " "` at the block's minimum indentation column when
/// the block is uncommented, or a deletion of `token.len() + 1` characters
/// there when it is commented. Blank lines are left untouched; a region whose
/// lines are all blank contributes no edits at all, so its sentinel minimum
/// column never reaches an edit position.
pub fn toggle_line_comments(state: &State, token: &str) -> (t: Transaction)
    requires
        state.doc.wf(),
        flat_len(state.doc@) < usize::MAX,
        token@.len() >= 1,
        forall|k: int|
            0 <= k < state.selection@.len() ==> 0 <= (#[trigger] state.selection@[k]).0 <= flat_len(
                state.doc@,
            ) && 0 <= state.selection@[k].1 <= flat_len(state.doc@),
    ensures
        t@ == toggle_edits(state.doc@, state.selection@, token@),
{
    let text = &state.doc;
    let mut changes: Vec<Edit> = Vec::new();
    let tok = str_chars(token);
    let mut tok_space = str_chars(token);
    tok_space.push(' ');
    let tl = tok.len();
    let rn = state.selection.ranges.len();
    let mut ri: usize = 0;
    proof {
        assert(state.selection@.take(0) =~= Seq::<(int, int)>::empty());
    }
    while ri < rn
        invariant
            ri <= rn,
            rn == state.selection@.len(),
            state.doc.wf(),
            flat_len(state.doc@) < usize::MAX,
            token@.len() >= 1,
            forall|k: int|
                0 <= k < state.selection@.len() ==> 0 <= (#[trigger] state.selection@[k]).0
                    <= flat_len(state.doc@) && 0 <= state.selection@[k].1 <= flat_len(state.doc@),
            text == &state.doc,
            tok@ == token@,
            tok_space@ == comment_text(token@),
            tl == token@.len(),
            changes@.map_values(|ed: Edit| edit_view(ed)) == toggle_edits(
                state.doc@,
                state.selection@.take(ri as int),
                token@,
            ),
        decreases rn - ri,
    {
        proof {
            assert(state.selection@[ri as int] == (
                state.selection.ranges@[ri as int].anchor as int,
                state.selection.ranges@[ri as int].head as int,
            ));
            assert(0 <= (state.selection@[ri as int]).0 <= flat_len(state.doc@));
            assert(0 <= (state.selection@[ri as int]).1 <= flat_len(state.doc@));
        }
        let sel = &state.selection.ranges[ri];
        let sel_from = sel.from();
        let sel_to = sel.to();
        let n_lines = text.lines.len();
        let start = text.char_to_line(sel_from);
        let end = text.char_to_line(sel_to);
        proof {
            assert(end < n_lines);
        }
        proof {
            lemma_line_of_mono(text@, sel_from as int, sel_to as int);
            assert(start as int == sel_line_start(text@, state.selection@[ri as int]));
            assert(end as int == sel_line_end(text@, state.selection@[ri as int]));
        }
        let stop = end + 1;
        let (commented, skipped, min_indent) = find_line_comment(token, text, start, stop);
        let ghost s = start as int;
        let ghost e = end as int + 1;
        let ghost m = range_min(text@, s, e);
        let ghost c = range_commented(text@, s, e, token@);
        let mut line = start;
        proof {
            assert(range_edits(text@, s, s, token@, m, c) =~= Seq::<(
                int,
                int,
                Option<Seq<char>>,
            )>::empty());
        }
        while line < stop
            invariant
                start <= line <= stop,
                stop == end + 1,
                end < text@.len(),
                state.doc.wf(),
                flat_len(state.doc@) < usize::MAX,
                text == &state.doc,
                tok@ == token@,
                tok_space@ == comment_text(token@),
                tl == token@.len(),
                s == start as int,
                e == end as int + 1,
                m == range_min(text@, s, e),
                c == range_commented(text@, s, e, token@),
                commented == c,
                skipped@ == blank_lines_in(text@, s, e),
                min_indent as int == m,
                changes@.map_values(|ed: Edit| edit_view(ed)) == toggle_edits(
                    state.doc@,
                    state.selection@.take(ri as int),
                    token@,
                ) + range_edits(text@, s, line as int, token@, m, c),
            decreases end + 1 - line,
        {
            let ghost old_changes = changes@.map_values(|ed: Edit| edit_view(ed));
            let skip_this = contains_line(&skipped, line);
            proof {
                lemma_blank_lines_contains(text@, s, e, line as int);
            }
            if !skip_this {
                proof {
                    lemma_range_min_le(text@, s, e, line as int);
                    lemma_first_non_ws(text@[line as int]);
                    lemma_prefix_len_mono(text@, line as int + 1, text@.len() as int);
                }
                let pos = text.line_to_char(line) + min_indent;
                if !commented {
                    changes.push(Edit { start: pos, end: pos, insert: Some(tok_space.clone()) });
                } else {
                    proof {
                        assert(blank(text@[line as int]) || line_commented(
                            text@[line as int],
                            token@,
                        ));
                        lemma_line_commented_fits(text@[line as int], token@);
                    }
                    changes.push(Edit { start: pos, end: pos + tl + 1, insert: None });
                }
                proof {
                    assert(changes@.map_values(|ed: Edit| edit_view(ed)) =~= old_changes.push(
                        edit_view(changes@.last()),
                    ));
                }
            }
            line = line + 1;
            proof {
                assert(changes@.map_values(|ed: Edit| edit_view(ed)) =~= toggle_edits(
                    state.doc@,
                    state.selection@.take(ri as int),
                    token@,
                ) + range_edits(text@, s, line as int, token@, m, c));
            }
        }
        ri = ri + 1;
        proof {
            let taken = state.selection@.take(ri as int);
            assert(taken.drop_last() =~= state.selection@.take(ri as int - 1));
            assert(taken.last() == state.selection@[ri as int - 1]);
            assert(changes@.map_values(|ed: Edit| edit_view(ed)) =~= toggle_edits(
                state.doc@,
                taken,
                token@,
            ));
        }
    }
    proof {
        assert(state.selection@.take(rn as int) =~= state.selection@);
    }
    Transaction { edits: changes }
}

} // verus!
