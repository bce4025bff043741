//! The laws of toggling: what one toggle does to the lines of a range, that
//! blank lines are never touched, the shape and column of every emitted
//! edit, and that toggling an uncommented block twice restores it exactly.

use vstd::prelude::*;

use crate::buffer::blank;
use crate::buffer::first_non_ws;
use crate::buffer::is_ws;
use crate::buffer::lemma_first_non_ws;
use crate::buffer::lemma_first_non_ws_at;
use crate::buffer::lemma_line_of_bounds;
use crate::buffer::lemma_line_of_mono;
use crate::buffer::lemma_prefix_len_drop_first;
use crate::buffer::lemma_prefix_len_frame;
use crate::buffer::lemma_prefix_len_mono;
use crate::buffer::prefix_len;
use crate::comment::all_blank;
use crate::comment::comment_text;
use crate::comment::lemma_range_min_le;
use crate::comment::lemma_range_min_witness;
use crate::comment::line_commented;
use crate::comment::line_edit;
use crate::comment::range_commented;
use crate::comment::range_edits;
use crate::comment::range_min;
use crate::comment::range_toggle_edits;
use crate::comment::sel_line_end;
use crate::comment::sel_line_start;
use crate::comment::toggle_edits;
use crate::transaction::apply_edit;
use crate::transaction::apply_edits;
use crate::transaction::apply_one;
use crate::transaction::edit_ins;
use crate::transaction::splice;

verus! {

/// A non-blank line after commenting: the token and one space inserted at
/// column `m`.
pub open spec fn comment_line(l: Seq<char>, m: int, tok: Seq<char>) -> Seq<char> {
    l.take(m) + comment_text(tok) + l.skip(m)
}

/// A non-blank line after uncommenting: `tok.len() + 1` characters removed
/// at column `m`.
pub open spec fn uncomment_line(l: Seq<char>, m: int, tl: int) -> Seq<char> {
    l.take(m) + l.skip(m + tl + 1)
}

/// The lines of the document after toggling the range `[s, e)` at column `m`
/// with comment state `c`: every non-blank line of the range is commented at
/// column `m` when `c` is false, or uncommented there when `c` is true; every
/// other line is untouched.
pub open spec fn toggled_lines_at(
    lines: Seq<Seq<char>>,
    s: int,
    e: int,
    tok: Seq<char>,
    m: int,
    c: bool,
) -> Seq<Seq<char>> {
    Seq::new(
        lines.len(),
        |i: int|
            if s <= i < e && !blank(lines[i]) {
                if !c {
                    comment_line(lines[i], m, tok)
                } else {
                    uncomment_line(lines[i], m, tok.len() as int)
                }
            } else {
                lines[i]
            },
    )
}

/// The lines of the document after one toggle of the line range `[s, e)`:
/// its own detection result (minimum indentation column and comment state)
/// applied to every non-blank line of the range.
pub open spec fn toggle_lines(lines: Seq<Seq<char>>, s: int, e: int, tok: Seq<char>) -> Seq<
    Seq<char>,
> {
    toggled_lines_at(
        lines,
        s,
        e,
        tok,
        range_min(lines, s, e),
        range_commented(lines, s, e, tok),
    )
}

/// Blank-line invariance: a whitespace-only line inside a toggled range is
/// never modified and contributes no edit, whatever the comment state of its
/// sibling lines.
pub proof fn lemma_blank_line_invariance(
    lines: Seq<Seq<char>>,
    s: int,
    e: int,
    tok: Seq<char>,
    m: int,
    c: bool,
    i: int,
)
    requires
        0 <= s <= e <= lines.len(),
        s <= i < e,
        blank(lines[i]),
    ensures
        toggle_lines(lines, s, e, tok)[i] == lines[i],
        range_edits(lines, s, i + 1, tok, m, c) == range_edits(lines, s, i, tok, m, c),
{
    assert(line_edit(lines, i, tok, m, c) =~= Seq::<(int, int, Option<Seq<char>>)>::empty());
    assert(range_edits(lines, s, i + 1, tok, m, c) =~= range_edits(lines, s, i, tok, m, c));
}

/// One emitted edit, described: it belongs to some non-blank line of the
/// range, at that line's start plus the range's minimum indentation column;
/// uncommenting (`c`) deletes exactly `tok.len() + 1` characters, commenting
/// inserts exactly the token followed by one space.
pub open spec fn edit_described(
    lines: Seq<Seq<char>>,
    s: int,
    e: int,
    tok: Seq<char>,
    m: int,
    c: bool,
    ed: (int, int, Option<Seq<char>>),
) -> bool {
    exists|i: int|
        s <= i < e && !blank(lines[i]) && ed.0 == #[trigger] prefix_len(lines, i) + m && (c
            ==> ed.2 is None && ed.1 == ed.0 + tok.len() + 1) && (!c ==> ed.2 == Some(
            comment_text(tok),
        ) && ed.1 == ed.0)
}

/// Column alignment and exact edit shape: every edit the toggle emits for a
/// line range is described by `edit_described` — it sits at the range's
/// shared minimum indentation column of a non-blank line, and it inserts
/// `token + " "` or deletes `tok.len() + 1` characters, nothing else.
pub proof fn lemma_edit_shape(lines: Seq<Seq<char>>, s: int, e: int, tok: Seq<char>, m: int, c: bool)
    ensures
        forall|k: int|
            0 <= k < range_edits(lines, s, e, tok, m, c).len() ==> edit_described(
                lines,
                s,
                e,
                tok,
                m,
                c,
                #[trigger] range_edits(lines, s, e, tok, m, c)[k],
            ),
    decreases e - s,
{
    if s < e {
        lemma_edit_shape(lines, s, e - 1, tok, m, c);
        let prev = range_edits(lines, s, e - 1, tok, m, c);
        let whole = range_edits(lines, s, e, tok, m, c);
        assert forall|k: int| 0 <= k < whole.len() implies edit_described(
            lines,
            s,
            e,
            tok,
            m,
            c,
            #[trigger] whole[k],
        ) by {
            if k < prev.len() {
                assert(whole[k] == prev[k]);
                assert(edit_described(lines, s, e - 1, tok, m, c, prev[k]));
                let i = choose|i: int|
                    s <= i < e - 1 && !blank(lines[i]) && prev[k].0 == #[trigger] prefix_len(
                        lines,
                        i,
                    ) + m && (c ==> prev[k].2 is None && prev[k].1 == prev[k].0 + tok.len() + 1) && (
                    !c ==> prev[k].2 == Some(comment_text(tok)) && prev[k].1 == prev[k].0);
                assert(s <= i < e && !blank(lines[i]) && whole[k].0 == prefix_len(lines, i) + m && (
                c ==> whole[k].2 is None && whole[k].1 == whole[k].0 + tok.len() + 1) && (!c
                    ==> whole[k].2 == Some(comment_text(tok)) && whole[k].1 == whole[k].0));
            } else {
                assert(!blank(lines[e - 1]));
                assert(whole[k] == line_edit(lines, e - 1, tok, m, c)[k - prev.len()]);
                assert(s <= e - 1 < e && !blank(lines[e - 1]) && whole[k].0 == prefix_len(
                    lines,
                    e - 1,
                ) + m && (c ==> whole[k].2 is None && whole[k].1 == whole[k].0 + tok.len() + 1) && (
                !c ==> whole[k].2 == Some(comment_text(tok)) && whole[k].1 == whole[k].0));
            }
        }
    }
}

/// Round trip: toggling a line range that is not commented (or is entirely
/// blank) and then toggling it again restores every line of the document
/// exactly, character for character.
///
/// The token must be non-empty and free of whitespace, and the range's lines
/// must fit in memory. A range that starts out commented is excluded: when
/// its lines are commented at differing columns, or carry no space after the
/// token, the first toggle's fixed-column, fixed-width deletion is not the
/// inverse of an insertion, and the round trip does not hold.
pub proof fn lemma_toggle_round_trip(lines: Seq<Seq<char>>, s: int, e: int, tok: Seq<char>)
    requires
        0 <= s <= e <= lines.len(),
        tok.len() >= 1,
        forall|j: int| 0 <= j < tok.len() ==> !is_ws(#[trigger] tok[j]),
        forall|i: int| s <= i < e ==> (#[trigger] lines[i]).len() <= usize::MAX,
        !range_commented(lines, s, e, tok) || all_blank(lines, s, e),
    ensures
        toggle_lines(toggle_lines(lines, s, e, tok), s, e, tok) == lines,
        !all_blank(lines, s, e) ==> range_commented(toggle_lines(lines, s, e, tok), s, e, tok)
            && range_min(toggle_lines(lines, s, e, tok), s, e) == range_min(lines, s, e),
        !all_blank(lines, s, e) ==> forall|i: int|
            s <= i < e && !blank(#[trigger] lines[i]) ==> !blank(toggle_lines(lines, s, e, tok)[i])
                && first_non_ws(toggle_lines(lines, s, e, tok)[i]) == range_min(lines, s, e)
                && toggle_lines(lines, s, e, tok)[i].len() == lines[i].len() + tok.len() + 1,
        forall|i: int|
            s <= i < e && blank(#[trigger] lines[i]) ==> toggle_lines(lines, s, e, tok)[i]
                == lines[i],
{
    let c0 = range_commented(lines, s, e, tok);
    let m = range_min(lines, s, e);
    let tl = tok.len() as int;
    let l1 = toggle_lines(lines, s, e, tok);
    if all_blank(lines, s, e) {
        assert(c0);
        assert(l1 =~~= lines);
        assert(toggle_lines(l1, s, e, tok) =~~= toggle_lines(lines, s, e, tok));
        assert(toggle_lines(lines, s, e, tok) =~~= lines);
    } else {
        assert(!c0);
        assert forall|i: int| s <= i < e && !blank(#[trigger] lines[i]) implies first_non_ws(
            lines[i],
        ) < usize::MAX by {
            lemma_first_non_ws(lines[i]);
        }
        lemma_range_min_witness(lines, s, e);
        let w = choose|i: int|
            s <= i < e && !blank(#[trigger] lines[i]) && range_min(lines, s, e) == first_non_ws(
                lines[i],
            );
        lemma_first_non_ws(lines[w]);
        assert(0 <= m < lines[w].len());
        assert forall|i: int| s <= i < e && !blank(#[trigger] lines[i]) implies first_non_ws(
            l1[i],
        ) == m && !blank(l1[i]) && line_commented(l1[i], tok) && uncomment_line(l1[i], m, tl)
            == lines[i] && l1[i].len() == lines[i].len() + tl + 1 by {
            lemma_range_min_le(lines, s, e, i);
            lemma_first_non_ws(lines[i]);
            let l = lines[i];
            let cl = comment_line(l, m, tok);
            assert(l1[i] == cl);
            assert(l.take(m).len() == m);
            assert(cl.len() == l.len() + tl + 1);
            assert forall|j: int| 0 <= j < m implies is_ws(cl[j]) by {
                assert(cl[j] == l.take(m)[j]);
                assert(cl[j] == l[j]);
            }
            assert(cl[m] == comment_text(tok)[0]);
            assert(cl[m] == tok[0]);
            lemma_first_non_ws_at(cl, m);
            assert(cl.subrange(m, m + tl) =~= tok) by {
                assert forall|q: int| 0 <= q < tl implies cl.subrange(m, m + tl)[q] == tok[q] by {
                    assert(cl[m + q] == comment_text(tok)[q]);
                }
            }
            assert(line_commented(cl, tok));
            assert(cl.take(m) =~= l.take(m));
            assert(cl.skip(m + tl + 1) =~= l.skip(m)) by {
                assert forall|q: int| 0 <= q < l.len() - m implies cl.skip(m + tl + 1)[q] == l.skip(
                    m,
                )[q] by {
                    assert(cl[m + tl + 1 + q] == l.skip(m)[q]);
                }
            }
            assert(uncomment_line(cl, m, tl) =~= l.take(m) + l.skip(m));
            assert(l.take(m) + l.skip(m) =~= l);
        }
        assert(range_commented(l1, s, e, tok)) by {
            assert forall|i: int| s <= i < e implies blank(#[trigger] l1[i]) || line_commented(
                l1[i],
                tok,
            ) by {
                if blank(lines[i]) {
                    assert(l1[i] == lines[i]);
                }
            }
        }
        assert(range_min(l1, s, e) == m) by {
            assert(first_non_ws(l1[w]) == m);
            lemma_range_min_le(l1, s, e, w);
            assert forall|i: int| s <= i < e && !blank(#[trigger] l1[i]) implies first_non_ws(
                l1[i],
            ) < usize::MAX by {
                if blank(lines[i]) {
                    assert(l1[i] == lines[i]);
                } else {
                    assert(first_non_ws(l1[i]) == m);
                }
            }
            assert(!all_blank(l1, s, e)) by {
                assert(!blank(l1[w]));
            }
            lemma_range_min_witness(l1, s, e);
            let w1 = choose|i: int|
                s <= i < e && !blank(#[trigger] l1[i]) && range_min(l1, s, e) == first_non_ws(
                    l1[i],
                );
            assert(!blank(lines[w1]));
        }
        assert(toggle_lines(l1, s, e, tok) =~~= lines) by {
            assert forall|i: int| 0 <= i < lines.len() implies toggle_lines(l1, s, e, tok)[i]
                =~= lines[i] by {
                if s <= i < e && !blank(lines[i]) {
                    assert(toggle_lines(l1, s, e, tok)[i] == uncomment_line(l1[i], m, tl));
                } else if s <= i < e {
                    assert(l1[i] == lines[i]);
                    assert(blank(l1[i]));
                } else {
                    assert(l1[i] == lines[i]);
                }
            }
        }
    }
}

/// An edit lying strictly inside line `j` (by flat offsets) splices exactly
/// that line and touches no other.
pub proof fn lemma_apply_one_in_line(
    lines: Seq<Seq<char>>,
    j: int,
    start: int,
    end: int,
    ins: Seq<char>,
)
    requires
        0 <= j < lines.len(),
        prefix_len(lines, j) <= start <= end,
        end <= prefix_len(lines, j) + lines[j].len(),
        start < prefix_len(lines, j) + lines[j].len(),
    ensures
        apply_one(lines, start, end, ins) == lines.update(
            j,
            splice(
                lines[j],
                start - prefix_len(lines, j),
                end - prefix_len(lines, j),
                ins,
            ),
        ),
    decreases j,
{
    if j == 0 {
        assert(prefix_len(lines, 0) == 0);
    } else {
        assert(prefix_len(lines, 0) == 0);
        assert(prefix_len(lines, 1) == lines[0].len());
        lemma_prefix_len_mono(lines, 1, j);
        let d = lines.drop_first();
        lemma_prefix_len_drop_first(lines, j - 1);
        assert(d[j - 1] == lines[j]);
        lemma_apply_one_in_line(d, j - 1, start - lines[0].len(), end - lines[0].len(), ins);
        let spliced = splice(
            lines[j],
            start - prefix_len(lines, j),
            end - prefix_len(lines, j),
            ins,
        );
        assert(seq![lines[0]] + d.update(j - 1, spliced) =~~= lines.update(j, spliced));
    }
}

/// The edits of a range read only the lines before its end: two documents
/// that agree there get the same edits.
pub proof fn lemma_range_edits_frame(
    a: Seq<Seq<char>>,
    b: Seq<Seq<char>>,
    s: int,
    e: int,
    tok: Seq<char>,
    m: int,
    c: bool,
)
    requires
        0 <= s,
        forall|k: int| 0 <= k < e ==> (#[trigger] a[k]) == b[k],
    ensures
        range_edits(a, s, e, tok, m, c) == range_edits(b, s, e, tok, m, c),
    decreases e - s,
{
    if s < e {
        lemma_range_edits_frame(a, b, s, e - 1, tok, m, c);
        lemma_prefix_len_frame(a, b, e - 1);
        assert(a[e - 1] == b[e - 1]);
        assert(line_edit(a, e - 1, tok, m, c) == line_edit(b, e - 1, tok, m, c));
    }
}

/// An all-blank range gets no edits.
pub proof fn lemma_range_edits_all_blank(
    lines: Seq<Seq<char>>,
    s: int,
    e: int,
    tok: Seq<char>,
    m: int,
    c: bool,
)
    requires
        all_blank(lines, s, e),
    ensures
        range_edits(lines, s, e, tok, m, c) == Seq::<(int, int, Option<Seq<char>>)>::empty(),
    decreases e - s,
{
    if s < e {
        lemma_range_edits_all_blank(lines, s, e - 1, tok, m, c);
        assert(range_edits(lines, s, e, tok, m, c) =~= Seq::<(int, int, Option<Seq<char>>)>::empty());
    }
}

/// The bridge from edits to lines: applying the edits a range emits (at
/// column `m`, with comment state `c`) transforms the document exactly as
/// the line-level toggle does, provided column `m` lies inside every
/// non-blank line of the range and, when uncommenting, so does the whole
/// deleted span.
pub proof fn lemma_apply_range_edits(
    lines: Seq<Seq<char>>,
    s: int,
    e: int,
    tok: Seq<char>,
    m: int,
    c: bool,
)
    requires
        0 <= s <= e <= lines.len(),
        0 <= m,
        forall|i: int|
            s <= i < e && !blank(#[trigger] lines[i]) ==> m < lines[i].len(),
        c ==> forall|i: int|
            s <= i < e && !blank(#[trigger] lines[i]) ==> m + tok.len() + 1 <= lines[i].len(),
    ensures
        apply_edits(lines, range_edits(lines, s, e, tok, m, c)) == toggled_lines_at(
            lines,
            s,
            e,
            tok,
            m,
            c,
        ),
    decreases e - s,
{
    let tl = tok.len() as int;
    if s >= e {
        assert(toggled_lines_at(lines, s, e, tok, m, c) =~~= lines);
    } else {
        let prev_edits = range_edits(lines, s, e - 1, tok, m, c);
        let whole = range_edits(lines, s, e, tok, m, c);
        if blank(lines[e - 1]) {
            assert(whole =~= prev_edits);
            lemma_apply_range_edits(lines, s, e - 1, tok, m, c);
            assert(toggled_lines_at(lines, s, e, tok, m, c) =~~= toggled_lines_at(
                lines,
                s,
                e - 1,
                tok,
                m,
                c,
            ));
        } else {
            let ed = line_edit(lines, e - 1, tok, m, c)[0];
            assert(whole.last() == ed);
            assert(whole.drop_last() =~= prev_edits);
            let pos = prefix_len(lines, e - 1) + m;
            let b_local = if c {
                m + tl + 1
            } else {
                m
            };
            lemma_apply_one_in_line(lines, e - 1, ed.0, ed.1, edit_ins(ed));
            let spliced = splice(lines[e - 1], m, b_local, edit_ins(ed));
            let a1 = lines.update(e - 1, spliced);
            assert(apply_edit(lines, ed) == a1);
            assert(forall|i: int| 0 <= i < e - 1 ==> a1[i] == lines[i]);
            if !c {
                assert(spliced =~= comment_line(lines[e - 1], m, tok));
            } else {
                assert(spliced =~= uncomment_line(lines[e - 1], m, tl));
            }
            lemma_range_edits_frame(lines, a1, s, e - 1, tok, m, c);
            lemma_apply_range_edits(a1, s, e - 1, tok, m, c);
            assert(apply_edits(lines, whole) == apply_edits(a1, prev_edits));
            assert(toggled_lines_at(a1, s, e - 1, tok, m, c) =~~= toggled_lines_at(
                lines,
                s,
                e,
                tok,
                m,
                c,
            ));
        }
    }
}

/// Round trip at the transaction level: on a line range that is not commented
/// (or is entirely blank), applying the toggle's emitted edits and then the
/// edits a second toggle computes on the result restores the document
/// character for character.
pub proof fn lemma_toggle_edits_round_trip(lines: Seq<Seq<char>>, s: int, e: int, tok: Seq<char>)
    requires
        0 <= s <= e <= lines.len(),
        tok.len() >= 1,
        forall|j: int| 0 <= j < tok.len() ==> !is_ws(#[trigger] tok[j]),
        forall|i: int| s <= i < e ==> (#[trigger] lines[i]).len() <= usize::MAX,
        !range_commented(lines, s, e, tok) || all_blank(lines, s, e),
    ensures
        ({
            let l1 = apply_edits(
                lines,
                range_edits(
                    lines,
                    s,
                    e,
                    tok,
                    range_min(lines, s, e),
                    range_commented(lines, s, e, tok),
                ),
            );
            l1 == toggle_lines(lines, s, e, tok) && apply_edits(
                l1,
                range_edits(l1, s, e, tok, range_min(l1, s, e), range_commented(l1, s, e, tok)),
            ) == lines
        }),
{
    let m0 = range_min(lines, s, e);
    let c0 = range_commented(lines, s, e, tok);
    let tl = tok.len() as int;
    lemma_toggle_round_trip(lines, s, e, tok);
    let t1 = toggle_lines(lines, s, e, tok);
    if all_blank(lines, s, e) {
        lemma_range_edits_all_blank(lines, s, e, tok, m0, c0);
        assert(t1 =~~= lines);
        lemma_range_edits_all_blank(
            t1,
            s,
            e,
            tok,
            range_min(t1, s, e),
            range_commented(t1, s, e, tok),
        );
    } else {
        assert(!c0);
        assert forall|i: int| s <= i < e && !blank(#[trigger] lines[i]) implies m0 <= first_non_ws(
            lines[i],
        ) && first_non_ws(lines[i]) < lines[i].len() && first_non_ws(lines[i]) < usize::MAX by {
            lemma_range_min_le(lines, s, e, i);
            lemma_first_non_ws(lines[i]);
        }
        lemma_range_min_witness(lines, s, e);
        let w = choose|i: int|
            s <= i < e && !blank(#[trigger] lines[i]) && m0 == first_non_ws(lines[i]);
        lemma_first_non_ws(lines[w]);
        assert(0 <= m0);
        lemma_apply_range_edits(lines, s, e, tok, m0, false);
        assert(apply_edits(lines, range_edits(lines, s, e, tok, m0, c0)) == t1);
        // the second toggle sees a commented range with the same column
        assert(range_commented(t1, s, e, tok));
        assert(range_min(t1, s, e) == m0);
        assert forall|i: int| s <= i < e && !blank(#[trigger] t1[i]) implies m0 < t1[i].len() && m0
            + tl + 1 <= t1[i].len() by {
            if blank(lines[i]) {
                assert(t1[i] == lines[i]);
                assert(blank(t1[i]));
            } else {
                assert(t1[i].len() == lines[i].len() + tl + 1);
            }
        }
        lemma_apply_range_edits(t1, s, e, tok, m0, true);
        assert(apply_edits(t1, range_edits(t1, s, e, tok, m0, true)) == toggled_lines_at(
            t1,
            s,
            e,
            tok,
            m0,
            true,
        ));
        assert(toggled_lines_at(t1, s, e, tok, m0, true) == toggle_lines(t1, s, e, tok));
        assert(toggle_lines(t1, s, e, tok) == lines);
    }
}

/// Round trip of the whole pipeline for one selected region: the edits that
/// `toggle_line_comments` promises for the single-region selection, applied,
/// comment the region's line span; the edits a second toggle computes over
/// that same line span, applied, restore the document character for
/// character.
pub proof fn lemma_selection_round_trip(lines: Seq<Seq<char>>, r: (int, int), tok: Seq<char>)
    requires
        lines.len() >= 1,
        0 <= (if r.0 <= r.1 { r.0 } else { r.1 }),
        tok.len() >= 1,
        forall|j: int| 0 <= j < tok.len() ==> !is_ws(#[trigger] tok[j]),
        forall|i: int| 0 <= i < lines.len() ==> (#[trigger] lines[i]).len() <= usize::MAX,
        !range_commented(lines, sel_line_start(lines, r), sel_line_end(lines, r) + 1, tok)
            || all_blank(lines, sel_line_start(lines, r), sel_line_end(lines, r) + 1),
    ensures
        ({
            let s = sel_line_start(lines, r);
            let e = sel_line_end(lines, r) + 1;
            let l1 = apply_edits(lines, toggle_edits(lines, seq![r], tok));
            l1 == toggle_lines(lines, s, e, tok) && apply_edits(
                l1,
                range_edits(l1, s, e, tok, range_min(l1, s, e), range_commented(l1, s, e, tok)),
            ) == lines
        }),
{
    let s = sel_line_start(lines, r);
    let e = sel_line_end(lines, r) + 1;
    let lo = if r.0 <= r.1 {
        r.0
    } else {
        r.1
    };
    let hi = if r.0 <= r.1 {
        r.1
    } else {
        r.0
    };
    lemma_line_of_bounds(lines, lo);
    lemma_line_of_bounds(lines, hi);
    lemma_line_of_mono(lines, lo, hi);
    assert(0 <= s <= e <= lines.len());
    let one = seq![r];
    assert(one.drop_last() =~= Seq::<(int, int)>::empty());
    assert(one.last() == r);
    assert(toggle_edits(lines, one.drop_last(), tok) == Seq::<(
        int,
        int,
        Option<Seq<char>>,
    )>::empty());
    assert(toggle_edits(lines, one, tok) == toggle_edits(lines, one.drop_last(), tok)
        + range_toggle_edits(lines, one.last(), tok));
    assert(toggle_edits(lines, one, tok) =~= range_toggle_edits(lines, r, tok));
    lemma_toggle_edits_round_trip(lines, s, e, tok);
}

} // verus!
