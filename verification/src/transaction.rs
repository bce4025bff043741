//! Selections, edits, transactions, and the transaction applier.
//!
//! An edit is a pair of character offsets in the pre-edit document together
//! with optional inserted text: an insertion has equal offsets and some text,
//! a deletion has a non-empty offset span and no text. A transaction is an
//! ordered batch of such edits, all expressed against one snapshot of the
//! buffer, applied atomically.

use vstd::prelude::*;

use crate::buffer::Buffer;
use crate::buffer::flat_len;
use crate::buffer::prefix_len;

verus! {

/// One selected region: an unordered pair of character-offset bounds.
pub struct SelRange {
    pub anchor: usize,
    pub head: usize,
}

impl SelRange {
    /// The lower bound of the region.
    pub open spec fn spec_from(&self) -> int {
        if self.anchor <= self.head {
            self.anchor as int
        } else {
            self.head as int
        }
    }

    /// The upper bound of the region.
    pub open spec fn spec_to(&self) -> int {
        if self.anchor <= self.head {
            self.head as int
        } else {
            self.anchor as int
        }
    }

    pub fn from(&self) -> (r: usize)
        ensures
            r == self.spec_from(),
    {
        if self.anchor <= self.head {
            self.anchor
        } else {
            self.head
        }
    }

    pub fn to(&self) -> (r: usize)
        ensures
            r == self.spec_to(),
    {
        if self.anchor <= self.head {
            self.head
        } else {
            self.anchor
        }
    }
}

/// An ordered set of selected regions.
pub struct Selection {
    pub ranges: Vec<SelRange>,
}

impl View for Selection {
    type V = Seq<(int, int)>;

    open spec fn view(&self) -> Seq<(int, int)> {
        self.ranges@.map_values(|r: SelRange| (r.anchor as int, r.head as int))
    }
}

impl Selection {
    /// A selection of one region.
    pub fn single(anchor: usize, head: usize) -> (r: Selection)
        ensures
            r@ =~= seq![(anchor as int, head as int)],
    {
        let mut ranges: Vec<SelRange> = Vec::new();
        ranges.push(SelRange { anchor, head });
        Selection { ranges }
    }
}

/// A buffer together with the selection over it.
pub struct State {
    pub doc: Buffer,
    pub selection: Selection,
}

impl State {
    /// A fresh state: the whole selection collapsed to the document start.
    pub fn new(doc: Buffer) -> (r: State)
        ensures
            r.doc == doc,
            r.selection@ =~= seq![(0int, 0int)],
    {
        State { doc, selection: Selection::single(0, 0) }
    }
}

/// One edit in pre-edit character offsets: `insert` is `Some` text for an
/// insertion (with `start == end`) and `None` for a deletion of `[start, end)`.
pub struct Edit {
    pub start: usize,
    pub end: usize,
    pub insert: Option<Vec<char>>,
}

/// Mathematical image of an edit: offsets as integers, text as a sequence.
pub open spec fn edit_view(e: Edit) -> (int, int, Option<Seq<char>>) {
    (
        e.start as int,
        e.end as int,
        match e.insert {
            Some(t) => Some(t@),
            None => None,
        },
    )
}

/// The text an edit puts in place of the span it removes.
pub open spec fn edit_ins(e: (int, int, Option<Seq<char>>)) -> Seq<char> {
    match e.2 {
        Some(t) => t,
        None => Seq::empty(),
    }
}

/// Replace `l[a .. b]` by `ins`.
pub open spec fn splice(l: Seq<char>, a: int, b: int, ins: Seq<char>) -> Seq<char> {
    l.take(a) + ins + l.skip(b)
}

/// Apply one edit to the lines of a document. The edit must fall within a
/// single line; an edit that crosses a line boundary or lies outside the
/// document leaves it unchanged. An edit starting exactly at a line boundary
/// belongs to the line that starts there, so text inserted at a line's start
/// offset lands in that line, not at the end of the one before it.
pub open spec fn apply_one(lines: Seq<Seq<char>>, start: int, end: int, ins: Seq<char>) -> Seq<
    Seq<char>,
>
    decreases lines.len(),
{
    if lines.len() == 0 {
        lines
    } else if start < lines[0].len() || (lines.len() == 1 && start == lines[0].len()) {
        if 0 <= start && start <= end && end <= lines[0].len() {
            lines.update(0, splice(lines[0], start, end, ins))
        } else {
            lines
        }
    } else if start >= lines[0].len() {
        seq![lines[0]] + apply_one(
            lines.drop_first(),
            start - lines[0].len(),
            end - lines[0].len(),
            ins,
        )
    } else {
        lines
    }
}

pub open spec fn apply_edit(lines: Seq<Seq<char>>, e: (int, int, Option<Seq<char>>)) -> Seq<
    Seq<char>,
> {
    apply_one(lines, e.0, e.1, edit_ins(e))
}

/// Apply a batch of edits, all in pre-edit offsets: the rightmost edit is
/// applied first, so the offsets of the remaining edits stay valid.
pub open spec fn apply_edits(
    lines: Seq<Seq<char>>,
    edits: Seq<(int, int, Option<Seq<char>>)>,
) -> Seq<Seq<char>>
    decreases edits.len(),
{
    if edits.len() == 0 {
        lines
    } else {
        apply_edits(apply_edit(lines, edits.last()), edits.drop_last())
    }
}

/// Well-formed edit batch: each edit spans forward, insertions are points,
/// and the edits are ordered and disjoint.
pub open spec fn edits_wf(edits: Seq<(int, int, Option<Seq<char>>)>) -> bool {
    &&& forall|k: int| 0 <= k < edits.len() ==> 0 <= #[trigger] edits[k].0 <= edits[k].1
    &&& forall|k: int|
        0 <= k < edits.len() ==> (#[trigger] edits[k].2 is Some ==> edits[k].0 == edits[k].1)
    &&& forall|k: int| 0 <= k < edits.len() - 1 ==> #[trigger] edits[k].1 <= edits[k + 1].0
}

/// Total number of characters the batch inserts.
pub open spec fn ins_total(edits: Seq<(int, int, Option<Seq<char>>)>) -> int
    decreases edits.len(),
{
    if edits.len() == 0 {
        0
    } else {
        ins_total(edits.drop_last()) + match edits.last().2 {
            Some(t) => t.len() as int,
            None => 0,
        }
    }
}

/// Characters the batch inserts strictly before position `p`.
pub open spec fn ins_before(edits: Seq<(int, int, Option<Seq<char>>)>, p: int) -> int
    decreases edits.len(),
{
    if edits.len() == 0 {
        0
    } else {
        ins_before(edits.drop_last(), p) + match edits.last().2 {
            Some(t) => if edits.last().0 < p {
                t.len() as int
            } else {
                0
            },
            None => 0,
        }
    }
}

/// Characters the batch deletes strictly before position `p`.
pub open spec fn del_before(edits: Seq<(int, int, Option<Seq<char>>)>, p: int) -> int
    decreases edits.len(),
{
    if edits.len() == 0 {
        0
    } else {
        del_before(edits.drop_last(), p) + match edits.last().2 {
            Some(t) => 0,
            None => if edits.last().0 < p {
                (if edits.last().1 <= p {
                    edits.last().1
                } else {
                    p
                }) - edits.last().0
            } else {
                0
            },
        }
    }
}

/// Where a pre-edit position lands after the batch: shifted right by the
/// text inserted before it, left by the text deleted before it. A position
/// at an insertion point stays before the inserted text; a position inside
/// a deleted span collapses to the span's start.
pub open spec fn map_pos(edits: Seq<(int, int, Option<Seq<char>>)>, p: int) -> int {
    p + ins_before(edits, p) - del_before(edits, p)
}

pub proof fn lemma_ins_nonneg(edits: Seq<(int, int, Option<Seq<char>>)>, p: int)
    ensures
        0 <= ins_before(edits, p) <= ins_total(edits),
    decreases edits.len(),
{
    if edits.len() > 0 {
        lemma_ins_nonneg(edits.drop_last(), p);
    }
}

pub proof fn lemma_ins_total_take(edits: Seq<(int, int, Option<Seq<char>>)>, j: int)
    requires
        0 <= j <= edits.len(),
    ensures
        0 <= ins_total(edits.take(j)) <= ins_total(edits),
    decreases edits.len() - j,
{
    if j == edits.len() {
        assert(edits.take(j) =~= edits);
        lemma_ins_nonneg(edits.take(j), 0);
    } else {
        lemma_ins_total_take(edits, j + 1);
        assert(edits.take(j + 1).drop_last() =~= edits.take(j));
        assert(ins_total(edits.take(j)) <= ins_total(edits.take(j + 1)));
        lemma_ins_nonneg(edits.take(j), 0);
    }
}

/// Deletions of a sorted batch that lie before `p` delete at most `p`
/// characters.
pub proof fn lemma_del_before_le(edits: Seq<(int, int, Option<Seq<char>>)>, p: int)
    requires
        edits_wf(edits),
        p >= 0,
    ensures
        0 <= del_before(edits, p) <= p,
    decreases edits.len(),
{
    if edits.len() > 0 {
        let e = edits.last();
        let rest = edits.drop_last();
        assert(edits_wf(rest)) by {
            assert(forall|k: int| 0 <= k < rest.len() ==> rest[k] == edits[k]);
        }
        if e.2 is None && e.0 < p {
            assert forall|k: int| 0 <= k < rest.len() implies #[trigger] rest[k].1 <= e.0 by {
                lemma_sorted_chain(edits, k, edits.len() - 1);
            }
            lemma_del_before_clamp(rest, e.0, p);
            lemma_del_before_le(rest, e.0);
        } else {
            lemma_del_before_le(rest, p);
        }
    }
}

/// In a sorted batch, an earlier edit ends at or before a later one starts.
pub proof fn lemma_sorted_chain(edits: Seq<(int, int, Option<Seq<char>>)>, k: int, j: int)
    requires
        edits_wf(edits),
        0 <= k < j < edits.len(),
    ensures
        edits[k].1 <= edits[j].0,
    decreases j - k,
{
    if k + 1 < j {
        lemma_sorted_chain(edits, k + 1, j);
    }
}

/// Once every edit of a batch ends at or before `q`, the deletions before
/// `p >= q` are exactly the deletions before `q`.
pub proof fn lemma_del_before_clamp(edits: Seq<(int, int, Option<Seq<char>>)>, q: int, p: int)
    requires
        q <= p,
        forall|k: int| 0 <= k < edits.len() ==> 0 <= #[trigger] edits[k].0 <= edits[k].1,
        forall|k: int| 0 <= k < edits.len() ==> #[trigger] edits[k].1 <= q,
    ensures
        del_before(edits, p) == del_before(edits, q),
    decreases edits.len(),
{
    if edits.len() > 0 {
        let rest = edits.drop_last();
        assert(forall|k: int| 0 <= k < rest.len() ==> rest[k] == edits[k]);
        lemma_del_before_clamp(rest, q, p);
    }
}

/// Applying an edit never changes the number of lines.
pub proof fn lemma_apply_one_len(lines: Seq<Seq<char>>, start: int, end: int, ins: Seq<char>)
    ensures
        apply_one(lines, start, end, ins).len() == lines.len(),
    decreases lines.len(),
{
    if lines.len() > 0 && !(start < lines[0].len() || (lines.len() == 1 && start
        == lines[0].len())) && start >= lines[0].len() {
        lemma_apply_one_len(lines.drop_first(), start - lines[0].len(), end - lines[0].len(), ins);
    }
}

/// Applying a batch never changes the number of lines.
pub proof fn lemma_apply_edits_len(lines: Seq<Seq<char>>, edits: Seq<(int, int, Option<Seq<char>>)>)
    ensures
        apply_edits(lines, edits).len() == lines.len(),
    decreases edits.len(),
{
    if edits.len() > 0 {
        let e = edits.last();
        lemma_apply_one_len(lines, e.0, e.1, edit_ins(e));
        lemma_apply_edits_len(apply_edit(lines, e), edits.drop_last());
    }
}

/// An atomic ordered batch of edits over one buffer snapshot.
pub struct Transaction {
    pub edits: Vec<Edit>,
}

impl View for Transaction {
    type V = Seq<(int, int, Option<Seq<char>>)>;

    open spec fn view(&self) -> Seq<(int, int, Option<Seq<char>>)> {
        self.edits@.map_values(|e: Edit| edit_view(e))
    }
}

/// Replace `line[a .. b]` by the given text (none meaning empty).
fn splice_exec(line: &Vec<char>, a: usize, b: usize, ins: &Option<Vec<char>>) -> (r: Vec<char>)
    requires
        a <= b,
        b <= line@.len(),
    ensures
        r@ == splice(
            line@,
            a as int,
            b as int,
            match *ins {
                Some(t) => t@,
                None => Seq::<char>::empty(),
            },
        ),
{
    let ghost ins_seq: Seq<char> = match ins {
        Some(t) => t@,
        None => Seq::<char>::empty(),
    };
    let mut r: Vec<char> = Vec::new();
    let mut i: usize = 0;
    while i < a
        invariant
            i <= a <= line@.len(),
            r@ == line@.take(i as int),
        decreases a - i,
    {
        r.push(line[i]);
        i = i + 1;
        proof {
            assert(line@.take(i as int) =~= line@.take(i as int - 1).push(line@[i as int - 1]));
        }
    }
    match ins {
        Some(t) => {
            let m = t.len();
            let mut j: usize = 0;
            while j < m
                invariant
                    j <= m,
                    m == t@.len(),
                    t@ == ins_seq,
                    r@ == line@.take(a as int) + ins_seq.take(j as int),
                decreases m - j,
            {
                r.push(t[j]);
                j = j + 1;
                proof {
                    assert(ins_seq.take(j as int) =~= ins_seq.take(j as int - 1).push(
                        ins_seq[j as int - 1],
                    ));
                    assert(r@ =~= line@.take(a as int) + ins_seq.take(j as int));
                }
            }
            proof {
                assert(ins_seq.take(m as int) =~= ins_seq);
            }
        },
        None => {
            proof {
                assert(line@.take(a as int) + ins_seq =~= line@.take(a as int));
            }
        },
    }
    let n = line.len();
    let mut k: usize = b;
    while k < n
        invariant
            b <= k <= n,
            n == line@.len(),
            r@ == line@.take(a as int) + ins_seq + line@.subrange(b as int, k as int),
        decreases n - k,
    {
        r.push(line[k]);
        k = k + 1;
        proof {
            assert(line@.subrange(b as int, k as int) =~= line@.subrange(
                b as int,
                k as int - 1,
            ).push(line@[k as int - 1]));
            assert(r@ =~= line@.take(a as int) + ins_seq + line@.subrange(b as int, k as int));
        }
    }
    proof {
        assert(line@.subrange(b as int, n as int) =~= line@.skip(b as int));
        assert(r@ =~= splice(line@, a as int, b as int, ins_seq));
    }
    r
}

/// A backwards span changes nothing.
proof fn lemma_apply_one_backwards(lines: Seq<Seq<char>>, start: int, end: int, ins: Seq<char>)
    requires
        start > end,
    ensures
        apply_one(lines, start, end, ins) == lines,
    decreases lines.len(),
{
    if lines.len() > 0 && !(start < lines[0].len() || (lines.len() == 1 && start
        == lines[0].len())) && start >= lines[0].len() {
        lemma_apply_one_backwards(
            lines.drop_first(),
            start - lines[0].len(),
            end - lines[0].len(),
            ins,
        );
        assert(seq![lines[0]] + lines.drop_first() =~~= lines);
    }
}

/// Apply one edit to the buffer, leaving it unchanged when the edit crosses
/// a line boundary or lies outside the document.
fn apply_single(doc: &mut Buffer, e: &Edit)
    ensures
        final(doc)@ == apply_edit(old(doc)@, edit_view(*e)),
{
    if e.start > e.end {
        proof {
            lemma_apply_one_backwards(
                doc@,
                e.start as int,
                e.end as int,
                edit_ins(edit_view(*e)),
            );
        }
        return ;
    }
    let n = doc.lines.len();
    let mut i: usize = 0;
    let mut off: usize = 0;
    proof {
        assert(old(doc)@.skip(0) =~~= old(doc)@);
    }
    while i < n
        invariant_except_break
            i <= n,
            n == doc@.len(),
            doc@ == old(doc)@,
            off == prefix_len(doc@, i as int),
            off <= e.start,
            e.start <= e.end,
            apply_one(doc@, e.start as int, e.end as int, edit_ins(edit_view(*e))) == doc@.take(
                i as int,
            ) + apply_one(
                doc@.skip(i as int),
                e.start - off,
                e.end - off,
                edit_ins(edit_view(*e)),
            ),
        ensures
            final(doc)@ == apply_edit(old(doc)@, edit_view(*e)),
        decreases n - i,
    {
        let llen = doc.lines[i].len();
        proof {
            let tail = doc@.skip(i as int);
            assert(tail[0] == doc@[i as int]);
            assert(tail.len() == n - i);
        }
        if e.start - off < llen || (i + 1 == n && e.start - off == llen) {
            // the edit starts inside line `i` (or at the document's end)
            if e.end - off <= llen {
                let a = e.start - off;
                let b = e.end - off;
                let old_line = doc.lines.remove(i);
                let new_line = splice_exec(&old_line, a, b, &e.insert);
                doc.lines.insert(i, new_line);
                proof {
                    let ins = edit_ins(edit_view(*e));
                    let tail = old(doc)@.skip(i as int);
                    assert(tail.update(0, splice(tail[0], a as int, b as int, ins)) =~~= old(
                        doc,
                    )@.skip(i as int).update(0, splice(old(doc)@[i as int], a as int, b as int, ins)));
                    assert(doc@ =~~= old(doc)@.update(
                        i as int,
                        splice(old(doc)@[i as int], a as int, b as int, ins),
                    ));
                    assert(old(doc)@.take(i as int) + tail.update(
                        0,
                        splice(tail[0], a as int, b as int, ins),
                    ) =~~= old(doc)@.update(
                        i as int,
                        splice(old(doc)@[i as int], a as int, b as int, ins),
                    ));
                }
            } else {
                // the edit starts in an earlier line and ends here: it
                // crosses a line boundary and is ignored
                proof {
                    assert(old(doc)@.take(i as int) + old(doc)@.skip(i as int) =~~= old(doc)@);
                }
            }
            break ;
        } else {
            proof {
                let tail = doc@.skip(i as int);
                assert(tail.drop_first() =~~= doc@.skip(i as int + 1));
                assert(seq![tail[0]] + tail.drop_first() =~~= tail);
                assert(doc@.take(i as int) + seq![doc@[i as int]] =~~= doc@.take(i as int + 1));
                assert(doc@.take(i as int) + (seq![tail[0]] + apply_one(
                    tail.drop_first(),
                    e.start - off - llen,
                    e.end - off - llen,
                    edit_ins(edit_view(*e)),
                )) =~~= doc@.take(i as int + 1) + apply_one(
                    doc@.skip(i as int + 1),
                    e.start - (off + llen),
                    e.end - (off + llen),
                    edit_ins(edit_view(*e)),
                ));
            }
            off = off + llen;
            i = i + 1;
        }
    }
    proof {
        if doc@ == old(doc)@ {
            // loop exhausted all lines: the edit lies past the document end
            assert(old(doc)@.take(n as int) =~~= old(doc)@);
        }
    }
}

impl Transaction {
    /// Apply the whole batch to the buffer and map the selection through it.
    ///
    /// Edits are applied from the last to the first, so that every edit's
    /// pre-edit offsets stay valid; each selection bound is carried to its
    /// post-edit position.
    pub fn apply(&self, state: &mut State)
        requires
            edits_wf(self@),
            flat_len(old(state).doc@) + ins_total(self@) <= usize::MAX,
            forall|k: int|
                0 <= k < old(state).selection@.len() ==> 0 <= #[trigger] old(
                    state,
                ).selection@[k].0 <= flat_len(old(state).doc@) && 0 <= old(
                    state,
                ).selection@[k].1 <= flat_len(old(state).doc@),
        ensures
            final(state).doc@ == apply_edits(old(state).doc@, self@),
            final(state).doc@.len() == old(state).doc@.len(),
            final(state).selection@.len() == old(state).selection@.len(),
            forall|k: int|
                0 <= k < old(state).selection@.len() ==> #[trigger] final(state).selection@[k]
                    == (
                    map_pos(self@, old(state).selection@[k].0),
                    map_pos(self@, old(state).selection@[k].1),
                ),
    {
        // map the selection first: its bounds are pre-edit offsets
        let rn = state.selection.ranges.len();
        let mut mapped: Vec<SelRange> = Vec::new();
        let mut ri: usize = 0;
        while ri < rn
            invariant
                ri <= rn,
                rn == old(state).selection@.len(),
                state == old(state),
                edits_wf(self@),
                flat_len(old(state).doc@) + ins_total(self@) <= usize::MAX,
                forall|k: int|
                    0 <= k < old(state).selection@.len() ==> 0 <= #[trigger] old(
                        state,
                    ).selection@[k].0 <= flat_len(old(state).doc@) && 0 <= old(
                        state,
                    ).selection@[k].1 <= flat_len(old(state).doc@),
                mapped@.len() == ri,
                forall|k: int|
                    0 <= k < ri ==> (#[trigger] mapped@[k].anchor) as int == map_pos(
                        self@,
                        old(state).selection@[k].0,
                    ) && (mapped@[k].head) as int == map_pos(self@, old(state).selection@[k].1),
            decreases rn - ri,
        {
            proof {
                assert(old(state).selection@[ri as int] == (
                    state.selection.ranges@[ri as int].anchor as int,
                    state.selection.ranges@[ri as int].head as int,
                ));
                assert(0 <= old(state).selection@[ri as int].0 <= flat_len(old(state).doc@));
                assert(0 <= old(state).selection@[ri as int].1 <= flat_len(old(state).doc@));
            }
            let a = self.map_pos_exec(state.selection.ranges[ri].anchor);
            let h = self.map_pos_exec(state.selection.ranges[ri].head);
            mapped.push(SelRange { anchor: a, head: h });
            ri = ri + 1;
        }
        // apply the edits, rightmost first
        let mut idx: usize = self.edits.len();
        proof {
            assert(self@.take(idx as int) =~= self@);
        }
        while idx > 0
            invariant
                idx <= self@.len(),
                apply_edits(old(state).doc@, self@) == apply_edits(
                    state.doc@,
                    self@.take(idx as int),
                ),
                state.selection == old(state).selection,
            decreases idx,
        {
            idx = idx - 1;
            apply_single(&mut state.doc, &self.edits[idx]);
            proof {
                assert(self@.take(idx as int + 1).drop_last() =~= self@.take(idx as int));
                assert(self@.take(idx as int + 1).last() == self@[idx as int]);
            }
        }
        proof {
            assert(self@.take(0) =~= Seq::<(int, int, Option<Seq<char>>)>::empty());
            lemma_apply_edits_len(old(state).doc@, self@);
        }
        state.selection = Selection { ranges: mapped };
    }

    /// Carry one pre-edit position to its post-edit position.
    pub fn map_pos_exec(&self, p: usize) -> (r: usize)
        requires
            edits_wf(self@),
            p + ins_total(self@) <= usize::MAX,
        ensures
            r == map_pos(self@, p as int),
    {
        let n = self.edits.len();
        let mut add: usize = 0;
        let mut sub: usize = 0;
        let mut k: usize = 0;
        proof {
            assert(self@.take(0) =~= Seq::<(int, int, Option<Seq<char>>)>::empty());
            lemma_ins_nonneg(self@, p as int);
        }
        while k < n
            invariant
                k <= n,
                n == self@.len(),
                edits_wf(self@),
                p + ins_total(self@) <= usize::MAX,
                add == ins_before(self@.take(k as int), p as int),
                sub == del_before(self@.take(k as int), p as int),
                add <= ins_total(self@),
                sub <= p,
            decreases n - k,
        {
            let e = &self.edits[k];
            proof {
                assert(self@.take(k as int + 1).drop_last() =~= self@.take(k as int));
                assert(self@.take(k as int + 1).last() == self@[k as int]);
                assert(forall|j: int|
                    0 <= j < self@.take(k as int + 1).len() ==> self@.take(k as int + 1)[j]
                        == self@[j]);
                lemma_ins_total_take(self@, k as int + 1);
                lemma_ins_nonneg(self@.take(k as int + 1), p as int);
                lemma_del_before_le(self@.take(k as int + 1), p as int);
            }
            match &e.insert {
                Some(t) => {
                    if e.start < p {
                        add = add + t.len();
                    }
                },
                None => {
                    if e.start < p {
                        let upto = if e.end <= p {
                            e.end
                        } else {
                            p
                        };
                        sub = sub + (upto - e.start);
                    }
                },
            }
            k = k + 1;
        }
        proof {
            assert(self@.take(n as int) =~= self@);
        }
        p + add - sub
    }
}

} // verus!
