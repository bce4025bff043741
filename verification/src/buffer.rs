//! The text buffer model: a document held as a sequence of line fragments,
//! addressable both by line index and by character offset.

use vstd::prelude::*;

verus! {

/// Whitespace characters recognized by the comment engine: space, tab,
/// carriage return and line feed.
pub open spec fn is_ws(c: char) -> bool {
    c == ' ' || c == '\t' || c == '\r' || c == '\n'
}

/// Column of the first non-whitespace character of a line, or the line's
/// length when the line is entirely whitespace.
pub open spec fn first_non_ws(l: Seq<char>) -> int
    decreases l.len(),
{
    if l.len() == 0 {
        0
    } else if !is_ws(l[0]) {
        0
    } else {
        1 + first_non_ws(l.drop_first())
    }
}

/// A line is blank when it consists of whitespace only.
pub open spec fn blank(l: Seq<char>) -> bool {
    first_non_ws(l) == l.len()
}

/// Characterization of `first_non_ws`: everything before it is whitespace,
/// and the character at it (if any) is not.
pub proof fn lemma_first_non_ws(l: Seq<char>)
    ensures
        0 <= first_non_ws(l) <= l.len(),
        forall|j: int| 0 <= j < first_non_ws(l) ==> is_ws(l[j]),
        first_non_ws(l) < l.len() ==> !is_ws(l[first_non_ws(l)]),
    decreases l.len(),
{
    if l.len() == 0 {
    } else if !is_ws(l[0]) {
    } else {
        lemma_first_non_ws(l.drop_first());
        assert forall|j: int| 0 <= j < first_non_ws(l) implies is_ws(l[j]) by {
            if j > 0 {
                assert(l.drop_first()[j - 1] == l[j]);
            }
        }
        if first_non_ws(l) < l.len() {
            assert(l.drop_first()[first_non_ws(l) - 1] == l[first_non_ws(l)]);
        }
    }
}

/// Converse: a column with only whitespace before it and a non-whitespace
/// character at it is the first non-whitespace column.
pub proof fn lemma_first_non_ws_at(l: Seq<char>, i: int)
    requires
        0 <= i < l.len(),
        forall|j: int| 0 <= j < i ==> is_ws(l[j]),
        !is_ws(l[i]),
    ensures
        first_non_ws(l) == i,
    decreases l.len(),
{
    if i == 0 {
    } else {
        assert(is_ws(l[0]));
        let d = l.drop_first();
        assert forall|j: int| 0 <= j < i - 1 implies is_ws(d[j]) by {
            assert(d[j] == l[j + 1]);
        }
        assert(d[i - 1] == l[i]);
        lemma_first_non_ws_at(d, i - 1);
    }
}

/// A line is blank exactly when all of its characters are whitespace.
pub proof fn lemma_blank_chars(l: Seq<char>)
    ensures
        blank(l) <==> (forall|j: int| 0 <= j < l.len() ==> is_ws(l[j])),
{
    lemma_first_non_ws(l);
    if forall|j: int| 0 <= j < l.len() ==> is_ws(l[j]) {
        if first_non_ws(l) < l.len() {
            assert(is_ws(l[first_non_ws(l)]));
        }
    }
}

/// Total character length of the first `i` lines.
pub open spec fn prefix_len(lines: Seq<Seq<char>>, i: int) -> int
    decreases i,
{
    if i <= 0 {
        0
    } else {
        prefix_len(lines, i - 1) + lines[i - 1].len()
    }
}

/// Total character length of the document.
pub open spec fn flat_len(lines: Seq<Seq<char>>) -> int {
    prefix_len(lines, lines.len() as int)
}

pub proof fn lemma_prefix_len_mono(lines: Seq<Seq<char>>, i: int, j: int)
    requires
        i <= j,
    ensures
        prefix_len(lines, i) <= prefix_len(lines, j),
    decreases j - i,
{
    if i < j {
        lemma_prefix_len_mono(lines, i, j - 1);
    }
}

/// The document as one flat character sequence, lines concatenated in order.
pub open spec fn flatten(lines: Seq<Seq<char>>) -> Seq<char>
    decreases lines.len(),
{
    if lines.len() == 0 {
        Seq::empty()
    } else {
        flatten(lines.drop_last()) + lines.last()
    }
}

pub proof fn lemma_flatten_len(lines: Seq<Seq<char>>)
    ensures
        flatten(lines).len() == flat_len(lines),
    decreases lines.len(),
{
    if lines.len() > 0 {
        lemma_flatten_len(lines.drop_last());
        assert(prefix_len(lines.drop_last(), lines.len() - 1) == prefix_len(
            lines,
            lines.len() - 1,
        )) by {
            lemma_prefix_len_frame(lines.drop_last(), lines, lines.len() - 1);
        }
    }
}

/// `prefix_len` only reads the lines before `i`.
pub proof fn lemma_prefix_len_frame(a: Seq<Seq<char>>, b: Seq<Seq<char>>, i: int)
    requires
        forall|k: int| 0 <= k < i ==> a[k] == b[k],
    ensures
        prefix_len(a, i) == prefix_len(b, i),
    decreases i,
{
    if i > 0 {
        lemma_prefix_len_frame(a, b, i - 1);
    }
}

/// Dropping the first line shifts prefix lengths by that line's length.
pub proof fn lemma_prefix_len_drop_first(lines: Seq<Seq<char>>, t: int)
    requires
        lines.len() >= 1,
        0 <= t <= lines.len() - 1,
    ensures
        prefix_len(lines.drop_first(), t) == prefix_len(lines, t + 1) - lines[0].len(),
    decreases t,
{
    if t > 0 {
        lemma_prefix_len_drop_first(lines, t - 1);
        assert(lines.drop_first()[t - 1] == lines[t]);
        assert(prefix_len(lines.drop_first(), t) == prefix_len(lines.drop_first(), t - 1)
            + lines.drop_first()[t - 1].len());
        assert(prefix_len(lines, t + 1) == prefix_len(lines, t) + lines[t].len());
    } else {
        assert(prefix_len(lines.drop_first(), 0) == 0);
        assert(prefix_len(lines, 1) == prefix_len(lines, 0) + lines[0].len());
    }
}

/// Line index holding character offset `o`; offsets at or past the end of the
/// document fall to the last line.
pub open spec fn line_of(lines: Seq<Seq<char>>, o: int) -> int
    decreases lines.len(),
{
    if lines.len() <= 1 {
        0
    } else if o < lines[0].len() {
        0
    } else {
        1 + line_of(lines.drop_first(), o - lines[0].len())
    }
}

pub proof fn lemma_line_of_bounds(lines: Seq<Seq<char>>, o: int)
    requires
        lines.len() >= 1,
    ensures
        0 <= line_of(lines, o) < lines.len(),
    decreases lines.len(),
{
    if lines.len() > 1 && o >= lines[0].len() {
        lemma_line_of_bounds(lines.drop_first(), o - lines[0].len());
    }
}

/// A later offset never lies in an earlier line.
pub proof fn lemma_line_of_mono(lines: Seq<Seq<char>>, o1: int, o2: int)
    requires
        o1 <= o2,
    ensures
        line_of(lines, o1) <= line_of(lines, o2),
    decreases lines.len(),
{
    if lines.len() > 1 && o1 >= lines[0].len() {
        lemma_line_of_mono(lines.drop_first(), o1 - lines[0].len(), o2 - lines[0].len());
    } else if lines.len() >= 1 {
        lemma_line_of_bounds(lines, o2);
    }
}

/// A text buffer: the document split into line fragments. The canonical form
/// produced by [`Buffer::from_str`] keeps each newline at the end of its line
/// and ends with a (possibly empty) final line, so the concatenation of the
/// fragments is exactly the document text.
pub struct Buffer {
    pub lines: Vec<Vec<char>>,
}

impl View for Buffer {
    type V = Seq<Seq<char>>;

    open spec fn view(&self) -> Seq<Seq<char>> {
        self.lines@.map_values(|l: Vec<char>| l@)
    }
}

impl Buffer {
    /// A buffer always holds at least one line, as an empty document is one
    /// empty line.
    pub open spec fn wf(&self) -> bool {
        self@.len() >= 1
    }

    /// Split a document into its lines: one line fragment per newline, the
    /// newline kept at the end of its fragment, plus a final fragment after
    /// the last newline (empty when the text ends with a newline or is empty).
    pub fn from_str(s: &str) -> (r: Buffer)
        ensures
            r.wf(),
            flatten(r@) == s@,
            flat_len(r@) == s@.len(),
            flat_len(r@) <= usize::MAX,
    {
        let n = s.unicode_len();
        let mut lines: Vec<Vec<char>> = Vec::new();
        let mut cur: Vec<char> = Vec::new();
        let mut i: usize = 0;
        while i < n
            invariant
                i <= n,
                n == s@.len(),
                flatten(lines@.map_values(|l: Vec<char>| l@)) + cur@ == s@.take(i as int),
            decreases n - i,
        {
            let c = s.get_char(i);
            cur.push(c);
            if c == '\n' {
                let ghost old_lines = lines@.map_values(|l: Vec<char>| l@);
                let ghost full_cur = cur@;
                lines.push(cur);
                cur = Vec::new();
                proof {
                    let new_lines = lines@.map_values(|l: Vec<char>| l@);
                    assert(new_lines.drop_last() =~~= old_lines);
                    assert(new_lines.last() =~= full_cur);
                    assert(flatten(new_lines) == flatten(old_lines) + full_cur);
                }
            }
            i = i + 1;
            proof {
                assert(s@.take(i as int) =~= s@.take(i as int - 1).push(c));
                assert(flatten(lines@.map_values(|l: Vec<char>| l@)) + cur@ =~= s@.take(i as int));
            }
        }
        let ghost old_lines = lines@.map_values(|l: Vec<char>| l@);
        let ghost full_cur = cur@;
        lines.push(cur);
        let r = Buffer { lines };
        proof {
            assert(r@.drop_last() =~~= old_lines);
            assert(r@.last() =~= full_cur);
            assert(flatten(r@) == flatten(old_lines) + full_cur);
            assert(s@.take(n as int) =~= s@);
            assert(flatten(r@) =~= s@);
            lemma_flatten_len(r@);
        }
        r
    }

    /// The content of line `line`.
    pub fn line(&self, line: usize) -> (r: &Vec<char>)
        requires
            line < self@.len(),
        ensures
            r@ == self@[line as int],
    {
        &self.lines[line]
    }

    /// Total character length of the document.
    pub fn len_chars(&self) -> (r: usize)
        requires
            flat_len(self@) <= usize::MAX,
        ensures
            r == flat_len(self@),
    {
        let n = self.lines.len();
        let mut i: usize = 0;
        let mut off: usize = 0;
        while i < n
            invariant
                i <= n,
                n == self@.len(),
                off == prefix_len(self@, i as int),
                flat_len(self@) <= usize::MAX,
            decreases n - i,
        {
            proof {
                lemma_prefix_len_mono(self@, i as int + 1, n as int);
            }
            off = off + self.lines[i].len();
            i = i + 1;
        }
        off
    }

    /// Character offset of the start of line `line`.
    pub fn line_to_char(&self, line: usize) -> (r: usize)
        requires
            line <= self@.len(),
            flat_len(self@) <= usize::MAX,
        ensures
            r == prefix_len(self@, line as int),
    {
        let mut i: usize = 0;
        let mut off: usize = 0;
        while i < line
            invariant
                i <= line <= self@.len(),
                off == prefix_len(self@, i as int),
                flat_len(self@) <= usize::MAX,
            decreases line - i,
        {
            proof {
                lemma_prefix_len_mono(self@, i as int + 1, self@.len() as int);
            }
            off = off + self.lines[i].len();
            i = i + 1;
        }
        off
    }

    /// Line index containing character offset `offset`; the document's end
    /// offset belongs to the last line.
    pub fn char_to_line(&self, offset: usize) -> (r: usize)
        requires
            self.wf(),
            offset <= flat_len(self@),
            flat_len(self@) <= usize::MAX,
        ensures
            r == line_of(self@, offset as int),
            r < self@.len(),
    {
        let n = self.lines.len();
        let mut i: usize = 0;
        let mut off: usize = 0;
        proof {
            assert(self@.skip(0) =~~= self@);
        }
        while i + 1 < n && offset - off >= self.lines[i].len()
            invariant
                i < n,
                n == self@.len(),
                off == prefix_len(self@, i as int),
                off <= offset <= flat_len(self@),
                flat_len(self@) <= usize::MAX,
                line_of(self@, offset as int) == i + line_of(
                    self@.skip(i as int),
                    offset - off,
                ),
            decreases n - i,
        {
            proof {
                lemma_prefix_len_mono(self@, i as int + 2, n as int);
                let tail = self@.skip(i as int);
                assert(tail.len() == n - i);
                assert(tail[0] == self@[i as int]);
                assert(tail.drop_first() =~~= self@.skip(i as int + 1));
            }
            off = off + self.lines[i].len();
            i = i + 1;
        }
        proof {
            lemma_prefix_len_mono(self@, i as int + 1, n as int);
            let tail = self@.skip(i as int);
            assert(tail[0] == self@[i as int]);
            assert(tail.len() == n - i);
        }
        i
    }

    /// The document as one flat character vector.
    pub fn to_chars(&self) -> (r: Vec<char>)
        requires
            flat_len(self@) <= usize::MAX,
        ensures
            r@ == flatten(self@),
    {
        let n = self.lines.len();
        let mut r: Vec<char> = Vec::new();
        let mut i: usize = 0;
        while i < n
            invariant
                i <= n,
                n == self@.len(),
                r@ == flatten(self@.take(i as int)),
            decreases n - i,
        {
            let line = &self.lines[i];
            let m = line.len();
            let mut j: usize = 0;
            while j < m
                invariant
                    j <= m,
                    i < n,
                    n == self@.len(),
                    m == line@.len(),
                    line@ == self@[i as int],
                    r@ == flatten(self@.take(i as int)) + self@[i as int].take(j as int),
                decreases m - j,
            {
                r.push(line[j]);
                j = j + 1;
                proof {
                    assert(self@[i as int].take(j as int) =~= self@[i as int].take(
                        j as int - 1,
                    ).push(self@[i as int][j as int - 1]));
                }
            }
            i = i + 1;
            proof {
                let t = self@.take(i as int);
                assert(t.drop_last() =~~= self@.take(i as int - 1));
                assert(t.last() == self@[i as int - 1]);
                assert(self@[i as int - 1].take(m as int) =~= self@[i as int - 1]);
                assert(r@ =~= flatten(self@.take(i as int)));
            }
        }
        proof {
            assert(self@.take(n as int) =~~= self@);
        }
        r
    }
}

} // verus!
